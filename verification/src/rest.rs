//! How the REST device-info request is retried.
use vstd::prelude::*;
use crate::text::{opt_view, padded, push_padded};

verus! {

/// How many times the device info is requested before giving up.
pub const RETRIES: u32 = 3;

/// What to do after a failed attempt.
#[derive(Debug, Clone, Copy, PartialEq, Eq, Structural)]
pub enum Retry {
    /// Wait `delay_ms` milliseconds, then make attempt `next_attempt`.
    After { next_attempt: u32, delay_ms: u64 },
    /// Report the failure of this attempt.
    GiveUp,
}

/// The policy after attempt `attempt` (counted from 1) failed: attempts
/// before the last wait 500 ms times their number and go on.
pub open spec fn retry_policy(attempt: u32) -> Retry {
    if attempt < RETRIES {
        Retry::After { next_attempt: (attempt + 1) as u32, delay_ms: (500 * attempt) as u64 }
    } else {
        Retry::GiveUp
    }
}

/// Decide what follows a failed attempt.
pub fn after_failure(attempt: u32) -> (r: Retry)
    ensures
        r == retry_policy(attempt),
{
    if attempt < RETRIES {
        Retry::After { next_attempt: attempt + 1, delay_ms: 500 * (attempt as u64) }
    } else {
        Retry::GiveUp
    }
}

/// How many attempts are made from attempt `a` on when every one fails.
pub open spec fn attempts_from(a: u32) -> nat
    decreases RETRIES - a,
{
    match retry_policy(a) {
        Retry::After { next_attempt, .. } => if next_attempt > a {
            1 + attempts_from(next_attempt)
        } else {
            1
        },
        Retry::GiveUp => 1,
    }
}

/// How long the retries wait in all from attempt `a` on when every one fails.
pub open spec fn total_delay_from(a: u32) -> nat
    decreases RETRIES - a,
{
    match retry_policy(a) {
        Retry::After { next_attempt, delay_ms } => if next_attempt > a {
            delay_ms as nat + total_delay_from(next_attempt)
        } else {
            delay_ms as nat
        },
        Retry::GiveUp => 0,
    }
}

/// When the TV never answers, the request is made three times and the
/// waits between attempts add up to one and a half seconds.
pub proof fn lemma_retries_bounded()
    ensures
        attempts_from(1) == RETRIES,
        total_delay_from(1) == 1500,
        retry_policy(1) == (Retry::After { next_attempt: 2, delay_ms: 500 }),
        retry_policy(2) == (Retry::After { next_attempt: 3, delay_ms: 1000 }),
        forall|a: u32| a >= 3 ==> #[trigger] retry_policy(a) == Retry::GiveUp,
{
    assert(attempts_from(3) == 1);
    assert(attempts_from(2) == 2);
    assert(total_delay_from(3) == 0);
    assert(total_delay_from(2) == 1000);
}

} // verus!

verus! {

/// What `serde_json::from_str::<serde_json::Value>` followed by
/// `serde_json::to_string_pretty` makes of a text: `None` when it is not
/// JSON, else the document re-printed with two-space indentation.
pub uninterp spec fn json_pretty(text: Seq<char>) -> Option<Seq<char>>;

/// Parses `text` with `serde_json::from_str` into a `serde_json::Value` and
/// prints it with `serde_json::to_string_pretty`. The contract names the
/// result (`json_pretty`); the JSON grammar and the printer's layout are
/// serde_json's and are not spelled out.
#[verifier::external_body]
fn pretty_json(text: &str) -> (r: Option<String>)
    ensures
        opt_view(r) == json_pretty(text@),
{
    match serde_json::from_str::<serde_json::Value>(text) {
        Ok(value) => match serde_json::to_string_pretty(&value) {
            Ok(pretty) => Some(pretty),
            Err(_) => None,
        },
        Err(_) => None,
    }
}

/// Why the device info could not be had from one response.
#[derive(Debug, PartialEq, Eq)]
pub enum InfoError {
    /// The response status was not 2xx; the status and the body.
    Http { status: u16, body: String },
    /// A 2xx response whose body is not JSON; the body.
    NotJson(String),
}

/// The device info from one REST response: a 2xx status with a JSON body
/// gives the body pretty-printed, anything else the matching error.
pub fn device_info_text(status: u16, body: &str) -> (r: Result<String, InfoError>)
    ensures
        !(200 <= status < 300) ==> (r matches Err(InfoError::Http { status: s, body: b }) && s
            == status && b@ == body@),
        200 <= status < 300 ==> match json_pretty(body@) {
            None => r matches Err(InfoError::NotJson(b)) && b@ == body@,
            Some(p) => r matches Ok(t) && t@ == p,
        },
{
    if !(200 <= status && status < 300) {
        return Err(InfoError::Http { status, body: body.to_owned() });
    }
    match pretty_json(body) {
        Some(p) => Ok(p),
        None => Err(InfoError::NotJson(body.to_owned())),
    }
}

/// The fields of the device info that `status` shows, each present when it
/// is a JSON string.
pub struct DeviceSummary {
    pub name: Option<String>,
    pub model: Option<String>,
    pub ip: Option<String>,
    pub mac: Option<String>,
}

/// What `serde_json::from_str::<serde_json::Value>` makes of the device info
/// text, read as `status` reads it: `None` when it is not JSON, else the
/// strings at `device.name`, `device.modelName`, `device.ip` and
/// `device.wifiMac` (each `None` when missing or not a string).
pub uninterp spec fn json_device(text: Seq<char>) -> Option<
    (Option<Seq<char>>, Option<Seq<char>>, Option<Seq<char>>, Option<Seq<char>>),
>;

/// Parses `text` with `serde_json::from_str` into a `serde_json::Value` and
/// reads the four `device` members with `as_str`. The contract names the
/// result (`json_device`).
#[verifier::external_body]
fn device_fields_json(text: &str) -> (r: Option<DeviceSummary>)
    ensures
        match json_device(text@) {
            None => r is None,
            Some((n, m, i, w)) => r matches Some(d) && opt_view(d.name) == n && opt_view(d.model)
                == m && opt_view(d.ip) == i && opt_view(d.mac) == w,
        },
{
    match serde_json::from_str::<serde_json::Value>(text) {
        Ok(value) => {
            let device = &value["device"];
            Some(
                DeviceSummary {
                    name: device["name"].as_str().map(|s| s.to_string()),
                    model: device["modelName"].as_str().map(|s| s.to_string()),
                    ip: device["ip"].as_str().map(|s| s.to_string()),
                    mac: device["wifiMac"].as_str().map(|s| s.to_string()),
                },
            )
        },
        Err(_) => None,
    }
}

/// The fields that `status` shows, read from the device info text.
pub fn device_summary(info: &str) -> (r: Option<DeviceSummary>)
    ensures
        match json_device(info@) {
            None => r is None,
            Some((n, m, i, w)) => r matches Some(d) && opt_view(d.name) == n && opt_view(d.model)
                == m && opt_view(d.ip) == i && opt_view(d.mac) == w,
        },
{
    device_fields_json(info)
}

/// One line of the `status` view: the label padded to eight columns, a
/// space, the text.
pub open spec fn status_line(label: Seq<char>, text: Seq<char>) -> Seq<char> {
    padded(label, 8) + " "@ + text
}

/// The present fields among `fields`, as labelled lines, in order.
pub open spec fn field_lines(fields: Seq<(Seq<char>, Option<Seq<char>>)>) -> Seq<Seq<char>>
    decreases fields.len(),
{
    if fields.len() == 0 {
        Seq::empty()
    } else {
        let rest = field_lines(fields.drop_last());
        match fields.last().1 {
            Some(t) => rest.push(status_line(fields.last().0, t)),
            None => rest,
        }
    }
}

/// The `status` view: the power line, then name, model, ip and mac where
/// the device info has them.
pub open spec fn status_view(power: Seq<char>, device: Option<DeviceSummary>) -> Seq<Seq<char>> {
    let head = seq![status_line("power"@, power)];
    match device {
        None => head,
        Some(d) => head + field_lines(
            seq![
                ("name"@, opt_view(d.name)),
                ("model"@, opt_view(d.model)),
                ("ip"@, opt_view(d.ip)),
                ("mac"@, opt_view(d.mac)),
            ],
        ),
    }
}

fn push_field(lines: &mut Vec<String>, label: &str, text: &Option<String>)
    ensures
        match text {
            Some(t) => final(lines)@.len() == old(lines)@.len() + 1 && final(lines)@.last()@
                == status_line(label@, t@) && forall|i: int|
                0 <= i < old(lines)@.len() ==> #[trigger] final(lines)@[i] == old(lines)@[i],
            None => final(lines)@ == old(lines)@,
        },
{
    if let Some(t) = text {
        let mut line = String::new();
        push_padded(&mut line, label, 8);
        line.append(" ");
        line.append(t.as_str());
        lines.push(line);
    }
}

/// The lines that `status` prints.
pub fn status_lines(power: &str, device: &Option<DeviceSummary>) -> (lines: Vec<String>)
    ensures
        lines@.len() == status_view(power@, *device).len(),
        forall|i: int|
            0 <= i < lines@.len() ==> (#[trigger] lines@[i])@ == status_view(power@, *device)[i],
        lines@[0]@ == "power    "@ + power@,
        device matches Some(d) ==> (d.mac matches Some(m) ==> lines@.last()@ == "mac      "@
            + m@),
{
    proof {
        lemma_status_view(power@, *device);
    }
    let mut lines: Vec<String> = Vec::new();
    let mut head = String::new();
    push_padded(&mut head, "power", 8);
    head.append(" ");
    head.append(power);
    lines.push(head);
    if let Some(d) = device {
        let ghost fields = seq![
            ("name"@, opt_view(d.name)),
            ("model"@, opt_view(d.model)),
            ("ip"@, opt_view(d.ip)),
            ("mac"@, opt_view(d.mac)),
        ];
        let ghost l0 = lines@;
        push_field(&mut lines, "name", &d.name);
        let ghost l1 = lines@;
        push_field(&mut lines, "model", &d.model);
        let ghost l2 = lines@;
        push_field(&mut lines, "ip", &d.ip);
        let ghost l3 = lines@;
        push_field(&mut lines, "mac", &d.mac);
        proof {
            assert(fields.take(1).drop_last() =~= fields.take(0));
            assert(fields.take(2).drop_last() =~= fields.take(1));
            assert(fields.take(3).drop_last() =~= fields.take(2));
            assert(fields.take(4).drop_last() =~= fields.take(3));
            assert(fields.take(4) =~= fields);
            let v = status_view(power@, *device);
            let h = seq![status_line("power"@, power@)];
            assert(field_lines(fields.take(0)) =~= Seq::<Seq<char>>::empty());
            assert(l0.map_values(|s: String| s@) =~= h + field_lines(fields.take(0)));
            assert(fields.take(1).last() == fields[0]);
            assert(fields.take(2).last() == fields[1]);
            assert(fields.take(3).last() == fields[2]);
            assert(fields.take(4).last() == fields[3]);
            assert(l1.map_values(|s: String| s@) =~= h + field_lines(fields.take(1)));
            assert(l2.map_values(|s: String| s@) =~= h + field_lines(fields.take(2)));
            assert(l3.map_values(|s: String| s@) =~= h + field_lines(fields.take(3)));
            assert(lines@.map_values(|s: String| s@) =~= h + field_lines(fields.take(4)));
            assert forall|i: int| 0 <= i < lines@.len() implies (#[trigger] lines@[i])@ == v[i] by {
                assert(lines@.map_values(|s: String| s@)[i] == lines@[i]@);
            }
        }
    }
    lines
}

} // verus!

verus! {

/// A line `prefix + text` when the field is present, nothing otherwise.
pub open spec fn shown(prefix: Seq<char>, field: Option<Seq<char>>) -> Seq<Seq<char>> {
    match field {
        Some(t) => seq![prefix + t],
        None => Seq::empty(),
    }
}

proof fn lemma_padded_labels()
    ensures
        padded("power"@, 8) == "power   "@,
        padded("name"@, 8) == "name    "@,
        padded("model"@, 8) == "model   "@,
        padded("ip"@, 8) == "ip      "@,
        padded("mac"@, 8) == "mac     "@,
{
    reveal_strlit("power");
    reveal_strlit("power   ");
    reveal_strlit("name");
    reveal_strlit("name    ");
    reveal_strlit("model");
    reveal_strlit("model   ");
    reveal_strlit("ip");
    reveal_strlit("ip      ");
    reveal_strlit("mac");
    reveal_strlit("mac     ");
    assert(padded("power"@, 8) =~= "power   "@);
    assert(padded("name"@, 8) =~= "name    "@);
    assert(padded("model"@, 8) =~= "model   "@);
    assert(padded("ip"@, 8) =~= "ip      "@);
    assert(padded("mac"@, 8) =~= "mac     "@);
}

/// The `status` view is the power line, then one line for each of name,
/// model, ip and mac that the device info has, in that order, each field
/// shown or not on its own; a present mac is always the last line.
pub proof fn lemma_status_view(power: Seq<char>, device: Option<DeviceSummary>)
    ensures
        status_view(power, device)[0] == "power    "@ + power,
        device is None ==> status_view(power, device) == seq!["power    "@ + power],
        device matches Some(d) ==> status_view(power, device) == seq!["power    "@ + power]
            + shown("name     "@, opt_view(d.name)) + shown("model    "@, opt_view(d.model))
            + shown("ip       "@, opt_view(d.ip)) + shown("mac      "@, opt_view(d.mac)),
        device matches Some(d) ==> (d.mac matches Some(m) ==> status_view(power, device).last()
            == "mac      "@ + m@),
{
    lemma_padded_labels();
    reveal_strlit(" ");
    reveal_strlit("power   ");
    reveal_strlit("name    ");
    reveal_strlit("model   ");
    reveal_strlit("ip      ");
    reveal_strlit("mac     ");
    reveal_strlit("power    ");
    reveal_strlit("name     ");
    reveal_strlit("model    ");
    reveal_strlit("ip       ");
    reveal_strlit("mac      ");
    assert("power   "@ + " "@ =~= "power    "@);
    assert("name    "@ + " "@ =~= "name     "@);
    assert("model   "@ + " "@ =~= "model    "@);
    assert("ip      "@ + " "@ =~= "ip       "@);
    assert("mac     "@ + " "@ =~= "mac      "@);
    assert(status_line("power"@, power) =~= "power    "@ + power);
    if let Some(d) = device {
        let fields = seq![
            ("name"@, opt_view(d.name)),
            ("model"@, opt_view(d.model)),
            ("ip"@, opt_view(d.ip)),
            ("mac"@, opt_view(d.mac)),
        ];
        assert(fields.take(1).drop_last() =~= fields.take(0));
        assert(fields.take(2).drop_last() =~= fields.take(1));
        assert(fields.take(3).drop_last() =~= fields.take(2));
        assert(fields.take(4).drop_last() =~= fields.take(3));
        assert(fields.take(4) =~= fields);
        assert(fields.take(1).last() == fields[0]);
        assert(fields.take(2).last() == fields[1]);
        assert(fields.take(3).last() == fields[2]);
        assert(fields.take(4).last() == fields[3]);
        assert(field_lines(fields.take(0)) =~= Seq::<Seq<char>>::empty());
        let a = shown("name     "@, opt_view(d.name));
        let b = shown("model    "@, opt_view(d.model));
        let c = shown("ip       "@, opt_view(d.ip));
        let e = shown("mac      "@, opt_view(d.mac));
        assert(status_line("name"@, opt_view(d.name)->0) =~= "name     "@ + opt_view(d.name)->0);
        assert(status_line("model"@, opt_view(d.model)->0) =~= "model    "@ + opt_view(
            d.model,
        )->0);
        assert(status_line("ip"@, opt_view(d.ip)->0) =~= "ip       "@ + opt_view(d.ip)->0);
        assert(status_line("mac"@, opt_view(d.mac)->0) =~= "mac      "@ + opt_view(d.mac)->0);
        assert(field_lines(fields.take(1)) =~= a);
        assert(field_lines(fields.take(2)) =~= a + b);
        assert(field_lines(fields.take(3)) =~= a + b + c);
        assert(field_lines(fields.take(4)) =~= a + b + c + e);
        assert(status_view(power, device) =~= seq!["power    "@ + power] + a + b + c + e);
    }
}

} // verus!
