//! The remote-control channel: what the TV's events mean, and the power
//! state that the channel reveals.
use vstd::prelude::*;
use crate::text::{chars_of, opt_view, range_is};

verus! {

/// Screen power state as far as the remote channel can tell.
#[derive(Debug, Clone, Copy, PartialEq, Eq, Structural)]
pub enum Power {
    /// Websocket authorized (ms.channel.connect) — screen is on.
    On,
    /// TCP/ws unreachable or channel refused — off or network standby.
    Standby,
}

/// The power word that `status` prints: `unreachable` when the REST API did
/// not answer (the channel is then not probed), else what the probe found.
pub fn power_label(probe: Option<Power>) -> (r: &'static str)
    ensures
        r@ == match probe {
            None => "unreachable"@,
            Some(Power::On) => "on"@,
            Some(Power::Standby) => "standby"@,
        },
{
    match probe {
        None => "unreachable",
        Some(Power::On) => "on",
        Some(Power::Standby) => "standby",
    }
}

/// The screen is on exactly when the remote channel authorizes the client.
pub fn power_from_probe(authorized: bool) -> (r: Power)
    ensures
        r == (if authorized {
            Power::On
        } else {
            Power::Standby
        }),
{
    if authorized {
        Power::On
    } else {
        Power::Standby
    }
}

/// What the logic reads of an event the TV pushes: its `event` string and
/// its `data.message` string, each absent when not a JSON string.
pub struct Event {
    pub event: Option<String>,
    pub message: Option<String>,
}

/// Why the remote channel failed.
#[derive(Debug, PartialEq, Eq)]
pub enum WsError {
    /// `ms.channel.timeOut`: the TV refuses clients from another subnet.
    ChannelTimeout,
    /// `ms.error` with "No Authorized": the popup on the TV was not accepted.
    NotAuthorized,
    /// Any other `ms.error`, with its message.
    Tv(String),
    /// A text message that is not JSON.
    BadEvent,
}

/// Whether `pat` occurs in `s`.
pub open spec fn contains(s: Seq<char>, pat: Seq<char>) -> bool {
    exists|i: int| 0 <= i && i + pat.len() <= s.len() && #[trigger] s.subrange(i, i + pat.len()) == pat
}

/// The message of an `ms.error`, or "unknown error" when it has none.
pub open spec fn tv_message(m: Option<Seq<char>>) -> Seq<char> {
    match m {
        Some(s) => s,
        None => "unknown error"@,
    }
}

/// The exact texts of the errors.
pub open spec fn error_text(e: WsError) -> Seq<char> {
    match e {
        WsError::ChannelTimeout =>
            "TV rejected the connection (ms.channel.timeOut) — Samsung TVs refuse remote clients from another subnet; see the router masquerade rule"@,
        WsError::NotAuthorized => "not authorized — accept the connection popup on the TV screen"@,
        WsError::Tv(m) => "TV error: "@ + m@,
        WsError::BadEvent => "parsing event"@,
    }
}

impl WsError {
    /// The text shown to the user.
    pub fn message(&self) -> (r: String)
        ensures
            r@ == error_text(*self),
    {
        match self {
            WsError::ChannelTimeout => String::from_str(
                "TV rejected the connection (ms.channel.timeOut) — Samsung TVs refuse remote clients from another subnet; see the router masquerade rule",
            ),
            WsError::NotAuthorized => String::from_str(
                "not authorized — accept the connection popup on the TV screen",
            ),
            WsError::Tv(m) => {
                let mut r = String::from_str("TV error: ");
                r.append(m.as_str());
                r
            },
            WsError::BadEvent => String::from_str("parsing event"),
        }
    }
}

fn contains_str(s: &str, pat: &str) -> (r: bool)
    ensures
        r == contains(s@, pat@),
{
    let v = chars_of(s);
    let p = chars_of(pat);
    if p.len() > v.len() {
        return false;
    }
    let last = v.len() - p.len();
    let mut i: usize = 0;
    loop
        invariant
            v@ == s@,
            p@ == pat@,
            i <= last,
            last + p@.len() == v@.len(),
            last + p.len() == v.len(),
            forall|j: int| 0 <= j < i ==> #[trigger] v@.subrange(j, j + p@.len()) != p@,
        decreases last - i,
    {
        if range_is(&v, i, i + p.len(), pat) {
            return true;
        }
        if i == last {
            return false;
        }
        i = i + 1;
    }
}

/// How the TV turns a client away, as the logic sees it.
pub enum Rejection {
    ChannelTimeout,
    NotAuthorized,
    Tv(Seq<char>),
}

/// The rejection that an event carries: `ms.channel.timeOut`, or `ms.error`
/// split by whether its message mentions "No Authorized"; nothing for any
/// other event.
pub open spec fn rejection(event: Option<Seq<char>>, message: Option<Seq<char>>) -> Option<
    Rejection,
> {
    if event == Some("ms.channel.timeOut"@) {
        Some(Rejection::ChannelTimeout)
    } else if event == Some("ms.error"@) {
        let m = tv_message(message);
        if contains(m, "No Authorized"@) {
            Some(Rejection::NotAuthorized)
        } else {
            Some(Rejection::Tv(m))
        }
    } else {
        None
    }
}

/// The rejection that an error reports, if it reports one.
pub open spec fn rejection_of(e: WsError) -> Option<Rejection> {
    match e {
        WsError::ChannelTimeout => Some(Rejection::ChannelTimeout),
        WsError::NotAuthorized => Some(Rejection::NotAuthorized),
        WsError::Tv(m) => Some(Rejection::Tv(m@)),
        WsError::BadEvent => None,
    }
}

/// The rejection an event carries.
pub open spec fn event_rejection(event: Event) -> Option<Rejection> {
    rejection(opt_view(event.event), opt_view(event.message))
}

/// Map known TV rejection events to actionable errors.
pub fn check_event(event: &Event) -> (r: Result<(), WsError>)
    ensures
        match event_rejection(*event) {
            None => r is Ok,
            Some(x) => r matches Err(e) && rejection_of(e) == Some(x),
        },
        opt_view(event.event) != Some("ms.channel.timeOut"@) && opt_view(event.event) != Some(
            "ms.error"@,
        ) ==> r is Ok,
        r is Err ==> opt_view(event.event) == Some("ms.channel.timeOut"@) || opt_view(event.event)
            == Some("ms.error"@),
{
    match &event.event {
        Some(e) => {
            let ev = chars_of(e.as_str());
            if range_is(&ev, 0, ev.len(), "ms.channel.timeOut") {
                assert(ev@.subrange(0, ev@.len() as int) =~= ev@);
                Err(WsError::ChannelTimeout)
            } else if range_is(&ev, 0, ev.len(), "ms.error") {
                assert(ev@.subrange(0, ev@.len() as int) =~= ev@);
                let message = match &event.message {
                    Some(m) => m.clone(),
                    None => String::from_str("unknown error"),
                };
                if contains_str(message.as_str(), "No Authorized") {
                    Err(WsError::NotAuthorized)
                } else {
                    Err(WsError::Tv(message))
                }
            } else {
                assert(ev@.subrange(0, ev@.len() as int) =~= ev@);
                Ok(())
            }
        },
        None => Ok(()),
    }
}

} // verus!

verus! {

/// What `serde_json::from_str::<serde_json::Value>` makes of a text message,
/// read as the logic reads it: `None` when the text is not JSON, else the
/// string at `event` and the string at `data.message` (each `None` when that
/// member is missing or not a string).
pub uninterp spec fn json_event(text: Seq<char>) -> Option<(Option<Seq<char>>, Option<Seq<char>>)>;

/// Parses a text message with `serde_json::from_str` into a
/// `serde_json::Value` and reads `value["event"].as_str()` and
/// `value["data"]["message"].as_str()`. The contract names the result
/// (`json_event`); what JSON is, is serde_json's and is not spelled out.
#[verifier::external_body]
fn parse_event_json(text: &str) -> (r: Option<Event>)
    ensures
        match json_event(text@) {
            None => r is None,
            Some((e, m)) => r matches Some(ev) && opt_view(ev.event) == e && opt_view(ev.message)
                == m,
        },
{
    match serde_json::from_str::<serde_json::Value>(text) {
        Ok(value) => Some(
            Event {
                event: match value["event"].as_str() {
                    Some(s) => Some(s.to_string()),
                    None => None,
                },
                message: match value["data"]["message"].as_str() {
                    Some(s) => Some(s.to_string()),
                    None => None,
                },
            },
        ),
        Err(_) => None,
    }
}

/// The handshake's verdict on one event: an error from `check_event`, else
/// whether the TV has authorized the client (`ms.channel.connect`).
pub fn authorizes(event: &Event) -> (r: Result<bool, WsError>)
    ensures
        match event_rejection(*event) {
            None => r == Ok::<bool, WsError>(opt_view(event.event) == Some("ms.channel.connect"@)),
            Some(x) => r matches Err(e) && rejection_of(e) == Some(x),
        },
{
    check_event(event)?;
    match &event.event {
        Some(e) => {
            let ev = chars_of(e.as_str());
            let done = range_is(&ev, 0, ev.len(), "ms.channel.connect");
            assert(ev@.subrange(0, ev@.len() as int) =~= ev@);
            Ok(done)
        },
        None => Ok(false),
    }
}

} // verus!

verus! {

/// One text message during the handshake: not JSON is an error, a
/// rejection is its error, else whether it authorizes the client.
pub fn handshake_step(text: &str) -> (r: Result<bool, WsError>)
    ensures
        match json_event(text@) {
            None => r == Err::<bool, WsError>(WsError::BadEvent),
            Some((e, m)) => match rejection(e, m) {
                None => r == Ok::<bool, WsError>(e == Some("ms.channel.connect"@)),
                Some(x) => r matches Err(err) && rejection_of(err) == Some(x),
            },
        },
{
    match parse_event_json(text) {
        Some(event) => authorizes(&event),
        None => Err(WsError::BadEvent),
    }
}

/// One text message after a key was sent: not JSON is an error, a
/// rejection is its error, anything else passes.
pub fn drain_step(text: &str) -> (r: Result<(), WsError>)
    ensures
        match json_event(text@) {
            None => r == Err::<(), WsError>(WsError::BadEvent),
            Some((e, m)) => match rejection(e, m) {
                None => r is Ok,
                Some(x) => r matches Err(err) && rejection_of(err) == Some(x),
            },
        },
{
    match parse_event_json(text) {
        Some(event) => check_event(&event),
        None => Err(WsError::BadEvent),
    }
}

} // verus!

verus! {

/// What `serde_json::from_str::<serde_json::Value>` followed by
/// `serde_json::Value::to_string` makes of a text: `None` when it is not
/// JSON, else the document re-printed compactly.
pub uninterp spec fn json_compact(text: Seq<char>) -> Option<Seq<char>>;

/// Parses `text` with `serde_json::from_str` into a `serde_json::Value` and
/// prints it back with `to_string`. The contract names the result
/// (`json_compact`); the grammar and the layout are serde_json's.
#[verifier::external_body]
fn compact_json(text: &str) -> (r: Option<String>)
    ensures
        opt_view(r) == json_compact(text@),
{
    match serde_json::from_str::<serde_json::Value>(text) {
        Ok(value) => Some(value.to_string()),
        Err(_) => None,
    }
}

/// The text that `raw` sends for a user's payload: the payload re-printed
/// as compact JSON, or `None` (refused before connecting) when it is not
/// JSON.
pub fn raw_payload(payload: &str) -> (r: Option<String>)
    ensures
        opt_view(r) == json_compact(payload@),
{
    compact_json(payload)
}

/// What `serde_json` prints for the JSON string holding `s`: the quotes and
/// its escapes.
pub uninterp spec fn json_string(s: Seq<char>) -> Seq<char>;

/// Prints `s` as a JSON string with `serde_json::Value::String(..)` and
/// `to_string`. The contract names the result (`json_string`); the escaping
/// rules are serde_json's.
#[verifier::external_body]
fn json_quote(s: &str) -> (r: String)
    ensures
        r@ == json_string(s@),
{
    serde_json::Value::String(s.to_string()).to_string()
}

/// The remote-control message that presses `key` once, as compact JSON with
/// its members in order.
pub open spec fn key_payload_of(key: Seq<char>) -> Seq<char> {
    "{\"method\":\"ms.remote.control\",\"params\":{\"Cmd\":\"Click\",\"DataOfCmd\":"@
        + json_string(key) + ",\"Option\":\"false\",\"TypeOfRemote\":\"SendRemoteKey\"}}"@
}

/// The message that `key`/`off` send for one key code.
pub fn key_payload(key: &str) -> (r: String)
    ensures
        r@ == key_payload_of(key@),
{
    let mut r = String::from_str(
        "{\"method\":\"ms.remote.control\",\"params\":{\"Cmd\":\"Click\",\"DataOfCmd\":",
    );
    let quoted = json_quote(key);
    r.append(quoted.as_str());
    r.append(",\"Option\":\"false\",\"TypeOfRemote\":\"SendRemoteKey\"}}");
    r
}

} // verus!

verus! {

/// Only two events turn the client away: any event named neither
/// `ms.channel.timeOut` nor `ms.error` carries no rejection, whatever its
/// message; an `ms.channel.timeOut` always does, and so does an `ms.error`.
pub proof fn lemma_only_timeout_and_error_reject(e: Option<Seq<char>>, m: Option<Seq<char>>)
    ensures
        rejection(e, m) is None <==> (e != Some("ms.channel.timeOut"@) && e != Some("ms.error"@)),
        e == Some("ms.channel.timeOut"@) ==> rejection(e, m) == Some(Rejection::ChannelTimeout),
        e == Some("ms.error"@) ==> (rejection(e, m) matches Some(x) && (x is NotAuthorized
            || x is Tv)),
        e == Some("ms.error"@) ==> (rejection(e, m) == Some(Rejection::NotAuthorized) <==> exists|
            i: int,
        |
            0 <= i && i + 13 <= tv_message(m).len() && #[trigger] tv_message(m).subrange(i, i + 13)
                == "No Authorized"@),
        e == Some("ms.error"@) && m is None ==> rejection(e, m) == Some(
            Rejection::Tv("unknown error"@),
        ),
{
    reveal_strlit("No Authorized");
    reveal_strlit("unknown error");
    let t = tv_message(m);
    let pat = "No Authorized"@;
    assert(pat.len() == 13);
    if contains(t, pat) {
        let i = choose|i: int| 0 <= i && i + pat.len() <= t.len() && #[trigger] t.subrange(i, i + pat.len()) == pat;
        assert(t.subrange(i, i + 13) == pat);
    }
    if exists|i: int| 0 <= i && i + 13 <= t.len() && #[trigger] t.subrange(i, i + 13) == pat {
        let i = choose|i: int| 0 <= i && i + 13 <= t.len() && #[trigger] t.subrange(i, i + 13) == pat;
        assert(t.subrange(i, i + pat.len()) == pat);
    }
    if m is None {
        assert(!contains("unknown error"@, pat)) by {
            if contains("unknown error"@, pat) {
                let i = choose|i: int| 0 <= i && i + pat.len() <= "unknown error"@.len() && #[trigger] "unknown error"@.subrange(i, i + pat.len()) == pat;
                assert(i == 0);
                assert("unknown error"@.subrange(0, 13)[0] == 'u');
            }
        }
    }
    reveal_strlit("ms.error");
    reveal_strlit("ms.channel.timeOut");
    assert("ms.error"@.len() != "ms.channel.timeOut"@.len());
}

/// The key message is one fixed text around the JSON string of the key: it
/// always clicks (`"Cmd":"Click"`) and differs between two keys only in that
/// string.
pub proof fn lemma_key_payload_clicks(k1: Seq<char>, k2: Seq<char>)
    ensures
        key_payload_of(k1) == "{\"method\":\"ms.remote.control\",\"params\":{\"Cmd\":\"Click\",\"DataOfCmd\":"@
            + json_string(k1) + ",\"Option\":\"false\",\"TypeOfRemote\":\"SendRemoteKey\"}}"@,
        key_payload_of(k1).len() >= 66,
        key_payload_of(k1).subrange(40, 53) == "\"Cmd\":\"Click\""@,
        key_payload_of(k1).subrange(0, 66) == key_payload_of(k2).subrange(0, 66),
{
    let p = "{\"method\":\"ms.remote.control\",\"params\":{\"Cmd\":\"Click\",\"DataOfCmd\":"@;
    let s = ",\"Option\":\"false\",\"TypeOfRemote\":\"SendRemoteKey\"}}"@;
    reveal_strlit("{\"method\":\"ms.remote.control\",\"params\":{\"Cmd\":\"Click\",\"DataOfCmd\":");
    reveal_strlit("\"Cmd\":\"Click\"");
    assert(p.len() == 66);
    assert((p + json_string(k1) + s).subrange(0, 66) =~= p);
    assert((p + json_string(k2) + s).subrange(0, 66) =~= p);
    assert(p.subrange(40, 53) =~= "\"Cmd\":\"Click\""@);
    assert((p + json_string(k1) + s).subrange(40, 53) =~= p.subrange(40, 53));
}

} // verus!

verus! {

/// The errors say what to do: a channel time-out points at the subnet
/// restriction, a refused authorization at the popup on the TV, and any
/// other TV error quotes the TV's message after `TV error: `.
pub proof fn lemma_error_texts(m: String)
    ensures
        error_text(WsError::ChannelTimeout).subrange(89, 103) == "another subnet"@,
        error_text(WsError::NotAuthorized).subrange(39, 44) == "popup"@,
        error_text(WsError::Tv(m)).take(10) == "TV error: "@,
        error_text(WsError::Tv(m)).skip(10) == m@,
{
    reveal_strlit(
        "TV rejected the connection (ms.channel.timeOut) — Samsung TVs refuse remote clients from another subnet; see the router masquerade rule",
    );
    reveal_strlit("not authorized — accept the connection popup on the TV screen");
    reveal_strlit("another subnet");
    reveal_strlit("popup");
    reveal_strlit("TV error: ");
    assert(error_text(WsError::ChannelTimeout).subrange(89, 103) =~= "another subnet"@);
    assert(error_text(WsError::NotAuthorized).subrange(39, 44) =~= "popup"@);
    assert(error_text(WsError::Tv(m)).take(10) =~= "TV error: "@);
    assert(error_text(WsError::Tv(m)).skip(10) =~= m@);
}

} // verus!
