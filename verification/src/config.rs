//! Where the TV is and what the client calls itself: the `key = "value"`
//! configuration file, the environment overrides, and the two endpoints.
use vstd::prelude::*;
use crate::text::{
    chars_of, find_char, find_in_range, lemma_split_after_separator, lemma_split_single_piece,
    lemma_find_char_at, lemma_trim_end_skips, lemma_trim_start_skips, opt_view, push_char,
    range_is, split_by, strips, trim, trim_end, trim_range, trim_start,
};

verus! {

/// The line separator of the configuration file.
pub open spec fn newline() -> spec_fn(char) -> bool {
    |c: char| c == '\n'
}

/// Which of the three settings a key names: 0 host, 1 mac, 2 name.
pub open spec fn slot_of(key: Seq<char>) -> Option<int> {
    if key == "host"@ {
        Some(0)
    } else if key == "mac"@ {
        Some(1)
    } else if key == "name"@ {
        Some(2)
    } else {
        None
    }
}

/// Whether the `#` at `j` of a (trimmed) value starts a comment: the value is
/// quoted, and only whitespace stands between its closing quote and the `#`.
pub open spec fn comment_at(v: Seq<char>, j: int) -> bool {
    &&& 0 < j < v.len()
    &&& v[j] == '#'
    &&& v[0] == '"'
    &&& trim_end(v.take(j), false).len() >= 2
    &&& trim_end(v.take(j), false).last() == '"'
}

/// The first comment of a value at or after `j`.
pub open spec fn first_comment(v: Seq<char>, j: int) -> Option<int>
    decreases v.len() - j,
{
    if j < 0 || j >= v.len() {
        None
    } else if comment_at(v, j) {
        Some(j)
    } else {
        first_comment(v, j + 1)
    }
}

/// A value without its trailing comment, if it has one.
pub open spec fn strip_comment(v: Seq<char>) -> Seq<char> {
    match first_comment(v, 0) {
        Some(j) => v.take(j),
        None => v,
    }
}

/// The value that the text after a line's `=` gives: trimmed, cut before a
/// `# comment` that follows a closing quote, trimmed again, and stripped of
/// surrounding double quotes.
pub open spec fn value_of(after_eq: Seq<char>) -> Seq<char> {
    trim(trim(strip_comment(trim(after_eq, false)), false), true)
}

/// What one line of the file sets, if anything: the line is trimmed and
/// split at its first `=`; the key is trimmed, the value read by `value_of`.
pub open spec fn line_entry(line: Seq<char>) -> Option<(int, Seq<char>)> {
    let t = trim(line, false);
    match find_char(t, '=') {
        None => None,
        Some(i) => match slot_of(trim(t.take(i), false)) {
            None => None,
            Some(k) => Some((k, value_of(t.skip(i + 1)))),
        },
    }
}

/// The value that the last of `lines` to set `slot` gives it.
pub open spec fn lookup(lines: Seq<Seq<char>>, slot: int) -> Option<Seq<char>>
    decreases lines.len(),
{
    if lines.len() == 0 {
        None
    } else {
        match line_entry(lines.last()) {
            Some((k, v)) if k == slot => Some(v),
            _ => lookup(lines.drop_last(), slot),
        }
    }
}

/// The value that the configuration text gives `slot`.
pub open spec fn config_value(text: Seq<char>, slot: int) -> Option<Seq<char>> {
    lookup(split_by(text, newline()), slot)
}

/// Where the comment of the value `v[lo..hi]` starts, if it has one.
fn comment_in(v: &Vec<char>, lo: usize, hi: usize) -> (r: Option<usize>)
    requires
        lo <= hi <= v@.len(),
    ensures
        match r {
            Some(j) => lo < j < hi && first_comment(v@.subrange(lo as int, hi as int), 0) == Some(
                j - lo,
            ) && v@.subrange(lo as int, j as int) == strip_comment(
                v@.subrange(lo as int, hi as int),
            ),
            None => first_comment(v@.subrange(lo as int, hi as int), 0) is None,
        },
{
    let ghost w = v@.subrange(lo as int, hi as int);
    if lo == hi {
        return None;
    }
    assert(!comment_at(w, 0));
    let mut j = lo + 1;
    while j < hi
        invariant
            lo < j <= hi <= v@.len(),
            w == v@.subrange(lo as int, hi as int),
            first_comment(w, 0) == first_comment(w, j - lo),
        decreases hi - j,
    {
        if v[j] == '#' && v[lo] == '"' {
            let (x, y) = trim_range(v, lo, j, false);
            assert(w.take(j - lo) =~= v@.subrange(lo as int, j as int));
            assert(trim_start(w.take(j - lo), false) == w.take(j - lo));
            if y - x >= 2 && v[y - 1] == '"' {
                assert(comment_at(w, j - lo));
                assert(w.take(j - lo) =~= v@.subrange(lo as int, j as int));
                return Some(j);
            }
            assert(!comment_at(w, j - lo));
        }
        j = j + 1;
    }
    None
}

fn entry_of(text: &str, v: &Vec<char>, lo: usize, hi: usize) -> (r: Option<(usize, String)>)
    requires
        v@ == text@,
        lo <= hi <= v@.len(),
    ensures
        match r {
            Some((k, s)) => line_entry(v@.subrange(lo as int, hi as int)) == Some(
                (k as int, s@),
            ),
            None => line_entry(v@.subrange(lo as int, hi as int)) is None,
        },
{
    let ghost line = v@.subrange(lo as int, hi as int);
    let (la, lb) = trim_range(v, lo, hi, false);
    let ghost t = v@.subrange(la as int, lb as int);
    assert(t == trim(line, false));
    let eq = match find_in_range(v, la, lb, '=') {
        None => {
            return None;
        },
        Some(i) => i,
    };
    let mid = la + eq;
    assert(t.take(eq as int) =~= v@.subrange(la as int, mid as int));
    assert(t.skip(eq + 1) =~= v@.subrange(mid + 1, lb as int));
    let (ka, kb) = trim_range(v, la, mid, false);
    let slot: usize = if range_is(v, ka, kb, "host") {
        0
    } else if range_is(v, ka, kb, "mac") {
        1
    } else if range_is(v, ka, kb, "name") {
        2
    } else {
        return None;
    };
    let (wa, wb) = trim_range(v, mid + 1, lb, false);
    let ce = match comment_in(v, wa, wb) {
        Some(j) => j,
        None => wb,
    };
    assert(v@.subrange(wa as int, ce as int) == strip_comment(v@.subrange(wa as int, wb as int)));
    let (ra, rb) = trim_range(v, wa, ce, false);
    let (qa, qb) = trim_range(v, ra, rb, true);
    let value = text.substring_char(qa, qb).to_owned();
    Some((slot, value))
}

/// Minimal `key = "value"` parser for the three settings `host`, `mac` and
/// `name`, in that order; later lines win, other lines are ignored.
pub fn parse_config(text: &str) -> (r: [Option<String>; 3])
    ensures
        forall|k: int| 0 <= k < 3 ==> opt_view(#[trigger] r@[k]) == config_value(text@, k),
{
    let v = chars_of(text);
    let n = v.len();
    let mut host: Option<String> = None;
    let mut mac: Option<String> = None;
    let mut name: Option<String> = None;
    let mut start: usize = 0;
    let mut i: usize = 0;
    let ghost mut done: Seq<Seq<char>> = Seq::empty();
    assert(v@.take(0) =~= Seq::<char>::empty());
    assert(v@.subrange(0, 0) =~= Seq::<char>::empty());
    while i < n
        invariant
            v@ == text@,
            n == v@.len(),
            start <= i <= n,
            split_by(v@.take(i as int), newline()) == done.push(v@.subrange(start as int, i as int)),
            opt_view(host) == lookup(done, 0),
            opt_view(mac) == lookup(done, 1),
            opt_view(name) == lookup(done, 2),
        decreases n - i,
    {
        assert(v@.take(i + 1).drop_last() =~= v@.take(i as int));
        assert(v@.take(i + 1).last() == v@[i as int]);
        if v[i] == '\n' {
            let ghost piece = v@.subrange(start as int, i as int);
            match entry_of(text, &v, start, i) {
                Some((k, s)) => {
                    if k == 0 {
                        host = Some(s);
                    } else if k == 1 {
                        mac = Some(s);
                    } else {
                        name = Some(s);
                    }
                },
                None => {},
            }
            proof {
                assert(done.push(piece).drop_last() =~= done);
                done = done.push(piece);
            }
            start = i + 1;
            assert(v@.subrange(start as int, i + 1) =~= Seq::<char>::empty());
        } else {
            assert(v@.subrange(start as int, i + 1) =~= v@.subrange(start as int, i as int).push(
                v@[i as int],
            ));
        }
        i = i + 1;
    }
    let ghost piece = v@.subrange(start as int, n as int);
    match entry_of(text, &v, start, n) {
        Some((k, s)) => {
            if k == 0 {
                host = Some(s);
            } else if k == 1 {
                mac = Some(s);
            } else {
                name = Some(s);
            }
        },
        None => {},
    }
    proof {
        assert(v@.take(n as int) =~= v@);
        assert(done.push(piece).drop_last() =~= done);
    }
    let r = [host, mac, name];
    assert(opt_view(r@[0]) == config_value(text@, 0));
    assert(opt_view(r@[1]) == config_value(text@, 1));
    assert(opt_view(r@[2]) == config_value(text@, 2));
    r
}

} // verus!

verus! {

/// The RFC 4648 base64 alphabet: symbol `i` for a 6-bit value `i`.
pub open spec fn b64_symbol(i: int) -> char {
    if i < 26 {
        (65 + i) as char
    } else if i < 52 {
        (97 + (i - 26)) as char
    } else if i < 62 {
        (48 + (i - 52)) as char
    } else if i == 62 {
        '+'
    } else {
        '/'
    }
}

/// One group of one to three bytes as four symbols: the 24 bits (missing
/// bytes read as zero) cut into four 6-bit values, high bits first, and `=`
/// in place of the symbols that no input byte reaches.
pub open spec fn b64_group(g: Seq<u8>) -> Seq<char> {
    let b0 = g[0] as int;
    let b1 = if g.len() > 1 { g[1] as int } else { 0 };
    let b2 = if g.len() > 2 { g[2] as int } else { 0 };
    seq![
        b64_symbol(b0 / 4),
        b64_symbol((b0 % 4) * 16 + b1 / 16),
        if g.len() > 1 { b64_symbol((b1 % 16) * 4 + b2 / 64) } else { '=' },
        if g.len() > 2 { b64_symbol(b2 % 64) } else { '=' },
    ]
}

/// Standard base64 with padding (RFC 4648, section 4).
pub open spec fn base64(b: Seq<u8>) -> Seq<char>
    decreases b.len(),
{
    if b.len() == 0 {
        Seq::empty()
    } else if b.len() <= 3 {
        b64_group(b)
    } else {
        b64_group(b.take(3)) + base64(b.skip(3))
    }
}

fn sextets(b0: u8, b1: u8, b2: u8) -> (r: (u32, u32, u32, u32))
    ensures
        r.0 == b0 / 4,
        r.1 == (b0 % 4) * 16 + b1 / 16,
        r.2 == (b1 % 16) * 4 + b2 / 64,
        r.3 == b2 % 64,
{
    let n: u32 = ((b0 as u32) << 16u32) | ((b1 as u32) << 8u32) | (b2 as u32);
    assert((n >> 18u32) & 63 == b0 / 4 && (n >> 12u32) & 63 == (b0 % 4) * 16 + b1 / 16 && (n
        >> 6u32) & 63 == (b1 % 16) * 4 + b2 / 64 && n & 63 == b2 % 64) by (bit_vector)
        requires
            n == ((b0 as u32) << 16u32) | ((b1 as u32) << 8u32) | (b2 as u32),
    ;
    ((n >> 18u32) & 63, (n >> 12u32) & 63, (n >> 6u32) & 63, n & 63)
}

fn b64_char(i: u32) -> (c: char)
    requires
        i < 64,
    ensures
        c == b64_symbol(i as int),
{
    if i < 26 {
        ((65 + i) as u8) as char
    } else if i < 52 {
        ((97 + (i - 26)) as u8) as char
    } else if i < 62 {
        ((48 + (i - 52)) as u8) as char
    } else if i == 62 {
        '+'
    } else {
        '/'
    }
}

/// Standard base64 (RFC 4648, with padding).
pub fn base64_encode(input: &[u8]) -> (out: String)
    ensures
        out@ == base64(input@),
{
    let mut out = String::new();
    let n = input.len();
    let mut i: usize = 0;
    assert(input@.skip(0) =~= input@);
    while i < n
        invariant
            n == input@.len(),
            i <= n,
            base64(input@) == out@ + base64(input@.skip(i as int)),
        decreases n - i,
    {
        let rest = n - i;
        let b0 = input[i];
        let b1 = if rest > 1 { input[i + 1] } else { 0 };
        let b2 = if rest > 2 { input[i + 2] } else { 0 };
        let (s0, s1, s2, s3) = sextets(b0, b1, b2);
        let ghost before = out@;
        let ghost tail = input@.skip(i as int);
        let ghost g = if rest <= 3 { tail } else { tail.take(3) };
        push_char(&mut out, b64_char(s0));
        push_char(&mut out, b64_char(s1));
        if rest > 1 {
            push_char(&mut out, b64_char(s2));
        } else {
            push_char(&mut out, '=');
        }
        if rest > 2 {
            push_char(&mut out, b64_char(s3));
        } else {
            push_char(&mut out, '=');
        }
        assert(out@ =~= before + b64_group(g));
        if rest <= 3 {
            assert(input@.skip(n as int) =~= Seq::<u8>::empty());
            i = n;
        } else {
            assert(tail.skip(3) =~= input@.skip(i + 3));
            i = i + 3;
        }
    }
    out
}

} // verus!

verus! {

/// The 6-bit value that a symbol of the base64 alphabet stands for.
pub open spec fn b64_value(c: char) -> int {
    let u = c as int;
    if 65 <= u <= 90 {
        u - 65
    } else if 97 <= u <= 122 {
        u - 71
    } else if 48 <= u <= 57 {
        u + 4
    } else if c == '+' {
        62
    } else {
        63
    }
}

/// Four symbols back to the one to three bytes they carry.
pub open spec fn b64_ungroup(q: Seq<char>) -> Seq<u8> {
    let i0 = b64_value(q[0]);
    let i1 = b64_value(q[1]);
    let i2 = b64_value(q[2]);
    let i3 = b64_value(q[3]);
    let b0 = (i0 * 4 + i1 / 16) as u8;
    let b1 = ((i1 % 16) * 16 + i2 / 4) as u8;
    let b2 = ((i2 % 4) * 64 + i3) as u8;
    if q[2] == '=' {
        seq![b0]
    } else if q[3] == '=' {
        seq![b0, b1]
    } else {
        seq![b0, b1, b2]
    }
}

/// Standard base64 decoding, four symbols at a time.
pub open spec fn base64_decode(s: Seq<char>) -> Seq<u8>
    decreases s.len(),
{
    if s.len() < 4 {
        Seq::empty()
    } else {
        b64_ungroup(s.take(4)) + base64_decode(s.skip(4))
    }
}

proof fn lemma_symbol_value(i: int)
    requires
        0 <= i < 64,
    ensures
        b64_value(b64_symbol(i)) == i,
        b64_symbol(i) != '=',
{
}

proof fn lemma_group_roundtrip(g: Seq<u8>)
    requires
        1 <= g.len() <= 3,
    ensures
        b64_ungroup(b64_group(g)) == g,
{
    let b0 = g[0] as int;
    let b1 = if g.len() > 1 { g[1] as int } else { 0 };
    let b2 = if g.len() > 2 { g[2] as int } else { 0 };
    let i0 = b0 / 4;
    let i1 = (b0 % 4) * 16 + b1 / 16;
    let i2 = (b1 % 16) * 4 + b2 / 64;
    let i3 = b2 % 64;
    assert(0 <= i0 < 64 && 0 <= i1 < 64 && 0 <= i2 < 64 && 0 <= i3 < 64 && i0 * 4 + i1 / 16 == b0
        && (i1 % 16) * 16 + i2 / 4 == b1 && (i2 % 4) * 64 + i3 == b2) by (nonlinear_arith)
        requires
            0 <= b0 < 256,
            0 <= b1 < 256,
            0 <= b2 < 256,
            i0 == b0 / 4,
            i1 == (b0 % 4) * 16 + b1 / 16,
            i2 == (b1 % 16) * 4 + b2 / 64,
            i3 == b2 % 64,
    ;
    lemma_symbol_value(i0);
    lemma_symbol_value(i1);
    lemma_symbol_value(i2);
    lemma_symbol_value(i3);
    assert(b64_ungroup(b64_group(g)) =~= g);
}

/// The encoding is four symbols for every started group of three bytes.
pub proof fn lemma_base64_len(b: Seq<u8>)
    ensures
        base64(b).len() == 4 * ((b.len() + 2) / 3),
    decreases b.len(),
{
    if b.len() > 3 {
        lemma_base64_len(b.skip(3));
    }
}

/// Nothing is lost: standard base64 decoding gives the input back, so two
/// different client names never share an encoding.
pub proof fn lemma_base64_roundtrip(b: Seq<u8>)
    ensures
        base64_decode(base64(b)) == b,
    decreases b.len(),
{
    if b.len() == 0 {
    } else if b.len() <= 3 {
        lemma_group_roundtrip(b);
        let e = base64(b);
        assert(e.take(4) =~= e);
        assert(e.len() == 4);
        assert(e.skip(4) =~= Seq::<char>::empty());
        assert(base64_decode(e.skip(4)) =~= Seq::<u8>::empty());
        assert(base64_decode(e) == b64_ungroup(e.take(4)) + base64_decode(e.skip(4)));
        assert(base64_decode(e) =~= b64_ungroup(e));
    } else {
        lemma_group_roundtrip(b.take(3));
        lemma_base64_roundtrip(b.skip(3));
        let e = base64(b);
        let g = b64_group(b.take(3));
        assert(e.take(4) =~= g);
        assert(e.skip(4) =~= base64(b.skip(3)));
        assert(b.take(3) + b.skip(3) =~= b);
    }
}

/// Encoding a whole number of three-byte groups and then the rest is
/// encoding the lot.
pub proof fn lemma_base64_concat(a: Seq<u8>, b: Seq<u8>)
    requires
        a.len() % 3 == 0,
    ensures
        base64(a + b) == base64(a) + base64(b),
    decreases a.len(),
{
    if a.len() == 0 {
        assert(a + b =~= b);
    } else {
        let ab = a + b;
        lemma_base64_concat(a.skip(3), b);
        assert(ab.take(3) =~= a.take(3));
        assert(ab.skip(3) =~= a.skip(3) + b);
        if a.len() == 3 {
            assert(a.take(3) =~= a);
            assert(a.skip(3) + b =~= b);
            if b.len() == 0 {
                assert(ab =~= a);
            }
        }
        if b.len() == 0 {
            assert(a.skip(3) + b =~= a.skip(3));
            assert(ab =~= a);
        }
    }
}

} // verus!

verus! {

/// Where the TV is and how the client introduces itself.
pub struct Config {
    pub host: String,
    pub mac: Option<String>,
    pub name: String,
}

/// Why a configuration cannot serve a command.
#[derive(Debug, PartialEq, Eq, Structural)]
pub enum ConfigError {
    /// No host in the environment or the file.
    MissingHost,
    /// No MAC address, which wake-on-LAN needs.
    MissingMac,
}

/// The client name shown on the TV when none is configured.
pub open spec fn default_name() -> Seq<char> {
    "samsungtv-cli"@
}

/// A setting as the environment gives it, else as the file (if read) gives
/// it in `slot`.
pub open spec fn setting(env: Option<String>, file: Option<[Option<String>; 3]>, slot: int) -> Option<
    Seq<char>,
> {
    match env {
        Some(s) => Some(s@),
        None => match file {
            Some(f) => opt_view(f@[slot]),
            None => None,
        },
    }
}

/// The spec of the REST endpoint.
pub open spec fn rest_url_of(host: Seq<char>) -> Seq<char> {
    "http://"@ + host + ":8001/api/v2/"@
}

/// The spec of the remote-control websocket endpoint: the client name goes
/// in the query as base64 of its UTF-8 bytes.
pub open spec fn ws_url_of(host: Seq<char>, name: Seq<char>) -> Seq<char> {
    "ws://"@ + host + ":8001/api/v2/channels/samsung.remote.control?name="@ + base64(
        vstd::utf8::encode_utf8(name),
    )
}

fn copy_slot(f: &[Option<String>; 3], k: usize) -> (r: Option<String>)
    requires
        k < 3,
    ensures
        opt_view(r) == opt_view(f@[k as int]),
{
    match &f[k] {
        Some(s) => Some(s.clone()),
        None => None,
    }
}

impl ConfigError {
    /// The text shown to the user.
    pub fn message(&self) -> (r: String)
        ensures
            r@ == match self {
                ConfigError::MissingHost =>
                    "missing TV host: set SAMSUNGTV_HOST, or create ~/.config/samsungtv/config.toml with a host key"@,
                ConfigError::MissingMac =>
                    "missing TV MAC address (needed for wake-on-LAN): set SAMSUNGTV_MAC, or add a mac key to ~/.config/samsungtv/config.toml"@,
            },
    {
        match self {
            ConfigError::MissingHost => String::from_str(
                "missing TV host: set SAMSUNGTV_HOST, or create ~/.config/samsungtv/config.toml with a host key",
            ),
            ConfigError::MissingMac => String::from_str(
                "missing TV MAC address (needed for wake-on-LAN): set SAMSUNGTV_MAC, or add a mac key to ~/.config/samsungtv/config.toml",
            ),
        }
    }
}

impl Config {
    /// Settle the configuration from what the environment and the file
    /// (`[host, mac, name]`, as `parse_config` reads it; `None` when there is
    /// no readable file) give: the environment wins, `host` is required,
    /// `name` falls back to `samsungtv-cli`.
    pub fn resolve(
        env_host: Option<String>,
        env_mac: Option<String>,
        env_name: Option<String>,
        file: Option<[Option<String>; 3]>,
    ) -> (r: Result<Config, ConfigError>)
        ensures
            r is Err <==> setting(env_host, file, 0) is None,
            r matches Err(e) ==> e == ConfigError::MissingHost,
            env_host is Some ==> r is Ok,
            r matches Ok(c) ==> {
                &&& env_host matches Some(h) ==> c.host@ == h@
                &&& env_mac matches Some(m) ==> c.mac matches Some(cm) && cm@ == m@
                &&& env_name matches Some(n) ==> c.name@ == n@
                &&& env_mac is None ==> opt_view(c.mac) == match file {
                    Some(f) => opt_view(f@[1]),
                    None => None,
                }
                &&& env_name is None ==> c.name@ == match file {
                    Some(f) => match f@[2] {
                        Some(n) => n@,
                        None => "samsungtv-cli"@,
                    },
                    None => "samsungtv-cli"@,
                }
                &&& Some(c.host@) == setting(env_host, file, 0)
                &&& opt_view(c.mac) == setting(env_mac, file, 1)
                &&& c.name@ == match setting(env_name, file, 2) {
                    Some(n) => n,
                    None => default_name(),
                }
            },
    {
        let (fh, fm, fname) = match &file {
            Some(f) => (copy_slot(f, 0), copy_slot(f, 1), copy_slot(f, 2)),
            None => (None, None, None),
        };
        let host = match env_host {
            Some(h) => Some(h),
            None => fh,
        };
        let mac = match env_mac {
            Some(m) => Some(m),
            None => fm,
        };
        let name = match env_name {
            Some(n) => n,
            None => match fname {
                Some(n) => n,
                None => String::from_str("samsungtv-cli"),
            },
        };
        match host {
            Some(host) => Ok(Config { host, mac, name }),
            None => Err(ConfigError::MissingHost),
        }
    }

    /// MAC address, required for wake-on-LAN.
    pub fn require_mac(&self) -> (r: Result<&str, ConfigError>)
        ensures
            r is Ok <==> self.mac is Some,
            r matches Ok(m) ==> Some(m@) == opt_view(self.mac),
            r matches Err(e) ==> e == ConfigError::MissingMac,
    {
        match &self.mac {
            Some(mac) => Ok(mac.as_str()),
            None => Err(ConfigError::MissingMac),
        }
    }

    /// The REST API base: `http://{host}:8001/api/v2/`.
    pub fn rest_url(&self) -> (r: String)
        ensures
            r@ == rest_url_of(self.host@),
    {
        let mut r = String::from_str("http://");
        r.append(self.host.as_str());
        r.append(":8001/api/v2/");
        r
    }

    /// The remote-control channel, with the client name base64-encoded.
    pub fn ws_url(&self) -> (r: String)
        ensures
            r@ == ws_url_of(self.host@, self.name@),
    {
        let mut r = String::from_str("ws://");
        r.append(self.host.as_str());
        r.append(":8001/api/v2/channels/samsung.remote.control?name=");
        let encoded = base64_encode(self.name.as_str().as_bytes());
        r.append(encoded.as_str());
        r
    }
}

} // verus!

verus! {

/// Appending a line to the configuration text: a line that sets `slot`
/// decides its value, any other line leaves every value as it was.
pub proof fn lemma_later_line_wins(text: Seq<char>, line: Seq<char>, slot: int)
    requires
        !line.contains('\n'),
    ensures
        config_value(text.push('\n') + line, slot) == match line_entry(line) {
            Some((k, v)) => if k == slot {
                Some(v)
            } else {
                config_value(text, slot)
            },
            None => config_value(text, slot),
        },
{
    lemma_split_after_separator(text, '\n', line, newline());
    assert(forall|i: int| 0 <= i < line.len() ==> !newline()(#[trigger] line[i])) by {
        assert forall|i: int| 0 <= i < line.len() implies !newline()(#[trigger] line[i]) by {
            if line[i] == '\n' {
                assert(line.contains('\n'));
            }
        }
    }
    lemma_split_single_piece(line, newline());
    let lines = split_by(text, newline()) + seq![line];
    assert(lines.drop_last() =~= split_by(text, newline()));
}

} // verus!

verus! {

/// The environment wins: for each of the three settings, a value in the
/// environment is the setting whatever the file says, and the file is read
/// only when the environment has none.
pub proof fn lemma_environment_wins(
    env: Option<String>,
    file: Option<[Option<String>; 3]>,
    other: Option<[Option<String>; 3]>,
    slot: int,
)
    requires
        0 <= slot < 3,
    ensures
        env matches Some(s) ==> setting(env, file, slot) == Some(s@),
        env matches Some(s) ==> setting(env, file, slot) == setting(env, other, slot),
        env is None ==> setting(env, file, slot) == match file {
            Some(f) => match f@[slot] {
                Some(v) => Some(v@),
                None => None,
            },
            None => None,
        },
{
}

} // verus!

verus! {

/// A value that can be written between double quotes as it is: no quote,
/// no `#`, and no whitespace at either end.
pub open spec fn plain_value(v: Seq<char>) -> bool {
    &&& forall|i: int| 0 <= i < v.len() ==> #[trigger] v[i] != '"' && v[i] != '#'
    &&& v.len() > 0 ==> !strips(false, v[0]) && !strips(false, v.last())
}

proof fn lemma_first_comment_skip(w: Seq<char>, j: int, k: int)
    requires
        0 <= j <= k,
        forall|i: int| j <= i < k ==> !comment_at(w, i),
    ensures
        first_comment(w, j) == first_comment(w, k),
    decreases k - j,
{
    if j < k {
        lemma_first_comment_skip(w, j + 1, k);
    }
}

proof fn lemma_key_is_plain(key: Seq<char>)
    requires
        slot_of(key) is Some,
    ensures
        key.len() > 0,
        forall|i: int| 0 <= i < key.len() ==> #[trigger] key[i] != '=' && !strips(false, key[i]),
{
    reveal_strlit("host");
    reveal_strlit("mac");
    reveal_strlit("name");
}

/// The value that `"` + `v` + `"` followed by `rest` reads as, when `rest`
/// is either nothing or whitespace then a `#` comment.
proof fn lemma_quoted_value(v: Seq<char>, pad: Seq<char>, comment: Option<Seq<char>>)
    requires
        plain_value(v),
        forall|i: int| 0 <= i < pad.len() ==> strips(false, #[trigger] pad[i]),
        comment matches Some(cm) ==> cm.len() == 0 || !strips(false, cm.last()),
    ensures
        ({
            let q = seq!['"'] + v + seq!['"'];
            let w = match comment {
                Some(cm) => q + pad + seq!['#'] + cm,
                None => q,
            };
            trim(strip_comment(w), false) == q && trim(q, true) == v
        }),
{
    let q = seq!['"'] + v + seq!['"'];
    let w = match comment {
        Some(cm) => q + pad + seq!['#'] + cm,
        None => q,
    };
    assert(q.len() == v.len() + 2);
    assert(q[0] == '"');
    assert(q.last() == '"');
    assert(trim_start(q, false) == q);
    assert(trim_end(q, false) == q);
    match comment {
        Some(cm) => {
            let j0: int = (q.len() + pad.len()) as int;
            assert(w[j0] == '#');
            assert forall|i: int| 0 <= i < j0 implies !comment_at(w, i) by {
                if i < q.len() {
                    assert(w[i] == q[i]);
                    if 0 < i < q.len() - 1 {
                        assert(q[i] == v[i - 1]);
                    }
                } else {
                    assert(w[i] == pad[i - q.len()]);
                }
            }
            lemma_first_comment_skip(w, 0, j0);
            assert(w.take(j0) =~= q + pad);
            lemma_trim_end_skips(q, pad, false);
            assert(w[0] == '"');
            assert(comment_at(w, j0));
            assert(strip_comment(w) == q + pad);
            lemma_trim_start_skips(Seq::<char>::empty(), q + pad, false);
            assert(trim_start(q + pad, false) == q + pad) by {
                assert((q + pad)[0] == '"');
            }
        },
        None => {
            assert forall|i: int| 0 <= i < w.len() implies !comment_at(w, i) by {
                if 0 < i < q.len() - 1 {
                    assert(q[i] == v[i - 1]);
                }
            }
            lemma_first_comment_skip(w, 0, w.len() as int);
            assert(strip_comment(w) == q);
        },
    }
    // Now the quotes.
    assert(q.drop_first() =~= v + seq!['"']);
    if v.len() > 0 {
        assert((v + seq!['"'])[0] == v[0]);
        assert(trim_start(v + seq!['"'], true) == v + seq!['"']);
        assert((v + seq!['"']).drop_last() =~= v);
        assert(v[v.len() - 1] == v.last());
        assert(trim_end(v, true) == v);
    } else {
        assert(v + seq!['"'] =~= seq!['"']);
        assert(seq!['"'].drop_first() =~= Seq::<char>::empty());
        let e = Seq::<char>::empty();
        assert(trim_start(e, true) == e);
        assert(seq!['"'][0] == '"');
        assert(seq!['"'].drop_first() =~= e);
        assert(trim_start(seq!['"'], true) == e);
        assert(trim_end(e, true) == e);
        assert(v =~= Seq::<char>::empty());
    }
}

/// A setting written `key = "value"`, optionally followed by whitespace and
/// a `# comment`, gives exactly that value to that key: the quotes and the
/// comment are not part of it.
pub proof fn lemma_quoted_setting(
    key: Seq<char>,
    v: Seq<char>,
    pad: Seq<char>,
    comment: Option<Seq<char>>,
)
    requires
        slot_of(key) is Some,
        plain_value(v),
        forall|i: int| 0 <= i < pad.len() ==> strips(false, #[trigger] pad[i]),
        comment matches Some(cm) ==> cm.len() == 0 || !strips(false, cm.last()),
    ensures
        ({
            let line = key + seq![' ', '=', ' ', '"'] + v + seq!['"'] + match comment {
                Some(cm) => pad + seq!['#'] + cm,
                None => Seq::empty(),
            };
            line_entry(line) == Some((slot_of(key)->0, v))
        }),
{
    let tail = match comment {
        Some(cm) => pad + seq!['#'] + cm,
        None => Seq::<char>::empty(),
    };
    let q = seq!['"'] + v + seq!['"'];
    let rest = q + tail;
    let line = key + seq![' ', '=', ' ', '"'] + v + seq!['"'] + tail;
    lemma_key_is_plain(key);
    let k = key.len() as int;
    assert(line =~= key + seq![' ', '='] + seq![' '] + rest);
    // The line is already trimmed.
    assert(line[0] == key[0]);
    assert(trim_start(line, false) == line);
    assert(line.last() == rest.last());
    assert(!strips(false, rest.last())) by {
        match comment {
            Some(cm) => {
                if cm.len() > 0 {
                    assert(rest.last() == cm.last());
                } else {
                    assert(rest.last() == '#');
                }
            },
            None => {
                assert(rest.last() == '"');
            },
        }
    }
    assert(trim_end(line, false) == line);
    // The first `=` follows the key and a space.
    assert forall|i: int| 0 <= i < k + 1 implies #[trigger] line[i] != '=' by {
        if i < k {
            assert(line[i] == key[i]);
        }
    }
    lemma_find_char_at(line, k + 1, '=');
    // The key, trimmed.
    assert(line.take(k + 1) =~= key + seq![' ']);
    lemma_trim_end_skips(key, seq![' '], false);
    assert(trim_end(key, false) == key) by {
        assert(key[k - 1] == key.last());
    }
    assert(trim_start(key + seq![' '], false) == key + seq![' ']) by {
        assert((key + seq![' '])[0] == key[0]);
    }
    assert(trim(line.take(k + 1), false) == key);
    // The value part.
    assert(line.skip(k + 2) =~= seq![' '] + rest);
    lemma_trim_start_skips(seq![' '], rest, false);
    assert(trim_start(rest, false) == rest) by {
        assert(rest[0] == '"');
    }
    assert(trim_end(rest, false) == rest) by {
        assert(rest.last() == line.last());
    }
    assert(trim(line.skip(k + 2), false) == rest);
    lemma_quoted_value(v, pad, comment);
    match comment {
        Some(cm) => {
            assert(rest =~= q + pad + seq!['#'] + cm);
        },
        None => {
            assert(rest =~= q);
        },
    }
}

} // verus!

verus! {

/// The REST endpoint is `http://`, the host, then port 8001's `/api/v2/`.
pub proof fn lemma_rest_url_parts(host: Seq<char>)
    ensures
        rest_url_of(host).take(7) == "http://"@,
        rest_url_of(host).subrange(7, 7 + host.len() as int) == host,
        rest_url_of(host).skip(7 + host.len() as int) == ":8001/api/v2/"@,
{
    reveal_strlit("http://");
    let u = rest_url_of(host);
    assert(u.take(7) =~= "http://"@);
    assert(u.subrange(7, 7 + host.len() as int) =~= host);
    assert(u.skip(7 + host.len() as int) =~= ":8001/api/v2/"@);
}

/// The websocket endpoint carries the host after `ws://`, and the client
/// name can be read back from its end: decoding the base64 after `name=`
/// and then the UTF-8 gives the name.
pub proof fn lemma_ws_url_carries_name(host: Seq<char>, name: Seq<char>)
    ensures
        ws_url_of(host, name).take(5) == "ws://"@,
        ws_url_of(host, name).subrange(5, 5 + host.len() as int) == host,
        ws_url_of(host, name).subrange(5 + host.len() as int, 5 + host.len() as int + 50)
            == ":8001/api/v2/channels/samsung.remote.control?name="@,
        vstd::utf8::decode_utf8(base64_decode(ws_url_of(host, name).skip(5 + host.len() as int + 50)))
            == name,
{
    reveal_strlit("ws://");
    reveal_strlit(":8001/api/v2/channels/samsung.remote.control?name=");
    let u = ws_url_of(host, name);
    let e = base64(vstd::utf8::encode_utf8(name));
    assert(u.take(5) =~= "ws://"@);
    assert(u.subrange(5, 5 + host.len() as int) =~= host);
    assert(u.subrange(5 + host.len() as int, 5 + host.len() as int + 50)
        =~= ":8001/api/v2/channels/samsung.remote.control?name="@);
    assert(u.skip(5 + host.len() as int + 50) =~= e);
    lemma_base64_roundtrip(vstd::utf8::encode_utf8(name));
    vstd::utf8::encode_utf8_decode_utf8(name);
}

} // verus!
