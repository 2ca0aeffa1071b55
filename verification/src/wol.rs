//! Wake-on-LAN: the MAC address, the magic packet, and where it is sent.
use vstd::prelude::*;
use crate::text::{
    chars_of, decimal, lemma_split_after_separator, lemma_split_by_nonempty,
    lemma_split_single_piece, pieces, push_decimal, range_holds, separates,
    split_ranges, Sep,
};

verus! {

/// The UDP port of wake-on-LAN.
pub const WOL_PORT: u16 = 9;

/// The magic packet for `mac`: six 0xFF bytes, then the MAC sixteen times.
pub open spec fn is_magic_packet(p: Seq<u8>, mac: Seq<u8>) -> bool {
    &&& p.len() == 102
    &&& forall|i: int| 0 <= i < 6 ==> p[i] == 0xFF
    &&& forall|k: int, j: int| 0 <= k < 16 && 0 <= j < 6 ==> #[trigger] p[6 + 6 * k + j] == mac[j]
}

/// 6x 0xFF header followed by the MAC repeated 16 times (102 bytes total).
pub fn magic_packet(mac: &[u8; 6]) -> (packet: Vec<u8>)
    ensures
        is_magic_packet(packet@, mac@),
{
    let mut packet: Vec<u8> = Vec::new();
    let mut i: usize = 0;
    while i < 6
        invariant
            i <= 6,
            packet@.len() == i,
            forall|j: int| 0 <= j < i ==> packet@[j] == 0xFF,
        decreases 6 - i,
    {
        packet.push(0xFF);
        i = i + 1;
    }
    let mut k: usize = 0;
    while k < 16
        invariant
            k <= 16,
            mac@.len() == 6,
            packet@.len() == 6 + 6 * k,
            forall|j: int| 0 <= j < 6 ==> packet@[j] == 0xFF,
            forall|r: int, j: int|
                0 <= r < k && 0 <= j < 6 ==> #[trigger] packet@[6 + 6 * r + j] == mac@[j],
        decreases 16 - k,
    {
        let mut j: usize = 0;
        while j < 6
            invariant
                j <= 6,
                k < 16,
                mac@.len() == 6,
                packet@.len() == 6 + 6 * k + j,
                forall|t: int| 0 <= t < 6 ==> packet@[t] == 0xFF,
                forall|r: int, t: int|
                    0 <= r < k && 0 <= t < 6 ==> #[trigger] packet@[6 + 6 * r + t] == mac@[t],
                forall|t: int| 0 <= t < j ==> #[trigger] packet@[6 + 6 * k + t] == mac@[t],
            decreases 6 - j,
        {
            packet.push(mac[j]);
            j = j + 1;
        }
        k = k + 1;
    }
    packet
}

} // verus!

verus! {

/// The value of a hexadecimal digit (either case).
pub open spec fn hex_digit(c: char) -> Option<int> {
    let u = c as int;
    if 48 <= u <= 57 {
        Some(u - 48)
    } else if 97 <= u <= 102 {
        Some(u - 87)
    } else if 65 <= u <= 70 {
        Some(u - 55)
    } else {
        None
    }
}

pub open spec fn all_hex(d: Seq<char>) -> bool {
    forall|i: int| 0 <= i < d.len() ==> #[trigger] hex_digit(d[i]) is Some
}

/// The number that a string of hexadecimal digits spells.
pub open spec fn hex_value(d: Seq<char>) -> int
    decreases d.len(),
{
    if d.len() == 0 {
        0
    } else {
        hex_value(d.drop_last()) * 16 + hex_digit(d.last())->0
    }
}

/// `u8::from_str_radix(part, 16)`: an optional `+`, then one or more
/// hexadecimal digits whose value fits a byte.
pub open spec fn hex_octet(part: Seq<char>) -> Option<u8> {
    let d = if part.len() > 0 && part[0] == '+' {
        part.drop_first()
    } else {
        part
    };
    if d.len() > 0 && all_hex(d) && hex_value(d) <= 255 {
        Some(hex_value(d) as u8)
    } else {
        None
    }
}

/// Why a MAC address was refused.
#[derive(Debug, PartialEq, Eq)]
pub enum MacError {
    /// Not six colon/dash-separated pieces.
    WrongOctetCount,
    /// This piece is no hexadecimal byte.
    BadOctet(String),
}

proof fn lemma_hex_value_grows(d: Seq<char>, k: int)
    requires
        0 <= k <= d.len(),
        all_hex(d),
    ensures
        hex_value(d.take(k)) <= hex_value(d),
        hex_value(d.take(k)) >= 0,
    decreases d.len() - k,
{
    if k < d.len() {
        lemma_hex_value_grows(d, k + 1);
        let t = d.take(k + 1);
        assert(t.drop_last() =~= d.take(k));
        assert(hex_digit(t.last()) is Some);
    } else {
        assert(d.take(k) =~= d);
        lemma_hex_value_nonneg(d);
    }
}

proof fn lemma_hex_value_nonneg(d: Seq<char>)
    requires
        all_hex(d),
    ensures
        hex_value(d) >= 0,
    decreases d.len(),
{
    if d.len() > 0 {
        assert(all_hex(d.drop_last()));
        lemma_hex_value_nonneg(d.drop_last());
        assert(hex_digit(d.last()) is Some);
    }
}

fn hex_digit_of(c: char) -> (r: Option<u32>)
    ensures
        match r {
            Some(x) => hex_digit(c) == Some(x as int) && x < 16,
            None => hex_digit(c) is None,
        },
{
    let u = c as u32;
    if 48 <= u && u <= 57 {
        Some(u - 48)
    } else if 97 <= u && u <= 102 {
        Some(u - 87)
    } else if 65 <= u && u <= 70 {
        Some(u - 55)
    } else {
        None
    }
}

fn octet_in(v: &Vec<char>, lo: usize, hi: usize) -> (r: Option<u8>)
    requires
        lo <= hi <= v@.len(),
    ensures
        r == hex_octet(v@.subrange(lo as int, hi as int)),
{
    let ghost part = v@.subrange(lo as int, hi as int);
    let mut p = lo;
    if p < hi && v[p] == '+' {
        p = p + 1;
    }
    let ghost d = v@.subrange(p as int, hi as int);
    assert(d =~= if part.len() > 0 && part[0] == '+' {
        part.drop_first()
    } else {
        part
    });
    if p == hi {
        return None;
    }
    let start = p;
    let mut acc: u32 = 0;
    while p < hi
        invariant
            lo <= start <= p <= hi <= v@.len(),
            d == v@.subrange(start as int, hi as int),
            part == v@.subrange(lo as int, hi as int),
            d == if part.len() > 0 && part[0] == '+' {
                part.drop_first()
            } else {
                part
            },
            d.len() > 0,
            all_hex(d.take(p - start)),
            acc == hex_value(d.take(p - start)),
            acc <= 255,
        decreases hi - p,
    {
        let ghost t = d.take(p - start + 1);
        assert(t.drop_last() =~= d.take(p - start));
        assert(t.last() == v@[p as int]);
        match hex_digit_of(v[p]) {
            None => {
                assert(!all_hex(d)) by {
                    assert(hex_digit(d[p - start]) is None);
                }
                return None;
            },
            Some(x) => {
                acc = acc * 16 + x;
                assert(all_hex(t)) by {
                    assert forall|i: int| 0 <= i < t.len() implies #[trigger] hex_digit(t[i]) is Some by {
                        if i < t.len() - 1 {
                            assert(t[i] == d.take(p - start)[i]);
                        }
                    }
                }
                if acc > 255 {
                    proof {
                        if all_hex(d) {
                            lemma_hex_value_grows(d, p - start + 1);
                        }
                    }
                    return None;
                }
            },
        }
        p = p + 1;
    }
    assert(d.take(p - start) =~= d);
    Some(acc as u8)
}

} // verus!

verus! {

/// The pieces of a MAC address between its separators.
pub open spec fn mac_parts(s: Seq<char>) -> Seq<Seq<char>> {
    pieces(s, Sep::MacOctet)
}

/// Parse "aa:bb:cc:dd:ee:ff" or "AA-BB-CC-DD-EE-FF" into bytes: exactly six
/// pieces, each a hexadecimal byte; the first bad piece is reported.
pub fn parse_mac(mac: &str) -> (r: Result<[u8; 6], MacError>)
    ensures
        ({
            let parts = mac_parts(mac@);
            match r {
                Ok(b) => parts.len() == 6 && forall|i: int|
                    0 <= i < 6 ==> hex_octet(#[trigger] parts[i]) == Some(b@[i]),
                Err(MacError::WrongOctetCount) => parts.len() != 6,
                Err(MacError::BadOctet(p)) => parts.len() == 6 && exists|i: int|
                    0 <= i < 6 && #[trigger] parts[i] == p@ && hex_octet(parts[i]) is None
                        && forall|j: int| 0 <= j < i ==> hex_octet(#[trigger] parts[j]) is Some,
            }
        }),
{
    let v = chars_of(mac);
    let n = v.len();
    let ranges = split_ranges(&v, Sep::MacOctet);
    let ghost parts = pieces(v@, Sep::MacOctet);
    if ranges.len() != 6 {
        return Err(MacError::WrongOctetCount);
    }
    let mut bytes: Vec<u8> = Vec::new();
    let mut k: usize = 0;
    while k < 6
        invariant
            v@ == mac@,
            n == v@.len(),
            k <= 6,
            ranges@.len() == 6,
            parts.len() == 6,
            parts == mac_parts(mac@),
            forall|t: int| #![trigger parts[t]] 0 <= t < 6 ==> range_holds(v@, ranges@[t], parts[t]),
            bytes@.len() == k,
            forall|t: int| 0 <= t < k ==> hex_octet(#[trigger] parts[t]) == Some(bytes@[t]),
        decreases 6 - k,
    {
        let (a, b) = ranges[k];
        assert(parts[k as int] == v@.subrange(a as int, b as int));
        match octet_in(&v, a, b) {
            Some(x) => {
                bytes.push(x);
            },
            None => {
                let piece = mac.substring_char(a, b).to_owned();
                assert(forall|j: int| 0 <= j < k ==> hex_octet(#[trigger] parts[j]) is Some);
                return Err(MacError::BadOctet(piece));
            },
        }
        k = k + 1;
    }
    let r = [bytes[0], bytes[1], bytes[2], bytes[3], bytes[4], bytes[5]];
    assert(forall|t: int| 0 <= t < 6 ==> r@[t] == bytes@[t]);
    Ok(r)
}

} // verus!

verus! {

pub open spec fn is_digit(c: char) -> bool {
    48 <= c as u32 <= 57
}

/// The number that a string of decimal digits spells.
pub open spec fn dec_value(d: Seq<char>) -> int
    decreases d.len(),
{
    if d.len() == 0 {
        0
    } else {
        dec_value(d.drop_last()) * 10 + (d.last() as u32 - 48)
    }
}

/// One field of a dotted-decimal IPv4 address: one to three decimal digits,
/// no leading zero unless the field is `0`, at most 255.
pub open spec fn ipv4_field(p: Seq<char>) -> Option<u8> {
    if 1 <= p.len() <= 3 && (forall|i: int| 0 <= i < p.len() ==> #[trigger] is_digit(p[i])) && !(
    p.len() > 1 && p[0] == '0') && dec_value(p) <= 255 {
        Some(dec_value(p) as u8)
    } else {
        None
    }
}

/// The octets of `s` read as a dotted-decimal IPv4 address (as `Ipv4Addr`
/// parses it), or `None` when `s` is no such address (a host name).
pub open spec fn ipv4_of(s: Seq<char>) -> Option<Seq<u8>> {
    let parts = pieces(s, Sep::Dot);
    if parts.len() == 4 && forall|k: int| 0 <= k < 4 ==> #[trigger] ipv4_field(parts[k]) is Some {
        Some(Seq::new(4, |k: int| ipv4_field(parts[k])->0))
    } else {
        None
    }
}

/// The /24 directed broadcast of an address.
pub open spec fn broadcast_of(o: Seq<u8>) -> Seq<u8> {
    seq![o[0], o[1], o[2], 255u8]
}

fn ipv4_field_in(v: &Vec<char>, lo: usize, hi: usize) -> (r: Option<u8>)
    requires
        lo <= hi <= v@.len(),
    ensures
        r == ipv4_field(v@.subrange(lo as int, hi as int)),
{
    let ghost p = v@.subrange(lo as int, hi as int);
    if hi - lo < 1 || hi - lo > 3 {
        return None;
    }
    if hi - lo > 1 && v[lo] == '0' {
        return None;
    }
    let mut acc: u32 = 0;
    let mut i = lo;
    while i < hi
        invariant
            lo <= i <= hi <= v@.len(),
            hi - lo <= 3,
            p == v@.subrange(lo as int, hi as int),
            forall|j: int| 0 <= j < i - lo ==> #[trigger] is_digit(p[j]),
            acc == dec_value(p.take(i - lo)),
            i - lo == 0 ==> acc == 0,
            i - lo == 1 ==> acc < 10,
            i - lo == 2 ==> acc < 100,
            acc < 1000,
        decreases hi - i,
    {
        let c = v[i];
        let u = c as u32;
        if u < 48 || u > 57 {
            assert(!is_digit(p[i - lo]));
            return None;
        }
        let ghost t = p.take(i - lo + 1);
        assert(p[i - lo] == c);
        assert(is_digit(c));
        assert(t.drop_last() =~= p.take(i - lo));
        assert(t.last() == c);
        acc = acc * 10 + (u - 48);
        i = i + 1;
    }
    assert(p.take(hi - lo) =~= p);
    if acc > 255 {
        return None;
    }
    Some(acc as u8)
}

/// The octets of a dotted-decimal IPv4 address, or `None` for anything
/// else (such as a host name).
pub fn parse_ipv4(host: &str) -> (r: Option<[u8; 4]>)
    ensures
        match ipv4_of(host@) {
            Some(o) => r matches Some(b) && b@ == o,
            None => r is None,
        },
{
    let v = chars_of(host);
    let ranges = split_ranges(&v, Sep::Dot);
    let ghost parts = pieces(v@, Sep::Dot);
    if ranges.len() != 4 {
        return None;
    }
    let mut octets: Vec<u8> = Vec::new();
    let mut k: usize = 0;
    while k < 4
        invariant
            v@ == host@,
            k <= 4,
            ranges@.len() == 4,
            parts == pieces(v@, Sep::Dot),
            parts.len() == 4,
            forall|t: int|
                #![trigger parts[t]]
                0 <= t < 4 ==> range_holds(v@, ranges@[t], parts[t]),
            octets@.len() == k,
            forall|t: int| 0 <= t < k ==> ipv4_field(#[trigger] parts[t]) == Some(octets@[t]),
        decreases 4 - k,
    {
        let (a, b) = ranges[k];
        assert(range_holds(v@, ranges@[k as int], parts[k as int]));
        match ipv4_field_in(&v, a, b) {
            Some(x) => {
                octets.push(x);
            },
            None => {
                return None;
            },
        }
        k = k + 1;
    }
    let r = [octets[0], octets[1], octets[2], octets[3]];
    assert(r@ =~= Seq::new(4, |t: int| ipv4_field(parts[t])->0));
    Some(r)
}

/// The /24 directed broadcast for an IPv4 host (None for hostnames).
pub fn subnet_broadcast(host: &str) -> (r: Option<[u8; 4]>)
    ensures
        match ipv4_of(host@) {
            Some(o) => r matches Some(b) && b@ == broadcast_of(o),
            None => r is None,
        },
        r matches Some(b) ==> (ipv4_of(host@) matches Some(o) && b[0] == o[0] && b[1] == o[1]
            && b[2] == o[2] && b[3] == 255),
{
    match parse_ipv4(host) {
        Some(o) => {
            let r = [o[0], o[1], o[2], 255u8];
            assert(r@ =~= broadcast_of(o@));
            Some(r)
        },
        None => None,
    }
}

} // verus!

verus! {

/// `addr:9`, a destination of the magic packet.
pub open spec fn with_port(addr: Seq<char>) -> Seq<char> {
    addr + ":"@ + decimal(WOL_PORT as nat)
}

/// An IPv4 address in dotted-decimal notation.
pub open spec fn dotted(o: Seq<u8>) -> Seq<char> {
    decimal(o[0] as nat) + "."@ + decimal(o[1] as nat) + "."@ + decimal(o[2] as nat) + "."@
        + decimal(o[3] as nat)
}

/// Where the magic packet goes: the host itself, the limited broadcast, and
/// the host's /24 broadcast when the host is an IPv4 address.
pub open spec fn wake_targets_of(host: Seq<char>) -> Seq<Seq<char>> {
    let base = seq![with_port(host), with_port("255.255.255.255"@)];
    match ipv4_of(host) {
        Some(o) => base.push(with_port(dotted(broadcast_of(o)))),
        None => base,
    }
}

fn push_port(s: &mut String)
    ensures
        final(s)@ == with_port(old(s)@),
{
    s.append(":");
    push_decimal(s, WOL_PORT);
}

/// The destinations of the magic packet, in the order they are sent to.
pub fn wake_targets(host: &str) -> (r: Vec<String>)
    ensures
        r@.len() == wake_targets_of(host@).len(),
        forall|i: int| 0 <= i < r@.len() ==> #[trigger] r@[i]@ == wake_targets_of(host@)[i],
{
    let mut unicast = String::from_str(host);
    push_port(&mut unicast);
    let mut limited = String::from_str("255.255.255.255");
    push_port(&mut limited);
    let mut r: Vec<String> = Vec::new();
    r.push(unicast);
    r.push(limited);
    if let Some(b) = subnet_broadcast(host) {
        let mut directed = String::new();
        push_decimal(&mut directed, b[0] as u16);
        directed.append(".");
        push_decimal(&mut directed, b[1] as u16);
        directed.append(".");
        push_decimal(&mut directed, b[2] as u16);
        directed.append(".");
        push_decimal(&mut directed, b[3] as u16);
        assert(directed@ =~= dotted(b@));
        push_port(&mut directed);
        r.push(directed);
    }
    r
}

} // verus!

verus! {

/// Two characters of a MAC address that read alike: equal, both
/// separators, or the same hexadecimal digit in either case.
pub open spec fn mac_chars_alike(a: char, b: char) -> bool {
    ||| a == b
    ||| separates(Sep::MacOctet, a) && separates(Sep::MacOctet, b)
    ||| hex_digit(a) is Some && hex_digit(a) == hex_digit(b)
}

/// Octet text that reads alike: equal characters or the same hex digit.
pub open spec fn octets_alike(p: Seq<char>, q: Seq<char>) -> bool {
    p.len() == q.len() && forall|i: int|
        0 <= i < p.len() ==> #[trigger] p[i] == q[i] || (hex_digit(p[i]) is Some && hex_digit(p[i])
            == hex_digit(q[i]))
}

proof fn lemma_hex_alike(p: Seq<char>, q: Seq<char>)
    requires
        octets_alike(p, q),
    ensures
        all_hex(p) == all_hex(q),
        all_hex(p) ==> hex_value(p) == hex_value(q),
    decreases p.len(),
{
    if p.len() > 0 {
        let p0 = p.drop_last();
        let q0 = q.drop_last();
        assert(octets_alike(p0, q0)) by {
            assert forall|i: int| 0 <= i < p0.len() implies #[trigger] p0[i] == q0[i] || (hex_digit(
                p0[i],
            ) is Some && hex_digit(p0[i]) == hex_digit(q0[i])) by {
                assert(p0[i] == p[i] && q0[i] == q[i]);
            }
        }
        lemma_hex_alike(p0, q0);
        assert(p[p.len() - 1] == p.last());
        assert(q[q.len() - 1] == q.last());
        if all_hex(p) {
            assert(all_hex(q)) by {
                assert forall|i: int| 0 <= i < q.len() implies #[trigger] hex_digit(q[i]) is Some by {
                    assert(hex_digit(p[i]) is Some);
                }
            }
            assert(all_hex(p0));
            assert(hex_digit(p.last()) is Some);
        }
        if all_hex(q) {
            assert(all_hex(p)) by {
                assert forall|i: int| 0 <= i < p.len() implies #[trigger] hex_digit(p[i]) is Some by {
                    assert(hex_digit(q[i]) is Some);
                }
            }
        }
    }
}

proof fn lemma_octet_alike(p: Seq<char>, q: Seq<char>)
    requires
        octets_alike(p, q),
    ensures
        hex_octet(p) == hex_octet(q),
{
    if p.len() > 0 && p[0] == '+' {
        assert(q[0] == '+');
        let p1 = p.drop_first();
        let q1 = q.drop_first();
        assert(octets_alike(p1, q1)) by {
            assert forall|i: int| 0 <= i < p1.len() implies #[trigger] p1[i] == q1[i] || (hex_digit(
                p1[i],
            ) is Some && hex_digit(p1[i]) == hex_digit(q1[i])) by {
                assert(p1[i] == p[i + 1] && q1[i] == q[i + 1]);
            }
        }
        lemma_hex_alike(p1, q1);
    } else {
        if q.len() > 0 && q[0] == '+' {
            assert(p[0] == '+');
        }
        lemma_hex_alike(p, q);
    }
}

proof fn lemma_pieces_alike(s: Seq<char>, t: Seq<char>)
    requires
        s.len() == t.len(),
        forall|i: int| 0 <= i < s.len() ==> mac_chars_alike(#[trigger] s[i], t[i]),
    ensures
        pieces(s, Sep::MacOctet).len() == pieces(t, Sep::MacOctet).len(),
        forall|k: int|
            0 <= k < pieces(s, Sep::MacOctet).len() ==> octets_alike(
                #[trigger] pieces(s, Sep::MacOctet)[k],
                pieces(t, Sep::MacOctet)[k],
            ),
    decreases s.len(),
{
    let f = |c: char| separates(Sep::MacOctet, c);
    if s.len() > 0 {
        let s0 = s.drop_last();
        let t0 = t.drop_last();
        assert forall|i: int| 0 <= i < s0.len() implies mac_chars_alike(#[trigger] s0[i], t0[i]) by {
            assert(s0[i] == s[i] && t0[i] == t[i]);
        }
        lemma_pieces_alike(s0, t0);
        lemma_split_by_nonempty(s0, f);
        lemma_split_by_nonempty(t0, f);
        let a = s.last();
        let b = t.last();
        assert(mac_chars_alike(s[s.len() - 1], t[t.len() - 1]));
        assert(f(a) == f(b));
        let ps = pieces(s0, Sep::MacOctet);
        let pt = pieces(t0, Sep::MacOctet);
        if !f(a) {
            let n = ps.len() - 1;
            assert(octets_alike(ps[n], pt[n]));
            let x = ps[n].push(a);
            let y = pt[n].push(b);
            assert(octets_alike(x, y)) by {
                assert forall|i: int| 0 <= i < x.len() implies #[trigger] x[i] == y[i] || (
                hex_digit(x[i]) is Some && hex_digit(x[i]) == hex_digit(y[i])) by {
                    if i < x.len() - 1 {
                        assert(x[i] == ps[n][i] && y[i] == pt[n][i]);
                    }
                }
            }
        }
    }
}

/// A MAC address reads the same whichever separators (`:` or `-`) and
/// whichever case of hexadecimal digits it is written with: its pieces, and
/// so what `parse_mac` gives, agree piece by piece.
pub proof fn lemma_mac_spelling(s: Seq<char>, t: Seq<char>)
    requires
        s.len() == t.len(),
        forall|i: int| 0 <= i < s.len() ==> mac_chars_alike(#[trigger] s[i], t[i]),
    ensures
        mac_parts(s).len() == mac_parts(t).len(),
        forall|k: int|
            0 <= k < mac_parts(s).len() ==> hex_octet(#[trigger] mac_parts(s)[k]) == hex_octet(
                mac_parts(t)[k],
            ),
{
    lemma_pieces_alike(s, t);
    assert forall|k: int| 0 <= k < mac_parts(s).len() implies hex_octet(
        #[trigger] mac_parts(s)[k],
    ) == hex_octet(mac_parts(t)[k]) by {
        lemma_octet_alike(mac_parts(s)[k], mac_parts(t)[k]);
    }
}

} // verus!

verus! {

/// The hexadecimal digit for `d` (below 16), in upper or lower case.
pub open spec fn hex_char(d: int, upper: bool) -> char {
    if d < 10 {
        (48 + d) as char
    } else if upper {
        (55 + d) as char
    } else {
        (87 + d) as char
    }
}

/// A byte as two hexadecimal digits, as `{:02x}` / `{:02X}` print it.
pub open spec fn hex_pair(b: u8, upper: bool) -> Seq<char> {
    seq![hex_char(b as int / 16, upper), hex_char(b as int % 16, upper)]
}

/// Bytes written as a MAC address: two hex digits each, joined by `sep`.
pub open spec fn mac_text(b: Seq<u8>, sep: char, upper: bool) -> Seq<char>
    decreases b.len(),
{
    if b.len() == 0 {
        Seq::empty()
    } else if b.len() == 1 {
        hex_pair(b[0], upper)
    } else {
        mac_text(b.drop_last(), sep, upper).push(sep) + hex_pair(b.last(), upper)
    }
}

proof fn lemma_hex_pair_octet(x: u8, upper: bool)
    ensures
        hex_octet(hex_pair(x, upper)) == Some(x),
        forall|i: int| 0 <= i < 2 ==> !separates(Sep::MacOctet, #[trigger] hex_pair(x, upper)[i]),
{
    let p = hex_pair(x, upper);
    let hi = x as int / 16;
    let lo = x as int % 16;
    assert(hex_digit(p[0]) == Some(hi));
    assert(hex_digit(p[1]) == Some(lo));
    let q = p.drop_last();
    assert(q.drop_last() =~= Seq::<char>::empty());
    assert(hex_value(q.drop_last()) == 0);
    assert(q.last() == p[0]);
    assert(hex_value(q) == hi);
    assert(p.last() == p[1]);
    assert(all_hex(p));
    assert(hi * 16 + lo == x);
}

proof fn lemma_mac_text_parts(b: Seq<u8>, sep: char, upper: bool)
    requires
        b.len() >= 1,
        sep == ':' || sep == '-',
    ensures
        mac_parts(mac_text(b, sep, upper)) == Seq::new(b.len(), |i: int| hex_pair(b[i], upper)),
    decreases b.len(),
{
    let f = |c: char| separates(Sep::MacOctet, c);
    let t = hex_pair(b.last(), upper);
    lemma_hex_pair_octet(b.last(), upper);
    assert(forall|i: int| 0 <= i < t.len() ==> !f(#[trigger] t[i]));
    lemma_split_single_piece(t, f);
    if b.len() == 1 {
        assert(b.last() == b[0]);
        assert(seq![t] =~= Seq::new(b.len(), |i: int| hex_pair(b[i], upper)));
    } else {
        let b0 = b.drop_last();
        lemma_mac_text_parts(b0, sep, upper);
        lemma_split_after_separator(mac_text(b0, sep, upper), sep, t, f);
        assert(Seq::new(b0.len(), |i: int| hex_pair(b0[i], upper)) + seq![t] =~= Seq::new(
            b.len(),
            |i: int| hex_pair(b[i], upper),
        ));
    }
}

/// Six bytes written as a MAC address, with `:` or `-` between them and in
/// either case, read back as the same six bytes: `parse_mac` of that text is
/// `Ok` of those bytes.
pub proof fn lemma_mac_roundtrip(b: Seq<u8>, sep: char, upper: bool)
    requires
        b.len() == 6,
        sep == ':' || sep == '-',
    ensures
        mac_parts(mac_text(b, sep, upper)).len() == 6,
        forall|i: int|
            0 <= i < 6 ==> hex_octet(#[trigger] mac_parts(mac_text(b, sep, upper))[i]) == Some(
                b[i],
            ),
{
    lemma_mac_text_parts(b, sep, upper);
    assert forall|i: int| 0 <= i < 6 implies hex_octet(
        #[trigger] mac_parts(mac_text(b, sep, upper))[i],
    ) == Some(b[i]) by {
        lemma_hex_pair_octet(b[i], upper);
    }
}

} // verus!

verus! {

/// The directed broadcast of any IPv4 address a.b.c.d is a.b.c.255: the
/// first three octets are the host's, the last is 255; it is a broadcast of
/// the same /24 for every host of that /24.
pub proof fn lemma_broadcast_keeps_network(o: Seq<u8>, p: Seq<u8>)
    requires
        o.len() == 4,
        p.len() == 4,
    ensures
        broadcast_of(o).len() == 4,
        forall|i: int| 0 <= i < 3 ==> #[trigger] broadcast_of(o)[i] == o[i],
        broadcast_of(o)[3] == 255,
        (o[0] == p[0] && o[1] == p[1] && o[2] == p[2]) <==> broadcast_of(o) == broadcast_of(p),
{
    if broadcast_of(o) == broadcast_of(p) {
        assert(broadcast_of(o)[0] == broadcast_of(p)[0]);
        assert(broadcast_of(o)[1] == broadcast_of(p)[1]);
        assert(broadcast_of(o)[2] == broadcast_of(p)[2]);
    }
    if o[0] == p[0] && o[1] == p[1] && o[2] == p[2] {
        assert(broadcast_of(o) =~= broadcast_of(p));
    }
}

} // verus!

verus! {

/// The packet goes to the host itself on port 9, then to the limited
/// broadcast 255.255.255.255 on port 9, and, for an IPv4 host a.b.c.d, last
/// to a.b.c.255 on port 9; a host name gets only the first two.
pub proof fn lemma_wake_destinations(host: Seq<char>)
    ensures
        wake_targets_of(host)[0] == host + ":9"@,
        wake_targets_of(host)[1] == "255.255.255.255:9"@,
        ipv4_of(host) is None ==> wake_targets_of(host).len() == 2,
        ipv4_of(host) matches Some(o) ==> {
            &&& wake_targets_of(host).len() == 3
            &&& wake_targets_of(host)[2] == decimal(o[0] as nat) + "."@ + decimal(o[1] as nat)
                + "."@ + decimal(o[2] as nat) + ".255:9"@
        },
{
    reveal_strlit(":");
    reveal_strlit(":9");
    reveal_strlit(".");
    reveal_strlit(".255:9");
    reveal_strlit("255.255.255.255");
    reveal_strlit("255.255.255.255:9");
    assert(decimal(9) =~= seq!['9']);
    assert(host + ":"@ + decimal(9) =~= host + ":9"@);
    assert("255.255.255.255"@ + ":"@ + decimal(9) =~= "255.255.255.255:9"@);
    if let Some(o) = ipv4_of(host) {
        let b = broadcast_of(o);
        assert(b[3] == 255);
        assert(decimal(255) =~= seq!['2', '5', '5']) by {
            assert(decimal(2) =~= seq!['2']);
            assert(decimal(25) =~= seq!['2', '5']);
        }
        let d = decimal(o[0] as nat) + "."@ + decimal(o[1] as nat) + "."@ + decimal(o[2] as nat);
        assert(with_port(dotted(b)) =~= d + ".255:9"@);
    }
}

} // verus!

verus! {

/// The magic packet is byte for byte: 0xFF at the first six places, and at
/// every later place `i` the MAC byte `(i - 6) % 6`.
pub proof fn lemma_magic_packet_bytes(p: Seq<u8>, mac: Seq<u8>)
    requires
        mac.len() == 6,
        is_magic_packet(p, mac),
    ensures
        p == Seq::new(102, |i: int| if i < 6 { 0xFFu8 } else { mac[(i - 6) % 6] }),
{
    let s = Seq::new(102, |i: int| if i < 6 { 0xFFu8 } else { mac[(i - 6) % 6] });
    assert forall|i: int| 0 <= i < 102 implies p[i] == s[i] by {
        if i >= 6 {
            let k = (i - 6) / 6;
            let j = (i - 6) % 6;
            assert(i == 6 + 6 * k + j && 0 <= k < 16 && 0 <= j < 6) by (nonlinear_arith)
                requires
                    6 <= i < 102,
                    k == (i - 6) / 6,
                    j == (i - 6) % 6,
            ;
            assert(p[6 + 6 * k + j] == mac[j]);
        }
    }
    assert(p =~= s);
}

} // verus!
