//! Character-level helpers shared by the parsers and formatters.
use vstd::prelude::*;

verus! {

/// `char::is_whitespace`: the Unicode `White_Space` property.
pub open spec fn is_whitespace(c: char) -> bool {
    let u = c as u32;
    ||| 0x09 <= u <= 0x0d
    ||| u == 0x20
    ||| u == 0x85
    ||| u == 0xa0
    ||| u == 0x1680
    ||| 0x2000 <= u <= 0x200a
    ||| u == 0x2028
    ||| u == 0x2029
    ||| u == 0x202f
    ||| u == 0x205f
    ||| u == 0x3000
}

/// What a trim strips: whitespace, or the double quote.
pub open spec fn strips(quote: bool, c: char) -> bool {
    if quote {
        c == '"'
    } else {
        is_whitespace(c)
    }
}

/// `s` without its leading stripped characters.
pub open spec fn trim_start(s: Seq<char>, quote: bool) -> Seq<char>
    decreases s.len(),
{
    if s.len() > 0 && strips(quote, s[0]) {
        trim_start(s.drop_first(), quote)
    } else {
        s
    }
}

/// `s` without its trailing stripped characters.
pub open spec fn trim_end(s: Seq<char>, quote: bool) -> Seq<char>
    decreases s.len(),
{
    if s.len() > 0 && strips(quote, s.last()) {
        trim_end(s.drop_last(), quote)
    } else {
        s
    }
}

/// `str::trim` (quote false) and `str::trim_matches('"')` (quote true).
pub open spec fn trim(s: Seq<char>, quote: bool) -> Seq<char> {
    trim_end(trim_start(s, quote), quote)
}

/// The pieces of `s` between the characters that `is_sep` accepts, as
/// `str::split` gives them: one more piece than there are separators.
pub open spec fn split_by(s: Seq<char>, is_sep: spec_fn(char) -> bool) -> Seq<Seq<char>>
    decreases s.len(),
{
    if s.len() == 0 {
        seq![Seq::<char>::empty()]
    } else {
        let prev = split_by(s.drop_last(), is_sep);
        if is_sep(s.last()) {
            prev.push(Seq::<char>::empty())
        } else {
            prev.update(prev.len() - 1, prev.last().push(s.last()))
        }
    }
}

/// The index of the first `c` in `s`, if any.
pub open spec fn find_char(s: Seq<char>, c: char) -> Option<int>
    decreases s.len(),
{
    if s.len() == 0 {
        None
    } else {
        match find_char(s.drop_last(), c) {
            Some(i) => Some(i),
            None => if s.last() == c {
                Some(s.len() - 1)
            } else {
                None
            },
        }
    }
}

/// The separators that the parsers split at.
pub enum Sep {
    /// Between the octets of a MAC address: `:` or `-`.
    MacOctet,
    /// Between the fields of a dotted-decimal IPv4 address: `.`.
    Dot,
}

/// Whether `c` is one of the separators `sep`.
pub open spec fn separates(sep: Sep, c: char) -> bool {
    match sep {
        Sep::MacOctet => c == ':' || c == '-',
        Sep::Dot => c == '.',
    }
}

/// The pieces of `s` between the separators `sep`.
pub open spec fn pieces(s: Seq<char>, sep: Sep) -> Seq<Seq<char>> {
    split_by(s, |c: char| separates(sep, c))
}

/// `r` marks the piece `p` of `s`.
pub open spec fn range_holds(s: Seq<char>, r: (usize, usize), p: Seq<char>) -> bool {
    r.0 <= r.1 <= s.len() && p == s.subrange(r.0 as int, r.1 as int)
}

/// The character of a decimal digit.
pub open spec fn digit_char(d: int) -> char {
    (48 + d) as char
}

/// `n` in decimal, as `Display` prints an unsigned integer.
pub open spec fn decimal(n: nat) -> Seq<char>
    decreases n,
{
    if n < 10 {
        seq![digit_char(n as int)]
    } else {
        decimal(n / 10).push(digit_char((n % 10) as int))
    }
}

/// `s` padded with spaces to `width` characters, as `{:width}` formats it.
pub open spec fn padded(s: Seq<char>, width: nat) -> Seq<char> {
    if s.len() < width {
        s + Seq::new((width - s.len()) as nat, |i: int| ' ')
    } else {
        s
    }
}

/// `Some` holds a string's view.
pub open spec fn opt_view(o: Option<String>) -> Option<Seq<char>> {
    match o {
        Some(s) => Some(s@),
        None => None,
    }
}

/// `split_by` never yields an empty list.
pub proof fn lemma_split_by_nonempty(s: Seq<char>, is_sep: spec_fn(char) -> bool)
    ensures
        split_by(s, is_sep).len() >= 1,
    decreases s.len(),
{
    if s.len() > 0 {
        lemma_split_by_nonempty(s.drop_last(), is_sep);
    }
}

/// Splitting after a separator: the pieces before it, then the pieces of
/// what follows.
pub proof fn lemma_split_after_separator(
    s: Seq<char>,
    c: char,
    t: Seq<char>,
    f: spec_fn(char) -> bool,
)
    requires
        f(c),
    ensures
        split_by(s.push(c) + t, f) == split_by(s, f) + split_by(t, f),
    decreases t.len(),
{
    if t.len() == 0 {
        assert(s.push(c) + t =~= s.push(c));
        assert(s.push(c).drop_last() =~= s);
        assert(split_by(s, f).push(Seq::<char>::empty()) =~= split_by(s, f) + split_by(t, f));
    } else {
        let t0 = t.drop_last();
        let x = t.last();
        lemma_split_after_separator(s, c, t0, f);
        assert((s.push(c) + t).drop_last() =~= s.push(c) + t0);
        assert((s.push(c) + t).last() == x);
        lemma_split_by_nonempty(t0, f);
        let a = split_by(s, f);
        let b = split_by(t0, f);
        if f(x) {
            assert((a + b).push(Seq::<char>::empty()) =~= a + b.push(Seq::<char>::empty()));
        } else {
            let ab = a + b;
            assert(ab.update(ab.len() - 1, ab.last().push(x)) =~= a + b.update(
                b.len() - 1,
                b.last().push(x),
            ));
        }
    }
}

/// Text without separators is one piece.
pub proof fn lemma_split_single_piece(t: Seq<char>, f: spec_fn(char) -> bool)
    requires
        forall|i: int| 0 <= i < t.len() ==> !f(#[trigger] t[i]),
    ensures
        split_by(t, f) == seq![t],
    decreases t.len(),
{
    if t.len() > 0 {
        let t0 = t.drop_last();
        assert forall|i: int| 0 <= i < t0.len() implies !f(#[trigger] t0[i]) by {
            assert(t0[i] == t[i]);
        }
        lemma_split_single_piece(t0, f);
        assert(t[t.len() - 1] == t.last());
        assert(t0.push(t.last()) =~= t);
        assert(seq![t0].update(0, t0.push(t.last())) =~= seq![t]);
    } else {
        assert(t =~= Seq::<char>::empty());
        assert(seq![Seq::<char>::empty()] =~= seq![t]);
    }
}

/// Padding keeps the text in front and adds only spaces, up to the width.
pub proof fn lemma_padded(s: Seq<char>, width: nat)
    ensures
        padded(s, width).len() == if s.len() < width {
            width
        } else {
            s.len()
        },
        padded(s, width).take(s.len() as int) == s,
        forall|i: int| s.len() <= i < padded(s, width).len() ==> #[trigger] padded(s, width)[i] == ' ',
{
    assert(padded(s, width).take(s.len() as int) =~= s);
}

/// Leading characters that a trim strips are gone from the result.
pub proof fn lemma_trim_start_skips(a: Seq<char>, b: Seq<char>, quote: bool)
    requires
        forall|i: int| 0 <= i < a.len() ==> strips(quote, #[trigger] a[i]),
    ensures
        trim_start(a + b, quote) == trim_start(b, quote),
    decreases a.len(),
{
    if a.len() > 0 {
        assert((a + b)[0] == a[0]);
        assert((a + b).drop_first() =~= a.drop_first() + b);
        assert forall|i: int| 0 <= i < a.drop_first().len() implies strips(
            quote,
            #[trigger] a.drop_first()[i],
        ) by {
            assert(a.drop_first()[i] == a[i + 1]);
        }
        lemma_trim_start_skips(a.drop_first(), b, quote);
    } else {
        assert(a + b =~= b);
    }
}

/// Trailing characters that a trim strips are gone from the result.
pub proof fn lemma_trim_end_skips(a: Seq<char>, b: Seq<char>, quote: bool)
    requires
        forall|i: int| 0 <= i < b.len() ==> strips(quote, #[trigger] b[i]),
    ensures
        trim_end(a + b, quote) == trim_end(a, quote),
    decreases b.len(),
{
    if b.len() > 0 {
        assert((a + b).last() == b.last());
        assert(b[b.len() - 1] == b.last());
        assert((a + b).drop_last() =~= a + b.drop_last());
        assert forall|i: int| 0 <= i < b.drop_last().len() implies strips(
            quote,
            #[trigger] b.drop_last()[i],
        ) by {
            assert(b.drop_last()[i] == b[i]);
        }
        lemma_trim_end_skips(a, b.drop_last(), quote);
    } else {
        assert(a + b =~= a);
    }
}

/// The first `c` of `s` is at `k` when `s[k]` is `c` and none comes before.
pub proof fn lemma_find_char_at(s: Seq<char>, k: int, c: char)
    requires
        0 <= k < s.len(),
        s[k] == c,
        forall|i: int| 0 <= i < k ==> #[trigger] s[i] != c,
    ensures
        find_char(s, c) == Some(k),
{
    lemma_find_char_none(s.take(k), c);
    assert(s.take(k + 1).drop_last() =~= s.take(k));
    assert(s.take(k + 1).last() == c);
    lemma_find_char_prefix(s, k + 1, c);
}

/// No `c` in `s`, no first `c`.
pub proof fn lemma_find_char_none(s: Seq<char>, c: char)
    requires
        forall|i: int| 0 <= i < s.len() ==> #[trigger] s[i] != c,
    ensures
        find_char(s, c) is None,
    decreases s.len(),
{
    if s.len() > 0 {
        assert forall|i: int| 0 <= i < s.drop_last().len() implies #[trigger] s.drop_last()[i]
            != c by {
            assert(s.drop_last()[i] == s[i]);
        }
        lemma_find_char_none(s.drop_last(), c);
        assert(s[s.len() - 1] == s.last());
    }
}

/// A `c` found in a prefix of `s` is the first `c` of `s`.
pub proof fn lemma_find_char_prefix(s: Seq<char>, k: int, c: char)
    requires
        0 <= k <= s.len(),
        find_char(s.take(k), c) is Some,
    ensures
        find_char(s, c) == find_char(s.take(k), c),
    decreases s.len() - k,
{
    if k < s.len() {
        assert(s.take(k + 1).drop_last() =~= s.take(k));
        lemma_find_char_prefix(s, k + 1, c);
    } else {
        assert(s.take(k) =~= s);
    }
}

/// `String::push`: appends one character.
#[verifier::external_body]
pub(crate) fn push_char(s: &mut String, c: char)
    ensures
        final(s)@ == old(s)@.push(c),
{
    s.push(c)
}

/// The characters of `s`, one by one.
pub fn chars_of(s: &str) -> (v: Vec<char>)
    ensures
        v@ == s@,
{
    let mut v: Vec<char> = Vec::new();
    for c in it: s.chars()
        invariant
            v@ == it.seq().take(it.index() as int),
    {
        v.push(c);
    }
    v
}

/// The bounds of the pieces of `v` between the separators `sep`.
pub fn split_ranges(v: &Vec<char>, sep: Sep) -> (ranges: Vec<(usize, usize)>)
    ensures
        ranges@.len() == pieces(v@, sep).len(),
        forall|k: int|
            #![trigger pieces(v@, sep)[k]]
            0 <= k < ranges@.len() ==> range_holds(v@, ranges@[k], pieces(v@, sep)[k]),
{
    let n = v.len();
    let mut ranges: Vec<(usize, usize)> = Vec::new();
    let mut start: usize = 0;
    let mut i: usize = 0;
    let ghost mut done: Seq<Seq<char>> = Seq::empty();
    let ghost f = |c: char| separates(sep, c);
    assert(v@.take(0) =~= Seq::<char>::empty());
    assert(v@.subrange(0, 0) =~= Seq::<char>::empty());
    while i < n
        invariant
            n == v@.len(),
            start <= i <= n,
            f == (|c: char| separates(sep, c)),
            split_by(v@.take(i as int), f) == done.push(v@.subrange(start as int, i as int)),
            ranges@.len() == done.len(),
            forall|k: int|
                #![trigger done[k]]
                0 <= k < done.len() ==> range_holds(v@, ranges@[k], done[k]),
        decreases n - i,
    {
        assert(v@.take(i + 1).drop_last() =~= v@.take(i as int));
        assert(v@.take(i + 1).last() == v@[i as int]);
        let c = v[i];
        let hit = match sep {
            Sep::MacOctet => c == ':' || c == '-',
            Sep::Dot => c == '.',
        };
        if hit {
            let ghost piece = v@.subrange(start as int, i as int);
            let ghost old_ranges = ranges@;
            ranges.push((start, i));
            proof {
                assert(done.push(piece).drop_last() =~= done);
                let old_done = done;
                done = done.push(piece);
                assert forall|k: int| 0 <= k < done.len() implies range_holds(
                    v@,
                    ranges@[k],
                    #[trigger] done[k],
                ) by {
                    if k < old_done.len() {
                        assert(ranges@[k] == old_ranges[k]);
                        assert(done[k] == old_done[k]);
                    }
                }
            }
            start = i + 1;
            assert(v@.subrange(start as int, i + 1) =~= Seq::<char>::empty());
        } else {
            assert(v@.subrange(start as int, i + 1) =~= v@.subrange(start as int, i as int).push(
                v@[i as int],
            ));
        }
        i = i + 1;
    }
    assert(v@.take(n as int) =~= v@);
    let ghost parts = done.push(v@.subrange(start as int, n as int));
    assert(parts == pieces(v@, sep));
    let ghost old_ranges = ranges@;
    ranges.push((start, n));
    assert forall|t: int| 0 <= t < parts.len() implies range_holds(
        v@,
        ranges@[t],
        #[trigger] parts[t],
    ) by {
        if t < done.len() {
            assert(ranges@[t] == old_ranges[t]);
            assert(parts[t] == done[t]);
        }
    }
    ranges
}

/// Appends `s` padded with spaces to `width` characters.
pub fn push_padded(out: &mut String, s: &str, width: usize)
    ensures
        final(out)@ == old(out)@ + padded(s@, width as nat),
{
    let n = chars_of(s).len();
    out.append(s);
    let ghost base = out@;
    let mut k = n;
    while k < width
        invariant
            n == s@.len(),
            n <= k,
            k <= width || k == n,
            base == old(out)@ + s@,
            out@ == base + Seq::new((k - n) as nat, |i: int| ' '),
        decreases width - k,
    {
        out.append(" ");
        proof {
            reveal_strlit(" ");
        }
        assert(base + Seq::new((k + 1 - n) as nat, |i: int| ' ') =~= base + Seq::new(
            (k - n) as nat,
            |i: int| ' ',
        ) + " "@);
        k = k + 1;
    }
    assert(out@ =~= old(out)@ + padded(s@, width as nat));
}

/// Appends `n` in decimal.
pub fn push_decimal(s: &mut String, n: u16)
    ensures
        final(s)@ == old(s)@ + decimal(n as nat),
    decreases n,
{
    if n >= 10 {
        push_decimal(s, n / 10);
    }
    let d = (n % 10) as u8;
    push_char(s, (48 + d) as char);
    proof {
        if n < 10 {
            assert(old(s)@ + decimal(n as nat) =~= old(s)@.push(digit_char(n as int)));
        }
    }
}

/// `char::is_whitespace`.
pub fn is_whitespace_char(c: char) -> (r: bool)
    ensures
        r == is_whitespace(c),
{
    let u = c as u32;
    (0x09 <= u && u <= 0x0d) || u == 0x20 || u == 0x85 || u == 0xa0 || u == 0x1680 || (0x2000
        <= u && u <= 0x200a) || u == 0x2028 || u == 0x2029 || u == 0x202f || u == 0x205f || u
        == 0x3000
}

fn strips_char(quote: bool, c: char) -> (r: bool)
    ensures
        r == strips(quote, c),
{
    if quote {
        c == '"'
    } else {
        is_whitespace_char(c)
    }
}

/// The bounds of `v[lo..hi]` once trimmed.
pub fn trim_range(v: &Vec<char>, lo: usize, hi: usize, quote: bool) -> (r: (usize, usize))
    requires
        lo <= hi <= v@.len(),
    ensures
        lo <= r.0 <= r.1 <= hi,
        v@.subrange(r.0 as int, r.1 as int) == trim(v@.subrange(lo as int, hi as int), quote),
{
    let mut a = lo;
    while a < hi && strips_char(quote, v[a])
        invariant
            lo <= a <= hi <= v@.len(),
            trim_start(v@.subrange(lo as int, hi as int), quote) == trim_start(
                v@.subrange(a as int, hi as int),
                quote,
            ),
        decreases hi - a,
    {
        assert(v@.subrange(a as int, hi as int).drop_first() =~= v@.subrange(a + 1, hi as int));
        a = a + 1;
    }
    let mut b = hi;
    while b > a && strips_char(quote, v[b - 1])
        invariant
            lo <= a <= b <= hi <= v@.len(),
            trim_end(v@.subrange(a as int, hi as int), quote) == trim_end(
                v@.subrange(a as int, b as int),
                quote,
            ),
        decreases b - a,
    {
        assert(v@.subrange(a as int, b as int).drop_last() =~= v@.subrange(a as int, b - 1));
        b = b - 1;
    }
    (a, b)
}

/// The index of the first `c` in `v[lo..hi]`, counted from `lo`.
pub fn find_in_range(v: &Vec<char>, lo: usize, hi: usize, c: char) -> (r: Option<usize>)
    requires
        lo <= hi <= v@.len(),
    ensures
        match r {
            Some(i) => find_char(v@.subrange(lo as int, hi as int), c) == Some(i as int) && lo
                + i < hi,
            None => find_char(v@.subrange(lo as int, hi as int), c) is None,
        },
{
    let mut i = lo;
    while i < hi
        invariant
            lo <= i <= hi <= v@.len(),
            find_char(v@.subrange(lo as int, i as int), c) is None,
        decreases hi - i,
    {
        assert(v@.subrange(lo as int, i + 1).drop_last() =~= v@.subrange(lo as int, i as int));
        if v[i] == c {
            proof {
                let s = v@.subrange(lo as int, hi as int);
                assert(s.take(i - lo + 1) =~= v@.subrange(lo as int, i + 1));
                lemma_find_char_prefix(s, i - lo + 1, c);
            }
            return Some(i - lo);
        }
        i = i + 1;
    }
    assert(v@.subrange(lo as int, i as int) =~= v@.subrange(lo as int, hi as int));
    None
}

/// Whether `v[lo..hi]` spells `lit`.
pub fn range_is(v: &Vec<char>, lo: usize, hi: usize, lit: &str) -> (r: bool)
    requires
        lo <= hi <= v@.len(),
    ensures
        r == (v@.subrange(lo as int, hi as int) == lit@),
{
    let w = chars_of(lit);
    if hi - lo != w.len() {
        return false;
    }
    let mut i: usize = 0;
    while i < w.len()
        invariant
            hi - lo == w@.len(),
            w@ == lit@,
            lo <= hi <= v@.len(),
            i <= w@.len(),
            forall|j: int| 0 <= j < i ==> v@[lo + j] == w@[j],
        decreases w@.len() - i,
    {
        if v[lo + i] != w[i] {
            return false;
        }
        i = i + 1;
    }
    assert(v@.subrange(lo as int, hi as int) =~= w@);
    true
}

} // verus!
