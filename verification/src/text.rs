//! Character-level text helpers shared by the other modules: whitespace
//! trimming, decimal rendering, prefix/suffix tests and conversions between
//! `String` and character vectors.
use vstd::prelude::*;

verus! {

/* ----------------------------- whitespace ----------------------------- */

/// The Unicode `White_Space` property, which is what `char::is_whitespace`
/// and `str::trim` test.
pub open spec fn is_ws(c: char) -> bool {
    let u = c as u32;
    ||| (0x9 <= u && u <= 0xd)
    ||| u == 0x20
    ||| u == 0x85
    ||| u == 0xa0
    ||| u == 0x1680
    ||| (0x2000 <= u && u <= 0x200a)
    ||| u == 0x2028
    ||| u == 0x2029
    ||| u == 0x202f
    ||| u == 0x205f
    ||| u == 0x3000
}

/// Executable form of `is_ws`.
pub fn is_whitespace(c: char) -> (b: bool)
    ensures
        b == is_ws(c),
{
    let u = c as u32;
    (0x9 <= u && u <= 0xd) || u == 0x20 || u == 0x85 || u == 0xa0 || u == 0x1680 || (0x2000 <= u
        && u <= 0x200a) || u == 0x2028 || u == 0x2029 || u == 0x202f || u == 0x205f || u == 0x3000
}

/// `s` without its leading whitespace.
pub open spec fn trim_start(s: Seq<char>) -> Seq<char>
    decreases s.len(),
{
    if s.len() > 0 && is_ws(s[0]) {
        trim_start(s.drop_first())
    } else {
        s
    }
}

/// `s` without its trailing whitespace.
pub open spec fn trim_end(s: Seq<char>) -> Seq<char>
    decreases s.len(),
{
    if s.len() > 0 && is_ws(s.last()) {
        trim_end(s.drop_last())
    } else {
        s
    }
}

/// `s` without leading and trailing whitespace (what `str::trim` returns).
pub open spec fn trim(s: Seq<char>) -> Seq<char> {
    trim_end(trim_start(s))
}

/// Number of leading whitespace characters of `s`.
pub open spec fn lead_ws(s: Seq<char>) -> nat
    decreases s.len(),
{
    if s.len() > 0 && is_ws(s[0]) {
        1 + lead_ws(s.drop_first())
    } else {
        0
    }
}

/// Number of trailing whitespace characters of `s`.
pub open spec fn trail_ws(s: Seq<char>) -> nat
    decreases s.len(),
{
    if s.len() > 0 && is_ws(s.last()) {
        1 + trail_ws(s.drop_last())
    } else {
        0
    }
}

proof fn lemma_trim_start_skip(s: Seq<char>)
    ensures
        lead_ws(s) <= s.len(),
        trim_start(s) == s.skip(lead_ws(s) as int),
        forall|i: int| 0 <= i < lead_ws(s) ==> is_ws(#[trigger] s[i]),
        lead_ws(s) < s.len() ==> !is_ws(s[lead_ws(s) as int]),
    decreases s.len(),
{
    if s.len() > 0 && is_ws(s[0]) {
        lemma_trim_start_skip(s.drop_first());
        assert(s.drop_first().skip(lead_ws(s.drop_first()) as int) =~= s.skip(lead_ws(s) as int));
        assert forall|i: int| 0 <= i < lead_ws(s) implies is_ws(#[trigger] s[i]) by {
            if i > 0 {
                assert(s[i] == s.drop_first()[i - 1]);
            }
        }
        if lead_ws(s) < s.len() {
            assert(s[lead_ws(s) as int] == s.drop_first()[lead_ws(s.drop_first()) as int]);
        }
    } else {
        assert(s.skip(0) =~= s);
    }
}

proof fn lemma_trim_end_take(s: Seq<char>)
    ensures
        trail_ws(s) <= s.len(),
        trim_end(s) == s.take(s.len() - trail_ws(s)),
        forall|i: int| s.len() - trail_ws(s) <= i < s.len() ==> is_ws(#[trigger] s[i]),
        trail_ws(s) < s.len() ==> !is_ws(s[s.len() - trail_ws(s) - 1]),
    decreases s.len(),
{
    if s.len() > 0 && is_ws(s.last()) {
        lemma_trim_end_take(s.drop_last());
        assert(s.drop_last().take(s.drop_last().len() - trail_ws(s.drop_last())) =~= s.take(
            s.len() - trail_ws(s),
        ));
        assert forall|i: int| s.len() - trail_ws(s) <= i < s.len() implies is_ws(#[trigger] s[i]) by {
            if i < s.len() - 1 {
                assert(s[i] == s.drop_last()[i]);
            }
        }
        if trail_ws(s) < s.len() {
            assert(s[s.len() - trail_ws(s) - 1] == s.drop_last()[s.drop_last().len() - trail_ws(
                s.drop_last(),
            ) - 1]);
        }
    } else {
        assert(s.take(s.len() as int) =~= s);
    }
}

/// `trim` keeps the characters of `s` between its first and last
/// non-whitespace characters.
pub proof fn lemma_trim_bounds(s: Seq<char>)
    ensures
        trim(s).len() <= s.len(),
        trim(s).len() > 0 ==> !is_ws(trim(s)[0]) && !is_ws(trim(s).last()),
        trim(trim(s)) == trim(s),
{
    lemma_trim_start_skip(s);
    let a = trim_start(s);
    lemma_trim_end_take(a);
    let t = trim(s);
    if t.len() > 0 {
        assert(t[0] == a[0]);
        assert(a[0] == s[lead_ws(s) as int]);
        assert(t.last() == a[a.len() - trail_ws(a) - 1]);
    }
    lemma_trim_start_skip(t);
    lemma_trim_end_take(trim_start(t));
    if t.len() > 0 {
        assert(lead_ws(t) == 0) by {
            reveal_with_fuel(lead_ws, 1);
        }
        assert(trim_start(t) =~= t);
        assert(trail_ws(t) == 0);
        assert(t.take(t.len() as int) =~= t);
    } else {
        assert(trim_start(t) =~= t);
    }
}

/// The characters of `s` without leading and trailing whitespace.
pub fn trim_chars(s: &[char]) -> (r: Vec<char>)
    ensures
        r@ == trim(s@),
{
    proof {
        lemma_trim_start_skip(s@);
    }
    let n = s.len();
    let mut lo: usize = 0;
    while lo < n && is_whitespace(s[lo])
        invariant
            n == s@.len(),
            lo <= lead_ws(s@),
            lead_ws(s@) <= n,
            forall|i: int| 0 <= i < lead_ws(s@) ==> is_ws(#[trigger] s@[i]),
            lead_ws(s@) < n ==> !is_ws(s@[lead_ws(s@) as int]),
        decreases n - lo,
    {
        lo = lo + 1;
    }
    assert(lo == lead_ws(s@));
    let ghost a = s@.skip(lo as int);
    proof {
        lemma_trim_end_take(a);
    }
    let mut hi: usize = n;
    while hi > lo && is_whitespace(s[hi - 1])
        invariant
            n == s@.len(),
            lo <= hi <= n,
            a == s@.skip(lo as int),
            n - hi <= trail_ws(a),
            trail_ws(a) <= a.len(),
            forall|i: int| a.len() - trail_ws(a) <= i < a.len() ==> is_ws(#[trigger] a[i]),
            trail_ws(a) < a.len() ==> !is_ws(a[a.len() - trail_ws(a) - 1]),
        decreases hi,
    {
        assert(s@[hi - 1] == a[hi - 1 - lo]);
        hi = hi - 1;
    }
    if hi > lo {
        assert(s@[hi - 1] == a[hi - 1 - lo]);
    }
    assert(n - hi == trail_ws(a));
    let mut r: Vec<char> = Vec::new();
    let mut i = lo;
    while i < hi
        invariant
            lo <= i <= hi <= n,
            n == s@.len(),
            r@ == s@.subrange(lo as int, i as int),
        decreases hi - i,
    {
        r.push(s[i]);
        i = i + 1;
        assert(r@ =~= s@.subrange(lo as int, i as int));
    }
    assert(r@ =~= a.take(a.len() - trail_ws(a)));
    r
}

/* ----------------------------- conversions ----------------------------- */

/// The characters of `s`, in order.
pub fn to_chars(s: &str) -> (v: Vec<char>)
    ensures
        v@ == s@,
{
    let mut v: Vec<char> = Vec::new();
    for c in it: s.chars()
        invariant
            v@ == it.seq().take(it.index() as int),
            it.seq() == s@,
    {
        v.push(c);
    }
    v
}

/// Appends one character to a `String` (`String::push`).
#[verifier::external_body]
pub(crate) fn push_char(s: &mut String, c: char)
    ensures
        final(s)@ == old(s)@.push(c),
{
    s.push(c);
}

/// Appends characters to a `String`.
pub fn push_chars(out: &mut String, v: &[char])
    ensures
        final(out)@ == old(out)@ + v@,
{
    let mut i: usize = 0;
    while i < v.len()
        invariant
            i <= v@.len(),
            out@ == old(out)@ + v@.take(i as int),
        decreases v.len() - i,
    {
        push_char(out, v[i]);
        i = i + 1;
        assert(old(out)@ + v@.take(i as int) =~= (old(out)@ + v@.take(i - 1)).push(v@[i - 1]));
    }
    assert(v@.take(v@.len() as int) =~= v@);
}

/// A `String` holding the given characters.
pub fn from_chars(v: &[char]) -> (s: String)
    ensures
        s@ == v@,
{
    let mut s = String::new();
    push_chars(&mut s, v);
    assert(Seq::<char>::empty() + v@ =~= v@);
    s
}

/// `s` without leading and trailing whitespace (`str::trim`).
pub fn trim_str(s: &str) -> (r: String)
    ensures
        r@ == trim(s@),
{
    let v = to_chars(s);
    let t = trim_chars(v.as_slice());
    from_chars(t.as_slice())
}

/* ----------------------------- lowercase ----------------------------- */

/// What `str::to_lowercase` returns for a string with the given characters
/// (full Unicode lower-case mapping; a character may map to several).
pub uninterp spec fn lowercase_of(s: Seq<char>) -> Seq<char>;

/// Calls `str::to_lowercase`; its result is named `lowercase_of`.
#[verifier::external_body]
pub(crate) fn to_lowercase(s: &str) -> (r: String)
    ensures
        r@ == lowercase_of(s@),
{
    s.to_lowercase()
}

/* ----------------------------- decimal ----------------------------- */

/// The ASCII digit for `d < 10`.
pub open spec fn digit_char(d: nat) -> char {
    ((d + 48) as u8) as char
}

/// Decimal representation of `n` without leading zeros (`0` is `"0"`).
pub open spec fn dec(n: nat) -> Seq<char>
    decreases n,
{
    if n < 10 {
        seq![digit_char(n)]
    } else {
        dec(n / 10).push(digit_char(n % 10))
    }
}

/// `s` left-padded with `'0'` up to `width` characters.
pub open spec fn zero_pad(s: Seq<char>, width: nat) -> Seq<char> {
    if s.len() < width {
        Seq::new((width - s.len()) as nat, |i: int| '0') + s
    } else {
        s
    }
}

fn digit(d: u64) -> (c: char)
    requires
        d < 10,
    ensures
        c == digit_char(d as nat),
{
    let b: u8 = (d as u8) + 48;
    b as char
}

/// Appends the decimal representation of `n`.
pub fn push_decimal(out: &mut Vec<char>, n: u64)
    ensures
        final(out)@ == old(out)@ + dec(n as nat),
    decreases n,
{
    if n >= 10 {
        push_decimal(out, n / 10);
    }
    out.push(digit(n % 10));
    assert(old(out)@ + dec(n as nat) =~= (if n >= 10 {
        old(out)@ + dec((n / 10) as nat)
    } else {
        old(out)@
    }).push(digit_char((n % 10) as nat)));
}

/// Appends the decimal representation of `n` to a `String`.
pub fn push_decimal_str(out: &mut String, n: u64)
    ensures
        final(out)@ == old(out)@ + dec(n as nat),
{
    let mut v: Vec<char> = Vec::new();
    push_decimal(&mut v, n);
    assert(Seq::<char>::empty() + dec(n as nat) =~= dec(n as nat));
    push_chars(out, v.as_slice());
}

/// Appends the decimal representation of `n`, left-padded with zeros to
/// `width` characters (the `{:0width$}` format of a non-negative number).
pub fn push_padded(out: &mut String, n: u64, width: usize)
    ensures
        final(out)@ == old(out)@ + zero_pad(dec(n as nat), width as nat),
{
    let mut v: Vec<char> = Vec::new();
    push_decimal(&mut v, n);
    assert(v@ =~= dec(n as nat));
    let mut pad: Vec<char> = Vec::new();
    if v.len() < width {
        let k = width - v.len();
        let mut i: usize = 0;
        while i < k
            invariant
                i <= k,
                pad@ == Seq::new(i as nat, |j: int| '0'),
            decreases k - i,
        {
            pad.push('0');
            i = i + 1;
            assert(pad@ =~= Seq::new(i as nat, |j: int| '0'));
        }
    }
    push_chars(out, pad.as_slice());
    push_chars(out, v.as_slice());
    assert(pad@ + v@ =~= zero_pad(dec(n as nat), width as nat));
    assert(old(out)@ + pad@ + v@ =~= old(out)@ + (pad@ + v@));
}

/* ----------------------------- prefixes ----------------------------- */

/// Whether `s` starts with `p`.
pub open spec fn has_prefix(s: Seq<char>, p: Seq<char>) -> bool {
    p.len() <= s.len() && s.take(p.len() as int) == p
}

/// Whether `s` ends with `p`.
pub open spec fn has_suffix(s: Seq<char>, p: Seq<char>) -> bool {
    p.len() <= s.len() && s.skip(s.len() - p.len()) == p
}

/// Executable `has_prefix`.
pub fn starts_with(s: &[char], p: &[char]) -> (b: bool)
    ensures
        b == has_prefix(s@, p@),
{
    if p.len() > s.len() {
        return false;
    }
    let mut i: usize = 0;
    while i < p.len()
        invariant
            p@.len() <= s@.len(),
            i <= p@.len(),
            forall|j: int| 0 <= j < i ==> s@[j] == p@[j],
        decreases p.len() - i,
    {
        if s[i] != p[i] {
            assert(s@.take(p@.len() as int)[i as int] != p@[i as int]);
            return false;
        }
        i = i + 1;
    }
    assert(s@.take(p@.len() as int) =~= p@);
    true
}

/// Executable `has_suffix`.
pub fn ends_with(s: &[char], p: &[char]) -> (b: bool)
    ensures
        b == has_suffix(s@, p@),
{
    if p.len() > s.len() {
        return false;
    }
    let off = s.len() - p.len();
    let mut i: usize = 0;
    while i < p.len()
        invariant
            p@.len() <= s@.len(),
            off == s@.len() - p@.len(),
            s@.len() == s.len(),
            i <= p@.len(),
            forall|j: int| 0 <= j < i ==> s@[off + j] == p@[j],
        decreases p.len() - i,
    {
        if s[off + i] != p[i] {
            assert(s@.skip(off as int)[i as int] != p@[i as int]);
            return false;
        }
        i = i + 1;
    }
    assert(s@.skip(off as int) =~= p@);
    true
}

/// Whether two character sequences are equal.
pub fn chars_eq(a: &[char], b: &[char]) -> (r: bool)
    ensures
        r == (a@ == b@),
{
    if a.len() != b.len() {
        return false;
    }
    let r = starts_with(a, b);
    proof {
        assert(a@.take(b@.len() as int) =~= a@);
    }
    r
}

} // verus!
