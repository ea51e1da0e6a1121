//! Font names: the family name of an installed font's registry entry and
//! the test on its file name.
use vstd::prelude::*;

use crate::text::{
    chars_eq, from_chars, has_suffix, is_whitespace, is_ws, lowercase_of, push_chars, to_chars,
    to_lowercase, trim, trim_chars, trim_str, ends_with,
};

verus! {

/* ----------------------------- font files ----------------------------- */

/// Whether a file name (any case) ends in `.ttf`, `.ttc` or `.otf`.
pub open spec fn font_file_name(name: Seq<char>) -> bool {
    let l = lowercase_of(name);
    has_suffix(l, ".ttf"@) || has_suffix(l, ".ttc"@) || has_suffix(l, ".otf"@)
}

/// Whether a lower-case file name ends in `.ttf`, `.ttc` or `.otf`.
pub fn has_font_extension(lower: &str) -> (r: bool)
    ensures
        r == (has_suffix(lower@, ".ttf"@) || has_suffix(lower@, ".ttc"@) || has_suffix(lower@, ".otf"@)),
{
    let v = to_chars(lower);
    let ttf = to_chars(".ttf");
    let ttc = to_chars(".ttc");
    let otf = to_chars(".otf");
    ends_with(v.as_slice(), ttf.as_slice()) || ends_with(v.as_slice(), ttc.as_slice()) || ends_with(
        v.as_slice(),
        otf.as_slice(),
    )
}

/// Whether `file_name` names a TrueType or OpenType font file.
pub fn is_font_file(file_name: &str) -> (r: bool)
    ensures
        r == font_file_name(file_name@),
{
    let lower = to_lowercase(file_name);
    has_font_extension(lower.as_str())
}

/* ----------------------------- family names ----------------------------- */

/// Whether `p` occurs in `s` at index `i`.
pub open spec fn occurs_at(s: Seq<char>, p: Seq<char>, i: int) -> bool {
    0 <= i && i + p.len() <= s.len() && s.subrange(i, i + p.len()) == p
}

/// The last index below `n` at which `p` occurs in `s`.
pub open spec fn last_occurrence_below(s: Seq<char>, p: Seq<char>, n: int) -> Option<int>
    decreases n,
{
    if n <= 0 {
        None
    } else if occurs_at(s, p, n - 1) {
        Some(n - 1)
    } else {
        last_occurrence_below(s, p, n - 1)
    }
}

/// The last index at which `p` occurs in `s` (what `str::rfind` finds).
pub open spec fn last_occurrence(s: Seq<char>, p: Seq<char>) -> Option<int> {
    last_occurrence_below(s, p, s.len() as int)
}

/// `s` without a trailing parenthesised note: when `s` ends with `)`, it
/// is cut before the last ` (`, or else before the last `(`.
pub open spec fn strip_note(s: Seq<char>) -> Seq<char> {
    if s.len() > 0 && s.last() == ')' {
        match last_occurrence(s, " ("@) {
            Some(i) => s.take(i),
            None => match last_occurrence(s, seq!['(']) {
                Some(i) => s.take(i),
                None => s,
            },
        }
    } else {
        s
    }
}

/// The words of `s`: its maximal runs of non-whitespace characters
/// (what `str::split_whitespace` yields).
pub open spec fn words(s: Seq<char>) -> Seq<Seq<char>>
    decreases s.len(),
{
    if s.len() == 0 {
        Seq::empty()
    } else {
        let w = words(s.drop_last());
        let c = s.last();
        if is_ws(c) {
            w
        } else if s.len() >= 2 && !is_ws(s[s.len() - 2]) {
            w.drop_last().push(w.last().push(c))
        } else {
            w.push(seq![c])
        }
    }
}

/// Whether a lower-case word is a style word (stripped from the end of a
/// family name).
pub open spec fn is_style_word(w: Seq<char>) -> bool {
    ||| w == "regular"@
    ||| w == "bold"@
    ||| w == "italic"@
    ||| w == "oblique"@
    ||| w == "light"@
    ||| w == "extralight"@
    ||| w == "thin"@
    ||| w == "black"@
    ||| w == "medium"@
    ||| w == "semibold"@
    ||| w == "semilight"@
    ||| w == "extrabold"@
    ||| w == "heavy"@
    ||| w == "book"@
    ||| w == "roman"@
    ||| w == "condensed"@
    ||| w == "narrow"@
}

/// `parts` without its trailing style words; the first word always stays.
pub open spec fn strip_styles(parts: Seq<Seq<char>>) -> Seq<Seq<char>>
    decreases parts.len(),
{
    if parts.len() > 1 && is_style_word(lowercase_of(parts.last())) {
        strip_styles(parts.drop_last())
    } else {
        parts
    }
}

/// The words of `parts` joined with single spaces.
pub open spec fn join_words(parts: Seq<Seq<char>>) -> Seq<char>
    decreases parts.len(),
{
    if parts.len() == 0 {
        Seq::empty()
    } else if parts.len() == 1 {
        parts[0]
    } else {
        join_words(parts.drop_last()) + " "@ + parts.last()
    }
}

/// The family name of a font registry value name: trimmed, without its
/// parenthesised note and trailing style words; `None` when nothing is left.
pub open spec fn family_of(value_name: Seq<char>) -> Option<Seq<char>> {
    let s1 = trim(value_name);
    if s1.len() == 0 {
        None
    } else {
        let s2 = trim(strip_note(s1));
        if s2.len() == 0 {
            None
        } else {
            let f = trim(join_words(strip_styles(words(s2))));
            if f.len() == 0 {
                None
            } else {
                Some(f)
            }
        }
    }
}

fn occurs_here(s: &Vec<char>, p: &Vec<char>, i: usize) -> (r: bool)
    ensures
        r == occurs_at(s@, p@, i as int),
{
    if i > s.len() || p.len() > s.len() - i {
        return false;
    }
    let end: usize = i + p.len();
    let mut k: usize = 0;
    while k < p.len()
        invariant
            end == i + p@.len(),
            end <= s.len(),
            i + p@.len() <= s@.len(),
            k <= p@.len(),
            forall|j: int| 0 <= j < k ==> s@[i + j] == p@[j],
        decreases p.len() - k,
    {
        if s[i + k] != p[k] {
            assert(s@.subrange(i as int, i + p@.len())[k as int] != p@[k as int]);
            return false;
        }
        k = k + 1;
    }
    assert(s@.subrange(i as int, i + p@.len()) =~= p@);
    true
}

fn rfind(s: &Vec<char>, p: &Vec<char>) -> (r: Option<usize>)
    ensures
        match r {
            Some(i) => last_occurrence(s@, p@) == Some(i as int) && occurs_at(s@, p@, i as int),
            None => last_occurrence(s@, p@) is None,
        },
{
    let mut n = s.len();
    while n > 0
        invariant
            n <= s@.len(),
            last_occurrence(s@, p@) == last_occurrence_below(s@, p@, n as int),
        decreases n,
    {
        if occurs_here(s, p, n - 1) {
            return Some(n - 1);
        }
        n = n - 1;
    }
    None
}

fn take_chars(v: &Vec<char>, n: usize) -> (r: Vec<char>)
    requires
        n <= v@.len(),
    ensures
        r@ == v@.take(n as int),
{
    let mut r: Vec<char> = Vec::new();
    let mut i: usize = 0;
    while i < n
        invariant
            i <= n,
            n <= v@.len(),
            r@ == v@.take(i as int),
        decreases n - i,
    {
        r.push(v[i]);
        i = i + 1;
        assert(r@ =~= v@.take(i as int));
    }
    r
}

fn strip_note_chars(s: Vec<char>) -> (r: Vec<char>)
    ensures
        r@ == strip_note(s@),
{
    if s.len() > 0 && s[s.len() - 1] == ')' {
        let sp = to_chars(" (");
        match rfind(&s, &sp) {
            Some(i) => take_chars(&s, i),
            None => {
                let mut open: Vec<char> = Vec::new();
                open.push('(');
                assert(open@ =~= seq!['(']);
                match rfind(&s, &open) {
                    Some(i) => take_chars(&s, i),
                    None => s,
                }
            },
        }
    } else {
        s
    }
}

#[verifier::spinoff_prover]
fn split_words(s: &Vec<char>) -> (r: Vec<Vec<char>>)
    ensures
        r@.len() == words(s@).len(),
        forall|k: int| 0 <= k < r@.len() ==> #[trigger] r@[k]@ == words(s@)[k],
{
    let mut out: Vec<Vec<char>> = Vec::new();
    let mut cur: Vec<char> = Vec::new();
    let mut i: usize = 0;
    while i < s.len()
        invariant
            i <= s@.len(),
            ({
                let w = words(s@.take(i as int));
                let in_word = i > 0 && !is_ws(s@[i - 1]);
                &&& in_word ==> w.len() == out@.len() + 1 && w.last() == cur@
                &&& !in_word ==> w.len() == out@.len() && cur@.len() == 0
                &&& forall|k: int| 0 <= k < out@.len() ==> #[trigger] out@[k]@ == w[k]
            }),
        decreases s.len() - i,
    {
        let c = s[i];
        let ghost pre = s@.take(i as int);
        assert(s@.take(i + 1).drop_last() =~= pre);
        if i > 0 {
            assert(s@.take(i + 1)[i - 1] == s@[i - 1]);
        }
        if is_whitespace(c) {
            if cur.len() > 0 {
                let mut done: Vec<char> = Vec::new();
                std::mem::swap(&mut done, &mut cur);
                out.push(done);
            }
        } else {
            cur.push(c);
        }
        i = i + 1;
        proof {
            let w = words(s@.take(i as int));
            let wp = words(pre);
            assert forall|k: int| 0 <= k < out@.len() implies #[trigger] out@[k]@ == w[k] by {
                if k < wp.len() - 1 || (k < wp.len() && !(i > 1 && !is_ws(s@[i - 2]))) {
                    assert(w[k] == wp[k]);
                }
            }
        }
    }
    if cur.len() > 0 {
        out.push(cur);
    }
    assert(s@.take(i as int) =~= s@);
    out
}

fn is_word(v: &Vec<char>, w: &str) -> (r: bool)
    ensures
        r == (v@ == w@),
{
    let x = to_chars(w);
    chars_eq(v.as_slice(), x.as_slice())
}

/// Whether a lower-case word is a style word (see `is_style_word`).
pub fn is_style_name(lower: &str) -> (r: bool)
    ensures
        r == is_style_word(lower@),
{
    let v = to_chars(lower);
    is_word(&v, "regular") || is_word(&v, "bold") || is_word(&v, "italic") || is_word(&v, "oblique")
        || is_word(&v, "light") || is_word(&v, "extralight") || is_word(&v, "thin") || is_word(
        &v,
        "black",
    ) || is_word(&v, "medium") || is_word(&v, "semibold") || is_word(&v, "semilight") || is_word(
        &v,
        "extrabold",
    ) || is_word(&v, "heavy") || is_word(&v, "book") || is_word(&v, "roman") || is_word(
        &v,
        "condensed",
    ) || is_word(&v, "narrow")
}

fn is_style(word: &Vec<char>) -> (r: bool)
    ensures
        r == is_style_word(lowercase_of(word@)),
{
    let w = from_chars(word.as_slice());
    let lower = to_lowercase(w.as_str());
    is_style_name(lower.as_str())
}

/// The family name of a font registry value name such as
/// `Arial Bold (TrueType)` (`Arial`); see `family_of`.
#[verifier::spinoff_prover]
pub fn font_value_to_family(value_name: &str) -> (r: Option<String>)
    ensures
        match r {
            Some(f) => family_of(value_name@) == Some(f@),
            None => family_of(value_name@) is None,
        },
{
    let v = to_chars(value_name);
    let s1 = trim_chars(v.as_slice());
    if s1.len() == 0 {
        return None;
    }
    let s2n = strip_note_chars(s1);
    let s2 = trim_chars(s2n.as_slice());
    if s2.len() == 0 {
        return None;
    }
    let mut parts = split_words(&s2);
    let ghost w = words(s2@);
    let ghost mut pv = w;
    while parts.len() > 1 && is_style(&parts[parts.len() - 1])
        invariant
            pv.len() == parts@.len(),
            forall|k: int| 0 <= k < parts@.len() ==> #[trigger] parts@[k]@ == pv[k],
            strip_styles(pv) == strip_styles(w),
        decreases parts.len(),
    {
        proof {
            assert(pv.last() == parts@[parts@.len() - 1]@);
        }
        parts.pop();
        proof {
            pv = pv.drop_last();
        }
    }
    assert(strip_styles(pv) == pv);
    let mut joined: Vec<char> = Vec::new();
    let mut k: usize = 0;
    while k < parts.len()
        invariant
            k <= parts@.len(),
            pv.len() == parts@.len(),
            forall|x: int| 0 <= x < parts@.len() ==> #[trigger] parts@[x]@ == pv[x],
            joined@ == join_words(pv.take(k as int)),
        decreases parts.len() - k,
    {
        let ghost prev = joined@;
        if k > 0 {
            joined.push(' ');
        }
        let part = &parts[k];
        let mut c: usize = 0;
        let ghost base = joined@;
        while c < part.len()
            invariant
                c <= part@.len(),
                joined@ == base + part@.take(c as int),
            decreases part.len() - c,
        {
            joined.push(part[c]);
            c = c + 1;
            assert(joined@ =~= base + part@.take(c as int));
        }
        assert(part@.take(c as int) =~= part@);
        proof {
            let t = pv.take(k + 1);
            assert(t.drop_last() =~= pv.take(k as int));
            assert(t.last() == pv[k as int]);
            if k == 0 {
                assert(join_words(t) == t[0]);
                assert(joined@ =~= join_words(t));
            } else {
                reveal_strlit(" ");
                assert(" "@ =~= seq![' ']);
                assert(base =~= prev + " "@);
                assert(joined@ =~= prev + " "@ + pv[k as int]);
            }
        }
        k = k + 1;
    }
    assert(pv.take(k as int) =~= pv);
    let f = trim_chars(joined.as_slice());
    if f.len() == 0 {
        None
    } else {
        Some(from_chars(f.as_slice()))
    }
}

/* ----------------------------- installed families ----------------------------- */

/// The parts of `s` between `&` characters (what `str::split('&')` yields).
pub open spec fn amp_parts(s: Seq<char>) -> Seq<Seq<char>>
    decreases s.len(),
{
    if s.len() == 0 {
        seq![Seq::empty()]
    } else {
        let p = amp_parts(s.drop_last());
        if s.last() == '&' {
            p.push(Seq::empty())
        } else {
            p.drop_last().push(p.last().push(s.last()))
        }
    }
}

proof fn lemma_amp_parts_nonempty(s: Seq<char>)
    ensures
        amp_parts(s).len() >= 1,
    decreases s.len(),
{
    if s.len() > 0 {
        lemma_amp_parts_nonempty(s.drop_last());
    }
}

/// The family names of some registry parts, in order (parts that give no
/// family are skipped).
pub open spec fn families_of_parts(parts: Seq<Seq<char>>) -> Seq<Seq<char>>
    decreases parts.len(),
{
    if parts.len() == 0 {
        Seq::empty()
    } else {
        let prev = families_of_parts(parts.drop_last());
        match family_of(parts.last()) {
            Some(f) => prev.push(f),
            None => prev,
        }
    }
}

/// The family names of registry entries `(value name, file name)`, in
/// order: entries whose file is not a TrueType or OpenType font are
/// skipped; a value name `A & B` names two families.
pub open spec fn entry_families(entries: Seq<(String, String)>) -> Seq<Seq<char>>
    decreases entries.len(),
{
    if entries.len() == 0 {
        Seq::empty()
    } else {
        let prev = entry_families(entries.drop_last());
        let (value, file) = entries.last();
        if font_file_name(file@) {
            prev + families_of_parts(amp_parts(value@))
        } else {
            prev
        }
    }
}

/// Whether some name in `s` has the same lower-case form as `f`.
pub open spec fn has_fold(s: Seq<Seq<char>>, f: Seq<char>) -> bool {
    exists|j: int| 0 <= j < s.len() && lowercase_of(#[trigger] s[j]) == lowercase_of(f)
}

/// `s` without the names whose lower-case form occurred earlier.
pub open spec fn dedup_folded(s: Seq<Seq<char>>) -> Seq<Seq<char>>
    decreases s.len(),
{
    if s.len() == 0 {
        Seq::empty()
    } else {
        let prev = dedup_folded(s.drop_last());
        if has_fold(s.drop_last(), s.last()) {
            prev
        } else {
            prev.push(s.last())
        }
    }
}

/// Lexicographic order of character sequences by code point (the order of
/// `String`).
pub open spec fn lex_lt(a: Seq<char>, b: Seq<char>) -> bool
    decreases a.len(),
{
    if a.len() == 0 {
        b.len() > 0
    } else if b.len() == 0 {
        false
    } else if a[0] != b[0] {
        a[0] < b[0]
    } else {
        lex_lt(a.drop_first(), b.drop_first())
    }
}

proof fn lemma_lex_irrefl_asym(a: Seq<char>, b: Seq<char>)
    ensures
        !lex_lt(a, a),
        lex_lt(a, b) ==> !lex_lt(b, a),
        a != b ==> lex_lt(a, b) || lex_lt(b, a),
    decreases a.len(),
{
    if a.len() > 0 {
        lemma_lex_irrefl_asym(a.drop_first(), a.drop_first());
    }
    if a.len() == 0 && b.len() == 0 {
        assert(a =~= b);
    } else if a.len() > 0 && b.len() > 0 {
        if a[0] == b[0] {
            lemma_lex_irrefl_asym(a.drop_first(), b.drop_first());
            if a.drop_first() =~= b.drop_first() {
                assert forall|k: int| 0 <= k < a.len() implies a[k] == b[k] by {
                    if k > 0 {
                        assert(a[k] == a.drop_first()[k - 1]);
                        assert(b[k] == b.drop_first()[k - 1]);
                    }
                }
                assert(a =~= b);
            }
        } else {
            assert(a[0] < b[0] || b[0] < a[0]);
        }
    }
}

proof fn lemma_lex_trans(a: Seq<char>, b: Seq<char>, c: Seq<char>)
    requires
        lex_lt(a, b),
        lex_lt(b, c),
    ensures
        lex_lt(a, c),
    decreases a.len(),
{
    if a.len() > 0 && b.len() > 0 && c.len() > 0 && a[0] == b[0] && b[0] == c[0] {
        lemma_lex_trans(a.drop_first(), b.drop_first(), c.drop_first());
    }
}

fn lex_less(a: &Vec<char>, b: &Vec<char>) -> (r: bool)
    ensures
        r == lex_lt(a@, b@),
{
    let mut i: usize = 0;
    assert(a@.skip(0) =~= a@);
    assert(b@.skip(0) =~= b@);
    while i < a.len() && i < b.len() && a[i] == b[i]
        invariant
            i <= a@.len(),
            i <= b@.len(),
            lex_lt(a@, b@) == lex_lt(a@.skip(i as int), b@.skip(i as int)),
        decreases a.len() - i,
    {
        assert(a@.skip(i as int).drop_first() =~= a@.skip(i + 1));
        assert(b@.skip(i as int).drop_first() =~= b@.skip(i + 1));
        i = i + 1;
    }
    if i == a.len() {
        i < b.len()
    } else if i == b.len() {
        false
    } else {
        a[i] < b[i]
    }
}

/// Whether names are in strictly increasing order of their lower-case
/// forms.
pub open spec fn sorted_folded(s: Seq<Seq<char>>) -> bool {
    forall|a: int, b: int| 0 <= a < b < s.len() ==> lex_lt(lowercase_of(s[a]), lowercase_of(s[b]))
}

proof fn lemma_dedup_folds(s: Seq<Seq<char>>, f: Seq<char>)
    ensures
        has_fold(dedup_folded(s), f) == has_fold(s, f),
    decreases s.len(),
{
    if s.len() > 0 {
        let p = s.drop_last();
        lemma_dedup_folds(p, f);
        lemma_dedup_folds(p, s.last());
        let d = dedup_folded(s);
        let dp = dedup_folded(p);
        if has_fold(s, f) {
            let j = choose|j: int| 0 <= j < s.len() && lowercase_of(#[trigger] s[j]) == lowercase_of(f);
            if j < s.len() - 1 {
                assert(p[j] == s[j]);
                assert(has_fold(p, f));
                let k = choose|k: int| 0 <= k < dp.len() && lowercase_of(#[trigger] dp[k]) == lowercase_of(f);
                assert(d[k] == dp[k]);
            } else if has_fold(p, s.last()) {
                let k = choose|k: int| 0 <= k < dp.len() && lowercase_of(#[trigger] dp[k]) == lowercase_of(s.last());
                assert(d[k] == dp[k]);
            } else {
                assert(d[dp.len() as int] == s.last());
            }
        }
        if has_fold(d, f) {
            let k = choose|k: int| 0 <= k < d.len() && lowercase_of(#[trigger] d[k]) == lowercase_of(f);
            if k < dp.len() {
                assert(d[k] == dp[k]);
                let j = choose|j: int| 0 <= j < p.len() && lowercase_of(#[trigger] p[j]) == lowercase_of(f);
                assert(s[j] == p[j]);
            } else {
                assert(s[s.len() - 1] == s.last());
            }
        }
    }
}

/// The texts of some strings.
pub open spec fn string_views(v: Seq<String>) -> Seq<Seq<char>> {
    Seq::new(v.len(), |k: int| v[k]@)
}

/// Inserts family `f` unless a family with the same lower-case form is
/// there; `out` stays in increasing order of lower-case forms, `keys`
/// holds those forms.
#[verifier::loop_isolation(false)]
#[verifier::spinoff_prover]
fn add_family(out: &mut Vec<String>, keys: &mut Vec<Vec<char>>, f: String, Ghost(cands): Ghost<Seq<Seq<char>>>)
    requires
        old(out)@.len() == old(keys)@.len(),
        forall|k: int| 0 <= k < old(keys)@.len() ==> (#[trigger] old(keys)@[k])@ == lowercase_of(old(out)@[k]@),
        sorted_folded(string_views(old(out)@)),
        string_views(old(out)@).to_multiset() == dedup_folded(cands).to_multiset(),
        forall|g: Seq<char>| #[trigger] has_fold(string_views(old(out)@), g) == has_fold(cands, g),
    ensures
        final(out)@.len() == final(keys)@.len(),
        forall|k: int| 0 <= k < final(keys)@.len() ==> (#[trigger] final(keys)@[k])@ == lowercase_of(final(out)@[k]@),
        sorted_folded(string_views(final(out)@)),
        string_views(final(out)@).to_multiset() == dedup_folded(cands.push(f@)).to_multiset(),
        forall|g: Seq<char>| #[trigger] has_fold(string_views(final(out)@), g) == has_fold(cands.push(f@), g),
{
    broadcast use vstd::seq_lib::group_to_multiset_ensures;
    let lower = to_lowercase(f.as_str());
    let key = to_chars(lower.as_str());
    let ghost ov = string_views(out@);
    let ghost c2 = cands.push(f@);
    assert(c2.drop_last() =~= cands);
    let mut i: usize = 0;
    while i < keys.len()
        invariant
            i <= keys@.len(),
            keys@.len() == out@.len(),
            forall|k: int| 0 <= k < i ==> (#[trigger] keys@[k])@ != key@,
        decreases keys.len() - i,
    {
        if chars_eq(keys[i].as_slice(), key.as_slice()) {
            proof {
                assert(ov[i as int] == out@[i as int]@);
                assert(lowercase_of(ov[i as int]) == lowercase_of(f@));
                assert(has_fold(ov, f@));
                assert(has_fold(cands, f@));
                assert forall|g: Seq<char>| #[trigger] has_fold(string_views(out@), g) == has_fold(c2, g) by {
                    if has_fold(c2, g) {
                        let j = choose|j: int| 0 <= j < c2.len() && lowercase_of(#[trigger] c2[j]) == lowercase_of(g);
                        if j == cands.len() {
                            let m = choose|m: int| 0 <= m < cands.len() && lowercase_of(#[trigger] cands[m]) == lowercase_of(f@);
                            assert(lowercase_of(cands[m]) == lowercase_of(g));
                        } else {
                            assert(cands[j] == c2[j]);
                        }
                    }
                    if has_fold(cands, g) {
                        let j = choose|j: int| 0 <= j < cands.len() && lowercase_of(#[trigger] cands[j]) == lowercase_of(g);
                        assert(c2[j] == cands[j]);
                    }
                }
            }
            return;
        }
        i = i + 1;
    }
    assert(!has_fold(ov, f@)) by {
        if has_fold(ov, f@) {
            let j = choose|j: int| 0 <= j < ov.len() && lowercase_of(#[trigger] ov[j]) == lowercase_of(f@);
            assert(keys@[j]@ == lowercase_of(out@[j]@));
        }
    }
    let mut pos: usize = 0;
    while pos < keys.len() && !lex_less(&key, &keys[pos])
        invariant
            pos <= keys@.len(),
            keys@.len() == out@.len(),
            forall|k: int| 0 <= k < pos ==> !lex_lt(key@, (#[trigger] keys@[k])@),
        decreases keys.len() - pos,
    {
        pos = pos + 1;
    }
    let ghost ok = keys@;
    let ghost oo = out@;
    out.insert(pos, f);
    keys.insert(pos, key);
    proof {
        let nv = string_views(out@);
        assert(nv =~= ov.insert(pos as int, c2.last()));
        assert forall|k: int| 0 <= k < keys@.len() implies (#[trigger] keys@[k])@ == lowercase_of(out@[k]@) by {
            if k < pos {
                assert(keys@[k] == ok[k] && out@[k] == oo[k]);
            } else if k > pos {
                assert(keys@[k] == ok[k - 1] && out@[k] == oo[k - 1]);
            }
        }
        assert forall|a: int, b: int| 0 <= a < b < nv.len() implies lex_lt(lowercase_of(nv[a]), lowercase_of(nv[b])) by {
            let ka = keys@[a]@;
            let kb = keys@[b]@;
            assert(nv[a] == out@[a]@ && nv[b] == out@[b]@);
            if b < pos {
                assert(ov[a] == oo[a]@ && ov[b] == oo[b]@);
            } else if b == pos {
                assert(ka == ok[a]@);
                lemma_lex_irrefl_asym(key@, ka);
                assert(ka != key@);
            } else if a < pos {
                assert(kb == ok[b - 1]@);
                assert(ka == ok[a]@);
                assert(ov[a] == oo[a]@ && ov[b - 1] == oo[b - 1]@);
                assert(lex_lt(key@, ok[pos as int]@));
                lemma_lex_irrefl_asym(key@, ka);
                assert(ka != key@);
                if pos < b - 1 {
                    assert(lex_lt(lowercase_of(ov[pos as int]), lowercase_of(ov[b - 1])));
                    assert(ov[pos as int] == oo[pos as int]@);
                    lemma_lex_trans(key@, ok[pos as int]@, kb);
                }
                lemma_lex_trans(ka, key@, kb);
            } else if a == pos {
                assert(kb == ok[b - 1]@);
                assert(lex_lt(key@, ok[pos as int]@));
                if pos < b - 1 {
                    assert(lex_lt(lowercase_of(ov[pos as int]), lowercase_of(ov[b - 1])));
                    assert(ov[pos as int] == oo[pos as int]@ && ov[b - 1] == oo[b - 1]@);
                    lemma_lex_trans(key@, ok[pos as int]@, kb);
                }
            } else {
                assert(ov[a - 1] == oo[a - 1]@ && ov[b - 1] == oo[b - 1]@);
            }
        }
        assert(dedup_folded(c2) == dedup_folded(cands).push(f@));
        assert forall|g: Seq<char>| #[trigger] has_fold(nv, g) == has_fold(c2, g) by {
            if has_fold(nv, g) {
                let j = choose|j: int| 0 <= j < nv.len() && lowercase_of(#[trigger] nv[j]) == lowercase_of(g);
                if j == pos {
                    assert(c2[cands.len() as int] == f@);
                } else {
                    let jo = if j < pos { j } else { j - 1 };
                    assert(nv[j] == ov[jo]);
                    assert(has_fold(ov, g));
                    let m = choose|m: int| 0 <= m < cands.len() && lowercase_of(#[trigger] cands[m]) == lowercase_of(g);
                    assert(c2[m] == cands[m]);
                }
            }
            if has_fold(c2, g) {
                let j = choose|j: int| 0 <= j < c2.len() && lowercase_of(#[trigger] c2[j]) == lowercase_of(g);
                if j == cands.len() {
                    assert(nv[pos as int] == f@);
                } else {
                    assert(cands[j] == c2[j]);
                    assert(has_fold(cands, g));
                    assert(has_fold(ov, g));
                    let m = choose|m: int| 0 <= m < ov.len() && lowercase_of(#[trigger] ov[m]) == lowercase_of(g);
                    let mn = if m < pos { m } else { m + 1 };
                    assert(nv[mn] == ov[m]);
                }
            }
        }
    }
}

/// The parts of `s` between `&` characters (see `amp_parts`).
pub fn split_amp(s: &str) -> (r: Vec<String>)
    ensures
        string_views(r@) == amp_parts(s@),
{
    let v = to_chars(s);
    let mut out: Vec<String> = Vec::new();
    let mut cur: Vec<char> = Vec::new();
    let mut i: usize = 0;
    while i < v.len()
        invariant
            i <= v@.len(),
            v@ == s@,
            string_views(out@).push(cur@) == amp_parts(v@.take(i as int)),
        decreases v.len() - i,
    {
        let ghost pre = v@.take(i as int);
        assert(v@.take(i + 1).drop_last() =~= pre);
        let ghost p = amp_parts(pre);
        if v[i] == '&' {
            let done = from_chars(cur.as_slice());
            out.push(done);
            cur = Vec::new();
            assert(string_views(out@).push(cur@) =~= p.push(Seq::empty()));
        } else {
            cur.push(v[i]);
            assert(string_views(out@) =~= p.drop_last());
            assert(string_views(out@).push(cur@) =~= p.drop_last().push(p.last().push(v@[i as int])));
        }
        i = i + 1;
    }
    assert(v@.take(i as int) =~= v@);
    let last = from_chars(cur.as_slice());
    out.push(last);
    assert(string_views(out@) =~= amp_parts(s@));
    out
}

/// The installed font families named by registry entries `(value name,
/// file name)` (see `entry_families`): names that differ only in case are
/// kept once (the first), and the result is in increasing order of the
/// lower-case names.
#[verifier::spinoff_prover]
pub fn collect_families(entries: &[(String, String)]) -> (r: Vec<String>)
    ensures
        sorted_folded(string_views(r@)),
        string_views(r@).to_multiset() == dedup_folded(entry_families(entries@)).to_multiset(),
{
    let mut out: Vec<String> = Vec::new();
    let mut keys: Vec<Vec<char>> = Vec::new();
    let ghost mut cands: Seq<Seq<char>> = Seq::empty();
    assert(string_views(out@) =~= Seq::<Seq<char>>::empty());
    let mut t: usize = 0;
    while t < entries.len()
        invariant
            t <= entries@.len(),
            cands == entry_families(entries@.take(t as int)),
            out@.len() == keys@.len(),
            forall|k: int| 0 <= k < keys@.len() ==> (#[trigger] keys@[k])@ == lowercase_of(out@[k]@),
            sorted_folded(string_views(out@)),
            string_views(out@).to_multiset() == dedup_folded(cands).to_multiset(),
            forall|g: Seq<char>| #[trigger] has_fold(string_views(out@), g) == has_fold(cands, g),
        decreases entries.len() - t,
    {
        let ghost pre = entries@.take(t as int);
        assert(entries@.take(t + 1).drop_last() =~= pre);
        if is_font_file(entries[t].1.as_str()) {
            let parts = split_amp(entries[t].0.as_str());
            let ghost base = cands;
            let ghost pv = string_views(parts@);
            let mut q: usize = 0;
            assert(base + families_of_parts(pv.take(0)) =~= base);
            while q < parts.len()
                invariant
                    q <= parts@.len(),
                    pv == string_views(parts@),
                    cands == base + families_of_parts(pv.take(q as int)),
                    out@.len() == keys@.len(),
                    forall|k: int| 0 <= k < keys@.len() ==> (#[trigger] keys@[k])@ == lowercase_of(out@[k]@),
                    sorted_folded(string_views(out@)),
                    string_views(out@).to_multiset() == dedup_folded(cands).to_multiset(),
                    forall|g: Seq<char>| #[trigger] has_fold(string_views(out@), g) == has_fold(cands, g),
                decreases parts.len() - q,
            {
                assert(pv.take(q + 1).drop_last() =~= pv.take(q as int));
                assert(pv[q as int] == parts@[q as int]@);
                match font_value_to_family(parts[q].as_str()) {
                    Some(f) => {
                        add_family(&mut out, &mut keys, f, Ghost(cands));
                        proof {
                            assert(base + families_of_parts(pv.take(q + 1)) =~= (base + families_of_parts(pv.take(q as int))).push(f@));
                            cands = cands.push(f@);
                        }
                    },
                    None => {},
                }
                q = q + 1;
            }
            assert(pv.take(q as int) =~= pv);
            assert(pv == amp_parts(entries@[t as int].0@));
        }
        t = t + 1;
    }
    assert(entries@.take(t as int) =~= entries@);
    out
}

/// Stripping style words never removes the first word: a single style
/// word stays a family name.
pub proof fn lemma_strip_styles_keeps_first(parts: Seq<Seq<char>>)
    requires
        parts.len() >= 1,
    ensures
        1 <= strip_styles(parts).len() <= parts.len(),
        strip_styles(parts)[0] == parts[0],
        strip_styles(parts) == parts.take(strip_styles(parts).len() as int),
    decreases parts.len(),
{
    if parts.len() > 1 && is_style_word(lowercase_of(parts.last())) {
        lemma_strip_styles_keeps_first(parts.drop_last());
        let r = strip_styles(parts.drop_last());
        assert(parts.drop_last().take(r.len() as int) =~= parts.take(r.len() as int));
    } else {
        assert(parts.take(parts.len() as int) =~= parts);
    }
}

/// A trailing style word is dropped from a family name: when the last of at
/// least two words is, in lower case, one of regular, bold, italic,
/// oblique, light, extralight, thin, black, medium, semibold, semilight,
/// extrabold, heavy, book, roman, condensed or narrow, the family is that
/// of the words before it.
pub proof fn lemma_style_words_are_dropped(parts: Seq<Seq<char>>, w: Seq<char>)
    requires
        parts.len() >= 1,
        ({
            let l = lowercase_of(w);
            ||| l == "regular"@
            ||| l == "bold"@
            ||| l == "italic"@
            ||| l == "oblique"@
            ||| l == "light"@
            ||| l == "extralight"@
            ||| l == "thin"@
            ||| l == "black"@
            ||| l == "medium"@
            ||| l == "semibold"@
            ||| l == "semilight"@
            ||| l == "extrabold"@
            ||| l == "heavy"@
            ||| l == "book"@
            ||| l == "roman"@
            ||| l == "condensed"@
            ||| l == "narrow"@
        }),
    ensures
        strip_styles(parts.push(w)) == strip_styles(parts),
{
    assert(parts.push(w).drop_last() =~= parts);
    assert(parts.push(w).last() == w);
}

} // verus!
