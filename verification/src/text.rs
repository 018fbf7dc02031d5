//! Character-level text operations with their specifications.
//!
//! Text is handled as `Vec<char>` inside the library; a `String` or `&str`
//! has the same view (`Seq<char>`), so conversions are exact.
use vstd::prelude::*;

verus! {

// ---------------------------------------------------------------------
// Conversions between `str`/`String` and character vectors
// ---------------------------------------------------------------------

/// The characters of `s`, in order.
pub fn chars_of(s: &str) -> (r: Vec<char>)
    ensures
        r@ == s@,
{
    broadcast use vstd::string::axiom_spec_iter;

    let mut r: Vec<char> = Vec::new();
    for c in it: s.chars()
        invariant
            it.seq() == s@,
            r@ == it.seq().take(it.index() as int),
    {
        r.push(c);
    }
    r
}

/// Calls `String::from_iter` over the characters: the result's text is `cs`.
#[verifier::external_body]
pub fn string_of(cs: &Vec<char>) -> (r: String)
    ensures
        r@ == cs@,
{
    cs.iter().collect()
}

// ---------------------------------------------------------------------
// Whitespace and trimming
// ---------------------------------------------------------------------

/// The Unicode `White_Space` property (what `char::is_whitespace` tests).
pub open spec fn is_ws(c: char) -> bool {
    ||| c == '\t'
    ||| c == '\n'
    ||| c == '\u{0B}'
    ||| c == '\u{0C}'
    ||| c == '\r'
    ||| c == ' '
    ||| c == '\u{85}'
    ||| c == '\u{A0}'
    ||| c == '\u{1680}'
    ||| ('\u{2000}' <= c && c <= '\u{200A}')
    ||| c == '\u{2028}'
    ||| c == '\u{2029}'
    ||| c == '\u{202F}'
    ||| c == '\u{205F}'
    ||| c == '\u{3000}'
}

pub fn char_is_ws(c: char) -> (r: bool)
    ensures
        r == is_ws(c),
{
    c == '\t' || c == '\n' || c == '\u{0B}' || c == '\u{0C}' || c == '\r' || c == ' ' || c
        == '\u{85}' || c == '\u{A0}' || c == '\u{1680}' || ('\u{2000}' <= c && c <= '\u{200A}')
        || c == '\u{2028}' || c == '\u{2029}' || c == '\u{202F}' || c == '\u{205F}' || c
        == '\u{3000}'
}

/// `s` without its leading whitespace.
pub open spec fn trim_start(s: Seq<char>) -> Seq<char>
    decreases s.len(),
{
    if s.len() > 0 && is_ws(s[0]) {
        trim_start(s.drop_first())
    } else {
        s
    }
}

/// `s` without its trailing whitespace.
pub open spec fn trim_end(s: Seq<char>) -> Seq<char>
    decreases s.len(),
{
    if s.len() > 0 && is_ws(s.last()) {
        trim_end(s.drop_last())
    } else {
        s
    }
}

/// `s` without leading and trailing whitespace (`str::trim`).
pub open spec fn trim(s: Seq<char>) -> Seq<char> {
    trim_end(trim_start(s))
}

proof fn lemma_trim_start_skip(s: Seq<char>, i: int)
    requires
        0 <= i <= s.len(),
        forall|k: int| 0 <= k < i ==> is_ws(#[trigger] s[k]),
        i < s.len() ==> !is_ws(s[i]),
    ensures
        trim_start(s) == s.skip(i),
    decreases i,
{
    if i == 0 {
        assert(s.skip(0) =~= s);
    } else {
        lemma_trim_start_skip(s.drop_first(), i - 1);
        assert(s.drop_first().skip(i - 1) =~= s.skip(i));
    }
}

proof fn lemma_trim_end_take(s: Seq<char>, j: int)
    requires
        0 <= j <= s.len(),
        forall|k: int| j <= k < s.len() ==> is_ws(#[trigger] s[k]),
        j > 0 ==> !is_ws(s[j - 1]),
    ensures
        trim_end(s) == s.take(j),
    decreases s.len() - j,
{
    if j == s.len() {
        assert(s.take(j) =~= s);
    } else {
        lemma_trim_end_take(s.drop_last(), j);
        assert(s.drop_last().take(j) =~= s.take(j));
    }
}

/// The characters of `s` from `start` up to (not including) `end`.
pub fn sub_chars(s: &Vec<char>, start: usize, end: usize) -> (r: Vec<char>)
    requires
        start <= end <= s.len(),
    ensures
        r@ == s@.subrange(start as int, end as int),
{
    let mut r: Vec<char> = Vec::new();
    let mut i = start;
    while i < end
        invariant
            start <= i <= end <= s.len(),
            r@ == s@.subrange(start as int, i as int),
        decreases end - i,
    {
        r.push(s[i]);
        i = i + 1;
    }
    r
}

/// `str::trim`: removes leading and trailing Unicode whitespace.
pub fn trim_chars(s: &Vec<char>) -> (r: Vec<char>)
    ensures
        r@ == trim(s@),
{
    let n = s.len();
    let mut i: usize = 0;
    while i < n && char_is_ws(s[i])
        invariant
            i <= n == s.len(),
            forall|k: int| 0 <= k < i ==> is_ws(#[trigger] s@[k]),
        decreases n - i,
    {
        i = i + 1;
    }
    proof {
        lemma_trim_start_skip(s@, i as int);
    }
    let mut j: usize = n;
    while j > i && char_is_ws(s[j - 1])
        invariant
            i <= j <= n == s.len(),
            forall|k: int| j <= k < n ==> is_ws(#[trigger] s@[k]),
        decreases j,
    {
        j = j - 1;
    }
    let r = sub_chars(s, i, j);
    proof {
        let t = s@.skip(i as int);
        assert forall|k: int| (j - i) <= k < t.len() implies is_ws(#[trigger] t[k]) by {
            assert(t[k] == s@[k + i]);
        }
        if j > i {
            assert(t[j - i - 1] == s@[j - 1]);
        }
        lemma_trim_end_take(t, j - i);
        assert(t.take(j - i) =~= s@.subrange(i as int, j as int));
    }
    r
}

// ---------------------------------------------------------------------
// Prefixes, occurrences and searching
// ---------------------------------------------------------------------

/// `p` occurs in `s` starting at index `i`.
pub open spec fn occurs_at(s: Seq<char>, p: Seq<char>, i: int) -> bool {
    0 <= i && i + p.len() <= s.len() && s.subrange(i, i + p.len()) == p
}

/// `s` starts with `p` (`str::starts_with`).
pub open spec fn has_prefix(s: Seq<char>, p: Seq<char>) -> bool {
    occurs_at(s, p, 0)
}

/// `s` ends with `p` (`str::ends_with`).
pub open spec fn has_suffix(s: Seq<char>, p: Seq<char>) -> bool {
    p.len() <= s.len() && occurs_at(s, p, s.len() - p.len())
}

/// `p` occurs somewhere in `s` (`str::contains`).
pub open spec fn contains_seq(s: Seq<char>, p: Seq<char>) -> bool {
    exists|i: int| occurs_at(s, p, i)
}

pub fn occurs_at_exec(s: &Vec<char>, p: &Vec<char>, i: usize) -> (r: bool)
    ensures
        r == occurs_at(s@, p@, i as int),
{
    if i > s.len() || p.len() > s.len() - i {
        return false;
    }
    let mut k: usize = 0;
    while k < p.len()
        invariant
            i + p.len() <= s.len(),
            k <= p.len(),
            forall|m: int| 0 <= m < k ==> s@[i + m] == p@[m],
        decreases p.len() - k,
    {
        if s[i + k] != p[k] {
            proof {
                assert(s@.subrange(i as int, i + p.len())[k as int] != p@[k as int]);
            }
            return false;
        }
        k = k + 1;
    }
    assert(s@.subrange(i as int, i + p.len()) =~= p@);
    true
}

pub fn ends_with(s: &Vec<char>, p: &Vec<char>) -> (r: bool)
    ensures
        r == has_suffix(s@, p@),
{
    if p.len() > s.len() {
        return false;
    }
    occurs_at_exec(s, p, s.len() - p.len())
}

pub fn starts_with(s: &Vec<char>, p: &Vec<char>) -> (r: bool)
    ensures
        r == has_prefix(s@, p@),
{
    occurs_at_exec(s, p, 0)
}

pub fn contains(s: &Vec<char>, p: &Vec<char>) -> (r: bool)
    ensures
        r == contains_seq(s@, p@),
{
    if p.len() > s.len() {
        return false;
    }
    if p.len() == 0 {
        assert(s@.subrange(0, 0) =~= p@);
        assert(occurs_at(s@, p@, 0));
        return true;
    }
    let last = s.len() - p.len();
    let mut i: usize = 0;
    while i <= last
        invariant
            last + p.len() == s.len(),
            p.len() > 0,
            forall|j: int| 0 <= j < i ==> !occurs_at(s@, p@, j),
        decreases last + 1 - i,
    {
        if occurs_at_exec(s, p, i) {
            return true;
        }
        i = i + 1;
    }
    false
}

/// The last index at which `p` occurs in `s` (`str::rfind`).
pub open spec fn last_occurrence(s: Seq<char>, p: Seq<char>) -> Option<int>
    decreases s.len(),
{
    if s.len() < p.len() {
        None
    } else if occurs_at(s, p, s.len() - p.len()) {
        Some(s.len() - p.len())
    } else if s.len() == 0 {
        None
    } else {
        last_occurrence(s.drop_last(), p)
    }
}

proof fn lemma_last_occurrence_take(s: Seq<char>, p: Seq<char>, k: int)
    requires
        p.len() <= k <= s.len(),
        forall|j: int| k - p.len() < j ==> !occurs_at(s, p, j),
    ensures
        last_occurrence(s, p) == last_occurrence(s.take(k), p),
    decreases s.len() - k,
{
    if k == s.len() {
        assert(s.take(k) =~= s);
    } else {
        assert(!occurs_at(s, p, s.len() - p.len()));
        assert(s.len() > 0);
        let d = s.drop_last();
        assert forall|j: int| k - p.len() < j implies !occurs_at(d, p, j) by {
            if occurs_at(d, p, j) {
                assert(d.subrange(j, j + p.len()) =~= s.subrange(j, j + p.len()));
                assert(occurs_at(s, p, j));
            }
        }
        lemma_last_occurrence_take(d, p, k);
        assert(d.take(k) =~= s.take(k));
    }
}

pub fn rfind(s: &Vec<char>, p: &Vec<char>) -> (r: Option<usize>)
    ensures
        match r {
            Some(i) => last_occurrence(s@, p@) == Some(i as int),
            None => last_occurrence(s@, p@) is None,
        },
{
    if p.len() > s.len() {
        return None;
    }
    if p.len() == 0 {
        assert(s@.subrange(s.len() as int, s.len() as int) =~= p@);
        return Some(s.len());
    }
    let mut i: usize = s.len() - p.len() + 1;
    while i > 0
        invariant
            i <= s.len() - p.len() + 1,
            forall|j: int| i <= j ==> !occurs_at(s@, p@, j),
        decreases i,
    {
        if occurs_at_exec(s, p, i - 1) {
            proof {
                lemma_last_occurrence_take(s@, p@, i - 1 + p.len());
                let t = s@.take(i - 1 + p.len());
                assert(t.subrange(i - 1, i - 1 + p.len()) =~= s@.subrange(i - 1, i - 1 + p.len()));
            }
            return Some(i - 1);
        }
        i = i - 1;
    }
    proof {
        lemma_last_occurrence_none(s@, p@);
    }
    None
}

proof fn lemma_last_occurrence_none(s: Seq<char>, p: Seq<char>)
    requires
        forall|j: int| 0 <= j ==> !occurs_at(s, p, j),
    ensures
        last_occurrence(s, p) is None,
    decreases s.len(),
{
    if s.len() >= p.len() && s.len() > 0 {
        let d = s.drop_last();
        assert forall|j: int| 0 <= j implies !occurs_at(d, p, j) by {
            if occurs_at(d, p, j) {
                assert(d.subrange(j, j + p.len()) =~= s.subrange(j, j + p.len()));
                assert(occurs_at(s, p, j));
            }
        }
        lemma_last_occurrence_none(d, p);
    }
}

/// The part of `s` before the first `c`, or all of `s` when it holds no `c`
/// (what `s.split(c).next()` gives).
pub open spec fn before_char(s: Seq<char>, c: char) -> Seq<char>
    decreases s.len(),
{
    if s.len() == 0 {
        s
    } else if s[0] == c {
        Seq::empty()
    } else {
        seq![s[0]] + before_char(s.drop_first(), c)
    }
}

proof fn lemma_before_char(s: Seq<char>, c: char, i: int)
    requires
        0 <= i <= s.len(),
        forall|k: int| 0 <= k < i ==> #[trigger] s[k] != c,
        i < s.len() ==> s[i] == c,
    ensures
        before_char(s, c) == s.take(i),
    decreases i,
{
    if i == 0 {
        if s.len() == 0 {
            assert(s.take(0) =~= s);
        } else {
            assert(s.take(0) =~= Seq::<char>::empty());
        }
    } else {
        lemma_before_char(s.drop_first(), c, i - 1);
        assert(seq![s[0]] + s.drop_first().take(i - 1) =~= s.take(i));
    }
}

pub fn before_char_exec(s: &Vec<char>, c: char) -> (r: Vec<char>)
    ensures
        r@ == before_char(s@, c),
{
    let mut i: usize = 0;
    while i < s.len() && s[i] != c
        invariant
            i <= s.len(),
            forall|k: int| 0 <= k < i ==> #[trigger] s@[k] != c,
        decreases s.len() - i,
    {
        i = i + 1;
    }
    proof {
        lemma_before_char(s@, c, i as int);
    }
    let r = sub_chars(s, 0, i);
    assert(s@.subrange(0, i as int) =~= s@.take(i as int));
    r
}

// ---------------------------------------------------------------------
// Replacing
// ---------------------------------------------------------------------

/// Every non-overlapping occurrence of `p` in `s`, scanned from the left,
/// replaced by `rep` (`str::replace` with a non-empty pattern).
pub open spec fn replace_all(s: Seq<char>, p: Seq<char>, rep: Seq<char>) -> Seq<char>
    recommends
        p.len() > 0,
    decreases s.len(),
{
    if s.len() == 0 || p.len() == 0 {
        s
    } else if occurs_at(s, p, 0) {
        rep + replace_all(s.skip(p.len() as int), p, rep)
    } else {
        seq![s[0]] + replace_all(s.drop_first(), p, rep)
    }
}

pub fn replace_all_exec(s: &Vec<char>, p: &Vec<char>, rep: &Vec<char>) -> (r: Vec<char>)
    requires
        p.len() > 0,
    ensures
        r@ == replace_all(s@, p@, rep@),
{
    let mut out: Vec<char> = Vec::new();
    let mut i: usize = 0;
    assert(s@.skip(0) =~= s@);
    while i < s.len()
        invariant
            i <= s.len(),
            p.len() > 0,
            out@ + replace_all(s@.skip(i as int), p@, rep@) == replace_all(s@, p@, rep@),
        decreases s.len() - i,
    {
        let ghost t = s@.skip(i as int);
        if occurs_at_exec(s, p, i) {
            proof {
                assert(t.subrange(0, p.len() as int) =~= s@.subrange(i as int, i + p.len()));
                assert(t.skip(p.len() as int) =~= s@.skip(i + p.len()));
            }
            let mut k: usize = 0;
            let ghost before = out@;
            while k < rep.len()
                invariant
                    k <= rep.len(),
                    out@ == before + rep@.take(k as int),
                decreases rep.len() - k,
            {
                out.push(rep[k]);
                k = k + 1;
                assert(rep@.take(k as int) =~= rep@.take(k - 1) + seq![rep@[k - 1]]);
            }
            assert(rep@.take(rep.len() as int) =~= rep@);
            assert(out@ + replace_all(s@.skip(i + p.len()), p@, rep@) =~= before + (rep@
                + replace_all(t.skip(p.len() as int), p@, rep@)));
            i = i + p.len();
        } else {
            proof {
                if occurs_at(t, p@, 0) {
                    assert(t.subrange(0, p.len() as int) =~= s@.subrange(i as int, i + p.len()));
                }
                assert(t.drop_first() =~= s@.skip(i + 1));
            }
            let ghost before = out@;
            out.push(s[i]);
            assert(out@ + replace_all(s@.skip(i + 1), p@, rep@) =~= before + (seq![t[0]]
                + replace_all(t.drop_first(), p@, rep@)));
            i = i + 1;
        }
    }
    assert(s@.skip(s.len() as int) =~= Seq::<char>::empty());
    assert(out@ + Seq::<char>::empty() =~= out@);
    out
}

// ---------------------------------------------------------------------
// Small conveniences
// ---------------------------------------------------------------------

/// Appends the characters of `tail` to `out`.
pub fn push_all(out: &mut Vec<char>, tail: &Vec<char>)
    ensures
        final(out)@ == old(out)@ + tail@,
{
    let mut k: usize = 0;
    let ghost before = old(out)@;
    while k < tail.len()
        invariant
            k <= tail.len(),
            out@ == before + tail@.take(k as int),
        decreases tail.len() - k,
    {
        out.push(tail[k]);
        k = k + 1;
        assert(tail@.take(k as int) =~= tail@.take(k - 1) + seq![tail@[k - 1]]);
    }
    assert(tail@.take(tail.len() as int) =~= tail@);
}

/// Character-wise equality of two texts.
pub fn chars_eq(a: &Vec<char>, b: &Vec<char>) -> (r: bool)
    ensures
        r == (a@ == b@),
{
    if a.len() != b.len() {
        return false;
    }
    let mut i: usize = 0;
    while i < a.len()
        invariant
            a.len() == b.len(),
            i <= a.len(),
            forall|k: int| 0 <= k < i ==> a@[k] == b@[k],
        decreases a.len() - i,
    {
        if a[i] != b[i] {
            return false;
        }
        i = i + 1;
    }
    assert(a@ =~= b@);
    true
}

/// Equality of two string slices.
pub fn str_eq(a: &str, b: &str) -> (r: bool)
    ensures
        r == (a@ == b@),
{
    chars_eq(&chars_of(a), &chars_of(b))
}

/// ASCII lower-casing of one character; other characters are kept.
pub open spec fn ascii_lower(c: char) -> u32 {
    if 65 <= (c as u32) <= 90 {
        (c as u32 + 32) as u32
    } else {
        c as u32
    }
}

/// Equality up to ASCII case (`str::eq_ignore_ascii_case`).
pub open spec fn eq_ignore_ascii_case(a: Seq<char>, b: Seq<char>) -> bool {
    a.len() == b.len() && forall|i: int| 0 <= i < a.len() ==> ascii_lower(a[i]) == ascii_lower(b[i])
}

fn ascii_lower_exec(c: char) -> (r: u32)
    ensures
        r == ascii_lower(c),
{
    let v = c as u32;
    if 65 <= v && v <= 90 {
        v + 32
    } else {
        v
    }
}

pub fn eq_ignore_ascii_case_exec(a: &Vec<char>, b: &Vec<char>) -> (r: bool)
    ensures
        r == eq_ignore_ascii_case(a@, b@),
{
    if a.len() != b.len() {
        return false;
    }
    let mut i: usize = 0;
    while i < a.len()
        invariant
            a.len() == b.len(),
            i <= a.len(),
            forall|k: int| 0 <= k < i ==> ascii_lower(a@[k]) == ascii_lower(b@[k]),
        decreases a.len() - i,
    {
        if ascii_lower_exec(a[i]) != ascii_lower_exec(b[i]) {
            return false;
        }
        i = i + 1;
    }
    true
}

/// Where `last_occurrence` finds `p`, `p` occurs there and fits in `s`.
pub proof fn lemma_last_occurrence_bounds(s: Seq<char>, p: Seq<char>)
    ensures
        last_occurrence(s, p) matches Some(i) ==> occurs_at(s, p, i),
    decreases s.len(),
{
    if s.len() >= p.len() && !occurs_at(s, p, s.len() - p.len()) && s.len() > 0 {
        lemma_last_occurrence_bounds(s.drop_last(), p);
        if let Some(i) = last_occurrence(s.drop_last(), p) {
            assert(s.drop_last().subrange(i, i + p.len()) =~= s.subrange(i, i + p.len()));
        }
    }
}

/// The last occurrence is an occurrence with none after it; none is found
/// only where `p` does not occur.
pub proof fn lemma_last_occurrence_exact(s: Seq<char>, p: Seq<char>)
    ensures
        match last_occurrence(s, p) {
            Some(i) => occurs_at(s, p, i) && forall|j: int| i < j ==> !#[trigger] occurs_at(s, p, j),
            None => forall|j: int| !#[trigger] occurs_at(s, p, j),
        },
    decreases s.len(),
{
    if s.len() >= p.len() && !occurs_at(s, p, s.len() - p.len()) && s.len() > 0 {
        let d = s.drop_last();
        lemma_last_occurrence_exact(d, p);
        assert forall|j: int| j != s.len() - p.len() implies #[trigger] occurs_at(s, p, j) == occurs_at(d, p, j) by {
            if 0 <= j && j + p.len() <= d.len() {
                assert(s.subrange(j, j + p.len()) =~= d.subrange(j, j + p.len()));
            }
        }
    }
}

/// `s` without all the copies of `c` it starts with (`str::trim_start_matches`
/// with a character).
pub open spec fn strip_leading(s: Seq<char>, c: char) -> Seq<char>
    decreases s.len(),
{
    if s.len() > 0 && s[0] == c {
        strip_leading(s.drop_first(), c)
    } else {
        s
    }
}

proof fn lemma_strip_leading_skip(s: Seq<char>, c: char, i: int)
    requires
        0 <= i <= s.len(),
        forall|k: int| 0 <= k < i ==> #[trigger] s[k] == c,
        i < s.len() ==> s[i] != c,
    ensures
        strip_leading(s, c) == s.skip(i),
    decreases i,
{
    if i == 0 {
        assert(s.skip(0) =~= s);
    } else {
        lemma_strip_leading_skip(s.drop_first(), c, i - 1);
        assert(s.drop_first().skip(i - 1) =~= s.skip(i));
    }
}

pub fn strip_leading_exec(s: &Vec<char>, c: char) -> (r: Vec<char>)
    ensures
        r@ == strip_leading(s@, c),
{
    let mut i: usize = 0;
    while i < s.len() && s[i] == c
        invariant
            i <= s.len(),
            forall|k: int| 0 <= k < i ==> #[trigger] s@[k] == c,
        decreases s.len() - i,
    {
        i = i + 1;
    }
    proof {
        lemma_strip_leading_skip(s@, c, i as int);
    }
    let r = sub_chars(s, i, s.len());
    assert(s@.subrange(i as int, s.len() as int) =~= s@.skip(i as int));
    r
}

/// The text a JSON document is parsed from: without leading byte-order
/// marks, then trimmed.
pub open spec fn clean_json_text(s: Seq<char>) -> Seq<char> {
    trim(strip_leading(s, '\u{FEFF}'))
}

pub fn clean_json_text_exec(s: &str) -> (r: String)
    ensures
        r@ == clean_json_text(s@),
{
    let cs = chars_of(s);
    string_of(&trim_chars(&strip_leading_exec(&cs, '\u{FEFF}')))
}

/// `s` without one trailing carriage return.
pub open spec fn strip_cr(s: Seq<char>) -> Seq<char> {
    if s.len() > 0 && s.last() == '\r' {
        s.drop_last()
    } else {
        s
    }
}

pub proof fn lemma_before_char_len(s: Seq<char>, c: char)
    ensures
        before_char(s, c).len() <= s.len(),
        before_char(s, c).len() < s.len() ==> s[before_char(s, c).len() as int] == c,
        forall|k: int| 0 <= k < before_char(s, c).len() ==> #[trigger] s[k] != c,
        before_char(s, c) == s.take(before_char(s, c).len() as int),
    decreases s.len(),
{
    if s.len() > 0 && s[0] != c {
        lemma_before_char_len(s.drop_first(), c);
        let b = before_char(s.drop_first(), c);
        assert forall|k: int| 0 <= k < before_char(s, c).len() implies #[trigger] s[k] != c by {
            if k > 0 {
                assert(s.drop_first()[k - 1] == s[k]);
            }
        }
        assert(seq![s[0]] + s.drop_first().take(b.len() as int) =~= s.take((b.len() + 1) as int));
    } else if s.len() > 0 {
        assert(s.take(0) =~= Seq::<char>::empty());
    } else {
        assert(s.take(0) =~= s);
    }
}

/// The lines of `s` as `str::lines` yields them: split at `\n`, a `\r`
/// before the `\n` dropped, no empty line after a final `\n`.
pub open spec fn text_lines(s: Seq<char>) -> Seq<Seq<char>>
    decreases s.len(),
{
    if s.len() == 0 {
        Seq::empty()
    } else {
        let b = before_char(s, '\n');
        if b.len() >= s.len() {
            seq![s]
        } else {
            proof {
                lemma_before_char_len(s, '\n');
            }
            seq![strip_cr(b)] + text_lines(s.skip((b.len() + 1) as int))
        }
    }
}

/// `str::lines`.
pub fn split_lines(s: &Vec<char>) -> (lines: Vec<Vec<char>>)
    ensures
        lines@.map_values(|l: Vec<char>| l@) == text_lines(s@),
{
    let mut lines: Vec<Vec<char>> = Vec::new();
    let mut pos: usize = 0;
    assert(s@.skip(0) =~= s@);
    assert(lines@.map_values(|l: Vec<char>| l@) + text_lines(s@.skip(0)) =~= text_lines(s@));
    while pos < s.len()
        invariant
            pos <= s.len(),
            lines@.map_values(|l: Vec<char>| l@) + text_lines(s@.skip(pos as int)) == text_lines(s@),
        decreases s.len() - pos,
    {
        let ghost rest = s@.skip(pos as int);
        let mut k = pos;
        while k < s.len() && s[k] != '\n'
            invariant
                pos <= k <= s.len(),
                forall|m: int| pos <= m < k ==> #[trigger] s@[m] != '\n',
            decreases s.len() - k,
        {
            k = k + 1;
        }
        proof {
            lemma_before_char(rest, '\n', k - pos);
            assert(rest.take(k - pos) =~= s@.subrange(pos as int, k as int));
        }
        let ghost before = lines@.map_values(|l: Vec<char>| l@);
        if k == s.len() {
            let line = sub_chars(s, pos, k);
            assert(line@ =~= rest);
            lines.push(line);
            assert(lines@.map_values(|l: Vec<char>| l@) =~= before.push(rest));
            assert(s@.skip(k as int) =~= Seq::<char>::empty());
            assert(text_lines(rest) == seq![rest]);
            assert(before.push(rest) =~= before + seq![rest]);
            pos = k;
        } else {
            let mut end = k;
            if end > pos && s[end - 1] == '\r' {
                end = end - 1;
            }
            let line = sub_chars(s, pos, end);
            let ghost b = s@.subrange(pos as int, k as int);
            assert(line@ =~= strip_cr(b));
            lines.push(line);
            assert(rest.skip((b.len() + 1) as int) =~= s@.skip(k + 1));
            assert(text_lines(rest) == seq![strip_cr(b)] + text_lines(s@.skip(k + 1)));
            assert(lines@.map_values(|l: Vec<char>| l@) =~= before.push(strip_cr(b)));
            assert(before.push(strip_cr(b)) + text_lines(s@.skip(k + 1)) =~= before + (seq![strip_cr(b)] + text_lines(s@.skip(k + 1))));
            pos = k + 1;
        }
    }
    assert(s@.skip(s.len() as int) =~= Seq::<char>::empty());
    assert(lines@.map_values(|l: Vec<char>| l@) + Seq::<Seq<char>>::empty() =~= lines@.map_values(|l: Vec<char>| l@));
    lines
}

// ---------------------------------------------------------------------
// Characters, first occurrences, splitting
// ---------------------------------------------------------------------

/// Whether `s` holds the character `c`.
pub fn has_char(s: &Vec<char>, c: char) -> (r: bool)
    ensures
        r == s@.contains(c),
{
    let mut i: usize = 0;
    while i < s.len()
        invariant
            i <= s.len(),
            forall|k: int| 0 <= k < i ==> s@[k] != c,
        decreases s.len() - i,
    {
        if s[i] == c {
            assert(s@[i as int] == c);
            return true;
        }
        i = i + 1;
    }
    false
}

/// The index of the first occurrence of a non-empty `p` in `s`
/// (`str::find`).
#[verifier::opaque]
pub open spec fn first_occurrence(s: Seq<char>, p: Seq<char>) -> Option<int> {
    if exists|i: int| occurs_at(s, p, i) {
        Some(choose|i: int| occurs_at(s, p, i) && forall|j: int| 0 <= j < i ==> !occurs_at(s, p, j))
    } else {
        None
    }
}

/// Finds the first occurrence of `p` in `s`.
pub fn find_first(s: &Vec<char>, p: &Vec<char>) -> (r: Option<usize>)
    ensures
        match r {
            Some(i) => first_occurrence(s@, p@) == Some(i as int) && occurs_at(s@, p@, i as int),
            None => first_occurrence(s@, p@) is None,
        },
{
    let n = s.len();
    let mut i: usize = 0;
    loop
        invariant
            i <= n == s.len(),
            forall|j: int| 0 <= j < i ==> !occurs_at(s@, p@, j),
        decreases n - i,
    {
        if p.len() <= n - i && occurs_at_exec(s, p, i) {
            proof {
                reveal(first_occurrence);
                let w = choose|w: int|
                    occurs_at(s@, p@, w) && forall|j: int| 0 <= j < w ==> !occurs_at(s@, p@, j);
                assert(occurs_at(s@, p@, i as int));
                if w < i {
                } else if w > i {
                    assert(!occurs_at(s@, p@, i as int));
                }
            }
            return Some(i);
        }
        if i == n {
            proof {
                reveal(first_occurrence);
                assert forall|j: int| !occurs_at(s@, p@, j) by {
                    if 0 <= j && j + p@.len() <= s@.len() {
                        assert(j <= i);
                        if j == i {
                            assert(p.len() <= n - i);
                        }
                    }
                }
            }
            return None;
        }
        i = i + 1;
    }
}

/// The pieces of `s` between the occurrences of `c` (`str::split` with a
/// character): one more piece than there are `c`.
pub open spec fn split_on(s: Seq<char>, c: char) -> Seq<Seq<char>>
    decreases s.len(),
{
    if s.len() == 0 {
        seq![Seq::empty()]
    } else {
        let rest = split_on(s.drop_last(), c);
        if s.last() == c {
            rest.push(Seq::empty())
        } else {
            rest.update(rest.len() - 1, rest.last().push(s.last()))
        }
    }
}

proof fn lemma_split_on_nonempty(s: Seq<char>, c: char)
    ensures
        split_on(s, c).len() > 0,
    decreases s.len(),
{
    if s.len() > 0 {
        lemma_split_on_nonempty(s.drop_last(), c);
    }
}

/// Splits `s` at every `c`.
pub fn split_on_char(s: &Vec<char>, c: char) -> (r: Vec<Vec<char>>)
    ensures
        r@.map_values(|v: Vec<char>| v@) == split_on(s@, c),
{
    let mut r: Vec<Vec<char>> = Vec::new();
    let mut cur: Vec<char> = Vec::new();
    let mut i: usize = 0;
    assert(s@.take(0) =~= Seq::<char>::empty());
    assert(r@.map_values(|v: Vec<char>| v@).push(cur@) =~= split_on(s@.take(0), c));
    while i < s.len()
        invariant
            i <= s.len(),
            r@.map_values(|v: Vec<char>| v@).push(cur@) == split_on(s@.take(i as int), c),
        decreases s.len() - i,
    {
        let ghost prev = split_on(s@.take(i as int), c);
        assert(s@.take(i + 1).drop_last() =~= s@.take(i as int));
        assert(s@.take(i + 1).last() == s@[i as int]);
        proof {
            lemma_split_on_nonempty(s@.take(i as int), c);
        }
        if s[i] == c {
            let ghost before = r@.map_values(|v: Vec<char>| v@);
            let done = cur;
            r.push(done);
            cur = Vec::new();
            assert(r@.map_values(|v: Vec<char>| v@) =~= before.push(done@));
            assert(r@.map_values(|v: Vec<char>| v@).push(cur@) =~= prev.push(Seq::empty()));
        } else {
            cur.push(s[i]);
            assert(r@.map_values(|v: Vec<char>| v@).push(cur@) =~= prev.update(prev.len() - 1, prev.last().push(s@[i as int])));
        }
        i = i + 1;
    }
    assert(s@.take(s.len() as int) =~= s@);
    let ghost before = r@.map_values(|v: Vec<char>| v@);
    r.push(cur);
    assert(r@.map_values(|v: Vec<char>| v@) =~= before.push(cur@));
    r
}

} // verus!
