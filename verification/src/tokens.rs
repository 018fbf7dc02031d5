//! Whitespace-separated tokens (`str::split_whitespace`), as far as the
//! producers read them: the first and the second token.
use vstd::prelude::*;

use crate::text::{char_is_ws, is_ws, sub_chars, trim_start};

verus! {

/// The number of leading characters of `s` that are not whitespace.
pub open spec fn token_len(s: Seq<char>) -> nat
    decreases s.len(),
{
    if s.len() == 0 || is_ws(s[0]) {
        0
    } else {
        1 + token_len(s.drop_first())
    }
}

/// The first whitespace-separated token of `s` (empty when there is none).
pub open spec fn first_token(s: Seq<char>) -> Seq<char> {
    let t = trim_start(s);
    t.take(token_len(t) as int)
}

/// What follows the first token of `s`.
pub open spec fn after_first_token(s: Seq<char>) -> Seq<char> {
    let t = trim_start(s);
    t.skip(token_len(t) as int)
}

/// The second whitespace-separated token of `s`, where there is one.
pub open spec fn second_token(s: Seq<char>) -> Option<Seq<char>> {
    let u = first_token(after_first_token(s));
    if u.len() == 0 {
        None
    } else {
        Some(u)
    }
}

proof fn lemma_trim_start_at(s: Seq<char>, from: int, i: int)
    requires
        0 <= from <= i <= s.len(),
        forall|k: int| from <= k < i ==> is_ws(#[trigger] s[k]),
        i < s.len() ==> !is_ws(s[i]),
    ensures
        trim_start(s.skip(from)) == s.skip(i),
    decreases i - from,
{
    if i == from {
        let t = s.skip(from);
        if t.len() > 0 {
            assert(t[0] == s[from]);
        }
    } else {
        let t = s.skip(from);
        assert(t[0] == s[from]);
        assert(t.drop_first() =~= s.skip(from + 1));
        lemma_trim_start_at(s, from + 1, i);
    }
}

proof fn lemma_token_len_at(s: Seq<char>, from: int, j: int)
    requires
        0 <= from <= j <= s.len(),
        forall|k: int| from <= k < j ==> !is_ws(#[trigger] s[k]),
        j < s.len() ==> is_ws(s[j]),
    ensures
        token_len(s.skip(from)) == j - from,
    decreases j - from,
{
    let t = s.skip(from);
    if j == from {
        if t.len() > 0 {
            assert(t[0] == s[from]);
        }
    } else {
        assert(t[0] == s[from]);
        assert(t.drop_first() =~= s.skip(from + 1));
        lemma_token_len_at(s, from + 1, j);
    }
}

/// Finds the token that starts at or after `from`: it spans `start..end`.
fn scan_token(s: &Vec<char>, from: usize) -> (r: (usize, usize))
    requires
        from <= s.len(),
    ensures
        from <= r.0 <= r.1 <= s.len(),
        trim_start(s@.skip(from as int)) == s@.skip(r.0 as int),
        token_len(s@.skip(r.0 as int)) == r.1 - r.0,
{
    let mut i = from;
    while i < s.len() && char_is_ws(s[i])
        invariant
            from <= i <= s.len(),
            forall|k: int| from <= k < i ==> is_ws(#[trigger] s@[k]),
        decreases s.len() - i,
    {
        i = i + 1;
    }
    let mut j = i;
    while j < s.len() && !char_is_ws(s[j])
        invariant
            i <= j <= s.len(),
            forall|k: int| i <= k < j ==> !is_ws(#[trigger] s@[k]),
        decreases s.len() - j,
    {
        j = j + 1;
    }
    proof {
        lemma_trim_start_at(s@, from as int, i as int);
        lemma_token_len_at(s@, i as int, j as int);
    }
    (i, j)
}

/// The first token of `s` and, where there is one, the second.
pub fn first_two_tokens(s: &Vec<char>) -> (r: (Vec<char>, Option<Vec<char>>))
    ensures
        r.0@ == first_token(s@),
        match r.1 {
            Some(t) => second_token(s@) == Some(t@),
            None => second_token(s@) is None,
        },
{
    let (a, b) = scan_token(s, 0);
    assert(s@.skip(0) =~= s@);
    let first = sub_chars(s, a, b);
    proof {
        let t = trim_start(s@);
        assert(t.take(token_len(t) as int) =~= s@.subrange(a as int, b as int));
        assert(t.skip(token_len(t) as int) =~= s@.skip(b as int));
    }
    let (c, d) = scan_token(s, b);
    proof {
        let u = trim_start(s@.skip(b as int));
        assert(u.take(token_len(u) as int) =~= s@.subrange(c as int, d as int));
    }
    if c == d {
        (first, None)
    } else {
        (first, Some(sub_chars(s, c, d)))
    }
}

} // verus!
