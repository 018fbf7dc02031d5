//! Regular expressions (the `regex` crate) and Unicode lower-casing (std).
use regex::Regex;
use vstd::prelude::*;

verus! {

/// The capture groups (group 0 first; `None` for a group that took no
/// part) of the leftmost match of `pattern` in `text`, as
/// `Regex::captures` finds it; `None` where there is no match or the pattern
/// does not compile.
pub uninterp spec fn regex_captures(pattern: Seq<char>, text: Seq<char>) -> Option<
    Seq<Option<Seq<char>>>,
>;

/// The capture groups of every successive non-overlapping match of
/// `pattern` in `text`, as `Regex::captures_iter` yields them; empty where
/// the pattern does not compile.
pub uninterp spec fn regex_captures_all(pattern: Seq<char>, text: Seq<char>) -> Seq<
    Seq<Option<Seq<char>>>,
>;

/// The start (a byte offset into `text`) of the leftmost match of `pattern`
/// in `text` and the matched text, as `Regex::find` reports them; `None` where there is none or the pattern
/// does not compile.
pub uninterp spec fn regex_find(pattern: Seq<char>, text: Seq<char>) -> Option<(nat, Seq<char>)>;

/// `text` with every non-overlapping match of `pattern` replaced by `rep`
/// (`Regex::replace_all`); `None` where the pattern does not compile.
pub uninterp spec fn regex_replaced(pattern: Seq<char>, text: Seq<char>, rep: Seq<char>) -> Option<
    Seq<char>,
>;

/// What `str::to_lowercase` gives for `text`.
pub uninterp spec fn unicode_lowercase(text: Seq<char>) -> Seq<char>;

pub open spec fn is_separator(c: char) -> bool {
    c == '-' || c == '_' || c == '.'
}

/// `s` without the separators (`-`, `_`, `.`) it starts with.
pub open spec fn skip_separators(s: Seq<char>) -> Seq<char>
    decreases s.len(),
{
    if s.len() > 0 && is_separator(s[0]) {
        skip_separators(s.drop_first())
    } else {
        s
    }
}

/// `s` with every run of `-`, `_` and `.` replaced by one `-`.
pub open spec fn collapse_separators(s: Seq<char>) -> Seq<char>
    decreases s.len(),
{
    if s.len() == 0 {
        s
    } else if is_separator(s[0]) {
        proof {
            lemma_skip_separators_shorter(s);
        }
        seq!['-'] + collapse_separators(skip_separators(s))
    } else {
        seq![s[0]] + collapse_separators(s.drop_first())
    }
}

pub proof fn lemma_skip_separators_shorter(s: Seq<char>)
    requires
        s.len() > 0 && is_separator(s[0]),
    ensures
        skip_separators(s).len() < s.len(),
    decreases s.len(),
{
    lemma_skip_separators_no_longer(s.drop_first());
}

pub proof fn lemma_skip_separators_no_longer(s: Seq<char>)
    ensures
        skip_separators(s).len() <= s.len(),
    decreases s.len(),
{
    if s.len() > 0 && is_separator(s[0]) {
        lemma_skip_separators_no_longer(s.drop_first());
    }
}

/// No `_` or `.`, and no two `-` in a row.
pub open spec fn separators_collapsed(t: Seq<char>) -> bool {
    &&& forall|i: int| 0 <= i < t.len() ==> #[trigger] t[i] != '_' && t[i] != '.'
    &&& forall|i: int| 0 <= i < t.len() - 1 ==> !(#[trigger] t[i] == '-' && t[i + 1] == '-')
}

proof fn lemma_skip_separators_start(s: Seq<char>)
    ensures
        skip_separators(s).len() == 0 || !is_separator(skip_separators(s)[0]),
    decreases s.len(),
{
    if s.len() > 0 && is_separator(s[0]) {
        lemma_skip_separators_start(s.drop_first());
    }
}

proof fn lemma_collapse_shape(s: Seq<char>)
    ensures
        separators_collapsed(collapse_separators(s)),
        s.len() == 0 <==> collapse_separators(s).len() == 0,
        s.len() > 0 && !is_separator(s[0]) ==> collapse_separators(s)[0] == s[0],
    decreases s.len(),
{
    if s.len() > 0 {
        if is_separator(s[0]) {
            lemma_skip_separators_shorter(s);
            lemma_skip_separators_start(s);
            let r = skip_separators(s);
            lemma_collapse_shape(r);
            let t = collapse_separators(r);
            let c = seq!['-'] + t;
            assert(c == collapse_separators(s));
            assert forall|i: int| 0 <= i < c.len() implies #[trigger] c[i] != '_' && c[i] != '.' by {
                if i > 0 {
                    assert(c[i] == t[i - 1]);
                }
            }
            assert forall|i: int| 0 <= i < c.len() - 1 implies !(#[trigger] c[i] == '-' && c[i + 1] == '-') by {
                if i > 0 {
                    assert(c[i] == t[i - 1] && c[i + 1] == t[i]);
                } else {
                    assert(c[1] == t[0]);
                }
            }
        } else {
            let d = s.drop_first();
            lemma_collapse_shape(d);
            let t = collapse_separators(d);
            let c = seq![s[0]] + t;
            assert(c == collapse_separators(s));
            assert forall|i: int| 0 <= i < c.len() implies #[trigger] c[i] != '_' && c[i] != '.' by {
                if i > 0 {
                    assert(c[i] == t[i - 1]);
                }
            }
            assert forall|i: int| 0 <= i < c.len() - 1 implies !(#[trigger] c[i] == '-' && c[i + 1] == '-') by {
                if i > 0 {
                    assert(c[i] == t[i - 1] && c[i + 1] == t[i]);
                }
            }
        }
    }
}

proof fn lemma_collapse_collapsed(t: Seq<char>)
    requires
        separators_collapsed(t),
    ensures
        collapse_separators(t) == t,
    decreases t.len(),
{
    if t.len() > 0 {
        let d = t.drop_first();
        assert forall|i: int| 0 <= i < d.len() implies #[trigger] d[i] != '_' && d[i] != '.' by {
            assert(d[i] == t[i + 1]);
        }
        assert forall|i: int| 0 <= i < d.len() - 1 implies !(#[trigger] d[i] == '-' && d[i + 1] == '-') by {
            assert(d[i] == t[i + 1] && d[i + 1] == t[i + 2]);
        }
        lemma_collapse_collapsed(d);
        if is_separator(t[0]) {
            assert(t[0] == '-');
            if d.len() > 0 {
                assert(d[0] == t[1]);
                assert(!is_separator(d[0]));
            }
            assert(skip_separators(d) == d);
            assert(skip_separators(t) == d);
            assert(collapse_separators(t) =~= t);
        } else {
            assert(collapse_separators(t) =~= t);
        }
    }
}

/// Collapsing the separator runs leaves no `_` or `.` and no two `-` in a
/// row, and collapsing again changes nothing.
pub proof fn law_collapse_separators_idempotent(s: Seq<char>)
    ensures
        separators_collapsed(collapse_separators(s)),
        collapse_separators(collapse_separators(s)) == collapse_separators(s),
{
    lemma_collapse_shape(s);
    lemma_collapse_collapsed(collapse_separators(s));
}

/// `Regex::new(pattern)` then `Regex::captures(text)`, with each group as a
/// string.
#[verifier::external_body]
pub(crate) fn captures(pattern: &str, text: &str) -> (r: Option<Vec<Option<String>>>)
    ensures
        match r {
            Some(groups) => regex_captures(pattern@, text@) == Some(
                groups@.map_values(|g: Option<String>| opt_text(g)),
            ),
            None => regex_captures(pattern@, text@) is None,
        },
{
    match Regex::new(pattern) {
        Ok(re) => re.captures(text).map(
            |c| c.iter().map(|g| g.map(|g| g.as_str().to_string())).collect(),
        ),
        Err(_) => None,
    }
}

/// `Regex::new(pattern)` then `Regex::captures_iter(text)`, collected.
#[verifier::external_body]
pub(crate) fn captures_all(pattern: &str, text: &str) -> (r: Vec<Vec<Option<String>>>)
    ensures
        regex_captures_all(pattern@, text@) == r@.map_values(
            |m: Vec<Option<String>>| m@.map_values(|g: Option<String>| opt_text(g)),
        ),
{
    match Regex::new(pattern) {
        Ok(re) => re.captures_iter(text).map(
            |c| c.iter().map(|g| g.map(|g| g.as_str().to_string())).collect(),
        ).collect(),
        Err(_) => Vec::new(),
    }
}

/// `Regex::new(pattern)` then `Regex::find(text)`: the match's start (a
/// byte offset) and text.
#[verifier::external_body]
pub(crate) fn find(pattern: &str, text: &str) -> (r: Option<(usize, String)>)
    ensures
        match r {
            Some((start, m)) => regex_find(pattern@, text@) == Some((start as nat, m@)),
            None => regex_find(pattern@, text@) is None,
        },
{
    match Regex::new(pattern) {
        Ok(re) => re.find(text).map(|m| (m.start(), m.as_str().to_string())),
        Err(_) => None,
    }
}

/// `Regex::new(pattern)` then `Regex::replace_all(text, rep)`. For the
/// pattern `[-_.]+` and the replacement `-`, the regex crate's
/// leftmost-first, greedy, non-overlapping matching replaces every maximal
/// run of `-`, `_` and `.` by one `-`.
#[verifier::external_body]
pub(crate) fn replace_all(pattern: &str, text: &str, rep: &str) -> (r: Option<String>)
    ensures
        opt_text(r) == regex_replaced(pattern@, text@, rep@),
        pattern@ == "[-_.]+"@ && rep@ == "-"@ ==> opt_text(r) == Some(collapse_separators(text@)),
{
    match Regex::new(pattern) {
        Ok(re) => Some(re.replace_all(text, rep).into_owned()),
        Err(_) => None,
    }
}

/// `str::to_lowercase`.
#[verifier::external_body]
pub(crate) fn lowercase(text: &str) -> (r: String)
    ensures
        r@ == unicode_lowercase(text@),
{
    text.to_lowercase()
}

pub open spec fn opt_text(o: Option<String>) -> Option<Seq<char>> {
    match o {
        Some(s) => Some(s@),
        None => None,
    }
}

} // verus!
