//! License declarations mapped onto CycloneDX license choices.
use vstd::prelude::*;

use crate::pattern::{lowercase, unicode_lowercase};
use crate::text::{chars_of, contains, contains_seq, eq_ignore_ascii_case, eq_ignore_ascii_case_exec, string_of, trim, trim_chars};

verus! {

/// A license identified by SPDX id or only by name.
pub struct LicenseDetail {
    pub id: Option<String>,
    pub name: Option<String>,
}

/// A CycloneDX license entry: an SPDX expression or one license.
pub enum LicenseChoice {
    Expression { expression: String },
    Detail { license: LicenseDetail },
}

/// The view of a license choice.
pub enum LicenseView {
    Expression(Seq<char>),
    Id(Seq<char>),
    Name(Seq<char>),
    Other,
}

pub open spec fn license_view(c: LicenseChoice) -> LicenseView {
    match c {
        LicenseChoice::Expression { expression } => LicenseView::Expression(expression@),
        LicenseChoice::Detail { license } => match (license.id, license.name) {
            (Some(id), None) => LicenseView::Id(id@),
            (None, Some(name)) => LicenseView::Name(name@),
            _ => LicenseView::Other,
        },
    }
}

/// The SPDX identifier that a free-text license (lower-cased) is taken
/// for, tested in this order: Apache 2, MIT, BSD 3, BSD 2, Eclipse, Mozilla.
pub open spec fn spdx_guess(s: Seq<char>) -> Option<Seq<char>> {
    if contains_seq(s, "apache"@) && contains_seq(s, "2"@) {
        Some("Apache-2.0"@)
    } else if contains_seq(s, "mit"@) {
        Some("MIT"@)
    } else if contains_seq(s, "bsd"@) && contains_seq(s, "3"@) {
        Some("BSD-3-Clause"@)
    } else if contains_seq(s, "bsd"@) && contains_seq(s, "2"@) {
        Some("BSD-2-Clause"@)
    } else if contains_seq(s, "eclipse"@) || contains_seq(s, "epl"@) {
        Some("EPL-2.0"@)
    } else if contains_seq(s, "mozilla"@) || contains_seq(s, "mpl"@) {
        Some("MPL-2.0"@)
    } else {
        None
    }
}

/// The license node for a raw declaration: none for a missing, blank or
/// `UNKNOWN` one; an expression for one holding ` OR ` or ` AND `; else an
/// SPDX id where one is recognised, else the text as a name.
pub open spec fn license_node(raw: Option<Seq<char>>) -> Option<LicenseView> {
    match raw {
        None => None,
        Some(r) => {
            let t = trim(r);
            if t.len() == 0 || eq_ignore_ascii_case(t, "UNKNOWN"@) {
                None
            } else if contains_seq(t, " OR "@) || contains_seq(t, " AND "@) {
                Some(LicenseView::Expression(t))
            } else {
                match spdx_guess(unicode_lowercase(t)) {
                    Some(id) => Some(LicenseView::Id(id)),
                    None => Some(LicenseView::Name(t)),
                }
            }
        },
    }
}

fn has(s: &Vec<char>, p: &str) -> (r: bool)
    ensures
        r == contains_seq(s@, p@),
{
    contains(s, &chars_of(p))
}

fn spdx_guess_exec(s: &Vec<char>) -> (r: Option<&'static str>)
    ensures
        match r {
            Some(id) => spdx_guess(s@) == Some(id@),
            None => spdx_guess(s@) is None,
        },
{
    if has(s, "apache") && has(s, "2") {
        Some("Apache-2.0")
    } else if has(s, "mit") {
        Some("MIT")
    } else if has(s, "bsd") && has(s, "3") {
        Some("BSD-3-Clause")
    } else if has(s, "bsd") && has(s, "2") {
        Some("BSD-2-Clause")
    } else if has(s, "eclipse") || has(s, "epl") {
        Some("EPL-2.0")
    } else if has(s, "mozilla") || has(s, "mpl") {
        Some("MPL-2.0")
    } else {
        None
    }
}

/// Maps a raw license declaration onto CycloneDX license entries (see
/// [`license_node`]).
pub fn build_license_node(raw_license: &Option<String>) -> (r: Option<Vec<LicenseChoice>>)
    ensures
        match r {
            None => license_node(crate::model::opt_view(*raw_license)) is None,
            Some(v) => v@.len() == 1 && license_node(crate::model::opt_view(*raw_license)) == Some(
                license_view(v@[0]),
            ),
        },
{
    let raw = match raw_license {
        Some(r) => r,
        None => {
            return None;
        },
    };
    let t = trim_chars(&chars_of(raw.as_str()));
    if t.len() == 0 || eq_ignore_ascii_case_exec(&t, &chars_of("UNKNOWN")) {
        return None;
    }
    let text = string_of(&t);
    if has(&t, " OR ") || has(&t, " AND ") {
        let mut v = Vec::new();
        v.push(LicenseChoice::Expression { expression: text });
        return Some(v);
    }
    let lower = chars_of(lowercase(text.as_str()).as_str());
    let mut v = Vec::new();
    match spdx_guess_exec(&lower) {
        Some(id) => {
            v.push(
                LicenseChoice::Detail {
                    license: LicenseDetail { id: Some(string_of(&chars_of(id))), name: None },
                },
            );
        },
        None => {
            v.push(LicenseChoice::Detail { license: LicenseDetail { id: None, name: Some(text) } });
        },
    }
    Some(v)
}

/// How a license declaration is mapped. With `t` the trimmed text and `l`
/// its lower-cased form: nothing for a blank or `UNKNOWN` text; the text as
/// an SPDX expression where it holds ` OR ` or ` AND `; else the first match
/// of: `apache` with `2` → `Apache-2.0`, `mit` → `MIT`, `bsd` with `3` →
/// `BSD-3-Clause`, `bsd` with `2` → `BSD-2-Clause`, `eclipse` or `epl` →
/// `EPL-2.0`, `mozilla` or `mpl` → `MPL-2.0`; and the text as a name where
/// none matches.
pub proof fn law_license_mapping(r: Seq<char>)
    ensures
        ({
            let t = trim(r);
            let l = unicode_lowercase(t);
            let out = license_node(Some(r));
            let plain = !(t.len() == 0 || eq_ignore_ascii_case(t, "UNKNOWN"@)) && !(contains_seq(t, " OR "@)
                || contains_seq(t, " AND "@));
            let apache = contains_seq(l, "apache"@) && contains_seq(l, "2"@);
            let mit = contains_seq(l, "mit"@);
            let bsd3 = contains_seq(l, "bsd"@) && contains_seq(l, "3"@);
            let bsd2 = contains_seq(l, "bsd"@) && contains_seq(l, "2"@);
            let epl = contains_seq(l, "eclipse"@) || contains_seq(l, "epl"@);
            let mpl = contains_seq(l, "mozilla"@) || contains_seq(l, "mpl"@);
            &&& (t.len() == 0 || eq_ignore_ascii_case(t, "UNKNOWN"@)) ==> out is None
            &&& !(t.len() == 0 || eq_ignore_ascii_case(t, "UNKNOWN"@)) && (contains_seq(t, " OR "@)
                || contains_seq(t, " AND "@)) ==> out == Some(LicenseView::Expression(t))
            &&& plain && apache ==> out == Some(LicenseView::Id("Apache-2.0"@))
            &&& plain && !apache && mit ==> out == Some(LicenseView::Id("MIT"@))
            &&& plain && !apache && !mit && bsd3 ==> out == Some(LicenseView::Id("BSD-3-Clause"@))
            &&& plain && !apache && !mit && !bsd3 && bsd2 ==> out == Some(LicenseView::Id("BSD-2-Clause"@))
            &&& plain && !apache && !mit && !bsd3 && !bsd2 && epl ==> out == Some(LicenseView::Id("EPL-2.0"@))
            &&& plain && !apache && !mit && !bsd3 && !bsd2 && !epl && mpl ==> out == Some(
                LicenseView::Id("MPL-2.0"@),
            )
            &&& plain && !apache && !mit && !bsd3 && !bsd2 && !epl && !mpl ==> out == Some(LicenseView::Name(t))
        }),
{
}

} // verus!
