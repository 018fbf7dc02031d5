//! Identifiers: package URLs, hexadecimal and decimal renderings, and the
//! instance identifiers that keep every dependency node apart.
use std::collections::hash_map::DefaultHasher;
use std::hash::{Hash, Hasher};
use std::str::FromStr;

use packageurl::PackageUrl;
use vstd::prelude::*;

use crate::text::{before_char, before_char_exec, chars_of, contains_seq, occurs_at, push_all, string_of};

verus! {

// ---------------------------------------------------------------------
// Hashing (std `DefaultHasher`)
// ---------------------------------------------------------------------

/// What `DefaultHasher::new()` finishes with after hashing the one string `a`.
pub uninterp spec fn default_hash_one(a: Seq<char>) -> u64;

/// What `DefaultHasher::new()` finishes with after hashing `a` and then `b`.
pub uninterp spec fn default_hash_two(a: Seq<char>, b: Seq<char>) -> u64;

/// Hashes `a` with a fresh `std::collections::hash_map::DefaultHasher`
/// (`Hash::hash` of the `str`, then `Hasher::finish`). `DefaultHasher::new`
/// is not randomly seeded, so the result depends on `a` alone.
#[verifier::external_body]
fn hash_one(a: &str) -> (h: u64)
    ensures
        h == default_hash_one(a@),
{
    let mut hasher = DefaultHasher::new();
    a.hash(&mut hasher);
    hasher.finish()
}

/// Hashes `a` and then `b` with a fresh `DefaultHasher` and finishes it.
#[verifier::external_body]
fn hash_two(a: &str, b: &str) -> (h: u64)
    ensures
        h == default_hash_two(a@, b@),
{
    let mut hasher = DefaultHasher::new();
    a.hash(&mut hasher);
    b.hash(&mut hasher);
    hasher.finish()
}

// ---------------------------------------------------------------------
// Number renderings
// ---------------------------------------------------------------------

pub open spec fn hex_char(d: nat) -> char
    recommends
        d < 16,
{
    seq!['0', '1', '2', '3', '4', '5', '6', '7', '8', '9', 'a', 'b', 'c', 'd', 'e', 'f'][d as int]
}

/// The lowest `k` hexadecimal digits of `n`, most significant first.
pub open spec fn hex_digits(n: nat, k: nat) -> Seq<char>
    decreases k,
{
    if k == 0 {
        Seq::empty()
    } else {
        hex_digits(n / 16, (k - 1) as nat).push(hex_char(n % 16))
    }
}

/// `format!("{:016x}", n)`: sixteen lower-case hexadecimal digits.
pub open spec fn hex16(n: u64) -> Seq<char> {
    hex_digits(n as nat, 16)
}

fn hex_digits_exec(n: u64, k: u32) -> (r: Vec<char>)
    ensures
        r@ == hex_digits(n as nat, k as nat),
    decreases k,
{
    if k == 0 {
        Vec::new()
    } else {
        let mut r = hex_digits_exec(n / 16, k - 1);
        let table = ['0', '1', '2', '3', '4', '5', '6', '7', '8', '9', 'a', 'b', 'c', 'd', 'e', 'f'];
        let d = (n % 16) as usize;
        let c = table[d];
        assert(c == hex_char((n % 16) as nat));
        r.push(c);
        r
    }
}

/// Renders `n` as sixteen lower-case hexadecimal digits.
pub fn hex16_exec(n: u64) -> (r: Vec<char>)
    ensures
        r@ == hex16(n),
        r@.len() == 16,
{
    proof {
        lemma_hex_digits_len(n as nat, 16);
    }
    hex_digits_exec(n, 16)
}

proof fn lemma_hex_digits_len(n: nat, k: nat)
    ensures
        hex_digits(n, k).len() == k,
    decreases k,
{
    if k > 0 {
        lemma_hex_digits_len(n / 16, (k - 1) as nat);
    }
}

pub open spec fn dec_char(d: nat) -> char
    recommends
        d < 10,
{
    seq!['0', '1', '2', '3', '4', '5', '6', '7', '8', '9'][d as int]
}

/// The decimal rendering of `n` (`n.to_string()`).
pub open spec fn dec_digits(n: nat) -> Seq<char>
    decreases n,
{
    if n < 10 {
        seq![dec_char(n)]
    } else {
        dec_digits(n / 10).push(dec_char(n % 10))
    }
}

/// Renders `n` in decimal.
pub fn dec_exec(n: u32) -> (r: Vec<char>)
    ensures
        r@ == dec_digits(n as nat),
    decreases n,
{
    let table = ['0', '1', '2', '3', '4', '5', '6', '7', '8', '9'];
    if n < 10 {
        let c = table[n as usize];
        let mut r = Vec::new();
        r.push(c);
        assert(r@ =~= seq![dec_char(n as nat)]);
        r
    } else {
        let mut r = dec_exec(n / 10);
        let c = table[(n % 10) as usize];
        r.push(c);
        r
    }
}

// ---------------------------------------------------------------------
// Package URLs (the `packageurl` crate)
// ---------------------------------------------------------------------

/// What `PackageUrl::from_str` followed by its `Display` gives for `text`:
/// `None` where the text is not a valid package URL.
pub uninterp spec fn purl_normal_form(text: Seq<char>) -> Option<Seq<char>>;

/// Parses `raw` with `packageurl::PackageUrl::from_str` and renders the parsed
/// URL with its `Display`; `None` where parsing fails.
#[verifier::external_body]
fn purl_normalize(raw: &str) -> (r: Option<String>)
    ensures
        match r {
            Some(s) => purl_normal_form(raw@) == Some(s@),
            None => purl_normal_form(raw@) is None,
        },
{
    PackageUrl::from_str(raw).ok().map(|p| p.to_string())
}

/// The characters that a malformed package URL loses before it is checked
/// again: `^`, `~` and `=`.
pub open spec fn is_purl_noise(c: char) -> bool {
    c == '^' || c == '~' || c == '='
}

/// `s` without the characters `^`, `~` and `=`.
pub open spec fn remove_purl_noise(s: Seq<char>) -> Seq<char>
    decreases s.len(),
{
    if s.len() == 0 {
        s
    } else if is_purl_noise(s.last()) {
        remove_purl_noise(s.drop_last())
    } else {
        remove_purl_noise(s.drop_last()).push(s.last())
    }
}

fn remove_purl_noise_exec(s: &Vec<char>) -> (r: Vec<char>)
    ensures
        r@ == remove_purl_noise(s@),
{
    let mut r: Vec<char> = Vec::new();
    let mut i: usize = 0;
    assert(s@.take(0) =~= Seq::<char>::empty());
    while i < s.len()
        invariant
            i <= s.len(),
            r@ == remove_purl_noise(s@.take(i as int)),
        decreases s.len() - i,
    {
        let c = s[i];
        assert(s@.take(i + 1).drop_last() =~= s@.take(i as int));
        if !(c == '^' || c == '~' || c == '=') {
            r.push(c);
        }
        i = i + 1;
    }
    assert(s@.take(s.len() as int) =~= s@);
    r
}

/// The package URL that `Dependency::auto_fix_and_validate_purl` keeps for
/// `raw`: its normal form where it is valid; else `raw` without `^`, `~`
/// and `=` where that is valid; else the part of `raw` before the first `@`.
pub open spec fn fixed_purl(raw: Seq<char>) -> Seq<char> {
    match purl_normal_form(raw) {
        Some(n) => n,
        None => {
            let f = remove_purl_noise(raw);
            if purl_normal_form(f) is Some {
                f
            } else {
                before_char(raw, '@')
            }
        },
    }
}

/// Checks a package URL and repairs it where it is malformed (see
/// [`fixed_purl`]).
pub fn fix_purl(raw: &str) -> (r: String)
    ensures
        r@ == fixed_purl(raw@),
{
    match purl_normalize(raw) {
        Some(n) => n,
        None => {
            let cs = chars_of(raw);
            let f = remove_purl_noise_exec(&cs);
            let fs = string_of(&f);
            if purl_normalize(fs.as_str()).is_some() {
                fs
            } else {
                string_of(&before_char_exec(&cs, '@'))
            }
        },
    }
}

// ---------------------------------------------------------------------
// Instance identifiers
// ---------------------------------------------------------------------

/// `<purl>?package-id=<16 hex digits>`.
pub open spec fn tagged_id(purl: Seq<char>, h: u64) -> Seq<char> {
    purl + "?package-id="@ + hex16(h)
}

/// The instance identifier of the package with URL `purl` found under the
/// scope `salt` (a lock file, a manifest or a module).
pub open spec fn instance_id(purl: Seq<char>, salt: Seq<char>) -> Seq<char> {
    tagged_id(purl, default_hash_two(purl, salt))
}

fn tagged_id_exec(purl: &str, h: u64) -> (r: String)
    ensures
        r@ == tagged_id(purl@, h),
{
    let mut out = chars_of(purl);
    let tag = chars_of("?package-id=");
    push_all(&mut out, &tag);
    let hex = hex16_exec(h);
    push_all(&mut out, &hex);
    string_of(&out)
}

/// Derives the instance identifier of a package from its URL and a scope.
pub fn make_instance_id(purl: &str, salt: &str) -> (r: String)
    ensures
        r@ == instance_id(purl@, salt@),
{
    let h = hash_two(purl, salt);
    tagged_id_exec(purl, h)
}

/// The fallback identifier: the hash of the URL alone, or of the URL and the
/// `Debug` text of a location block.
pub open spec fn fallback_id(purl: Seq<char>, block_text: Option<Seq<char>>) -> Seq<char> {
    match block_text {
        Some(t) => tagged_id(purl, default_hash_two(purl, t)),
        None => tagged_id(purl, default_hash_one(purl)),
    }
}

pub fn fallback_id_exec(purl: &str, block_text: Option<&str>) -> (r: String)
    ensures
        r@ == fallback_id(purl@, match block_text {
            Some(t) => Some(t@),
            None => None,
        }),
{
    match block_text {
        Some(t) => tagged_id_exec(purl, hash_two(purl, t)),
        None => tagged_id_exec(purl, hash_one(purl)),
    }
}

/// Every tagged identifier holds the marker `?package-id=`.
pub proof fn lemma_tagged_id_has_marker(purl: Seq<char>, h: u64)
    ensures
        contains_seq(tagged_id(purl, h), "?package-id="@),
{
    let t = tagged_id(purl, h);
    let m = "?package-id="@;
    assert(t.subrange(purl.len() as int, (purl.len() + m.len()) as int) =~= m);
    assert(occurs_at(t, m, purl.len() as int));
}

/// An identifier that carries the `?package-id=` marker.
pub open spec fn is_tagged(id: Seq<char>) -> bool {
    contains_seq(id, "?package-id="@)
}

/// Every instance identifier and every fallback identifier is tagged.
pub proof fn lemma_ids_tagged(purl: Seq<char>, salt: Seq<char>, block: Option<Seq<char>>)
    ensures
        is_tagged(instance_id(purl, salt)),
        is_tagged(fallback_id(purl, block)),
        instance_id(purl, salt).len() > 0,
{
    lemma_tagged_id_has_marker(purl, default_hash_two(purl, salt));
    match block {
        Some(t) => lemma_tagged_id_has_marker(purl, default_hash_two(purl, t)),
        None => lemma_tagged_id_has_marker(purl, default_hash_one(purl)),
    }
    reveal_strlit("?package-id=");
}

/// A tagged identifier is not empty.
pub proof fn lemma_tagged_nonempty(id: Seq<char>)
    requires
        is_tagged(id),
    ensures
        id.len() > 0,
{
    reveal_strlit("?package-id=");
    let i = choose|i: int| occurs_at(id, "?package-id="@, i);
}

} // verus!
