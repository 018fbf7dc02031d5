//! Maven properties: a map from names to values, and `${name}` references
//! resolved against it.
use vstd::prelude::*;

use crate::pattern::{captures_all, opt_text, regex_captures_all};
use crate::text::{chars_of, replace_all, replace_all_exec, string_of};

verus! {

/// One property.
pub struct PropertyEntry {
    pub key: String,
    pub value: String,
}

/// Properties by name; a later entry for a name overrides an earlier one.
pub struct PropertyMap {
    pub entries: Vec<PropertyEntry>,
}

/// The map that a list of entries gives, later entries winning.
pub open spec fn entries_map(entries: Seq<PropertyEntry>) -> Map<Seq<char>, Seq<char>>
    decreases entries.len(),
{
    if entries.len() == 0 {
        Map::empty()
    } else {
        entries_map(entries.drop_last()).insert(entries.last().key@, entries.last().value@)
    }
}

impl View for PropertyMap {
    type V = Map<Seq<char>, Seq<char>>;

    open spec fn view(&self) -> Map<Seq<char>, Seq<char>> {
        entries_map(self.entries@)
    }
}

proof fn lemma_entries_map_take(entries: Seq<PropertyEntry>, i: int)
    requires
        0 <= i < entries.len(),
    ensures
        entries_map(entries.take(i + 1)) == entries_map(entries.take(i)).insert(
            entries[i].key@,
            entries[i].value@,
        ),
{
    assert(entries.take(i + 1).drop_last() =~= entries.take(i));
    assert(entries.take(i + 1).last() == entries[i]);
}

impl PropertyMap {
    pub fn new() -> (r: Self)
        ensures
            r@ == Map::<Seq<char>, Seq<char>>::empty(),
    {
        PropertyMap { entries: Vec::new() }
    }

    /// The value of `key`, if set.
    pub fn get(&self, key: &str) -> (r: Option<&String>)
        ensures
            match r {
                Some(v) => self@.contains_key(key@) && self@[key@] == v@,
                None => !self@.contains_key(key@),
            },
    {
        let ghost es = self.entries@;
        let mut i = self.entries.len();
        assert(es.take(i as int) =~= es);
        while i > 0
            invariant
                i <= self.entries.len(),
                es == self.entries@,
                entries_map(es).contains_key(key@) == entries_map(es.take(i as int)).contains_key(
                    key@,
                ),
                entries_map(es).contains_key(key@) ==> entries_map(es)[key@] == entries_map(
                    es.take(i as int),
                )[key@],
            decreases i,
        {
            proof {
                lemma_entries_map_take(es, i - 1);
            }
            if crate::text::str_eq(self.entries[i - 1].key.as_str(), key) {
                return Some(&self.entries[i - 1].value);
            }
            i = i - 1;
        }
        assert(es.take(0) =~= Seq::<PropertyEntry>::empty());
        None
    }

    /// Sets `key` to `value`.
    pub fn insert(&mut self, key: String, value: String)
        ensures
            final(self)@ == old(self)@.insert(key@, value@),
    {
        self.entries.push(PropertyEntry { key, value });
        proof {
            let es = self.entries@;
            assert(es.drop_last() =~= old(self).entries@);
        }
    }

    /// Sets every property of `other`, overriding.
    pub fn extend(&mut self, other: &PropertyMap)
        ensures
            final(self)@ == old(self)@.union_prefer_right(other@),
    {
        let ghost start = self@;
        let ghost os = other.entries@;
        let mut i: usize = 0;
        assert(os.take(0) =~= Seq::<PropertyEntry>::empty());
        assert(start.union_prefer_right(entries_map(os.take(0))) =~= start);
        while i < other.entries.len()
            invariant
                i <= other.entries.len(),
                os == other.entries@,
                self@ == start.union_prefer_right(entries_map(os.take(i as int))),
            decreases other.entries.len() - i,
        {
            proof {
                lemma_entries_map_take(os, i as int);
            }
            let e = &other.entries[i];
            self.insert(e.key.clone(), e.value.clone());
            assert(self@ =~= start.union_prefer_right(entries_map(os.take(i + 1))));
            i = i + 1;
        }
        assert(os.take(other.entries.len() as int) =~= os);
    }

    /// A copy of the map.
    pub fn copy(&self) -> (r: PropertyMap)
        ensures
            r@ == self@,
    {
        let mut r = PropertyMap::new();
        r.extend(self);
        assert(Map::<Seq<char>, Seq<char>>::empty().union_prefer_right(self@) =~= self@);
        r
    }
}

// ---------------------------------------------------------------------
// Resolving references
// ---------------------------------------------------------------------

/// A property reference: `${` then a name then `}`.
pub const VARIABLE_PATTERN: &'static str = "\\$\\{([^}]+)\\}";

/// One pass over the references found in `current`: each reference whose
/// name is set is replaced, everywhere in `resolved`, by its value.
/// Returns the text and whether anything was replaced.
pub open spec fn resolve_pass(
    resolved: Seq<char>,
    caps: Seq<Seq<Option<Seq<char>>>>,
    props: Map<Seq<char>, Seq<char>>,
) -> (Seq<char>, bool)
    decreases caps.len(),
{
    if caps.len() == 0 {
        (resolved, false)
    } else {
        let (r, changed) = resolve_pass(resolved, caps.drop_last(), props);
        let cap = caps.last();
        if cap.len() > 1 && cap[0] is Some && cap[0]->0.len() > 0 && cap[1] is Some
            && props.contains_key(cap[1]->0) {
            (replace_all(r, cap[0]->0, props[cap[1]->0]), true)
        } else {
            (r, changed)
        }
    }
}

/// Up to `rounds` passes, stopping after a pass that replaces nothing.
pub open spec fn resolve_rounds(s: Seq<char>, props: Map<Seq<char>, Seq<char>>, rounds: nat) -> Seq<
    char,
>
    decreases rounds,
{
    if rounds == 0 {
        s
    } else {
        let (r, changed) = resolve_pass(s, regex_captures_all(VARIABLE_PATTERN@, s), props);
        if changed {
            resolve_rounds(r, props, (rounds - 1) as nat)
        } else {
            s
        }
    }
}

/// `s` with its property references resolved, in at most five passes (so
/// that references to references are followed, and cycles end).
pub open spec fn enriched(s: Seq<char>, props: Map<Seq<char>, Seq<char>>) -> Seq<char> {
    resolve_rounds(s, props, 5)
}

pub open spec fn caps_view(caps: Seq<Vec<Option<String>>>) -> Seq<Seq<Option<Seq<char>>>> {
    caps.map_values(|m: Vec<Option<String>>| m@.map_values(|g: Option<String>| opt_text(g)))
}

fn resolve_pass_exec(resolved: Vec<char>, caps: &Vec<Vec<Option<String>>>, props: &PropertyMap) -> (r:
    (Vec<char>, bool))
    ensures
        (r.0@, r.1) == resolve_pass(resolved@, caps_view(caps@), props@),
{
    let ghost cv = caps_view(caps@);
    let ghost start = resolved@;
    let mut out = resolved;
    let mut changed = false;
    let mut i: usize = 0;
    assert(cv.take(0) =~= Seq::<Seq<Option<Seq<char>>>>::empty());
    while i < caps.len()
        invariant
            i <= caps.len(),
            cv == caps_view(caps@),
            (out@, changed) == resolve_pass(start, cv.take(i as int), props@),
        decreases caps.len() - i,
    {
        assert(cv.take(i + 1).drop_last() =~= cv.take(i as int));
        assert(cv.take(i + 1).last() == cv[i as int]);
        let cap = &caps[i];
        let ghost capv = cv[i as int];
        assert(capv == cap@.map_values(|g: Option<String>| opt_text(g)));
        if cap.len() > 1 {
            match (&cap[0], &cap[1]) {
                (Some(full), Some(name)) => {
                    assert(capv[0] == Some(full@));
                    assert(capv[1] == Some(name@));
                    let fc = chars_of(full.as_str());
                    if fc.len() > 0 {
                        match props.get(name.as_str()) {
                            Some(v) => {
                                out = replace_all_exec(&out, &fc, &chars_of(v.as_str()));
                                changed = true;
                            },
                            None => {},
                        }
                    }
                },
                (None, _) => {
                    assert(capv[0] is None);
                },
                (_, None) => {
                    assert(capv[1] is None);
                },
            }
        }
        i = i + 1;
    }
    assert(cv.take(caps.len() as int) =~= cv);
    (out, changed)
}

/// Resolves the `${name}` references of `s` against `properties` (see
/// [`enriched`]).
pub fn enrich_string_with_properties(s: &str, properties: &PropertyMap) -> (r: String)
    ensures
        r@ == enriched(s@, properties@),
{
    let mut resolved = chars_of(s);
    let mut round: usize = 0;
    while round < 5
        invariant
            round <= 5,
            resolve_rounds(resolved@, properties@, (5 - round) as nat) == enriched(s@, properties@),
        decreases 5 - round,
    {
        let current = string_of(&resolved);
        let caps = captures_all(VARIABLE_PATTERN, current.as_str());
        let (next, changed) = resolve_pass_exec(resolved, &caps, properties);
        if !changed {
            return string_of(&chars_of(current.as_str()));
        }
        resolved = next;
        round = round + 1;
    }
    string_of(&resolved)
}

/// Every property's value resolved against the whole map.
pub open spec fn resolved_properties(props: Map<Seq<char>, Seq<char>>) -> Map<Seq<char>, Seq<char>> {
    Map::new(|k: Seq<char>| props.contains_key(k), |k: Seq<char>| enriched(props[k], props))
}

/// Resolves every property's value against the whole map.
pub fn replace_properties(properties: &PropertyMap) -> (r: PropertyMap)
    ensures
        r@ == resolved_properties(properties@),
{
    let ghost pv = properties@;
    let ghost es = properties.entries@;
    let mut r = PropertyMap::new();
    let mut i: usize = 0;
    assert(es.take(0) =~= Seq::<PropertyEntry>::empty());
    assert(r@ =~= Map::new(
        |k: Seq<char>| entries_map(es.take(0)).contains_key(k),
        |k: Seq<char>| enriched(entries_map(es.take(0))[k], pv),
    ));
    while i < properties.entries.len()
        invariant
            i <= properties.entries.len(),
            es == properties.entries@,
            pv == properties@,
            pv == entries_map(es),
            r@ == Map::new(
                |k: Seq<char>| entries_map(es.take(i as int)).contains_key(k),
                |k: Seq<char>| enriched(entries_map(es.take(i as int))[k], pv),
            ),
        decreases properties.entries.len() - i,
    {
        proof {
            lemma_entries_map_take(es, i as int);
        }
        let e = &properties.entries[i];
        let v = enrich_string_with_properties(e.value.as_str(), properties);
        r.insert(e.key.clone(), v);
        assert(r@ =~= Map::new(
            |k: Seq<char>| entries_map(es.take(i + 1)).contains_key(k),
            |k: Seq<char>| enriched(entries_map(es.take(i + 1))[k], pv),
        ));
        i = i + 1;
    }
    assert(es.take(es.len() as int) =~= es);
    assert(r@ =~= resolved_properties(pv));
    r
}

} // verus!
