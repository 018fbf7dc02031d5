//! Merging the dependencies that all producers found: one node per instance
//! identifier, with the union of the edges found for it, ordered by
//! identifier.
use vstd::prelude::*;

use crate::ident::is_tagged;
use crate::model::{edges_closed, has_node, all_tagged, dep_views, Dependency, DependencyView};

verus! {

// ---------------------------------------------------------------------
// Order of identifiers
// ---------------------------------------------------------------------

/// Lexicographic order of texts by code point (`String`'s `Ord`).
pub open spec fn text_lt(a: Seq<char>, b: Seq<char>) -> bool
    decreases a.len(),
{
    if a.len() == 0 {
        b.len() > 0
    } else if b.len() == 0 {
        false
    } else if a[0] != b[0] {
        a[0] < b[0]
    } else {
        text_lt(a.drop_first(), b.drop_first())
    }
}

pub proof fn lemma_text_lt_irreflexive(a: Seq<char>)
    ensures
        !text_lt(a, a),
    decreases a.len(),
{
    if a.len() > 0 {
        lemma_text_lt_irreflexive(a.drop_first());
    }
}

pub proof fn lemma_text_lt_total(a: Seq<char>, b: Seq<char>)
    requires
        a != b,
    ensures
        text_lt(a, b) || text_lt(b, a),
    decreases a.len(),
{
    if a.len() > 0 && b.len() > 0 && a[0] == b[0] {
        if a.drop_first() == b.drop_first() {
            assert(a =~= seq![a[0]] + a.drop_first());
            assert(b =~= seq![b[0]] + b.drop_first());
        }
        lemma_text_lt_total(a.drop_first(), b.drop_first());
    } else if a.len() == 0 && b.len() == 0 {
        assert(a =~= b);
    }
}

pub proof fn lemma_text_lt_asymmetric(a: Seq<char>, b: Seq<char>)
    requires
        text_lt(a, b),
    ensures
        !text_lt(b, a),
    decreases a.len(),
{
    if a.len() > 0 && b.len() > 0 && a[0] == b[0] {
        lemma_text_lt_asymmetric(a.drop_first(), b.drop_first());
    }
}

pub proof fn lemma_text_lt_transitive(a: Seq<char>, b: Seq<char>, c: Seq<char>)
    requires
        text_lt(a, b),
        text_lt(b, c),
    ensures
        text_lt(a, c),
    decreases a.len(),
{
    if a.len() > 0 && b.len() > 0 && c.len() > 0 && a[0] == b[0] && b[0] == c[0] {
        lemma_text_lt_transitive(a.drop_first(), b.drop_first(), c.drop_first());
    }
}

fn text_lt_exec(a: &Vec<char>, b: &Vec<char>) -> (r: bool)
    ensures
        r == text_lt(a@, b@),
{
    let mut i: usize = 0;
    assert(a@.skip(0) =~= a@);
    assert(b@.skip(0) =~= b@);
    while i < a.len() && i < b.len() && a[i] == b[i]
        invariant
            i <= a.len(),
            i <= b.len(),
            text_lt(a@, b@) == text_lt(a@.skip(i as int), b@.skip(i as int)),
        decreases a.len() - i,
    {
        assert(a@.skip(i as int).drop_first() =~= a@.skip(i + 1));
        assert(b@.skip(i as int).drop_first() =~= b@.skip(i + 1));
        i = i + 1;
    }
    if i == a.len() {
        i < b.len()
    } else if i == b.len() {
        false
    } else {
        assert(a@.skip(i as int)[0] == a@[i as int]);
        assert(b@.skip(i as int)[0] == b@[i as int]);
        a[i] < b[i]
    }
}

/// `a < b` for identifiers.
pub fn id_lt(a: &String, b: &String) -> (r: bool)
    ensures
        r == text_lt(a@, b@),
{
    let ac = crate::text::chars_of(a.as_str());
    let bc = crate::text::chars_of(b.as_str());
    text_lt_exec(&ac, &bc)
}

// ---------------------------------------------------------------------
// Merging
// ---------------------------------------------------------------------

/// `existing` followed by the identifiers of `new` that it does not hold yet
/// (checked against the growing list, in order).
pub open spec fn append_new(existing: Seq<Seq<char>>, new: Seq<Seq<char>>) -> Seq<Seq<char>>
    decreases new.len(),
{
    if new.len() == 0 {
        existing
    } else {
        let e = append_new(existing, new.drop_last());
        if e.contains(new.last()) {
            e
        } else {
            e.push(new.last())
        }
    }
}

/// The index of the node with identifier `id` in `s`, if any.
pub open spec fn index_of_id(s: Seq<DependencyView>, id: Seq<char>) -> Option<int>
    decreases s.len(),
{
    if s.len() == 0 {
        None
    } else if s.last().instance_id == id {
        Some(s.len() - 1)
    } else {
        index_of_id(s.drop_last(), id)
    }
}

/// Adds one node: a new identifier is appended; a known one keeps its first
/// node and gains the new node's edges it lacks.
pub open spec fn merge_one(acc: Seq<DependencyView>, d: DependencyView) -> Seq<DependencyView> {
    match index_of_id(acc, d.instance_id) {
        Some(i) => acc.update(
            i,
            DependencyView {
                dependencies: append_new(acc[i].dependencies, d.dependencies),
                ..acc[i]
            },
        ),
        None => acc.push(d),
    }
}

/// All nodes merged, in order of first appearance.
pub open spec fn merge_all(raw: Seq<DependencyView>) -> Seq<DependencyView>
    decreases raw.len(),
{
    if raw.len() == 0 {
        Seq::empty()
    } else {
        merge_one(merge_all(raw.drop_last()), raw.last())
    }
}

/// No two nodes share an identifier.
pub open spec fn distinct_ids(s: Seq<DependencyView>) -> bool {
    forall|i: int, j: int|
        0 <= i < s.len() && 0 <= j < s.len() && i != j ==> s[i].instance_id != s[j].instance_id
}

/// Strictly increasing identifiers.
pub open spec fn sorted_by_id(s: Seq<DependencyView>) -> bool {
    forall|i: int, j: int|
        0 <= i < j < s.len() ==> text_lt(#[trigger] s[i].instance_id, #[trigger] s[j].instance_id)
}

/// `out` holds the nodes of `s`, ordered by identifier.
pub open spec fn sorted_permutation(out: Seq<DependencyView>, s: Seq<DependencyView>) -> bool {
    &&& out.len() == s.len()
    &&& sorted_by_id(out)
    &&& forall|i: int| 0 <= i < s.len() ==> out.contains(#[trigger] s[i])
    &&& forall|i: int| 0 <= i < out.len() ==> s.contains(#[trigger] out[i])
}

pub proof fn lemma_index_of_id(s: Seq<DependencyView>, id: Seq<char>)
    ensures
        match index_of_id(s, id) {
            Some(i) => 0 <= i < s.len() && s[i].instance_id == id,
            None => forall|k: int| 0 <= k < s.len() ==> #[trigger] s[k].instance_id != id,
        },
    decreases s.len(),
{
    if s.len() > 0 && s.last().instance_id != id {
        lemma_index_of_id(s.drop_last(), id);
        assert forall|k: int| 0 <= k < s.len() - 1 implies s.drop_last()[k] == s[k] by {}
    }
}

proof fn lemma_merge_one_distinct(acc: Seq<DependencyView>, d: DependencyView)
    requires
        distinct_ids(acc),
    ensures
        distinct_ids(merge_one(acc, d)),
{
    lemma_index_of_id(acc, d.instance_id);
}

pub proof fn lemma_merge_all_distinct(raw: Seq<DependencyView>)
    ensures
        distinct_ids(merge_all(raw)),
    decreases raw.len(),
{
    if raw.len() > 0 {
        lemma_merge_all_distinct(raw.drop_last());
        lemma_merge_one_distinct(merge_all(raw.drop_last()), raw.last());
    }
}

// ---------------------------------------------------------------------
// Executable merge
// ---------------------------------------------------------------------

pub fn find_id(acc: &Vec<Dependency>, id: &String) -> (r: Option<usize>)
    ensures
        match r {
            Some(i) => index_of_id(dep_views(acc@), id@) == Some(i as int),
            None => index_of_id(dep_views(acc@), id@) is None,
        },
{
    let ghost vs = dep_views(acc@);
    let mut i = acc.len();
    assert(vs.take(i as int) =~= vs);
    while i > 0
        invariant
            i <= acc.len(),
            vs == dep_views(acc@),
            index_of_id(vs, id@) == index_of_id(vs.take(i as int), id@),
        decreases i,
    {
        assert(vs.take(i as int).drop_last() =~= vs.take(i - 1));
        assert(vs.take(i as int).last() == acc@[i - 1]@);
        if acc[i - 1].instance_id == *id {
            return Some(i - 1);
        }
        i = i - 1;
    }
    None
}

pub fn contains_id(list: &Vec<String>, id: &String) -> (r: bool)
    ensures
        r == list.deep_view().contains(id@),
{
    let ghost lv = list.deep_view();
    let mut i: usize = 0;
    while i < list.len()
        invariant
            i <= list.len(),
            lv == list.deep_view(),
            forall|k: int| 0 <= k < i ==> lv[k] != id@,
        decreases list.len() - i,
    {
        if list[i] == *id {
            assert(lv[i as int] == id@);
            return true;
        }
        i = i + 1;
    }
    false
}

pub fn append_new_exec(existing: &mut Vec<String>, new: &Vec<String>)
    ensures
        final(existing).deep_view() == append_new(old(existing).deep_view(), new.deep_view()),
{
    let ghost start = existing.deep_view();
    let ghost nv = new.deep_view();
    let mut i: usize = 0;
    assert(nv.take(0) =~= Seq::<Seq<char>>::empty());
    while i < new.len()
        invariant
            i <= new.len(),
            nv == new.deep_view(),
            existing.deep_view() == append_new(start, nv.take(i as int)),
        decreases new.len() - i,
    {
        assert(nv.take(i + 1).drop_last() =~= nv.take(i as int));
        assert(nv.take(i + 1).last() == new@[i as int]@);
        if !contains_id(existing, &new[i]) {
            let ghost before = existing.deep_view();
            existing.push(new[i].clone());
            assert(existing.deep_view() =~= before.push(new@[i as int]@));
        }
        i = i + 1;
    }
    assert(nv.take(new.len() as int) =~= nv);
}

/// Adds one node to `acc` (see [`merge_one`]).
pub fn merge_one_exec(acc: &mut Vec<Dependency>, d: Dependency)
    ensures
        dep_views(final(acc)@) == merge_one(dep_views(old(acc)@), d@),
{
    let ghost before = dep_views(acc@);
    match find_id(acc, &d.instance_id) {
        Some(k) => {
            proof {
                lemma_index_of_id(before, d.instance_id@);
            }
            let mut target = acc[k].clone();
            append_new_exec(&mut target.dependencies, &d.dependencies);
            let ghost tv = target@;
            acc.set(k, target);
            assert(dep_views(acc@) =~= before.update(k as int, tv));
        },
        None => {
            let ghost dv = d@;
            acc.push(d);
            assert(dep_views(acc@) =~= before.push(dv));
        },
    }
}

/// `acc` with the nodes of `s` merged in, in order.
pub open spec fn merge_into(acc: Seq<DependencyView>, s: Seq<DependencyView>) -> Seq<DependencyView>
    decreases s.len(),
{
    if s.len() == 0 {
        acc
    } else {
        merge_one(merge_into(acc, s.drop_last()), s.last())
    }
}

/// Merging two runs of nodes one after the other is merging both at once.
pub proof fn lemma_merge_into_append(acc: Seq<DependencyView>, a: Seq<DependencyView>, b: Seq<DependencyView>)
    ensures
        merge_into(acc, a + b) == merge_into(merge_into(acc, a), b),
    decreases b.len(),
{
    if b.len() == 0 {
        assert(a + b =~= a);
    } else {
        assert((a + b).drop_last() =~= a + b.drop_last());
        assert((a + b).last() == b.last());
        lemma_merge_into_append(acc, a, b.drop_last());
    }
}

/// Merging into nothing is [`merge_all`].
pub proof fn lemma_merge_into_empty(s: Seq<DependencyView>)
    ensures
        merge_into(Seq::empty(), s) == merge_all(s),
    decreases s.len(),
{
    if s.len() > 0 {
        lemma_merge_into_empty(s.drop_last());
    }
}

pub fn merge_all_exec(raw: &Vec<Dependency>) -> (merged: Vec<Dependency>)
    ensures
        dep_views(merged@) == merge_all(dep_views(raw@)),
{
    let ghost rv = dep_views(raw@);
    let mut merged: Vec<Dependency> = Vec::new();
    let mut i: usize = 0;
    assert(rv.take(0) =~= Seq::<DependencyView>::empty());
    assert(dep_views(merged@) =~= Seq::<DependencyView>::empty());
    while i < raw.len()
        invariant
            i <= raw.len(),
            rv == dep_views(raw@),
            dep_views(merged@) == merge_all(rv.take(i as int)),
        decreases raw.len() - i,
    {
        assert(rv.take(i + 1).drop_last() =~= rv.take(i as int));
        assert(rv.take(i + 1).last() == raw@[i as int]@);
        let d = &raw[i];
        let ghost before = dep_views(merged@);
        match find_id(&merged, &d.instance_id) {
            Some(k) => {
                proof {
                    lemma_index_of_id(before, d.instance_id@);
                }
                let mut target = merged[k].clone();
                append_new_exec(&mut target.dependencies, &d.dependencies);
                let ghost tv = target@;
                merged.set(k, target);
                assert(dep_views(merged@) =~= before.update(k as int, tv));
            },
            None => {
                merged.push(d.clone());
                assert(dep_views(merged@) =~= before.push(d@));
            },
        }
        i = i + 1;
    }
    assert(rv.take(raw.len() as int) =~= rv);
    merged
}

/// The index at which `id` belongs in the sorted `out`: after every smaller
/// identifier.
fn insertion_point(out: &Vec<Dependency>, id: &String) -> (p: usize)
    requires
        sorted_by_id(dep_views(out@)),
        forall|k: int| 0 <= k < out@.len() ==> out@[k].instance_id@ != id@,
    ensures
        p <= out@.len(),
        forall|k: int| 0 <= k < p ==> text_lt(out@[k].instance_id@, id@),
        forall|k: int| p <= k < out@.len() ==> text_lt(id@, out@[k].instance_id@),
{
    let ghost vs = dep_views(out@);
    let mut p: usize = 0;
    while p < out.len() && id_lt(&out[p].instance_id, id)
        invariant
            p <= out@.len(),
            vs == dep_views(out@),
            forall|k: int| 0 <= k < p ==> text_lt(out@[k].instance_id@, id@),
        decreases out@.len() - p,
    {
        p = p + 1;
    }
    proof {
        if p < out@.len() {
            lemma_text_lt_total(id@, out@[p as int].instance_id@);
            assert forall|k: int| p <= k < out@.len() implies text_lt(id@, out@[k].instance_id@) by {
                if k > p {
                    assert(vs[p as int].instance_id == out@[p as int].instance_id@);
                    assert(vs[k].instance_id == out@[k].instance_id@);
                    lemma_text_lt_transitive(id@, out@[p as int].instance_id@, out@[k].instance_id@);
                }
            }
        }
    }
    p
}

/// Merges the nodes that share an instance identifier and orders the result
/// by identifier: each identifier keeps the first node found for it, with
/// the union of the edges of all its nodes (see [`merge_all`]).
pub fn merge_dependencies(raw: Vec<Dependency>) -> (out: Vec<Dependency>)
    ensures
        sorted_permutation(dep_views(out@), merge_all(dep_views(raw@))),
{
    let merged = merge_all_exec(&raw);
    let ghost mv = dep_views(merged@);
    proof {
        lemma_merge_all_distinct(dep_views(raw@));
    }
    let mut out: Vec<Dependency> = Vec::new();
    let mut i: usize = 0;
    while i < merged.len()
        invariant
            i <= merged.len(),
            mv == dep_views(merged@),
            distinct_ids(mv),
            dep_views(out@).len() == i,
            sorted_by_id(dep_views(out@)),
            forall|a: int| 0 <= a < i ==> dep_views(out@).contains(#[trigger] mv[a]),
            forall|a: int| 0 <= a < out@.len() ==> mv.take(i as int).contains(#[trigger] dep_views(out@)[a]),
        decreases merged.len() - i,
    {
        let ghost ov = dep_views(out@);
        let d = merged[i].clone();
        proof {
            assert forall|k: int| 0 <= k < out@.len() implies out@[k].instance_id@ != d.instance_id@ by {
                assert(ov[k] == out@[k]@);
                assert(mv.take(i as int).contains(ov[k]));
                let a = choose|a: int| 0 <= a < i && mv.take(i as int)[a] == ov[k];
                assert(mv[a] == ov[k]);
                assert(mv[i as int] == d@);
            }
        }
        let p = insertion_point(&out, &d.instance_id);
        let ghost dv = d@;
        out.insert(p, d);
        proof {
            let nv = dep_views(out@);
            assert(nv =~= ov.take(p as int).push(dv) + ov.skip(p as int));
            assert forall|x: int, y: int| 0 <= x < y < nv.len() implies text_lt(#[trigger] nv[x].instance_id, #[trigger] nv[y].instance_id) by {
                if y < p {
                    assert(nv[x] == ov[x] && nv[y] == ov[y]);
                } else if y == p {
                    assert(nv[x] == ov[x]);
                    assert(text_lt(out@[x].instance_id@, dv.instance_id));
                } else if x == p {
                    assert(nv[y] == ov[y - 1]);
                    assert(text_lt(dv.instance_id, ov[y - 1].instance_id));
                } else if x < p {
                    assert(nv[x] == ov[x] && nv[y] == ov[y - 1]);
                    lemma_text_lt_transitive(ov[x].instance_id, dv.instance_id, ov[y - 1].instance_id);
                } else {
                    assert(nv[x] == ov[x - 1] && nv[y] == ov[y - 1]);
                }
            }
            assert forall|a: int| 0 <= a < i + 1 implies nv.contains(#[trigger] mv[a]) by {
                if a == i {
                    assert(nv[p as int] == dv);
                } else {
                    let b = choose|b: int| 0 <= b < ov.len() && ov[b] == mv[a];
                    if b < p {
                        assert(nv[b] == ov[b]);
                    } else {
                        assert(nv[b + 1] == ov[b]);
                    }
                }
            }
            assert forall|a: int| 0 <= a < nv.len() implies mv.take(i + 1).contains(#[trigger] nv[a]) by {
                if a == p {
                    assert(mv.take(i + 1)[i as int] == dv);
                } else {
                    let b = if a < p { a } else { a - 1 };
                    assert(nv[a] == ov[b]);
                    assert(mv.take(i as int).contains(ov[b]));
                    let c = choose|c: int| 0 <= c < i && mv.take(i as int)[c] == ov[b];
                    assert(mv.take(i + 1)[c] == ov[b]);
                }
            }
        }
        i = i + 1;
    }
    assert(mv.take(merged.len() as int) =~= mv);
    out
}


// ---------------------------------------------------------------------
// Laws
// ---------------------------------------------------------------------

proof fn lemma_append_new_contains(e: Seq<Seq<char>>, n: Seq<Seq<char>>)
    ensures
        forall|x: Seq<char>| e.contains(x) ==> #[trigger] append_new(e, n).contains(x),
        forall|x: Seq<char>| n.contains(x) ==> #[trigger] append_new(e, n).contains(x),
    decreases n.len(),
{
    if n.len() > 0 {
        lemma_append_new_contains(e, n.drop_last());
        let a = append_new(e, n.drop_last());
        assert forall|x: Seq<char>| n.contains(x) implies #[trigger] append_new(e, n).contains(x) by {
            let k = choose|k: int| 0 <= k < n.len() && n[k] == x;
            if k < n.len() - 1 {
                assert(n.drop_last()[k] == x);
                assert(a.contains(x));
                if !a.contains(n.last()) {
                    let t = choose|t: int| 0 <= t < a.len() && a[t] == x;
                    assert(a.push(n.last())[t] == x);
                }
            } else {
                if !a.contains(n.last()) {
                    assert(a.push(n.last())[a.len() as int] == x);
                }
            }
        }
        assert forall|x: Seq<char>| e.contains(x) implies #[trigger] append_new(e, n).contains(x) by {
            assert(a.contains(x));
            if !a.contains(n.last()) {
                let t = choose|t: int| 0 <= t < a.len() && a[t] == x;
                assert(a.push(n.last())[t] == x);
            }
        }
    }
}

/// Identifiers in the merged output are distinct.
pub proof fn law_merged_ids_distinct(out: Seq<DependencyView>)
    requires
        sorted_by_id(out),
    ensures
        distinct_ids(out),
{
    assert forall|i: int, j: int| 0 <= i < out.len() && 0 <= j < out.len() && i != j implies out[i].instance_id
        != out[j].instance_id by {
        if i < j {
            assert(text_lt(out[i].instance_id, out[j].instance_id));
            if out[i].instance_id == out[j].instance_id {
                lemma_text_lt_irreflexive(out[i].instance_id);
            }
        } else {
            assert(text_lt(out[j].instance_id, out[i].instance_id));
            if out[i].instance_id == out[j].instance_id {
                lemma_text_lt_irreflexive(out[i].instance_id);
            }
        }
    }
}

/// The merged sequence `m` has a node with `d`'s identifier that holds every
/// edge of `d`.
pub open spec fn covers(m: Seq<DependencyView>, d: DependencyView) -> bool {
    exists|j: int|
        0 <= j < m.len() && (#[trigger] m[j]).instance_id == d.instance_id && forall|c: Seq<char>|
            d.dependencies.contains(c) ==> #[trigger] m[j].dependencies.contains(c)
}

/// No node and no edge is lost in merging: every input node's identifier has
/// a merged node, and that node holds every edge of the input node.
pub proof fn law_merge_keeps_nodes_and_edges(raw: Seq<DependencyView>)
    ensures
        forall|i: int| 0 <= i < raw.len() ==> covers(merge_all(raw), #[trigger] raw[i]),
    decreases raw.len(),
{
    if raw.len() > 0 {
        let p = raw.drop_last();
        law_merge_keeps_nodes_and_edges(p);
        let acc = merge_all(p);
        let d = raw.last();
        let m = merge_all(raw);
        assert(m == merge_one(acc, d));
        lemma_index_of_id(acc, d.instance_id);
        assert forall|i: int| 0 <= i < raw.len() implies covers(m, #[trigger] raw[i]) by {
            match index_of_id(acc, d.instance_id) {
                Some(k) => {
                    lemma_append_new_contains(acc[k].dependencies, d.dependencies);
                    if i == raw.len() - 1 {
                        assert(m[k].instance_id == raw[i].instance_id);
                        assert(forall|c: Seq<char>|
                            raw[i].dependencies.contains(c) ==> #[trigger] m[k].dependencies.contains(c));
                    } else {
                        assert(p[i] == raw[i]);
                        assert(covers(acc, p[i]));
                        let j = choose|j: int|
                            0 <= j < acc.len() && (#[trigger] acc[j]).instance_id
                                == p[i].instance_id && forall|c: Seq<char>|
                                p[i].dependencies.contains(c) ==> #[trigger] acc[j].dependencies.contains(c);
                        assert(m[j].instance_id == raw[i].instance_id);
                        assert(forall|c: Seq<char>|
                            raw[i].dependencies.contains(c) ==> #[trigger] m[j].dependencies.contains(c));
                    }
                },
                None => {
                    if i == raw.len() - 1 {
                        assert(m[acc.len() as int] == d);
                    } else {
                        assert(p[i] == raw[i]);
                        assert(covers(acc, p[i]));
                        let j = choose|j: int|
                            0 <= j < acc.len() && (#[trigger] acc[j]).instance_id
                                == p[i].instance_id && forall|c: Seq<char>|
                                p[i].dependencies.contains(c) ==> #[trigger] acc[j].dependencies.contains(c);
                        assert(m[j] == acc[j]);
                    }
                },
            }
        }
    }
}

pub proof fn lemma_merge_all_tagged(raw: Seq<DependencyView>)
    requires
        all_tagged(raw),
    ensures
        all_tagged(merge_all(raw)),
    decreases raw.len(),
{
    if raw.len() > 0 {
        assert(all_tagged(raw.drop_last())) by {
            assert forall|i: int| 0 <= i < raw.len() - 1 implies is_tagged(#[trigger] raw.drop_last()[i].instance_id) by {
                assert(raw.drop_last()[i] == raw[i]);
            }
        }
        lemma_merge_all_tagged(raw.drop_last());
        let acc = merge_all(raw.drop_last());
        let d = raw.last();
        assert(is_tagged(raw[raw.len() - 1].instance_id));
        lemma_index_of_id(acc, d.instance_id);
        let m = merge_one(acc, d);
        assert forall|i: int| 0 <= i < m.len() implies is_tagged(#[trigger] m[i].instance_id) by {
            match index_of_id(acc, d.instance_id) {
                Some(k) => {
                    assert(m[i].instance_id == acc[i].instance_id);
                },
                None => {
                    if i < acc.len() {
                        assert(m[i] == acc[i]);
                    }
                },
            }
        }
    }
}

/// Merging keeps every identifier tagged: where every collected node's
/// identifier carries the `?package-id=` marker, so does every merged one.
pub proof fn law_merge_keeps_tags(raw: Seq<DependencyView>, out: Seq<DependencyView>)
    requires
        all_tagged(raw),
        sorted_permutation(out, merge_all(raw)),
    ensures
        all_tagged(out),
{
    lemma_merge_all_tagged(raw);
    let m = merge_all(raw);
    assert forall|i: int| 0 <= i < out.len() implies is_tagged(#[trigger] out[i].instance_id) by {
        assert(m.contains(out[i]));
        let j = choose|j: int| 0 <= j < m.len() && m[j] == out[i];
        assert(is_tagged(m[j].instance_id));
    }
}

proof fn lemma_append_new_from(e: Seq<Seq<char>>, n: Seq<Seq<char>>)
    ensures
        forall|x: Seq<char>| #[trigger] append_new(e, n).contains(x) ==> e.contains(x) || n.contains(x),
    decreases n.len(),
{
    if n.len() > 0 {
        lemma_append_new_from(e, n.drop_last());
        let a = append_new(e, n.drop_last());
        assert forall|x: Seq<char>| #[trigger] append_new(e, n).contains(x) implies e.contains(x) || n.contains(x) by {
            let t = choose|t: int| 0 <= t < append_new(e, n).len() && append_new(e, n)[t] == x;
            if !a.contains(n.last()) && t == a.len() {
                assert(n[n.len() - 1] == x);
            } else {
                assert(a[t] == x);
                assert(a.contains(x));
                if n.drop_last().contains(x) {
                    let k = choose|k: int| 0 <= k < n.drop_last().len() && n.drop_last()[k] == x;
                    assert(n[k] == x);
                }
            }
        }
    }
}

/// Some input node has the edge `x`.
pub open spec fn raw_edge(raw: Seq<DependencyView>, x: Seq<char>) -> bool {
    exists|w: int| 0 <= w < raw.len() && (#[trigger] raw[w]).dependencies.contains(x)
}

proof fn lemma_merged_edges_from(raw: Seq<DependencyView>)
    ensures
        forall|i: int, j: int|
            0 <= i < merge_all(raw).len() && 0 <= j < merge_all(raw)[i].dependencies.len() ==> raw_edge(
                raw,
                #[trigger] merge_all(raw)[i].dependencies[j],
            ),
    decreases raw.len(),
{
    if raw.len() > 0 {
        let p = raw.drop_last();
        lemma_merged_edges_from(p);
        let acc = merge_all(p);
        let d = raw.last();
        let m = merge_all(raw);
        lemma_index_of_id(acc, d.instance_id);
        assert forall|i: int, j: int|
            0 <= i < m.len() && 0 <= j < m[i].dependencies.len() implies raw_edge(raw, #[trigger] m[i].dependencies[j]) by {
            let x = m[i].dependencies[j];
            match index_of_id(acc, d.instance_id) {
                Some(k) => {
                    if i == k {
                        lemma_append_new_from(acc[k].dependencies, d.dependencies);
                        assert(m[k].dependencies.contains(x));
                        if acc[k].dependencies.contains(x) {
                            let b = choose|b: int| 0 <= b < acc[k].dependencies.len() && acc[k].dependencies[b] == x;
                            assert(raw_edge(p, acc[k].dependencies[b]));
                            let w = choose|w: int| 0 <= w < p.len() && (#[trigger] p[w]).dependencies.contains(x);
                            assert(raw[w] == p[w]);
                        } else {
                            assert(raw[raw.len() - 1] == d);
                        }
                    } else {
                        assert(m[i] == acc[i]);
                        assert(raw_edge(p, acc[i].dependencies[j]));
                        let w = choose|w: int| 0 <= w < p.len() && (#[trigger] p[w]).dependencies.contains(x);
                        assert(raw[w] == p[w]);
                    }
                },
                None => {
                    if i < acc.len() {
                        assert(m[i] == acc[i]);
                        assert(raw_edge(p, acc[i].dependencies[j]));
                        let w = choose|w: int| 0 <= w < p.len() && (#[trigger] p[w]).dependencies.contains(x);
                        assert(raw[w] == p[w]);
                    } else {
                        assert(m[i] == d);
                        assert(d.dependencies[j] == x);
                        assert(raw[raw.len() - 1] == d);
                    }
                },
            }
        }
    }
}

/// Merging a graph whose edges lead to its nodes gives such a graph.
pub proof fn lemma_merge_all_closed(raw: Seq<DependencyView>)
    requires
        edges_closed(raw),
    ensures
        edges_closed(merge_all(raw)),
{
    let m = merge_all(raw);
    lemma_merged_edges_from(raw);
    law_merge_keeps_nodes_and_edges(raw);
    assert forall|i: int, j: int|
        0 <= i < m.len() && 0 <= j < m[i].dependencies.len() implies has_node(m, #[trigger] m[i].dependencies[j]) by {
        let x = m[i].dependencies[j];
        assert(raw_edge(raw, x));
        let w = choose|w: int| 0 <= w < raw.len() && (#[trigger] raw[w]).dependencies.contains(x);
        let q = choose|q: int| 0 <= q < raw[w].dependencies.len() && raw[w].dependencies[q] == x;
        assert(has_node(raw, raw[w].dependencies[q]));
        let z = choose|z: int| 0 <= z < raw.len() && (#[trigger] raw[z]).instance_id == x;
        assert(covers(m, raw[z]));
    }
}

/// Merging keeps edges leading to nodes: where every edge of the collected
/// nodes leads to one of them, every edge of the merged, sorted output
/// leads to one of its nodes.
pub proof fn law_merge_keeps_closed(raw: Seq<DependencyView>, out: Seq<DependencyView>)
    requires
        edges_closed(raw),
        sorted_permutation(out, merge_all(raw)),
    ensures
        edges_closed(out),
{
    let m = merge_all(raw);
    lemma_merge_all_closed(raw);
    assert forall|i: int, j: int|
        0 <= i < out.len() && 0 <= j < out[i].dependencies.len() implies has_node(out, #[trigger] out[i].dependencies[j]) by {
        assert(m.contains(out[i]));
        let a = choose|a: int| 0 <= a < m.len() && m[a] == out[i];
        assert(has_node(m, m[a].dependencies[j]));
        let z = choose|z: int| 0 <= z < m.len() && (#[trigger] m[z]).instance_id == out[i].dependencies[j];
        assert(out.contains(m[z]));
        let y = choose|y: int| 0 <= y < out.len() && out[y] == m[z];
    }
}

// ---------------------------------------------------------------------
// What each merged node is
// ---------------------------------------------------------------------

/// The index of the first node of `s` with identifier `id`.
pub open spec fn first_index_of_id(s: Seq<DependencyView>, id: Seq<char>) -> Option<int>
    decreases s.len(),
{
    if s.len() == 0 {
        None
    } else {
        match first_index_of_id(s.drop_last(), id) {
            Some(k) => Some(k),
            None => if s.last().instance_id == id {
                Some(s.len() - 1)
            } else {
                None
            },
        }
    }
}

/// The edges that merging gives the identifier `id`: those of its first
/// node, then each edge of a later node with that identifier that is not
/// there yet, in order.
pub open spec fn merged_edges(s: Seq<DependencyView>, id: Seq<char>) -> Seq<Seq<char>>
    decreases s.len(),
{
    if s.len() == 0 {
        Seq::empty()
    } else {
        let p = s.drop_last();
        if s.last().instance_id == id {
            match first_index_of_id(p, id) {
                None => s.last().dependencies,
                Some(_) => append_new(merged_edges(p, id), s.last().dependencies),
            }
        } else {
            merged_edges(p, id)
        }
    }
}

/// The merged node of `id`: its first node, with the merged edges.
#[verifier::opaque]
pub open spec fn merged_node(s: Seq<DependencyView>, id: Seq<char>) -> DependencyView {
    DependencyView { dependencies: merged_edges(s, id), ..s[first_index_of_id(s, id)->0] }
}

proof fn lemma_first_index_of_id(s: Seq<DependencyView>, id: Seq<char>)
    ensures
        match first_index_of_id(s, id) {
            Some(k) => 0 <= k < s.len() && s[k].instance_id == id && forall|m: int|
                0 <= m < k ==> #[trigger] s[m].instance_id != id,
            None => forall|m: int| 0 <= m < s.len() ==> #[trigger] s[m].instance_id != id,
        },
    decreases s.len(),
{
    if s.len() > 0 {
        lemma_first_index_of_id(s.drop_last(), id);
        assert forall|m: int| 0 <= m < s.len() - 1 implies s.drop_last()[m] == #[trigger] s[m] by {}
    }
}

proof fn lemma_merged_node_other(raw: Seq<DependencyView>, x: Seq<char>)
    requires
        raw.len() > 0,
        raw.last().instance_id != x,
        first_index_of_id(raw.drop_last(), x) is Some,
    ensures
        first_index_of_id(raw, x) == first_index_of_id(raw.drop_last(), x),
        merged_node(raw, x) == merged_node(raw.drop_last(), x),
{
    reveal(merged_node);
    let p = raw.drop_last();
    lemma_first_index_of_id(p, x);
    let k = first_index_of_id(p, x)->0;
    assert(raw[k] == p[k]);
}

proof fn lemma_merged_node_again(raw: Seq<DependencyView>)
    requires
        raw.len() > 0,
        first_index_of_id(raw.drop_last(), raw.last().instance_id) is Some,
    ensures
        first_index_of_id(raw, raw.last().instance_id) == first_index_of_id(raw.drop_last(), raw.last().instance_id),
        merged_node(raw, raw.last().instance_id) == (DependencyView {
            dependencies: append_new(
                merged_node(raw.drop_last(), raw.last().instance_id).dependencies,
                raw.last().dependencies,
            ),
            ..merged_node(raw.drop_last(), raw.last().instance_id)
        }),
{
    reveal(merged_node);
    let p = raw.drop_last();
    lemma_first_index_of_id(p, raw.last().instance_id);
    let k = first_index_of_id(p, raw.last().instance_id)->0;
    assert(raw[k] == p[k]);
}

proof fn lemma_merged_node_new(raw: Seq<DependencyView>)
    requires
        raw.len() > 0,
        first_index_of_id(raw.drop_last(), raw.last().instance_id) is None,
    ensures
        first_index_of_id(raw, raw.last().instance_id) is Some,
        merged_node(raw, raw.last().instance_id) == raw.last(),
{
    reveal(merged_node);
    assert(merged_node(raw, raw.last().instance_id) =~= raw.last());
}

/// Every merged node is the merged node of its identifier.
#[verifier::opaque]
pub open spec fn nodes_are_merged(raw: Seq<DependencyView>, m: Seq<DependencyView>) -> bool {
    forall|j: int|
        0 <= j < m.len() ==> first_index_of_id(raw, (#[trigger] m[j]).instance_id) is Some && m[j]
            == merged_node(raw, m[j].instance_id)
}

/// Every collected identifier has a merged node.
#[verifier::opaque]
pub open spec fn ids_are_kept(raw: Seq<DependencyView>, m: Seq<DependencyView>) -> bool {
    forall|k: int|
        0 <= k < raw.len() ==> exists|j: int|
            0 <= j < m.len() && (#[trigger] m[j]).instance_id == (#[trigger] raw[k]).instance_id
}

/// Each merged node is the merged node of its identifier, and every
/// collected identifier has one.
#[verifier::spinoff_prover]
pub proof fn lemma_merge_all_nodes(raw: Seq<DependencyView>)
    ensures
        nodes_are_merged(raw, merge_all(raw)),
        ids_are_kept(raw, merge_all(raw)),
    decreases raw.len(),
{
    reveal(nodes_are_merged);
    reveal(ids_are_kept);
    if raw.len() > 0 {
        let p = raw.drop_last();
        let d = raw.last();
        let a = merge_all(p);
        let m = merge_all(raw);
        lemma_merge_all_nodes(p);
        lemma_merge_all_distinct(p);
        lemma_index_of_id(a, d.instance_id);
        lemma_first_index_of_id(p, d.instance_id);
        assert forall|q: int| 0 <= q < p.len() implies p[q] == #[trigger] raw[q] by {}
        match index_of_id(a, d.instance_id) {
            Some(i) => {
                lemma_merged_node_again(raw);
                assert forall|j: int| 0 <= j < m.len() implies first_index_of_id(raw, (#[trigger] m[j]).instance_id)
                    is Some && m[j] == merged_node(raw, m[j].instance_id) by {
                    if j != i {
                        assert(m[j] == a[j]);
                        assert(a[j].instance_id != a[i].instance_id);
                        lemma_merged_node_other(raw, a[j].instance_id);
                    }
                }
                assert forall|k: int| 0 <= k < raw.len() implies exists|j: int|
                    0 <= j < m.len() && (#[trigger] m[j]).instance_id == (#[trigger] raw[k]).instance_id by {
                    if k < p.len() {
                        let j = choose|j: int| 0 <= j < a.len() && (#[trigger] a[j]).instance_id == p[k].instance_id;
                        assert(m[j].instance_id == a[j].instance_id);
                    } else {
                        assert(m[i].instance_id == raw[k].instance_id);
                    }
                }
            },
            None => {
                if first_index_of_id(p, d.instance_id) is Some {
                    let k = first_index_of_id(p, d.instance_id)->0;
                    let j = choose|j: int| 0 <= j < a.len() && (#[trigger] a[j]).instance_id == p[k].instance_id;
                    assert(false);
                }
                lemma_merged_node_new(raw);
                assert forall|j: int| 0 <= j < m.len() implies first_index_of_id(raw, (#[trigger] m[j]).instance_id)
                    is Some && m[j] == merged_node(raw, m[j].instance_id) by {
                    if j < a.len() {
                        assert(m[j] == a[j]);
                        lemma_merged_node_other(raw, a[j].instance_id);
                    } else {
                        assert(m[j] == d);
                    }
                }
                assert forall|k: int| 0 <= k < raw.len() implies exists|j: int|
                    0 <= j < m.len() && (#[trigger] m[j]).instance_id == (#[trigger] raw[k]).instance_id by {
                    if k < p.len() {
                        let j = choose|j: int| 0 <= j < a.len() && (#[trigger] a[j]).instance_id == p[k].instance_id;
                        assert(m[j] == a[j]);
                    } else {
                        assert(m[a.len() as int] == d);
                    }
                }
            },
        }
    }
}

/// The merged, sorted output holds one node per identifier of the collected
/// nodes, and nothing else: each is the first collected node with that
/// identifier, whose edges are followed by each edge of the later nodes with
/// that identifier that it lacks, in collection order.
pub proof fn law_merge_first_node_with_appended_edges(raw: Seq<DependencyView>, out: Seq<DependencyView>)
    requires
        sorted_permutation(out, merge_all(raw)),
    ensures
        sorted_by_id(out),
        nodes_are_merged(raw, out),
        ids_are_kept(raw, out),
{
    reveal(nodes_are_merged);
    reveal(ids_are_kept);
    let m = merge_all(raw);
    lemma_merge_all_nodes(raw);
    assert forall|j: int| 0 <= j < out.len() implies first_index_of_id(raw, (#[trigger] out[j]).instance_id) is Some
        && out[j] == merged_node(raw, out[j].instance_id) by {
        assert(m.contains(out[j]));
        let a = choose|a: int| 0 <= a < m.len() && m[a] == out[j];
    }
    assert forall|k: int| 0 <= k < raw.len() implies exists|j: int|
        0 <= j < out.len() && (#[trigger] out[j]).instance_id == (#[trigger] raw[k]).instance_id by {
        let a = choose|a: int| 0 <= a < m.len() && (#[trigger] m[a]).instance_id == raw[k].instance_id;
        assert(out.contains(m[a]));
        let j = choose|j: int| 0 <= j < out.len() && out[j] == m[a];
    }
}

proof fn lemma_append_new_prefix(e: Seq<Seq<char>>, n: Seq<Seq<char>>)
    ensures
        append_new(e, n).len() >= e.len(),
        append_new(e, n).take(e.len() as int) == e,
    decreases n.len(),
{
    if n.len() > 0 {
        lemma_append_new_prefix(e, n.drop_last());
        let a = append_new(e, n.drop_last());
        if !a.contains(n.last()) {
            assert(a.push(n.last()).take(e.len() as int) =~= a.take(e.len() as int));
        }
    }
}

/// `after` holds every node of `before` at its place, with the same fields
/// and its edges extended at the end.
pub open spec fn extends_nodes(before: Seq<DependencyView>, after: Seq<DependencyView>) -> bool {
    &&& after.len() >= before.len()
    &&& forall|i: int|
        0 <= i < before.len() ==> (DependencyView { dependencies: before[i].dependencies, ..#[trigger] after[i] })
            == before[i] && after[i].dependencies.len() >= before[i].dependencies.len()
            && after[i].dependencies.take(before[i].dependencies.len() as int) == before[i].dependencies
}

/// Merging nodes into a graph removes nothing: every node already there
/// keeps its place and its fields, and gains at most new edges after its
/// own; a node with a known identifier adds to that node the edges it lacks;
/// one with a new identifier is appended.
pub proof fn law_merge_into_extends(acc: Seq<DependencyView>, s: Seq<DependencyView>)
    ensures
        extends_nodes(acc, merge_into(acc, s)),
    decreases s.len(),
{
    if s.len() == 0 {
        assert forall|i: int| 0 <= i < acc.len() implies (DependencyView {
            dependencies: acc[i].dependencies,
            ..#[trigger] acc[i]
        }) == acc[i] && acc[i].dependencies.take(acc[i].dependencies.len() as int) == acc[i].dependencies by {
            assert(acc[i].dependencies.take(acc[i].dependencies.len() as int) =~= acc[i].dependencies);
        }
    } else {
        law_merge_into_extends(acc, s.drop_last());
        let m = merge_into(acc, s.drop_last());
        let d = s.last();
        let out = merge_into(acc, s);
        lemma_index_of_id(m, d.instance_id);
        assert(out.len() >= m.len());
        assert forall|i: int| 0 <= i < acc.len() implies (DependencyView {
            dependencies: acc[i].dependencies,
            ..#[trigger] out[i]
        }) == acc[i] && out[i].dependencies.len() >= acc[i].dependencies.len() && out[i].dependencies.take(
            acc[i].dependencies.len() as int,
        ) == acc[i].dependencies by {
            let md = m[i].dependencies;
            assert(md.take(acc[i].dependencies.len() as int) == acc[i].dependencies);
            match index_of_id(m, d.instance_id) {
                Some(k) => {
                    if k == i {
                        lemma_append_new_prefix(md, d.dependencies);
                        let od = append_new(md, d.dependencies);
                        assert(out[i].dependencies == od);
                        assert(od.take(acc[i].dependencies.len() as int) =~= od.take(md.len() as int).take(
                            acc[i].dependencies.len() as int,
                        ));
                    } else {
                        assert(out[i] == m[i]);
                    }
                },
                None => {
                    assert(out[i] == m[i]);
                },
            }
        }
    }
}

/// Merging one node: where the graph has its identifier, that node keeps
/// its fields and gains the new node's edges it lacks, after its own; else
/// the node is appended.
pub proof fn law_merge_one(g: Seq<DependencyView>, d: DependencyView)
    ensures
        index_of_id(g, d.instance_id) matches Some(i) ==> 0 <= i < g.len() && g[i].instance_id == d.instance_id
            && merge_one(g, d) == g.update(
            i,
            DependencyView { dependencies: append_new(g[i].dependencies, d.dependencies), ..g[i] },
        ),
        index_of_id(g, d.instance_id) is None ==> merge_one(g, d) == g.push(d),
{
    lemma_index_of_id(g, d.instance_id);
}

} // verus!
