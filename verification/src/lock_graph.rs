//! The package graph of a lock file: nodes, the edges that their dependency
//! entries resolve to, and the nodes reachable from the roots.
use vstd::prelude::*;

use crate::ident::{fixed_purl, is_tagged};
use crate::model::{all_tagged, edges_closed, has_node, lemma_built_tagged, 
    built, dep_views, BuilderView, Dependency, DependencyBuilder, DependencyType, DependencyView,
};
use crate::text::{chars_of, has_prefix, starts_with, string_of};
use crate::tokens::{first_token, first_two_tokens, second_token};

verus! {

/// A package of a lock file, as the graph logic reads it.
pub struct LockNode {
    pub name: Seq<char>,
    pub version: Seq<char>,
    pub purl: Seq<char>,
    pub id: Seq<char>,
    /// The package's dependency entries (`name` or `name version ...`).
    pub deps: Seq<Seq<char>>,
}

/// A package of a lock file.
pub struct PackageNode {
    pub name: String,
    pub version: String,
    pub purl: String,
    pub id: String,
    pub deps: Vec<String>,
}

impl View for PackageNode {
    type V = LockNode;

    open spec fn view(&self) -> LockNode {
        LockNode {
            name: self.name@,
            version: self.version@,
            purl: self.purl@,
            id: self.id@,
            deps: self.deps.deep_view(),
        }
    }
}

pub open spec fn node_views(s: Seq<PackageNode>) -> Seq<LockNode> {
    s.map_values(|n: PackageNode| n@)
}

// ---------------------------------------------------------------------
// Lookups
// ---------------------------------------------------------------------

/// The index of the last node that satisfies `p` (the entry a `HashMap`
/// keeps when later inserts overwrite earlier ones).
pub open spec fn last_index_where(nodes: Seq<LockNode>, p: spec_fn(LockNode) -> bool) -> Option<
    int,
>
    decreases nodes.len(),
{
    if nodes.len() == 0 {
        None
    } else if p(nodes.last()) {
        Some(nodes.len() - 1)
    } else {
        last_index_where(nodes.drop_last(), p)
    }
}

pub proof fn lemma_last_index_where(nodes: Seq<LockNode>, p: spec_fn(LockNode) -> bool)
    ensures
        match last_index_where(nodes, p) {
            Some(j) => 0 <= j < nodes.len() && p(nodes[j]) && forall|m: int|
                j < m < nodes.len() ==> !p(#[trigger] nodes[m]),
            None => forall|m: int| 0 <= m < nodes.len() ==> !p(#[trigger] nodes[m]),
        },
    decreases nodes.len(),
{
    if nodes.len() > 0 && !p(nodes.last()) {
        lemma_last_index_where(nodes.drop_last(), p);
        assert forall|m: int| 0 <= m < nodes.len() - 1 implies nodes.drop_last()[m] == nodes[m] by {}
    }
}

proof fn lemma_last_index_where_take(nodes: Seq<LockNode>, p: spec_fn(LockNode) -> bool, i: int)
    requires
        0 < i <= nodes.len(),
    ensures
        p(nodes[i - 1]) ==> last_index_where(nodes.take(i), p) == Some(i - 1),
        !p(nodes[i - 1]) ==> last_index_where(nodes.take(i), p) == last_index_where(
            nodes.take(i - 1),
            p,
        ),
{
    assert(nodes.take(i).drop_last() =~= nodes.take(i - 1));
    assert(nodes.take(i).last() == nodes[i - 1]);
}

pub open spec fn named(name: Seq<char>) -> spec_fn(LockNode) -> bool {
    |n: LockNode| n.name == name
}

pub open spec fn named_version(name: Seq<char>, version: Seq<char>) -> spec_fn(LockNode) -> bool {
    |n: LockNode| n.name == name && n.version == version
}

pub open spec fn with_id(id: Seq<char>) -> spec_fn(LockNode) -> bool {
    |n: LockNode| n.id == id
}

pub open spec fn opt_index(o: Option<usize>) -> Option<int> {
    match o {
        Some(i) => Some(i as int),
        None => None,
    }
}

/// Searches the nodes from the last one for the first that `is_match` accepts.
fn last_match_by_name(nodes: &Vec<PackageNode>, name: &String, version: Option<&String>) -> (r:
    Option<usize>)
    ensures
        opt_index(r) == match version {
            Some(v) => last_index_where(node_views(nodes@), named_version(name@, v@)),
            None => last_index_where(node_views(nodes@), named(name@)),
        },
{
    let ghost vs = node_views(nodes@);
    let ghost p = match version {
        Some(v) => named_version(name@, v@),
        None => named(name@),
    };
    let mut i = nodes.len();
    assert(vs.take(i as int) =~= vs);
    while i > 0
        invariant
            i <= nodes.len(),
            vs == node_views(nodes@),
            p == (match version {
                Some(v) => named_version(name@, v@),
                None => named(name@),
            }),
            last_index_where(vs, p) == last_index_where(vs.take(i as int), p),
        decreases i,
    {
        let n = &nodes[i - 1];
        let hit = match version {
            Some(v) => n.name == *name && n.version == *v,
            None => n.name == *name,
        };
        proof {
            lemma_last_index_where_take(vs, p, i as int);
            assert(vs[i - 1] == nodes@[i - 1]@);
        }
        if hit {
            return Some(i - 1);
        }
        i = i - 1;
    }
    assert(vs.take(0) =~= Seq::<LockNode>::empty());
    None
}

/// The index of the last node whose identifier is `id`.
fn last_with_id(nodes: &Vec<PackageNode>, id: &String) -> (r: Option<usize>)
    ensures
        opt_index(r) == last_index_where(node_views(nodes@), with_id(id@)),
{
    let ghost vs = node_views(nodes@);
    let ghost p = with_id(id@);
    let mut i = nodes.len();
    assert(vs.take(i as int) =~= vs);
    while i > 0
        invariant
            i <= nodes.len(),
            vs == node_views(nodes@),
            p == with_id(id@),
            last_index_where(vs, p) == last_index_where(vs.take(i as int), p),
        decreases i,
    {
        proof {
            lemma_last_index_where_take(vs, p, i as int);
            assert(vs[i - 1] == nodes@[i - 1]@);
        }
        if nodes[i - 1].id == *id {
            return Some(i - 1);
        }
        i = i - 1;
    }
    assert(vs.take(0) =~= Seq::<LockNode>::empty());
    None
}

// ---------------------------------------------------------------------
// Edges
// ---------------------------------------------------------------------

/// The node that a dependency entry names: `name version` picks the last
/// node with that name and version; `name`, or `name (source)`, the last
/// node with that name.
pub open spec fn dep_target(nodes: Seq<LockNode>, entry: Seq<char>) -> Option<int> {
    let name = first_token(entry);
    match second_token(entry) {
        Some(v) => if !has_prefix(v, seq!['(']) {
            last_index_where(nodes, named_version(name, v))
        } else {
            last_index_where(nodes, named(name))
        },
        None => last_index_where(nodes, named(name)),
    }
}

/// The identifiers that the dependency entries `deps` resolve to, in order;
/// entries that name no node are dropped.
pub open spec fn dep_ids(nodes: Seq<LockNode>, deps: Seq<Seq<char>>) -> Seq<Seq<char>>
    decreases deps.len(),
{
    if deps.len() == 0 {
        Seq::empty()
    } else {
        let rest = dep_ids(nodes, deps.drop_last());
        match dep_target(nodes, deps.last()) {
            Some(t) => rest.push(nodes[t].id),
            None => rest,
        }
    }
}

/// The children of the identifier `id`: the resolved entries of the last
/// node with that identifier.
pub open spec fn id_children(nodes: Seq<LockNode>, id: Seq<char>) -> Seq<Seq<char>> {
    match last_index_where(nodes, with_id(id)) {
        Some(k) => dep_ids(nodes, nodes[k].deps),
        None => Seq::empty(),
    }
}

/// Some node's resolved entries name `id`.
pub open spec fn is_dep_target(nodes: Seq<LockNode>, id: Seq<char>) -> bool {
    exists|k: int, j: int|
        0 <= k < nodes.len() && 0 <= j < dep_ids(nodes, nodes[k].deps).len() && #[trigger] dep_ids(
            nodes,
            nodes[k].deps,
        )[j] == id
}

/// A root: the identifier of a node that no node depends on.
pub open spec fn is_root(nodes: Seq<LockNode>, id: Seq<char>) -> bool {
    (exists|k: int| 0 <= k < nodes.len() && #[trigger] nodes[k].id == id) && !is_dep_target(
        nodes,
        id,
    )
}

/// `id` is reached from a root in at most `steps` edges.
pub open spec fn reaches_in(nodes: Seq<LockNode>, id: Seq<char>, steps: nat) -> bool
    decreases steps,
{
    if steps == 0 {
        is_root(nodes, id)
    } else {
        reaches_in(nodes, id, (steps - 1) as nat) || exists|x: Seq<char>|
            reaches_in(nodes, x, (steps - 1) as nat) && #[trigger] id_children(nodes, x).contains(
                id,
            )
    }
}

/// `id` is reachable from a root.
pub open spec fn reachable(nodes: Seq<LockNode>, id: Seq<char>) -> bool {
    exists|steps: nat| reaches_in(nodes, id, steps)
}

/// The identifiers of `ids` that are reachable, in order.
pub open spec fn reachable_only(nodes: Seq<LockNode>, ids: Seq<Seq<char>>) -> Seq<Seq<char>>
    decreases ids.len(),
{
    if ids.len() == 0 {
        Seq::empty()
    } else {
        let rest = reachable_only(nodes, ids.drop_last());
        if reachable(nodes, ids.last()) {
            rest.push(ids.last())
        } else {
            rest
        }
    }
}

/// The dependency that a reachable node becomes.
pub open spec fn graph_dependency(nodes: Seq<LockNode>, n: LockNode) -> DependencyView {
    built(
        BuilderView {
            group: None,
            kind: DependencyType::Library,
            name: Some(n.name),
            version: Some(n.version),
            purl: Some(n.purl),
            instance_id: Some(n.id),
            dependencies: reachable_only(nodes, id_children(nodes, n.id)),
            location: None,
        },
    )
}

/// The dependencies of the first `i` nodes that are reachable, in order.
pub open spec fn graph_prefix(nodes: Seq<LockNode>, i: int) -> Seq<DependencyView>
    decreases i,
{
    if i <= 0 || i > nodes.len() {
        Seq::empty()
    } else {
        let rest = graph_prefix(nodes, i - 1);
        if reachable(nodes, nodes[i - 1].id) {
            rest.push(graph_dependency(nodes, nodes[i - 1]))
        } else {
            rest
        }
    }
}

/// The lock file's graph: its reachable nodes, in file order, each with its
/// reachable children.
pub open spec fn reachable_graph(nodes: Seq<LockNode>) -> Seq<DependencyView> {
    graph_prefix(nodes, nodes.len() as int)
}


// ---------------------------------------------------------------------
// Computing the edges
// ---------------------------------------------------------------------

/// Resolves one dependency entry to the index of the node it names.
fn dep_target_exec(nodes: &Vec<PackageNode>, entry: &String) -> (r: Option<usize>)
    ensures
        opt_index(r) == dep_target(node_views(nodes@), entry@),
{
    let cs = chars_of(entry.as_str());
    let (first, second) = first_two_tokens(&cs);
    let name = string_of(&first);
    let mut paren: Vec<char> = Vec::new();
    paren.push('(');
    assert(paren@ =~= seq!['(']);
    match second {
        Some(v) => {
            if !starts_with(&v, &paren) {
                let version = string_of(&v);
                last_match_by_name(nodes, &name, Some(&version))
            } else {
                last_match_by_name(nodes, &name, None)
            }
        },
        None => last_match_by_name(nodes, &name, None),
    }
}

/// For each node, the index of the last node with the same identifier.
pub open spec fn reps_ok(vs: Seq<LockNode>, reps: Seq<usize>) -> bool {
    &&& reps.len() == vs.len()
    &&& forall|k: int|
        0 <= k < vs.len() ==> last_index_where(vs, with_id(vs[k].id)) == Some(
            #[trigger] reps[k] as int,
        )
}

fn compute_reps(nodes: &Vec<PackageNode>) -> (reps: Vec<usize>)
    ensures
        reps_ok(node_views(nodes@), reps@),
{
    let ghost vs = node_views(nodes@);
    let mut reps: Vec<usize> = Vec::new();
    let mut k: usize = 0;
    while k < nodes.len()
        invariant
            k <= nodes.len(),
            vs == node_views(nodes@),
            reps@.len() == k,
            forall|m: int|
                0 <= m < k ==> last_index_where(vs, with_id(vs[m].id)) == Some(
                    #[trigger] reps@[m] as int,
                ),
        decreases nodes.len() - k,
    {
        let r = last_with_id(nodes, &nodes[k].id);
        proof {
            lemma_last_index_where(vs, with_id(vs[k as int].id));
            assert(vs[k as int] == nodes@[k as int]@);
        }
        match r {
            Some(r) => reps.push(r),
            None => {
                assert(false);
                reps.push(k);
            },
        }
        k = k + 1;
    }
    reps
}

/// For each node, the indices of the nodes its entries resolve to, each
/// the last node of its identifier.
pub open spec fn children_ok(vs: Seq<LockNode>, reps: Seq<usize>, ch: Seq<Seq<usize>>) -> bool {
    &&& ch.len() == vs.len()
    &&& forall|k: int|
        0 <= k < vs.len() ==> {
            &&& (#[trigger] ch[k]).len() == dep_ids(vs, vs[k].deps).len()
            &&& forall|j: int|
                0 <= j < ch[k].len() ==> {
                    &&& (#[trigger] ch[k][j]) < vs.len()
                    &&& vs[ch[k][j] as int].id == dep_ids(vs, vs[k].deps)[j]
                    &&& reps[ch[k][j] as int] == ch[k][j]
                }
        }
}

proof fn lemma_dep_ids_take(vs: Seq<LockNode>, deps: Seq<Seq<char>>, i: int)
    requires
        0 <= i < deps.len(),
    ensures
        dep_ids(vs, deps.take(i + 1)) == match dep_target(vs, deps[i]) {
            Some(t) => dep_ids(vs, deps.take(i)).push(vs[t].id),
            None => dep_ids(vs, deps.take(i)),
        },
{
    assert(deps.take(i + 1).drop_last() =~= deps.take(i));
    assert(deps.take(i + 1).last() == deps[i]);
}

fn node_children(nodes: &Vec<PackageNode>, reps: &Vec<usize>, k: usize) -> (ch: Vec<usize>)
    requires
        k < nodes.len(),
        reps_ok(node_views(nodes@), reps@),
    ensures
        ch@.len() == dep_ids(node_views(nodes@), nodes@[k as int].deps.deep_view()).len(),
        forall|j: int|
            0 <= j < ch@.len() ==> {
                &&& (#[trigger] ch@[j]) < nodes.len()
                &&& node_views(nodes@)[ch@[j] as int].id == dep_ids(
                    node_views(nodes@),
                    nodes@[k as int].deps.deep_view(),
                )[j]
                &&& reps@[ch@[j] as int] == ch@[j]
            },
{
    let ghost vs = node_views(nodes@);
    let deps = &nodes[k].deps;
    let ghost dv = deps.deep_view();
    let mut ch: Vec<usize> = Vec::new();
    let mut i: usize = 0;
    assert(dv.take(0) =~= Seq::<Seq<char>>::empty());
    while i < deps.len()
        invariant
            i <= deps.len(),
            vs == node_views(nodes@),
            dv == deps.deep_view(),
            reps_ok(vs, reps@),
            ch@.len() == dep_ids(vs, dv.take(i as int)).len(),
            forall|j: int|
                0 <= j < ch@.len() ==> {
                    &&& (#[trigger] ch@[j]) < nodes.len()
                    &&& vs[ch@[j] as int].id == dep_ids(vs, dv.take(i as int))[j]
                    &&& reps@[ch@[j] as int] == ch@[j]
                },
        decreases deps.len() - i,
    {
        proof {
            lemma_dep_ids_take(vs, dv, i as int);
        }
        let t = dep_target_exec(nodes, &deps[i]);
        match t {
            Some(t) => {
                proof {
                    lemma_last_index_where(vs, with_id(vs[t as int].id));
                    assert(dep_target(vs, dv[i as int]) == Some(t as int));
                    lemma_dep_target_range(vs, dv[i as int]);
                }
                let r = reps[t];
                proof {
                    assert(last_index_where(vs, with_id(vs[t as int].id)) == Some(r as int));
                    lemma_last_index_where(vs, with_id(vs[t as int].id));
                    assert(vs[r as int].id == vs[t as int].id);
                    assert(last_index_where(vs, with_id(vs[r as int].id)) == Some(r as int));
                }
                ch.push(r);
            },
            None => {},
        }
        i = i + 1;
    }
    assert(dv.take(deps.len() as int) =~= dv);
    ch
}

proof fn lemma_dep_target_range(vs: Seq<LockNode>, entry: Seq<char>)
    ensures
        dep_target(vs, entry) matches Some(t) ==> 0 <= t < vs.len(),
{
    let name = first_token(entry);
    lemma_last_index_where(vs, named(name));
    if let Some(v) = second_token(entry) {
        lemma_last_index_where(vs, named_version(name, v));
    }
}

fn compute_children(nodes: &Vec<PackageNode>, reps: &Vec<usize>) -> (ch: Vec<Vec<usize>>)
    requires
        reps_ok(node_views(nodes@), reps@),
    ensures
        children_ok(node_views(nodes@), reps@, ch.deep_view()),
{
    let ghost vs = node_views(nodes@);
    let mut ch: Vec<Vec<usize>> = Vec::new();
    let mut k: usize = 0;
    while k < nodes.len()
        invariant
            k <= nodes.len(),
            vs == node_views(nodes@),
            reps_ok(vs, reps@),
            ch@.len() == k,
            forall|m: int|
                0 <= m < k ==> {
                    &&& (#[trigger] ch@[m])@.len() == dep_ids(vs, vs[m].deps).len()
                    &&& forall|j: int|
                        0 <= j < ch@[m]@.len() ==> {
                            &&& (#[trigger] ch@[m]@[j]) < vs.len()
                            &&& vs[ch@[m]@[j] as int].id == dep_ids(vs, vs[m].deps)[j]
                            &&& reps@[ch@[m]@[j] as int] == ch@[m]@[j]
                        }
                },
        decreases nodes.len() - k,
    {
        let c = node_children(nodes, reps, k);
        proof {
            assert(vs[k as int] == nodes@[k as int]@);
        }
        ch.push(c);
        k = k + 1;
    }
    proof {
        let dv = ch.deep_view();
        assert forall|m: int| 0 <= m < vs.len() implies dv[m] == ch@[m]@ by {}
    }
    ch
}


// ---------------------------------------------------------------------
// Roots and reachability
// ---------------------------------------------------------------------

/// `flags[r]` tells whether some node's children hold `r`.
pub open spec fn flags_ok(ch: Seq<Seq<usize>>, flags: Seq<bool>) -> bool {
    &&& forall|r: int|
        0 <= r < flags.len() ==> (#[trigger] flags[r] <==> exists|k: int, j: int|
            0 <= k < ch.len() && 0 <= j < ch[k].len() && #[trigger] ch[k][j] == r)
}

fn compute_target_flags(n: usize, ch: &Vec<Vec<usize>>) -> (flags: Vec<bool>)
    requires
        forall|k: int, j: int|
            0 <= k < ch@.len() && 0 <= j < ch@[k]@.len() ==> #[trigger] ch@[k]@[j] < n,
    ensures
        flags@.len() == n,
        flags_ok(ch.deep_view(), flags@),
{
    let ghost dv = ch.deep_view();
    assert forall|k: int| 0 <= k < ch@.len() implies dv[k] == ch@[k]@ by {}
    let mut flags: Vec<bool> = Vec::new();
    let mut i: usize = 0;
    while i < n
        invariant
            i <= n,
            flags@.len() == i,
            forall|r: int| 0 <= r < i ==> !(#[trigger] flags@[r]),
        decreases n - i,
    {
        flags.push(false);
        i = i + 1;
    }
    let mut k: usize = 0;
    while k < ch.len()
        invariant
            k <= ch.len(),
            flags@.len() == n,
            dv == ch.deep_view(),
            forall|m: int| 0 <= m < ch@.len() ==> dv[m] == ch@[m]@,
            forall|a: int, b: int|
                0 <= a < ch@.len() && 0 <= b < ch@[a]@.len() ==> #[trigger] ch@[a]@[b] < n,
            forall|r: int|
                0 <= r < n ==> (#[trigger] flags@[r] ==> exists|a: int, b: int|
                    0 <= a < k && 0 <= b < dv[a].len() && #[trigger] dv[a][b] == r),
            forall|a: int, b: int|
                0 <= a < k && 0 <= b < dv[a].len() ==> flags@[#[trigger] dv[a][b] as int],
        decreases ch.len() - k,
    {
        let row = &ch[k];
        let mut j: usize = 0;
        while j < row.len()
            invariant
                k < ch.len(),
                j <= row.len(),
                *row == ch@[k as int],
                flags@.len() == n,
                dv == ch.deep_view(),
                forall|m: int| 0 <= m < ch@.len() ==> dv[m] == ch@[m]@,
                forall|a: int, b: int|
                    0 <= a < ch@.len() && 0 <= b < ch@[a]@.len() ==> #[trigger] ch@[a]@[b] < n,
                forall|r: int|
                    0 <= r < n ==> (#[trigger] flags@[r] ==> exists|a: int, b: int|
                        0 <= a <= k && 0 <= b < dv[a].len() && #[trigger] dv[a][b] == r),
                forall|a: int, b: int|
                    0 <= a < k && 0 <= b < dv[a].len() ==> flags@[#[trigger] dv[a][b] as int],
                forall|b: int| 0 <= b < j ==> flags@[#[trigger] dv[k as int][b] as int],
            decreases row.len() - j,
        {
            let c = row[j];
            assert(dv[k as int][j as int] == c);
            flags.set(c, true);
            j = j + 1;
        }
        k = k + 1;
    }
    flags
}

proof fn lemma_flags_mean_targets(
    vs: Seq<LockNode>,
    reps: Seq<usize>,
    ch: Seq<Seq<usize>>,
    flags: Seq<bool>,
    m: int,
)
    requires
        reps_ok(vs, reps),
        children_ok(vs, reps, ch),
        flags.len() == vs.len(),
        flags_ok(ch, flags),
        0 <= m < vs.len(),
    ensures
        is_dep_target(vs, vs[m].id) <==> flags[reps[m] as int],
{
    let id = vs[m].id;
    lemma_last_index_where(vs, with_id(id));
    let r = reps[m] as int;
    if is_dep_target(vs, id) {
        let (k, j) = choose|k: int, j: int|
            0 <= k < vs.len() && 0 <= j < dep_ids(vs, vs[k].deps).len() && #[trigger] dep_ids(
                vs,
                vs[k].deps,
            )[j] == id;
        let c = ch[k][j] as int;
        assert(vs[c].id == id);
        lemma_last_index_where(vs, with_id(vs[c].id));
        assert(reps[c] == ch[k][j]);
        assert(last_index_where(vs, with_id(vs[c].id)) == Some(reps[c] as int));
        assert(c == r);
        assert(ch[k][j] == r);
        assert(flags[r]);
    }
    if flags[r] {
        let (k, j) = choose|k: int, j: int|
            0 <= k < ch.len() && 0 <= j < ch[k].len() && #[trigger] ch[k][j] == r;
        assert(vs[ch[k][j] as int].id == dep_ids(vs, vs[k].deps)[j]);
        assert(vs[r].id == id);
        assert(dep_ids(vs, vs[k].deps)[j] == id);
    }
}

/// The queue of a breadth-first search: distinct last-node indices, each
/// marked as visited, and no other index marked.
pub open spec fn queue_ok(n: int, reps: Seq<usize>, queue: Seq<usize>, visited: Seq<bool>) -> bool {
    &&& visited.len() == n
    &&& queue.no_duplicates()
    &&& forall|i: int|
        0 <= i < queue.len() ==> (#[trigger] queue[i]) < n && reps[queue[i] as int] == queue[i]
    &&& forall|r: int| 0 <= r < n ==> (#[trigger] visited[r] <==> queue.contains(r as usize))
}

proof fn lemma_queue_bound(queue: Seq<usize>, n: int)
    requires
        0 <= n,
        queue.no_duplicates(),
        forall|i: int| 0 <= i < queue.len() ==> #[trigger] queue[i] < n,
    ensures
        queue.len() <= n,
{
    let qi = queue.map_values(|x: usize| x as int);
    assert forall|a: int, b: int| 0 <= a < qi.len() && 0 <= b < qi.len() && a != b implies qi[a]
        != qi[b] by {
        assert(queue[a] != queue[b]);
    }
    assert(qi.no_duplicates());
    qi.unique_seq_to_set();
    vstd::set_lib::lemma_int_range(0, n);
    assert(qi.to_set().subset_of(vstd::set_lib::set_int_range(0, n))) by {
        assert forall|x: int| qi.to_set().contains(x) implies vstd::set_lib::set_int_range(
            0,
            n,
        ).contains(x) by {
            let i = choose|i: int| 0 <= i < qi.len() && qi[i] == x;
            assert(queue[i] < n);
        }
    }
    vstd::set_lib::lemma_len_subset(qi.to_set(), vstd::set_lib::set_int_range(0, n));
}

proof fn lemma_reach_complete(
    vs: Seq<LockNode>,
    reps: Seq<usize>,
    ch: Seq<Seq<usize>>,
    flags: Seq<bool>,
    queue: Seq<usize>,
    visited: Seq<bool>,
    id: Seq<char>,
    steps: nat,
)
    requires
        reps_ok(vs, reps),
        children_ok(vs, reps, ch),
        flags.len() == vs.len(),
        flags_ok(ch, flags),
        queue_ok(vs.len() as int, reps, queue, visited),
        forall|m: int|
            0 <= m < vs.len() && !flags[reps[m] as int] ==> #[trigger] visited[reps[m] as int],
        forall|i: int, j: int|
            0 <= i < queue.len() && 0 <= j < ch[queue[i] as int].len() ==> visited[#[trigger] ch[queue[i] as int][j] as int],
        reaches_in(vs, id, steps),
    ensures
        exists|m: int| 0 <= m < vs.len() && #[trigger] vs[m].id == id && visited[reps[m] as int],
    decreases steps,
{
    if steps == 0 {
        let k = choose|k: int| 0 <= k < vs.len() && #[trigger] vs[k].id == id;
        lemma_flags_mean_targets(vs, reps, ch, flags, k);
        assert(visited[reps[k] as int]);
    } else if reaches_in(vs, id, (steps - 1) as nat) {
        lemma_reach_complete(vs, reps, ch, flags, queue, visited, id, (steps - 1) as nat);
    } else {
        let x = choose|x: Seq<char>|
            reaches_in(vs, x, (steps - 1) as nat) && #[trigger] id_children(vs, x).contains(id);
        lemma_reach_complete(vs, reps, ch, flags, queue, visited, x, (steps - 1) as nat);
        let mx = choose|m: int| 0 <= m < vs.len() && #[trigger] vs[m].id == x && visited[reps[m] as int];
        let r = reps[mx] as int;
        assert(last_index_where(vs, with_id(x)) == Some(r));
        lemma_last_index_where(vs, with_id(x));
        assert(id_children(vs, x) == dep_ids(vs, vs[r].deps));
        assert(queue.contains(r as usize));
        let i = choose|i: int| 0 <= i < queue.len() && queue[i] == r as usize;
        let j = choose|j: int| 0 <= j < dep_ids(vs, vs[r].deps).len() && dep_ids(vs, vs[r].deps)[j] == id;
        let c = ch[r][j] as int;
        assert(vs[c].id == id);
        assert(visited[ch[queue[i] as int][j] as int]);
        assert(reps[c] as int == c);
    }
}


/// Marks, at the last index of each identifier, whether that identifier is
/// reachable from a root (a breadth-first search from all roots).
fn reachable_marks(nodes: &Vec<PackageNode>, reps: &Vec<usize>, ch: &Vec<Vec<usize>>) -> (visited:
    Vec<bool>)
    requires
        reps_ok(node_views(nodes@), reps@),
        children_ok(node_views(nodes@), reps@, ch.deep_view()),
    ensures
        visited@.len() == nodes.len(),
        forall|m: int|
            0 <= m < nodes.len() ==> (visited@[#[trigger] reps@[m] as int] <==> reachable(
                node_views(nodes@),
                node_views(nodes@)[m].id,
            )),
{
    let ghost vs = node_views(nodes@);
    let ghost dv = ch.deep_view();
    let n = nodes.len();
    assert forall|k: int| 0 <= k < ch@.len() implies dv[k] == ch@[k]@ by {}
    assert forall|k: int, j: int| 0 <= k < ch@.len() && 0 <= j < ch@[k]@.len() implies #[trigger] ch@[k]@[j] < n by {
        assert(dv[k][j] == ch@[k]@[j]);
    }
    let flags = compute_target_flags(n, ch);
    let mut visited: Vec<bool> = Vec::new();
    let mut i: usize = 0;
    while i < n
        invariant
            i <= n,
            visited@.len() == i,
            forall|r: int| 0 <= r < i ==> !(#[trigger] visited@[r]),
        decreases n - i,
    {
        visited.push(false);
        i = i + 1;
    }
    let mut queue: Vec<usize> = Vec::new();
    proof {
        assert forall|m: int| 0 <= m < n implies #[trigger] reps@[m] < n by {
            lemma_last_index_where(vs, with_id(vs[m].id));
        }
    }
    // Roots first.
    let mut m: usize = 0;
    while m < n
        invariant
            m <= n == nodes.len() == reps.len(),
            vs == node_views(nodes@),
            dv == ch.deep_view(),
            reps_ok(vs, reps@),
            children_ok(vs, reps@, dv),
            flags@.len() == n,
            flags_ok(dv, flags@),
            queue_ok(n as int, reps@, queue@, visited@),
            forall|k: int| 0 <= k < n ==> #[trigger] reps@[k] < n,
            forall|i: int| 0 <= i < queue@.len() ==> reachable(vs, vs[#[trigger] queue@[i] as int].id),
            forall|a: int| 0 <= a < m && !flags@[reps@[a] as int] ==> #[trigger] visited@[reps@[a] as int],
        decreases n - m,
    {
        let r = reps[m];
        proof {
            lemma_last_index_where(vs, with_id(vs[m as int].id));
        }
        if !flags[r] && !visited[r] {
            proof {
                lemma_flags_mean_targets(vs, reps@, dv, flags@, m as int);
                assert(vs[r as int].id == vs[m as int].id);
                assert(is_root(vs, vs[m as int].id));
                assert(reaches_in(vs, vs[r as int].id, 0));
                assert(reps@[r as int] == r);
                lemma_queue_bound(queue@, n as int);
            }
            let ghost old_queue = queue@;
            visited.set(r, true);
            queue.push(r);
            proof {
                assert forall|x: int| 0 <= x < n implies (#[trigger] visited@[x] <==> queue@.contains(x as usize)) by {
                    if x == r as int {
                        assert(queue@[queue@.len() - 1] == r);
                    } else {
                        if queue@.contains(x as usize) {
                            let t = choose|t: int| 0 <= t < queue@.len() && queue@[t] == x as usize;
                            assert(t < queue@.len() - 1);
                            assert(old_queue[t] == x as usize);
                        }
                        if old_queue.contains(x as usize) {
                            let t = choose|t: int| 0 <= t < old_queue.len() && old_queue[t] == x as usize;
                            assert(queue@[t] == x as usize);
                        }
                    }
                }
                assert forall|a: int, b: int| 0 <= a < queue@.len() && 0 <= b < queue@.len() && a != b implies queue@[a] != queue@[b] by {
                    if a == old_queue.len() as int {
                        assert(!old_queue.contains(r));
                        assert(old_queue[b] != r);
                    } else if b == old_queue.len() as int {
                        assert(!old_queue.contains(r));
                        assert(old_queue[a] != r);
                    }
                }
            }
        }
        m = m + 1;
    }
    // Then everything their edges reach.
    proof {
        lemma_queue_bound(queue@, n as int);
    }
    let mut head: usize = 0;
    while head < queue.len()
        invariant
            n == nodes.len() == reps.len(),
            head <= queue@.len() <= n,
            vs == node_views(nodes@),
            dv == ch.deep_view(),
            forall|k: int| 0 <= k < ch@.len() ==> dv[k] == ch@[k]@,
            reps_ok(vs, reps@),
            children_ok(vs, reps@, dv),
            flags@.len() == n,
            flags_ok(dv, flags@),
            queue_ok(n as int, reps@, queue@, visited@),
            forall|k: int| 0 <= k < n ==> #[trigger] reps@[k] < n,
            forall|i: int| 0 <= i < queue@.len() ==> reachable(vs, vs[#[trigger] queue@[i] as int].id),
            forall|a: int| 0 <= a < n && !flags@[reps@[a] as int] ==> #[trigger] visited@[reps@[a] as int],
            forall|i: int, j: int|
                0 <= i < head && 0 <= j < dv[queue@[i] as int].len() ==> visited@[#[trigger] dv[queue@[i] as int][j] as int],
        decreases n - head,
    {
        let r = queue[head];
        let row = &ch[r];
        let ghost rid = vs[r as int].id;
        proof {
            assert(reachable(vs, rid));
            assert(last_index_where(vs, with_id(rid)) == Some(r as int));
            assert(id_children(vs, rid) == dep_ids(vs, vs[r as int].deps));
        }
        let mut j: usize = 0;
        while j < row.len()
            invariant
                n == nodes.len() == reps.len(),
                head < queue@.len() <= n,
                queue@[head as int] == r,
                r < n,
                j <= row@.len(),
                *row == ch@[r as int],
                rid == vs[r as int].id,
                reachable(vs, rid),
                id_children(vs, rid) == dep_ids(vs, vs[r as int].deps),
                vs == node_views(nodes@),
                dv == ch.deep_view(),
                forall|k: int| 0 <= k < ch@.len() ==> dv[k] == ch@[k]@,
                reps_ok(vs, reps@),
                children_ok(vs, reps@, dv),
                flags@.len() == n,
                flags_ok(dv, flags@),
                queue_ok(n as int, reps@, queue@, visited@),
                forall|k: int| 0 <= k < n ==> #[trigger] reps@[k] < n,
                forall|i: int| 0 <= i < queue@.len() ==> reachable(vs, vs[#[trigger] queue@[i] as int].id),
                forall|a: int| 0 <= a < n && !flags@[reps@[a] as int] ==> #[trigger] visited@[reps@[a] as int],
                forall|i: int, b: int|
                    0 <= i < head && 0 <= b < dv[queue@[i] as int].len() ==> visited@[#[trigger] dv[queue@[i] as int][b] as int],
                forall|b: int| 0 <= b < j ==> visited@[#[trigger] dv[r as int][b] as int],
            decreases row@.len() - j,
        {
            let c = row[j];
            proof {
                assert(dv[r as int][j as int] == c);
                assert(c < n);
                assert(vs[c as int].id == dep_ids(vs, vs[r as int].deps)[j as int]);
                assert(reps@[c as int] == c);
            }
            if !visited[c] {
                proof {
                    let steps = choose|steps: nat| reaches_in(vs, rid, steps);
                    assert(id_children(vs, rid).contains(vs[c as int].id));
                    assert(reaches_in(vs, vs[c as int].id, steps + 1));
                    assert(!queue@.contains(c));
                    lemma_queue_bound(queue@, n as int);
                    assert(queue@.len() < n) by {
                        let q2 = queue@.push(c);
                        assert forall|a: int, b: int| 0 <= a < q2.len() && 0 <= b < q2.len() && a != b implies q2[a] != q2[b] by {
                            if a == queue@.len() as int {
                                assert(queue@[b] != c);
                            } else if b == queue@.len() as int {
                                assert(queue@[a] != c);
                            }
                        }
                        assert(q2.no_duplicates());
                        lemma_queue_bound(q2, n as int);
                    }
                }
                let ghost old_queue = queue@;
                visited.set(c, true);
                queue.push(c);
                proof {
                    assert forall|x: int| 0 <= x < n implies (#[trigger] visited@[x] <==> queue@.contains(x as usize)) by {
                        if x == c as int {
                            assert(queue@[queue@.len() - 1] == c);
                        } else {
                            if queue@.contains(x as usize) {
                                let t = choose|t: int| 0 <= t < queue@.len() && queue@[t] == x as usize;
                                assert(t < queue@.len() - 1);
                                assert(old_queue[t] == x as usize);
                            }
                            if old_queue.contains(x as usize) {
                                let t = choose|t: int| 0 <= t < old_queue.len() && old_queue[t] == x as usize;
                                assert(queue@[t] == x as usize);
                            }
                        }
                    }
                    assert forall|a: int, b: int| 0 <= a < queue@.len() && 0 <= b < queue@.len() && a != b implies queue@[a] != queue@[b] by {
                        if a == old_queue.len() as int {
                            assert(!old_queue.contains(c));
                            assert(old_queue[b] != c);
                        } else if b == old_queue.len() as int {
                            assert(old_queue[a] != c);
                        }
                    }
                }
            }
            j = j + 1;
        }
        head = head + 1;
    }
    proof {
        assert forall|m: int| 0 <= m < n implies (visited@[#[trigger] reps@[m] as int] <==> reachable(vs, vs[m].id)) by {
            lemma_last_index_where(vs, with_id(vs[m].id));
            let r = reps@[m] as int;
            assert(vs[r].id == vs[m].id);
            if visited@[r] {
                let t = choose|t: int| 0 <= t < queue@.len() && queue@[t] == r as usize;
                assert(reachable(vs, vs[queue@[t] as int].id));
            }
            if reachable(vs, vs[m].id) {
                let steps = choose|steps: nat| reaches_in(vs, vs[m].id, steps);
                lemma_reach_complete(vs, reps@, dv, flags@, queue@, visited@, vs[m].id, steps);
                let m2 = choose|m2: int| 0 <= m2 < vs.len() && #[trigger] vs[m2].id == vs[m].id && visited@[reps@[m2] as int];
                assert(last_index_where(vs, with_id(vs[m2].id)) == Some(reps@[m2] as int));
            }
        }
    }
    visited
}


proof fn lemma_reachable_only_take(vs: Seq<LockNode>, ids: Seq<Seq<char>>, j: int)
    requires
        0 <= j < ids.len(),
    ensures
        reachable_only(vs, ids.take(j + 1)) == if reachable(vs, ids[j]) {
            reachable_only(vs, ids.take(j)).push(ids[j])
        } else {
            reachable_only(vs, ids.take(j))
        },
{
    assert(ids.take(j + 1).drop_last() =~= ids.take(j));
    assert(ids.take(j + 1).last() == ids[j]);
}

/// The dependencies of the reachable nodes, in node order, each with the
/// identifiers of its reachable children.
pub fn reachable_dependencies(nodes: &Vec<PackageNode>) -> (out: Vec<Dependency>)
    ensures
        dep_views(out@) == reachable_graph(node_views(nodes@)),
{
    let ghost vs = node_views(nodes@);
    let n = nodes.len();
    let reps = compute_reps(nodes);
    let ch = compute_children(nodes, &reps);
    let visited = reachable_marks(nodes, &reps, &ch);
    let ghost dv = ch.deep_view();
    proof {
        assert forall|k: int| 0 <= k < ch@.len() implies dv[k] == ch@[k]@ by {}
        assert forall|m: int| 0 <= m < n implies #[trigger] reps@[m] < n by {
            lemma_last_index_where(vs, with_id(vs[m].id));
        }
    }
    let mut out: Vec<Dependency> = Vec::new();
    let mut m: usize = 0;
    while m < n
        invariant
            m <= n == nodes.len() == reps.len() == visited.len() == ch.len(),
            vs == node_views(nodes@),
            dv == ch.deep_view(),
            forall|k: int| 0 <= k < ch@.len() ==> dv[k] == ch@[k]@,
            forall|k: int| 0 <= k < n ==> #[trigger] reps@[k] < n,
            reps_ok(vs, reps@),
            children_ok(vs, reps@, dv),
            forall|a: int|
                0 <= a < n ==> (visited@[#[trigger] reps@[a] as int] <==> reachable(vs, vs[a].id)),
            dep_views(out@) == graph_prefix(vs, m as int),
        decreases n - m,
    {
        let r = reps[m];
        if visited[r] {
            let row = &ch[r];
            let ghost ids = dep_ids(vs, vs[r as int].deps);
            let mut kids: Vec<String> = Vec::new();
            let mut j: usize = 0;
            assert(ids.take(0) =~= Seq::<Seq<char>>::empty());
            assert(kids.deep_view() =~= Seq::<Seq<char>>::empty());
            while j < row.len()
                invariant
                    m < n == nodes.len() == reps.len() == visited.len() == ch.len(),
                    r == reps@[m as int],
                    r < n,
                    *row == ch@[r as int],
                    vs == node_views(nodes@),
                    dv == ch.deep_view(),
                    ids == dep_ids(vs, vs[r as int].deps),
                    forall|k: int| 0 <= k < ch@.len() ==> dv[k] == ch@[k]@,
                    reps_ok(vs, reps@),
                    children_ok(vs, reps@, dv),
                    forall|a: int|
                        0 <= a < n ==> (visited@[#[trigger] reps@[a] as int] <==> reachable(vs, vs[a].id)),
                    j <= row@.len(),
                    kids.deep_view() == reachable_only(vs, ids.take(j as int)),
                decreases row@.len() - j,
            {
                let c = row[j];
                proof {
                    assert(dv[r as int][j as int] == c);
                    assert(c < n);
                    assert(vs[c as int].id == ids[j as int]);
                    assert(reps@[c as int] == c);
                    lemma_reachable_only_take(vs, ids, j as int);
                }
                if visited[c] {
                    let ghost before = kids.deep_view();
                    kids.push(nodes[c].id.clone());
                    proof {
                        assert(nodes@[c as int]@ == vs[c as int]);
                        assert(kids.deep_view() =~= before.push(ids[j as int]));
                    }
                }
                j = j + 1;
            }
            proof {
                assert(dv[r as int].len() == ids.len());
                assert(ids.take(row@.len() as int) =~= ids);
                lemma_last_index_where(vs, with_id(vs[m as int].id));
                assert(id_children(vs, vs[m as int].id) == ids);
                assert(reachable(vs, vs[m as int].id));
            }
            let node = &nodes[m];
            let builder = DependencyBuilder::default().name(node.name.clone()).version(
                Some(node.version.clone()),
            ).dep_type(DependencyType::Library).purl(node.purl.clone()).instance_id(
                node.id.clone(),
            ).dependencies(kids).location(None);
            proof {
                assert(nodes@[m as int]@ == vs[m as int]);
                assert(builder@ == (BuilderView {
                    group: None,
                    kind: DependencyType::Library,
                    name: Some(vs[m as int].name),
                    version: Some(vs[m as int].version),
                    purl: Some(vs[m as int].purl),
                    instance_id: Some(vs[m as int].id),
                    dependencies: reachable_only(vs, id_children(vs, vs[m as int].id)),
                    location: None,
                }));
            }
            match builder.build() {
                Ok(d) => {
                    let ghost before = dep_views(out@);
                    out.push(d);
                    assert(dep_views(out@) =~= before.push(graph_dependency(vs, vs[m as int])));
                },
                Err(_) => {},
            }
        } else {
            proof {
                lemma_last_index_where(vs, with_id(vs[m as int].id));
            }
        }
        m = m + 1;
    }
    out
}

/// A graph over nodes with tagged identifiers has tagged identifiers.
pub proof fn lemma_graph_prefix_tagged(nodes: Seq<LockNode>, i: int)
    requires
        forall|k: int| 0 <= k < nodes.len() ==> is_tagged(#[trigger] nodes[k].id),
    ensures
        all_tagged(graph_prefix(nodes, i)),
    decreases i,
{
    if i > 0 && i <= nodes.len() {
        lemma_graph_prefix_tagged(nodes, i - 1);
        let rest = graph_prefix(nodes, i - 1);
        let n = nodes[i - 1];
        lemma_built_tagged(
            BuilderView {
                group: None,
                kind: DependencyType::Library,
                name: Some(n.name),
                version: Some(n.version),
                purl: Some(n.purl),
                instance_id: Some(n.id),
                dependencies: reachable_only(nodes, id_children(nodes, n.id)),
                location: None,
            },
        );
        let g = graph_prefix(nodes, i);
        assert forall|k: int| 0 <= k < g.len() implies is_tagged(#[trigger] g[k].instance_id) by {
            if k < rest.len() {
                assert(g[k] == rest[k]);
            }
        }
    }
}

/// Some node has the identifier `x`.
pub open spec fn is_node_id(nodes: Seq<LockNode>, x: Seq<char>) -> bool {
    exists|t: int| 0 <= t < nodes.len() && (#[trigger] nodes[t]).id == x
}

proof fn lemma_dep_ids_are_ids(nodes: Seq<LockNode>, deps: Seq<Seq<char>>)
    ensures
        forall|j: int| 0 <= j < dep_ids(nodes, deps).len() ==> is_node_id(nodes, #[trigger] dep_ids(nodes, deps)[j]),
    decreases deps.len(),
{
    if deps.len() > 0 {
        lemma_dep_ids_are_ids(nodes, deps.drop_last());
        let rest = dep_ids(nodes, deps.drop_last());
        let all = dep_ids(nodes, deps);
        lemma_dep_target_range(nodes, deps.last());
        assert forall|j: int| 0 <= j < all.len() implies is_node_id(nodes, #[trigger] all[j]) by {
            if j < rest.len() {
                assert(all[j] == rest[j]);
                assert(is_node_id(nodes, rest[j]));
            } else {
                let t = dep_target(nodes, deps.last())->0;
                assert(nodes[t].id == all[j]);
            }
        }
    }
}

proof fn lemma_reachable_only_in(nodes: Seq<LockNode>, ids: Seq<Seq<char>>)
    ensures
        forall|j: int|
            0 <= j < reachable_only(nodes, ids).len() ==> reachable(nodes, #[trigger] reachable_only(nodes, ids)[j])
                && ids.contains(reachable_only(nodes, ids)[j]),
    decreases ids.len(),
{
    if ids.len() > 0 {
        lemma_reachable_only_in(nodes, ids.drop_last());
        let rest = reachable_only(nodes, ids.drop_last());
        let all = reachable_only(nodes, ids);
        assert forall|j: int| 0 <= j < all.len() implies reachable(nodes, #[trigger] all[j]) && ids.contains(all[j]) by {
            if j < rest.len() {
                assert(all[j] == rest[j]);
                assert(ids.drop_last().contains(rest[j]));
                let k = choose|k: int| 0 <= k < ids.drop_last().len() && ids.drop_last()[k] == rest[j];
                assert(ids[k] == rest[j]);
            } else {
                assert(ids[ids.len() - 1] == all[j]);
            }
        }
    }
}

proof fn lemma_graph_prefix_has(nodes: Seq<LockNode>, i: int, t: int)
    requires
        0 <= t < i <= nodes.len(),
        reachable(nodes, nodes[t].id),
        nodes[t].id.len() > 0,
    ensures
        has_node(graph_prefix(nodes, i), nodes[t].id),
    decreases i,
{
    if t == i - 1 {
        let g = graph_prefix(nodes, i);
        assert(g[g.len() - 1] == graph_dependency(nodes, nodes[t]));
    } else {
        lemma_graph_prefix_has(nodes, i - 1, t);
        let rest = graph_prefix(nodes, i - 1);
        let w = choose|w: int| 0 <= w < rest.len() && (#[trigger] rest[w]).instance_id == nodes[t].id;
        assert(graph_prefix(nodes, i)[w] == rest[w]);
    }
}

proof fn lemma_graph_prefix_nodes(nodes: Seq<LockNode>, i: int, x: int)
    requires
        0 <= x < graph_prefix(nodes, i).len(),
    ensures
        exists|m: int| 0 <= m < nodes.len() && graph_prefix(nodes, i)[x] == graph_dependency(nodes, #[trigger] nodes[m]),
    decreases i,
{
    if i > 0 && i <= nodes.len() {
        let rest = graph_prefix(nodes, i - 1);
        if x < rest.len() {
            lemma_graph_prefix_nodes(nodes, i - 1, x);
            let m = choose|m: int| 0 <= m < nodes.len() && rest[x] == graph_dependency(nodes, #[trigger] nodes[m]);
            assert(graph_prefix(nodes, i)[x] == rest[x]);
        } else {
            assert(graph_prefix(nodes, i)[x] == graph_dependency(nodes, nodes[i - 1]));
        }
    }
}

/// Where no node has an empty identifier, every edge of the reachable graph
/// leads to one of its nodes.
pub proof fn law_lock_graph_closed(nodes: Seq<LockNode>)
    requires
        forall|k: int| 0 <= k < nodes.len() ==> (#[trigger] nodes[k]).id.len() > 0,
    ensures
        edges_closed(reachable_graph(nodes)),
{
    let g = reachable_graph(nodes);
    assert forall|x: int, j: int|
        0 <= x < g.len() && 0 <= j < g[x].dependencies.len() implies has_node(g, #[trigger] g[x].dependencies[j]) by {
        lemma_graph_prefix_nodes(nodes, nodes.len() as int, x);
        let m = choose|m: int| 0 <= m < nodes.len() && g[x] == graph_dependency(nodes, #[trigger] nodes[m]);
        let kids = id_children(nodes, nodes[m].id);
        let e = g[x].dependencies[j];
        lemma_reachable_only_in(nodes, kids);
        assert(reachable(nodes, e) && kids.contains(e));
        lemma_last_index_where(nodes, with_id(nodes[m].id));
        match last_index_where(nodes, with_id(nodes[m].id)) {
            Some(r) => {
                lemma_dep_ids_are_ids(nodes, nodes[r].deps);
                let q = choose|q: int| 0 <= q < kids.len() && kids[q] == e;
                assert(is_node_id(nodes, dep_ids(nodes, nodes[r].deps)[q]));
                let t = choose|t: int| 0 <= t < nodes.len() && (#[trigger] nodes[t]).id == e;
                lemma_graph_prefix_has(nodes, nodes.len() as int, t);
            },
            None => {
                assert(kids.len() == 0);
            },
        }
    }
}

/// `idx` lists, in increasing order, the nodes whose dependencies make up
/// `g`; every reachable node is among them.
pub open spec fn lock_graph_index(nodes: Seq<LockNode>, g: Seq<DependencyView>, idx: Seq<int>) -> bool {
    &&& idx.len() == g.len()
    &&& forall|a: int, b: int| 0 <= a < b < idx.len() ==> #[trigger] idx[a] < #[trigger] idx[b]
    &&& forall|j: int|
        0 <= j < idx.len() ==> 0 <= #[trigger] idx[j] < nodes.len() && reachable(nodes, nodes[idx[j]].id)
            && g[j] == graph_dependency(nodes, nodes[idx[j]])
    &&& forall|k: int| 0 <= k < nodes.len() && reachable(nodes, (#[trigger] nodes[k]).id) ==> idx.contains(k)
}

proof fn lemma_graph_prefix_index(nodes: Seq<LockNode>, i: int) -> (idx: Seq<int>)
    requires
        0 <= i <= nodes.len(),
    ensures
        idx.len() == graph_prefix(nodes, i).len(),
        forall|a: int, b: int| 0 <= a < b < idx.len() ==> #[trigger] idx[a] < #[trigger] idx[b],
        forall|j: int|
            0 <= j < idx.len() ==> 0 <= #[trigger] idx[j] < i && reachable(nodes, nodes[idx[j]].id)
                && graph_prefix(nodes, i)[j] == graph_dependency(nodes, nodes[idx[j]]),
        forall|k: int| 0 <= k < i && reachable(nodes, (#[trigger] nodes[k]).id) ==> idx.contains(k),
    decreases i,
{
    if i == 0 {
        Seq::empty()
    } else {
        let rest = lemma_graph_prefix_index(nodes, i - 1);
        let g = graph_prefix(nodes, i);
        let gr = graph_prefix(nodes, i - 1);
        if reachable(nodes, nodes[i - 1].id) {
            let idx = rest.push(i - 1);
            assert forall|j: int| 0 <= j < idx.len() implies 0 <= #[trigger] idx[j] < i && reachable(
                nodes,
                nodes[idx[j]].id,
            ) && g[j] == graph_dependency(nodes, nodes[idx[j]]) by {
                if j < rest.len() {
                    assert(idx[j] == rest[j]);
                    assert(g[j] == gr[j]);
                }
            }
            assert forall|k: int| 0 <= k < i && reachable(nodes, (#[trigger] nodes[k]).id) implies idx.contains(k) by {
                if k < i - 1 {
                    let t = choose|t: int| 0 <= t < rest.len() && rest[t] == k;
                    assert(idx[t] == k);
                } else {
                    assert(idx[idx.len() - 1] == k);
                }
            }
            idx
        } else {
            assert forall|k: int| 0 <= k < i && reachable(nodes, (#[trigger] nodes[k]).id) implies rest.contains(k) by {
                if k == i - 1 {
                    assert(false);
                }
            }
            rest
        }
    }
}

/// The reachable graph is its reachable nodes in file order: entry `j`
/// is the dependency of node `idx[j]`, the indices increase, and every node
/// reachable from a root (a node that no entry depends on) is there.
pub proof fn law_lock_graph_nodes(nodes: Seq<LockNode>)
    ensures
        exists|idx: Seq<int>| lock_graph_index(nodes, reachable_graph(nodes), idx),
{
    let idx = lemma_graph_prefix_index(nodes, nodes.len() as int);
    assert(lock_graph_index(nodes, reachable_graph(nodes), idx));
}

/// The dependency a node becomes keeps its name and version, carries its
/// URL repaired once more and its identifier (where that is not empty), has
/// no group and no location, and depends on the reachable identifiers its
/// entries resolve to, in entry order.
pub proof fn law_graph_dependency_fields(nodes: Seq<LockNode>, n: LockNode)
    ensures
        graph_dependency(nodes, n).name == n.name,
        graph_dependency(nodes, n).version == Some(n.version),
        graph_dependency(nodes, n).group is None,
        graph_dependency(nodes, n).location is None,
        graph_dependency(nodes, n).kind == DependencyType::Library,
        graph_dependency(nodes, n).purl == fixed_purl(n.purl),
        n.id.len() > 0 ==> graph_dependency(nodes, n).instance_id == n.id,
        graph_dependency(nodes, n).dependencies == reachable_only(nodes, id_children(nodes, n.id)),
{
}

} // verus!
