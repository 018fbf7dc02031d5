//! The resolved graph that `cargo metadata` reports: every package reachable
//! from the workspace members, with its edges.
use vstd::prelude::*;

use crate::config::{has_entry, probe_has, CommandOutput, DirectoryProbe, DynamicProducer};
use crate::data::{field, get_array, get_str, json_document, parse_json, str_value, string_items, strings_of, DataValue};
use crate::ident::{fixed_purl, instance_id, make_instance_id};
use crate::merge::contains_id;
use crate::ident::{is_tagged, lemma_ids_tagged};
use crate::model::{all_tagged, edges_closed, has_node, lemma_built_tagged, built, dep_views, BuilderView, Dependency, DependencyBuilder, DependencyType, DependencyView};
use crate::producer::ProducerError;
use crate::text::{chars_of, push_all, string_of};

verus! {

// ---------------------------------------------------------------------
// What the report holds
// ---------------------------------------------------------------------

/// A package of the report that has an identifier, a name and a version.
pub struct MetaPackage {
    pub id: String,
    pub name: String,
    pub version: String,
}

pub struct MetaPackageView {
    pub id: Seq<char>,
    pub name: Seq<char>,
    pub version: Seq<char>,
}

impl View for MetaPackage {
    type V = MetaPackageView;

    open spec fn view(&self) -> MetaPackageView {
        MetaPackageView { id: self.id@, name: self.name@, version: self.version@ }
    }
}

/// A node of the report's resolve graph: a package identifier and the
/// identifiers of the packages it depends on (of every kind).
pub struct ResolveNode {
    pub id: String,
    pub deps: Vec<String>,
}

pub struct ResolveView {
    pub id: Seq<char>,
    pub deps: Seq<Seq<char>>,
}

impl View for ResolveNode {
    type V = ResolveView;

    open spec fn view(&self) -> ResolveView {
        ResolveView { id: self.id@, deps: self.deps.deep_view() }
    }
}

/// What the graph logic reads of a `cargo metadata` report.
pub struct CargoMetadata {
    pub packages: Vec<MetaPackage>,
    pub members: Vec<String>,
    pub nodes: Vec<ResolveNode>,
}

pub struct CargoMetadataView {
    pub packages: Seq<MetaPackageView>,
    pub members: Seq<Seq<char>>,
    pub nodes: Seq<ResolveView>,
}

impl View for CargoMetadata {
    type V = CargoMetadataView;

    open spec fn view(&self) -> CargoMetadataView {
        CargoMetadataView {
            packages: self.packages@.map_values(|p: MetaPackage| p@),
            members: self.members.deep_view(),
            nodes: self.nodes@.map_values(|n: ResolveNode| n@),
        }
    }
}

// ---------------------------------------------------------------------
// Reading the report
// ---------------------------------------------------------------------

/// The items of an array value; nothing where the value is no array.
pub open spec fn array_items(v: Option<DataValue>) -> Seq<DataValue> {
    match v {
        Some(DataValue::Array(a)) => a@,
        _ => Seq::empty(),
    }
}

/// A package entry with string `id`, `name` and `version`.
pub open spec fn meta_package(v: DataValue) -> Option<MetaPackageView> {
    match (
        str_value(field(v, "id"@)),
        str_value(field(v, "name"@)),
        str_value(field(v, "version"@)),
    ) {
        (Some(id), Some(name), Some(version)) => Some(MetaPackageView { id, name, version }),
        _ => None,
    }
}

pub open spec fn meta_packages(items: Seq<DataValue>) -> Seq<MetaPackageView>
    decreases items.len(),
{
    if items.len() == 0 {
        Seq::empty()
    } else {
        let rest = meta_packages(items.drop_last());
        match meta_package(items.last()) {
            Some(p) => rest.push(p),
            None => rest,
        }
    }
}

/// The `pkg` strings of a node's `deps` entries.
pub open spec fn dep_pkgs(items: Seq<DataValue>) -> Seq<Seq<char>>
    decreases items.len(),
{
    if items.len() == 0 {
        Seq::empty()
    } else {
        let rest = dep_pkgs(items.drop_last());
        match str_value(field(items.last(), "pkg"@)) {
            Some(p) => rest.push(p),
            None => rest,
        }
    }
}

/// A resolve node with a string `id`.
pub open spec fn resolve_node(v: DataValue) -> Option<ResolveView> {
    match str_value(field(v, "id"@)) {
        Some(id) => Some(ResolveView { id, deps: dep_pkgs(array_items(field(v, "deps"@))) }),
        None => None,
    }
}

pub open spec fn resolve_nodes(items: Seq<DataValue>) -> Seq<ResolveView>
    decreases items.len(),
{
    if items.len() == 0 {
        Seq::empty()
    } else {
        let rest = resolve_nodes(items.drop_last());
        match resolve_node(items.last()) {
            Some(n) => rest.push(n),
            None => rest,
        }
    }
}

/// What the graph logic reads of a report: `packages`, `workspace_members`
/// and `resolve.nodes`.
pub open spec fn metadata_view(doc: DataValue) -> CargoMetadataView {
    CargoMetadataView {
        packages: meta_packages(array_items(field(doc, "packages"@))),
        members: string_items(field(doc, "workspace_members"@)),
        nodes: match field(doc, "resolve"@) {
            Some(r) => resolve_nodes(array_items(field(r, "nodes"@))),
            None => Seq::empty(),
        },
    }
}

fn meta_packages_exec(items: &Vec<DataValue>) -> (r: Vec<MetaPackage>)
    ensures
        r@.map_values(|p: MetaPackage| p@) == meta_packages(items@),
{
    let mut r: Vec<MetaPackage> = Vec::new();
    let mut i: usize = 0;
    assert(items@.take(0) =~= Seq::<DataValue>::empty());
    assert(r@.map_values(|p: MetaPackage| p@) =~= Seq::<MetaPackageView>::empty());
    while i < items.len()
        invariant
            i <= items.len(),
            r@.map_values(|p: MetaPackage| p@) == meta_packages(items@.take(i as int)),
        decreases items.len() - i,
    {
        assert(items@.take(i + 1).drop_last() =~= items@.take(i as int));
        assert(items@.take(i + 1).last() == items@[i as int]);
        let item = &items[i];
        match (get_str(item, "id"), get_str(item, "name"), get_str(item, "version")) {
            (Some(id), Some(name), Some(version)) => {
                let ghost before = r@.map_values(|p: MetaPackage| p@);
                let p = MetaPackage { id: id.clone(), name: name.clone(), version: version.clone() };
                r.push(p);
                assert(r@.map_values(|p: MetaPackage| p@) =~= before.push(
                    MetaPackageView { id: id@, name: name@, version: version@ },
                ));
            },
            _ => {},
        }
        i = i + 1;
    }
    assert(items@.take(items.len() as int) =~= items@);
    r
}

fn dep_pkgs_exec(items: &Vec<DataValue>) -> (r: Vec<String>)
    ensures
        r.deep_view() == dep_pkgs(items@),
{
    let mut r: Vec<String> = Vec::new();
    let mut i: usize = 0;
    assert(items@.take(0) =~= Seq::<DataValue>::empty());
    assert(r.deep_view() =~= Seq::<Seq<char>>::empty());
    while i < items.len()
        invariant
            i <= items.len(),
            r.deep_view() == dep_pkgs(items@.take(i as int)),
        decreases items.len() - i,
    {
        assert(items@.take(i + 1).drop_last() =~= items@.take(i as int));
        assert(items@.take(i + 1).last() == items@[i as int]);
        match get_str(&items[i], "pkg") {
            Some(p) => {
                let ghost before = r.deep_view();
                r.push(p.clone());
                assert(r.deep_view() =~= before.push(p@));
            },
            None => {},
        }
        i = i + 1;
    }
    assert(items@.take(items.len() as int) =~= items@);
    r
}

fn resolve_nodes_exec(items: &Vec<DataValue>) -> (r: Vec<ResolveNode>)
    ensures
        r@.map_values(|n: ResolveNode| n@) == resolve_nodes(items@),
{
    let mut r: Vec<ResolveNode> = Vec::new();
    let mut i: usize = 0;
    assert(items@.take(0) =~= Seq::<DataValue>::empty());
    assert(r@.map_values(|n: ResolveNode| n@) =~= Seq::<ResolveView>::empty());
    while i < items.len()
        invariant
            i <= items.len(),
            r@.map_values(|n: ResolveNode| n@) == resolve_nodes(items@.take(i as int)),
        decreases items.len() - i,
    {
        assert(items@.take(i + 1).drop_last() =~= items@.take(i as int));
        assert(items@.take(i + 1).last() == items@[i as int]);
        let item = &items[i];
        match get_str(item, "id") {
            Some(id) => {
                let deps = match get_array(item, "deps") {
                    Some(a) => dep_pkgs_exec(a),
                    None => {
                        let e: Vec<String> = Vec::new();
                        assert(e.deep_view() =~= dep_pkgs(Seq::<DataValue>::empty()));
                        e
                    },
                };
                let ghost before = r@.map_values(|n: ResolveNode| n@);
                let n = ResolveNode { id: id.clone(), deps };
                assert(n@ == resolve_node(items@[i as int])->0);
                r.push(n);
                assert(r@.map_values(|n: ResolveNode| n@) =~= before.push(n@));
            },
            None => {},
        }
        i = i + 1;
    }
    assert(items@.take(items.len() as int) =~= items@);
    r
}

/// Reads the packages, the workspace members and the resolve nodes of a
/// `cargo metadata` report.
pub fn metadata_of(doc: &DataValue) -> (r: CargoMetadata)
    ensures
        r@ == metadata_view(*doc),
{
    let packages = match get_array(doc, "packages") {
        Some(a) => meta_packages_exec(a),
        None => {
            let e: Vec<MetaPackage> = Vec::new();
            assert(e@.map_values(|p: MetaPackage| p@) =~= Seq::<MetaPackageView>::empty());
            e
        },
    };
    let members = match get_array(doc, "workspace_members") {
        Some(a) => strings_of(a),
        None => {
            let e: Vec<String> = Vec::new();
            assert(e.deep_view() =~= Seq::<Seq<char>>::empty());
            e
        },
    };
    let nodes = match doc.get("resolve") {
        Some(res) => match get_array(res, "nodes") {
            Some(a) => resolve_nodes_exec(a),
            None => {
                let e: Vec<ResolveNode> = Vec::new();
                assert(e@.map_values(|n: ResolveNode| n@) =~= Seq::<ResolveView>::empty());
                e
            },
        },
        None => {
            let e: Vec<ResolveNode> = Vec::new();
            assert(e@.map_values(|n: ResolveNode| n@) =~= Seq::<ResolveView>::empty());
            e
        },
    };
    CargoMetadata { packages, members, nodes }
}

// ---------------------------------------------------------------------
// The graph
// ---------------------------------------------------------------------

/// The package URL of a report package: `pkg:cargo/<name>@<version>`,
/// repaired where malformed.
pub open spec fn meta_purl(p: MetaPackageView) -> Seq<char> {
    fixed_purl("pkg:cargo/"@ + p.name + "@"@ + p.version)
}

/// The instance identifier of a report package: its URL under the scope of
/// its package identifier.
pub open spec fn meta_instance(p: MetaPackageView) -> Seq<char> {
    instance_id(meta_purl(p), p.id)
}

/// The index of the last package with identifier `id` (the entry that a map
/// keyed by identifier keeps).
pub open spec fn last_package(pkgs: Seq<MetaPackageView>, id: Seq<char>) -> Option<int>
    decreases pkgs.len(),
{
    if pkgs.len() == 0 {
        None
    } else if pkgs.last().id == id {
        Some(pkgs.len() - 1)
    } else {
        last_package(pkgs.drop_last(), id)
    }
}

/// The index of the last resolve node with identifier `id`.
pub open spec fn last_resolve(nodes: Seq<ResolveView>, id: Seq<char>) -> Option<int>
    decreases nodes.len(),
{
    if nodes.len() == 0 {
        None
    } else if nodes.last().id == id {
        Some(nodes.len() - 1)
    } else {
        last_resolve(nodes.drop_last(), id)
    }
}

/// The children of `id`: the dependencies of its last resolve node.
pub open spec fn children_of(m: CargoMetadataView, id: Seq<char>) -> Seq<Seq<char>> {
    match last_resolve(m.nodes, id) {
        Some(k) => m.nodes[k].deps,
        None => Seq::empty(),
    }
}

/// `id` is a workspace member, or the child of one in at most `steps` edges.
pub open spec fn reaches_in(m: CargoMetadataView, id: Seq<char>, steps: nat) -> bool
    decreases steps,
{
    if steps == 0 {
        m.members.contains(id)
    } else {
        reaches_in(m, id, (steps - 1) as nat) || exists|x: Seq<char>|
            reaches_in(m, x, (steps - 1) as nat) && #[trigger] children_of(m, x).contains(id)
    }
}

/// `id` is reachable from the workspace members.
pub open spec fn reachable(m: CargoMetadataView, id: Seq<char>) -> bool {
    exists|steps: nat| reaches_in(m, id, steps)
}

/// The instance identifiers of the children in `kids` that are reachable
/// and described by a package, in order.
pub open spec fn edge_ids(m: CargoMetadataView, kids: Seq<Seq<char>>) -> Seq<Seq<char>>
    decreases kids.len(),
{
    if kids.len() == 0 {
        Seq::empty()
    } else {
        let rest = edge_ids(m, kids.drop_last());
        let c = kids.last();
        if reachable(m, c) {
            match last_package(m.packages, c) {
                Some(j) => rest.push(meta_instance(m.packages[j])),
                None => rest,
            }
        } else {
            rest
        }
    }
}

/// The dependency that a reachable package becomes.
pub open spec fn package_node(m: CargoMetadataView, p: MetaPackageView) -> DependencyView {
    built(
        BuilderView {
            group: None,
            kind: DependencyType::Library,
            name: Some(p.name),
            version: Some(p.version),
            purl: Some(meta_purl(p)),
            instance_id: Some(meta_instance(p)),
            dependencies: edge_ids(m, children_of(m, p.id)),
            location: None,
        },
    )
}

/// The nodes of the first `k` packages: one per identifier (its last
/// package), for the reachable identifiers, in package order.
pub open spec fn graph_upto(m: CargoMetadataView, k: int) -> Seq<DependencyView>
    decreases k,
{
    if k <= 0 || k > m.packages.len() {
        Seq::empty()
    } else {
        let rest = graph_upto(m, k - 1);
        let p = m.packages[k - 1];
        if last_package(m.packages, p.id) == Some(k - 1) && reachable(m, p.id) {
            rest.push(package_node(m, p))
        } else {
            rest
        }
    }
}

/// The graph of a report: every package reachable from the workspace
/// members, once per identifier, with its reachable children.
pub open spec fn metadata_graph(m: CargoMetadataView) -> Seq<DependencyView> {
    graph_upto(m, m.packages.len() as int)
}

proof fn lemma_last_package(pkgs: Seq<MetaPackageView>, id: Seq<char>)
    ensures
        match last_package(pkgs, id) {
            Some(j) => 0 <= j < pkgs.len() && pkgs[j].id == id,
            None => forall|k: int| 0 <= k < pkgs.len() ==> #[trigger] pkgs[k].id != id,
        },
    decreases pkgs.len(),
{
    if pkgs.len() > 0 && pkgs.last().id != id {
        lemma_last_package(pkgs.drop_last(), id);
        assert forall|k: int| 0 <= k < pkgs.len() - 1 implies pkgs.drop_last()[k] == pkgs[k] by {}
    }
}

proof fn lemma_last_resolve(nodes: Seq<ResolveView>, id: Seq<char>)
    ensures
        match last_resolve(nodes, id) {
            Some(j) => 0 <= j < nodes.len() && nodes[j].id == id,
            None => true,
        },
    decreases nodes.len(),
{
    if nodes.len() > 0 && nodes.last().id != id {
        lemma_last_resolve(nodes.drop_last(), id);
    }
}

fn last_package_exec(pkgs: &Vec<MetaPackage>, id: &String) -> (r: Option<usize>)
    ensures
        match r {
            Some(j) => last_package(pkgs@.map_values(|p: MetaPackage| p@), id@) == Some(j as int),
            None => last_package(pkgs@.map_values(|p: MetaPackage| p@), id@) is None,
        },
{
    let ghost vs = pkgs@.map_values(|p: MetaPackage| p@);
    let mut i = pkgs.len();
    assert(vs.take(i as int) =~= vs);
    while i > 0
        invariant
            i <= pkgs.len(),
            vs == pkgs@.map_values(|p: MetaPackage| p@),
            last_package(vs, id@) == last_package(vs.take(i as int), id@),
        decreases i,
    {
        assert(vs.take(i as int).drop_last() =~= vs.take(i - 1));
        assert(vs.take(i as int).last() == pkgs@[i - 1]@);
        if pkgs[i - 1].id == *id {
            return Some(i - 1);
        }
        i = i - 1;
    }
    None
}

fn last_resolve_exec(nodes: &Vec<ResolveNode>, id: &String) -> (r: Option<usize>)
    ensures
        match r {
            Some(j) => last_resolve(nodes@.map_values(|n: ResolveNode| n@), id@) == Some(j as int),
            None => last_resolve(nodes@.map_values(|n: ResolveNode| n@), id@) is None,
        },
{
    let ghost vs = nodes@.map_values(|n: ResolveNode| n@);
    let mut i = nodes.len();
    assert(vs.take(i as int) =~= vs);
    while i > 0
        invariant
            i <= nodes.len(),
            vs == nodes@.map_values(|n: ResolveNode| n@),
            last_resolve(vs, id@) == last_resolve(vs.take(i as int), id@),
        decreases i,
    {
        assert(vs.take(i as int).drop_last() =~= vs.take(i - 1));
        assert(vs.take(i as int).last() == nodes@[i - 1]@);
        if nodes[i - 1].id == *id {
            return Some(i - 1);
        }
        i = i - 1;
    }
    None
}

// ---------------------------------------------------------------------
// The search
// ---------------------------------------------------------------------

/// Every dependency of every resolve node, node after node.
pub open spec fn all_deps(nodes: Seq<ResolveView>) -> Seq<Seq<char>>
    decreases nodes.len(),
{
    if nodes.len() == 0 {
        Seq::empty()
    } else {
        all_deps(nodes.drop_last()) + nodes.last().deps
    }
}

proof fn lemma_all_deps_has(nodes: Seq<ResolveView>, k: int, j: int)
    requires
        0 <= k < nodes.len(),
        0 <= j < nodes[k].deps.len(),
    ensures
        all_deps(nodes).contains(nodes[k].deps[j]),
    decreases nodes.len(),
{
    let prev = all_deps(nodes.drop_last());
    if k == nodes.len() - 1 {
        assert(all_deps(nodes)[prev.len() + j] == nodes[k].deps[j]);
    } else {
        assert(nodes.drop_last()[k] == nodes[k]);
        lemma_all_deps_has(nodes.drop_last(), k, j);
        let i = choose|i: int| 0 <= i < prev.len() && prev[i] == nodes[k].deps[j];
        assert(all_deps(nodes)[i] == prev[i]);
    }
}

/// A sequence without repeats drawn from `u` is no longer than `u`.
proof fn lemma_distinct_bound(s: Seq<Seq<char>>, u: Seq<Seq<char>>)
    requires
        s.no_duplicates(),
        forall|i: int| 0 <= i < s.len() ==> u.contains(#[trigger] s[i]),
    ensures
        s.len() <= u.len(),
{
    s.unique_seq_to_set();
    u.lemma_cardinality_of_set();
    assert(s.to_set().subset_of(u.to_set())) by {
        assert forall|x: Seq<char>| s.to_set().contains(x) implies u.to_set().contains(x) by {
            let i = choose|i: int| 0 <= i < s.len() && s[i] == x;
            assert(u.contains(s[i]));
        }
    }
    vstd::seq_lib::seq_to_set_is_finite(u);
    vstd::set_lib::lemma_len_subset(s.to_set(), u.to_set());
}

proof fn lemma_push_distinct(s: Seq<Seq<char>>, x: Seq<char>)
    requires
        s.no_duplicates(),
        !s.contains(x),
    ensures
        s.push(x).no_duplicates(),
{
    let t = s.push(x);
    assert forall|a: int, b: int| 0 <= a < t.len() && 0 <= b < t.len() && a != b implies t[a]
        != t[b] by {
        if a == s.len() {
            assert(s[b] != x);
        } else if b == s.len() {
            assert(s[a] != x);
        } else {
            assert(s[a] != s[b]);
        }
    }
}

/// `b` extends `a`.
pub open spec fn extends(a: Seq<Seq<char>>, b: Seq<Seq<char>>) -> bool {
    a.len() <= b.len() && forall|i: int| 0 <= i < a.len() ==> #[trigger] b[i] == a[i]
}

proof fn lemma_extends_contains(a: Seq<Seq<char>>, b: Seq<Seq<char>>, x: Seq<char>)
    requires
        extends(a, b),
        a.contains(x),
    ensures
        b.contains(x),
{
    let i = choose|i: int| 0 <= i < a.len() && a[i] == x;
    assert(b[i] == x);
}

/// A list that holds the members and every child of each of its entries
/// holds every reachable identifier.
proof fn lemma_closed_complete(m: CargoMetadataView, vd: Seq<Seq<char>>, id: Seq<char>, steps: nat)
    requires
        forall|b: int| 0 <= b < m.members.len() ==> vd.contains(#[trigger] m.members[b]),
        forall|a: int, c: Seq<char>|
            0 <= a < vd.len() && #[trigger] children_of(m, vd[a]).contains(c) ==> vd.contains(c),
        reaches_in(m, id, steps),
    ensures
        vd.contains(id),
    decreases steps,
{
    if steps == 0 {
        let b = choose|b: int| 0 <= b < m.members.len() && m.members[b] == id;
        assert(vd.contains(m.members[b]));
    } else if reaches_in(m, id, (steps - 1) as nat) {
        lemma_closed_complete(m, vd, id, (steps - 1) as nat);
    } else {
        let x = choose|x: Seq<char>|
            reaches_in(m, x, (steps - 1) as nat) && #[trigger] children_of(m, x).contains(id);
        lemma_closed_complete(m, vd, x, (steps - 1) as nat);
        let a = choose|a: int| 0 <= a < vd.len() && vd[a] == x;
        assert(children_of(m, vd[a]).contains(id));
    }
}

/// The identifiers reachable from the workspace members, each once (a
/// breadth-first search).
fn reachable_ids(meta: &CargoMetadata) -> (visited: Vec<String>)
    ensures
        forall|id: Seq<char>| visited.deep_view().contains(id) <==> reachable(meta@, id),
{
    let ghost m = meta@;
    // Every identifier the search can meet.
    let mut universe: Vec<String> = Vec::new();
    let mut i: usize = 0;
    assert(universe.deep_view() =~= m.members.take(0));
    while i < meta.members.len()
        invariant
            i <= meta.members.len(),
            m == meta@,
            universe.deep_view() == m.members.take(i as int),
        decreases meta.members.len() - i,
    {
        let ghost before = universe.deep_view();
        universe.push(meta.members[i].clone());
        assert(universe.deep_view() =~= before.push(meta.members@[i as int]@));
        assert(m.members.take(i + 1) =~= m.members.take(i as int).push(m.members[i as int]));
        i = i + 1;
    }
    assert(m.members.take(meta.members.len() as int) =~= m.members);
    let mut k: usize = 0;
    assert(m.nodes.take(0) =~= Seq::<ResolveView>::empty());
    assert(universe.deep_view() =~= m.members + all_deps(m.nodes.take(0)));
    while k < meta.nodes.len()
        invariant
            k <= meta.nodes.len(),
            m == meta@,
            universe.deep_view() == m.members + all_deps(m.nodes.take(k as int)),
        decreases meta.nodes.len() - k,
    {
        let deps = &meta.nodes[k].deps;
        let ghost base = universe.deep_view();
        let mut j: usize = 0;
        assert(base =~= base + deps.deep_view().take(0));
        while j < deps.len()
            invariant
                k < meta.nodes.len(),
                j <= deps.len(),
                *deps == meta.nodes@[k as int].deps,
                universe.deep_view() == base + deps.deep_view().take(j as int),
            decreases deps.len() - j,
        {
            let ghost before = universe.deep_view();
            universe.push(deps[j].clone());
            assert(universe.deep_view() =~= before.push(deps@[j as int]@));
            assert(deps.deep_view().take(j + 1) =~= deps.deep_view().take(j as int).push(
                deps.deep_view()[j as int],
            ));
            assert(universe.deep_view() =~= base + deps.deep_view().take(j + 1));
            j = j + 1;
        }
        assert(deps.deep_view().take(deps.len() as int) =~= deps.deep_view());
        assert(m.nodes.take(k + 1).drop_last() =~= m.nodes.take(k as int));
        assert(m.nodes.take(k + 1).last() == meta.nodes@[k as int]@);
        assert(universe.deep_view() =~= m.members + all_deps(m.nodes.take(k + 1)));
        k = k + 1;
    }
    assert(m.nodes.take(meta.nodes.len() as int) =~= m.nodes);
    let ghost ud = universe.deep_view();
    assert(ud == m.members + all_deps(m.nodes));
    // The members first.
    let mut visited: Vec<String> = Vec::new();
    let mut b: usize = 0;
    assert(visited.deep_view() =~= Seq::<Seq<char>>::empty());
    while b < meta.members.len()
        invariant
            b <= meta.members.len(),
            m == meta@,
            ud == m.members + all_deps(m.nodes),
            visited.deep_view().no_duplicates(),
            forall|a: int| 0 <= a < visited.len() ==> ud.contains(#[trigger] visited.deep_view()[a]),
            forall|a: int| 0 <= a < visited.len() ==> reachable(m, #[trigger] visited.deep_view()[a]),
            forall|c: int| 0 <= c < b ==> visited.deep_view().contains(#[trigger] m.members[c]),
        decreases meta.members.len() - b,
    {
        let ghost vd0 = visited.deep_view();
        if !contains_id(&visited, &meta.members[b]) {
            let ghost x = m.members[b as int];
            proof {
                lemma_push_distinct(vd0, x);
                assert(reaches_in(m, x, 0));
                assert(ud[b as int] == x);
            }
            visited.push(meta.members[b].clone());
            assert(visited.deep_view() =~= vd0.push(x));
            proof {
                assert(extends(vd0, visited.deep_view()));
                assert forall|c: int| 0 <= c < b implies visited.deep_view().contains(
                    #[trigger] m.members[c],
                ) by {
                    lemma_extends_contains(vd0, visited.deep_view(), m.members[c]);
                }
                assert(visited.deep_view()[vd0.len() as int] == x);
            }
        }
        b = b + 1;
    }
    proof {
        lemma_distinct_bound(visited.deep_view(), ud);
    }
    // Then everything their edges reach.
    let mut head: usize = 0;
    while head < visited.len()
        invariant
            m == meta@,
            ud == m.members + all_deps(m.nodes),
            ud.len() == universe.len(),
            head <= visited.len() <= universe.len(),
            visited.deep_view().no_duplicates(),
            forall|a: int| 0 <= a < visited.len() ==> ud.contains(#[trigger] visited.deep_view()[a]),
            forall|a: int| 0 <= a < visited.len() ==> reachable(m, #[trigger] visited.deep_view()[a]),
            forall|c: int|
                0 <= c < m.members.len() ==> visited.deep_view().contains(#[trigger] m.members[c]),
            forall|a: int, c: Seq<char>|
                0 <= a < head && #[trigger] children_of(m, visited.deep_view()[a]).contains(c)
                    ==> visited.deep_view().contains(c),
        decreases universe.len() - head,
    {
        let cur = visited[head].clone();
        let ghost vd0 = visited.deep_view();
        assert(cur@ == vd0[head as int]);
        match last_resolve_exec(&meta.nodes, &cur) {
            Some(k) => {
                proof {
                    lemma_last_resolve(m.nodes, cur@);
                    assert(m.nodes[k as int] == meta.nodes@[k as int]@);
                }
                let deps = &meta.nodes[k].deps;
                assert(children_of(m, cur@) == deps.deep_view());
                let mut j: usize = 0;
                while j < deps.len()
                    invariant
                        m == meta@,
                        ud == m.members + all_deps(m.nodes),
                        ud.len() == universe.len(),
                        k < meta.nodes.len(),
                        *deps == meta.nodes@[k as int].deps,
                        children_of(m, cur@) == deps.deep_view(),
                        j <= deps.len(),
                        head < visited.len() <= universe.len(),
                        extends(vd0, visited.deep_view()),
                        vd0[head as int] == cur@,
                        head < vd0.len(),
                        visited.deep_view().no_duplicates(),
                        forall|a: int|
                            0 <= a < visited.len() ==> ud.contains(#[trigger] visited.deep_view()[a]),
                        forall|a: int|
                            0 <= a < visited.len() ==> reachable(m, #[trigger] visited.deep_view()[a]),
                        forall|c: int|
                            0 <= c < m.members.len() ==> visited.deep_view().contains(
                                #[trigger] m.members[c],
                            ),
                        forall|a: int, c: Seq<char>|
                            0 <= a < head && #[trigger] children_of(m, visited.deep_view()[a]).contains(c)
                                ==> visited.deep_view().contains(c),
                        forall|t: int| 0 <= t < j ==> visited.deep_view().contains(#[trigger] deps.deep_view()[t]),
                    decreases deps.len() - j,
                {
                    let ghost vd1 = visited.deep_view();
                    if !contains_id(&visited, &deps[j]) {
                        let ghost c = deps.deep_view()[j as int];
                        proof {
                            assert(vd1[head as int] == cur@);
                            let steps = choose|steps: nat| reaches_in(m, cur@, steps);
                            assert(children_of(m, cur@).contains(c));
                            assert(reaches_in(m, c, steps + 1));
                            lemma_all_deps_has(m.nodes, k as int, j as int);
                            let w = choose|w: int| 0 <= w < all_deps(m.nodes).len() && all_deps(m.nodes)[w] == c;
                            assert(ud[m.members.len() + w] == c);
                            lemma_push_distinct(vd1, c);
                            assert forall|a: int| 0 <= a < vd1.push(c).len() implies ud.contains(
                                #[trigger] vd1.push(c)[a],
                            ) by {
                                if a < vd1.len() {
                                    assert(vd1.push(c)[a] == vd1[a]);
                                }
                            }
                            lemma_distinct_bound(vd1.push(c), ud);
                        }
                        visited.push(deps[j].clone());
                        assert(visited.deep_view() =~= vd1.push(c));
                        proof {
                            let vd = visited.deep_view();
                            assert(extends(vd1, vd));
                            assert(vd[vd1.len() as int] == c);
                            assert forall|a: int| 0 <= a < vd.len() implies reachable(m, #[trigger] vd[a]) by {
                                if a < vd1.len() {
                                    assert(vd[a] == vd1[a]);
                                } else {
                                    let steps = choose|steps: nat| reaches_in(m, cur@, steps);
                                    assert(reaches_in(m, c, steps + 1));
                                }
                            }
                            assert forall|c2: int| 0 <= c2 < m.members.len() implies vd.contains(
                                #[trigger] m.members[c2],
                            ) by {
                                lemma_extends_contains(vd1, vd, m.members[c2]);
                            }
                            assert forall|a: int, c3: Seq<char>|
                                0 <= a < head && #[trigger] children_of(m, vd[a]).contains(c3) implies vd.contains(c3) by {
                                assert(vd[a] == vd1[a]);
                                lemma_extends_contains(vd1, vd, c3);
                            }
                            assert forall|t: int| 0 <= t < j + 1 implies vd.contains(#[trigger] deps.deep_view()[t]) by {
                                if t < j {
                                    lemma_extends_contains(vd1, vd, deps.deep_view()[t]);
                                }
                            }
                        }
                    }
                    j = j + 1;
                }
                proof {
                    let vd = visited.deep_view();
                    assert forall|a: int, c: Seq<char>|
                        0 <= a < head + 1 && #[trigger] children_of(m, vd[a]).contains(c) implies vd.contains(c) by {
                        if a == head {
                            assert(vd[a] == cur@);
                            let t = choose|t: int| 0 <= t < deps.deep_view().len() && deps.deep_view()[t] == c;
                        }
                    }
                }
            },
            None => {
                proof {
                    assert(children_of(m, cur@) =~= Seq::<Seq<char>>::empty());
                }
            },
        }
        head = head + 1;
    }
    proof {
        let vd = visited.deep_view();
        assert forall|id: Seq<char>| vd.contains(id) <==> reachable(m, id) by {
            if vd.contains(id) {
                let a = choose|a: int| 0 <= a < vd.len() && vd[a] == id;
                assert(reachable(m, vd[a]));
            }
            if reachable(m, id) {
                let steps = choose|steps: nat| reaches_in(m, id, steps);
                lemma_closed_complete(m, vd, id, steps);
            }
        }
    }
    visited
}

// ---------------------------------------------------------------------
// The nodes
// ---------------------------------------------------------------------

fn meta_purl_exec(p: &MetaPackage) -> (r: String)
    ensures
        r@ == meta_purl(p@),
{
    let mut cs = chars_of("pkg:cargo/");
    push_all(&mut cs, &chars_of(p.name.as_str()));
    cs.push('@');
    push_all(&mut cs, &chars_of(p.version.as_str()));
    proof {
        reveal_strlit("pkg:cargo/");
        reveal_strlit("@");
        assert(cs@ =~= "pkg:cargo/"@ + p.name@ + "@"@ + p.version@);
    }
    Dependency::auto_fix_and_validate_purl(string_of(&cs).as_str())
}

fn meta_instance_exec(p: &MetaPackage) -> (r: String)
    ensures
        r@ == meta_instance(p@),
{
    let purl = meta_purl_exec(p);
    make_instance_id(purl.as_str(), p.id.as_str())
}

proof fn lemma_edge_ids_take(m: CargoMetadataView, kids: Seq<Seq<char>>, j: int)
    requires
        0 <= j < kids.len(),
    ensures
        edge_ids(m, kids.take(j + 1)) == if reachable(m, kids[j]) {
            match last_package(m.packages, kids[j]) {
                Some(t) => edge_ids(m, kids.take(j)).push(meta_instance(m.packages[t])),
                None => edge_ids(m, kids.take(j)),
            }
        } else {
            edge_ids(m, kids.take(j))
        },
{
    assert(kids.take(j + 1).drop_last() =~= kids.take(j));
    assert(kids.take(j + 1).last() == kids[j]);
}

/// The instance identifiers of the reachable, described children of `id`.
fn edges_exec(meta: &CargoMetadata, visited: &Vec<String>, id: &String) -> (r: Vec<String>)
    requires
        forall|x: Seq<char>| visited.deep_view().contains(x) <==> reachable(meta@, x),
    ensures
        r.deep_view() == edge_ids(meta@, children_of(meta@, id@)),
{
    let ghost m = meta@;
    let mut r: Vec<String> = Vec::new();
    match last_resolve_exec(&meta.nodes, id) {
        Some(k) => {
            proof {
                lemma_last_resolve(m.nodes, id@);
                assert(m.nodes[k as int] == meta.nodes@[k as int]@);
            }
            let deps = &meta.nodes[k].deps;
            let ghost kids = deps.deep_view();
            assert(children_of(m, id@) == kids);
            let mut j: usize = 0;
            assert(kids.take(0) =~= Seq::<Seq<char>>::empty());
            assert(r.deep_view() =~= Seq::<Seq<char>>::empty());
            while j < deps.len()
                invariant
                    m == meta@,
                    j <= deps.len(),
                    kids == deps.deep_view(),
                    forall|x: Seq<char>| visited.deep_view().contains(x) <==> reachable(m, x),
                    r.deep_view() == edge_ids(m, kids.take(j as int)),
                decreases deps.len() - j,
            {
                proof {
                    lemma_edge_ids_take(m, kids, j as int);
                }
                let c = &deps[j];
                assert(c@ == kids[j as int]);
                if contains_id(visited, c) {
                    match last_package_exec(&meta.packages, c) {
                        Some(t) => {
                            proof {
                                lemma_last_package(m.packages, c@);
                                assert(m.packages[t as int] == meta.packages@[t as int]@);
                            }
                            let inst = meta_instance_exec(&meta.packages[t]);
                            let ghost before = r.deep_view();
                            r.push(inst);
                            assert(r.deep_view() =~= before.push(meta_instance(m.packages[t as int])));
                        },
                        None => {},
                    }
                }
                j = j + 1;
            }
            assert(kids.take(deps.len() as int) =~= kids);
            r
        },
        None => {
            assert(r.deep_view() =~= Seq::<Seq<char>>::empty());
            assert(children_of(m, id@) =~= Seq::<Seq<char>>::empty());
            r
        },
    }
}

/// The graph of a report (see [`metadata_graph`]).
pub fn metadata_dependencies(meta: &CargoMetadata) -> (out: Vec<Dependency>)
    ensures
        dep_views(out@) == metadata_graph(meta@),
{
    let ghost m = meta@;
    let visited = reachable_ids(meta);
    let mut out: Vec<Dependency> = Vec::new();
    let mut k: usize = 0;
    assert(dep_views(out@) =~= Seq::<DependencyView>::empty());
    while k < meta.packages.len()
        invariant
            k <= meta.packages.len(),
            m == meta@,
            forall|x: Seq<char>| visited.deep_view().contains(x) <==> reachable(m, x),
            dep_views(out@) == graph_upto(m, k as int),
        decreases meta.packages.len() - k,
    {
        let p = &meta.packages[k];
        assert(m.packages[k as int] == p@);
        let last = last_package_exec(&meta.packages, &p.id);
        let is_last = match last {
            Some(t) => t == k,
            None => false,
        };
        if is_last && contains_id(&visited, &p.id) {
            let kids = edges_exec(meta, &visited, &p.id);
            let purl = meta_purl_exec(p);
            let inst = meta_instance_exec(p);
            let builder = DependencyBuilder::default().name(p.name.clone()).version(
                Some(p.version.clone()),
            ).dep_type(DependencyType::Library).purl(purl).instance_id(inst).dependencies(
                kids,
            ).location(None);
            assert(builder@ == (BuilderView {
                group: None,
                kind: DependencyType::Library,
                name: Some(p@.name),
                version: Some(p@.version),
                purl: Some(meta_purl(p@)),
                instance_id: Some(meta_instance(p@)),
                dependencies: edge_ids(m, children_of(m, p@.id)),
                location: None,
            }));
            match builder.build() {
                Ok(d) => {
                    let ghost before = dep_views(out@);
                    out.push(d);
                    assert(dep_views(out@) =~= before.push(package_node(m, m.packages[k as int])));
                },
                Err(_) => {},
            }
        }
        k = k + 1;
    }
    out
}

// ---------------------------------------------------------------------
// The producer
// ---------------------------------------------------------------------

/// Asks Cargo for the resolved graph of the workspace
/// (`cargo metadata --format-version=1 --all-features`).
pub struct CargoDynamicProducer {}

/// What the producer makes of the output of `cargo metadata`: the graph of
/// the report where the command succeeded and printed JSON.
pub open spec fn cargo_report_outcome(success: bool, stdout: Seq<char>) -> Option<
    Seq<DependencyView>,
> {
    if !success {
        None
    } else {
        match json_document(stdout) {
            Some(doc) => Some(metadata_graph(metadata_view(doc))),
            None => None,
        }
    }
}

impl CargoDynamicProducer {
    /// The graph of the report that `cargo metadata` printed; an error where
    /// the command failed (with its standard error) or printed no JSON.
    pub fn graph_of_output(output: &CommandOutput) -> (r: Result<Vec<Dependency>, ProducerError>)
        ensures
            match r {
                Ok(ds) => cargo_report_outcome(output.success, output.stdout@) == Some(
                    dep_views(ds@),
                ),
                Err(e) => {
                    &&& cargo_report_outcome(output.success, output.stdout@) is None
                    &&& !output.success ==> e == ProducerError::Command {
                        message: output.stderr,
                    }
                    &&& output.success ==> e is Parse
                },
            },
    {
        if !output.success {
            return Err(ProducerError::Command { message: output.stderr.clone() });
        }
        match parse_json(output.stdout.as_str()) {
            Ok(doc) => {
                let meta = metadata_of(&doc);
                Ok(metadata_dependencies(&meta))
            },
            Err(message) => Err(ProducerError::Parse { message }),
        }
    }
}

impl DynamicProducer for CargoDynamicProducer {
    /// Cargo applies where the directory holds a `Cargo.toml`.
    fn is_applicable(&self, probe: &DirectoryProbe) -> (r: bool)
        ensures
            r == has_entry(*probe, "Cargo.toml"@),
    {
        probe_has(probe, "Cargo.toml")
    }

    fn detect_dependencies(&self, output: &CommandOutput) -> (r: Result<Vec<Dependency>, ProducerError>)
        ensures
            match r {
                Ok(ds) => cargo_report_outcome(output.success, output.stdout@) == Some(
                    dep_views(ds@),
                ),
                Err(_) => cargo_report_outcome(output.success, output.stdout@) is None,
            },
    {
        CargoDynamicProducer::graph_of_output(output)
    }
}

proof fn lemma_graph_upto_tagged(m: CargoMetadataView, k: int)
    ensures
        all_tagged(graph_upto(m, k)),
    decreases k,
{
    if k > 0 && k <= m.packages.len() {
        lemma_graph_upto_tagged(m, k - 1);
        let p = m.packages[k - 1];
        let rest = graph_upto(m, k - 1);
        lemma_ids_tagged(meta_purl(p), p.id, None);
        lemma_built_tagged(
            BuilderView {
                group: None,
                kind: DependencyType::Library,
                name: Some(p.name),
                version: Some(p.version),
                purl: Some(meta_purl(p)),
                instance_id: Some(meta_instance(p)),
                dependencies: edge_ids(m, children_of(m, p.id)),
                location: None,
            },
        );
        let g = graph_upto(m, k);
        assert forall|i: int| 0 <= i < g.len() implies is_tagged(#[trigger] g[i].instance_id) by {
            if i < rest.len() {
                assert(g[i] == rest[i]);
            }
        }
    }
}

/// Every node of a report's graph has a tagged identifier.
pub proof fn law_metadata_ids_tagged(m: CargoMetadataView)
    ensures
        all_tagged(metadata_graph(m)),
{
    lemma_graph_upto_tagged(m, m.packages.len() as int);
}

proof fn lemma_graph_upto_has(m: CargoMetadataView, k: int, t: int)
    requires
        0 <= t < k <= m.packages.len(),
        last_package(m.packages, m.packages[t].id) == Some(t),
        reachable(m, m.packages[t].id),
    ensures
        has_node(graph_upto(m, k), meta_instance(m.packages[t])),
    decreases k,
{
    let p = m.packages[t];
    lemma_ids_tagged(meta_purl(p), p.id, None);
    if t == k - 1 {
        let g = graph_upto(m, k);
        assert(g[g.len() - 1] == package_node(m, p));
    } else {
        lemma_graph_upto_has(m, k - 1, t);
        let rest = graph_upto(m, k - 1);
        let w = choose|w: int| 0 <= w < rest.len() && (#[trigger] rest[w]).instance_id == meta_instance(p);
        assert(graph_upto(m, k)[w] == rest[w]);
    }
}

proof fn lemma_edge_ids_closed(m: CargoMetadataView, kids: Seq<Seq<char>>)
    ensures
        forall|j: int|
            0 <= j < edge_ids(m, kids).len() ==> has_node(metadata_graph(m), #[trigger] edge_ids(m, kids)[j]),
    decreases kids.len(),
{
    if kids.len() > 0 {
        lemma_edge_ids_closed(m, kids.drop_last());
        let rest = edge_ids(m, kids.drop_last());
        let all = edge_ids(m, kids);
        assert forall|j: int| 0 <= j < all.len() implies has_node(metadata_graph(m), #[trigger] all[j]) by {
            if j < rest.len() {
                assert(all[j] == rest[j]);
            } else {
                let c = kids.last();
                let t = last_package(m.packages, c)->0;
                lemma_last_package(m.packages, c);
                assert(m.packages[t].id == c);
                lemma_graph_upto_has(m, m.packages.len() as int, t);
            }
        }
    }
}

/// Every edge of a report's graph leads to one of its nodes.
pub proof fn law_metadata_edges_closed(m: CargoMetadataView)
    ensures
        edges_closed(metadata_graph(m)),
{
    let g = metadata_graph(m);
    assert forall|i: int, j: int|
        0 <= i < g.len() && 0 <= j < g[i].dependencies.len() implies has_node(g, #[trigger] g[i].dependencies[j]) by {
        lemma_graph_upto_nodes(m, m.packages.len() as int, i);
        let p = choose|p: MetaPackageView| g[i] == package_node(m, p);
        lemma_edge_ids_closed(m, children_of(m, p.id));
    }
}

proof fn lemma_graph_upto_nodes(m: CargoMetadataView, k: int, i: int)
    requires
        0 <= i < graph_upto(m, k).len(),
    ensures
        exists|p: MetaPackageView| graph_upto(m, k)[i] == package_node(m, p),
    decreases k,
{
    if k > 0 && k <= m.packages.len() {
        let rest = graph_upto(m, k - 1);
        if i < rest.len() {
            lemma_graph_upto_nodes(m, k - 1, i);
            let p = choose|p: MetaPackageView| rest[i] == package_node(m, p);
            assert(graph_upto(m, k)[i] == rest[i]);
        } else {
            assert(graph_upto(m, k)[i] == package_node(m, m.packages[k - 1]));
        }
    }
}

/// The package at index `k` is the one a map keyed by package identifier
/// keeps, and it is reachable from the workspace members.
pub open spec fn kept_and_reachable(m: CargoMetadataView, k: int) -> bool {
    0 <= k < m.packages.len() && last_package(m.packages, m.packages[k].id) == Some(k) && reachable(
        m,
        m.packages[k].id,
    )
}

/// `d` is the node of a kept, reachable package.
pub open spec fn is_kept_package_node(m: CargoMetadataView, d: DependencyView) -> bool {
    exists|t: int| kept_and_reachable(m, t) && d == #[trigger] package_node(m, m.packages[t])
}

proof fn lemma_graph_upto_exact(m: CargoMetadataView, k: int)
    requires
        0 <= k <= m.packages.len(),
    ensures
        forall|i: int|
            0 <= i < graph_upto(m, k).len() ==> exists|t: int|
                0 <= t < k && kept_and_reachable(m, t) && #[trigger] graph_upto(m, k)[i] == package_node(
                    m,
                    m.packages[t],
                ),
        forall|t: int|
            0 <= t < k && #[trigger] kept_and_reachable(m, t) ==> exists|i: int|
                0 <= i < graph_upto(m, k).len() && graph_upto(m, k)[i] == package_node(m, m.packages[t]),
    decreases k,
{
    if k > 0 {
        lemma_graph_upto_exact(m, k - 1);
        let rest = graph_upto(m, k - 1);
        let g = graph_upto(m, k);
        assert forall|i: int| 0 <= i < g.len() implies exists|t: int|
            0 <= t < k && kept_and_reachable(m, t) && #[trigger] g[i] == package_node(m, m.packages[t]) by {
            if i < rest.len() {
                let t = choose|t: int|
                    0 <= t < k - 1 && kept_and_reachable(m, t) && #[trigger] rest[i] == package_node(m, m.packages[t]);
                assert(g[i] == rest[i]);
            } else {
                assert(g[i] == package_node(m, m.packages[k - 1]));
                assert(kept_and_reachable(m, k - 1));
            }
        }
        assert forall|t: int| 0 <= t < k && #[trigger] kept_and_reachable(m, t) implies exists|i: int|
            0 <= i < g.len() && g[i] == package_node(m, m.packages[t]) by {
            if t < k - 1 {
                let i = choose|i: int| 0 <= i < rest.len() && rest[i] == package_node(m, m.packages[t]);
                assert(g[i] == rest[i]);
            } else {
                assert(g[g.len() - 1] == package_node(m, m.packages[t]));
            }
        }
    }
}

/// The graph of a report is exactly reachability from the workspace
/// members: each node is the node of a package (the last one listed under
/// its identifier) that is reachable through the resolve graph's
/// dependencies of every kind, and each such package has its node. A
/// package's node keeps its name and version, carries its
/// `pkg:cargo/<name>@<version>` URL repaired twice and the instance
/// identifier of the once-repaired URL under its package identifier, and
/// depends on its reachable, described children in resolve order.
pub proof fn law_metadata_graph_is_reachability(m: CargoMetadataView)
    ensures
        forall|i: int|
            0 <= i < metadata_graph(m).len() ==> is_kept_package_node(m, #[trigger] metadata_graph(m)[i]),
        forall|t: int|
            #[trigger] kept_and_reachable(m, t) ==> exists|i: int|
                0 <= i < metadata_graph(m).len() && metadata_graph(m)[i] == package_node(m, m.packages[t]),
        forall|p: MetaPackageView|
            {
                let d = #[trigger] package_node(m, p);
                &&& d.name == p.name
                &&& d.version == Some(p.version)
                &&& d.group is None
                &&& d.location is None
                &&& d.purl == fixed_purl(meta_purl(p))
                &&& d.instance_id == meta_instance(p)
                &&& d.dependencies == edge_ids(m, children_of(m, p.id))
            },
{
    let n = m.packages.len() as int;
    lemma_graph_upto_exact(m, n);
    let g = metadata_graph(m);
    assert(g == graph_upto(m, n));
    assert forall|i: int| 0 <= i < metadata_graph(m).len() implies is_kept_package_node(m, #[trigger] metadata_graph(m)[i]) by {
        assert(graph_upto(m, n)[i] == g[i]);
        let t = choose|t: int|
            0 <= t < n && kept_and_reachable(m, t) && #[trigger] graph_upto(m, n)[i] == package_node(m, m.packages[t]);
        assert(kept_and_reachable(m, t) && metadata_graph(m)[i] == package_node(m, m.packages[t]));
    }
    assert forall|t: int| #[trigger] kept_and_reachable(m, t) implies exists|i: int|
        0 <= i < g.len() && g[i] == package_node(m, m.packages[t]) by {
        assert(0 <= t < n && kept_and_reachable(m, t));
    }
    assert forall|p: MetaPackageView| {
        let d = #[trigger] package_node(m, p);
        &&& d.name == p.name
        &&& d.version == Some(p.version)
        &&& d.group is None
        &&& d.location is None
        &&& d.purl == fixed_purl(meta_purl(p))
        &&& d.instance_id == meta_instance(p)
        &&& d.dependencies == edge_ids(m, children_of(m, p.id))
    } by {
        lemma_ids_tagged(meta_purl(p), p.id, None);
    }
}

} // verus!
