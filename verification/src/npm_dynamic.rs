//! The installed npm packages, as `npm ls --json --all` reports them: a
//! tree whose repeated (hoisted) packages merge into one node each.
use vstd::prelude::*;

use crate::config::{has_entry, probe_has, CommandOutput, DirectoryProbe, DynamicProducer};
use crate::data::{bool_value, field, find_key_from, get_str, json_document, parse_json, str_value, DataValue, Entry};
use crate::ident::{fixed_purl, instance_id, make_instance_id};
use crate::merge::{extends_nodes, law_merge_into_extends, ids_are_kept, lemma_merge_all_nodes, nodes_are_merged, distinct_ids, lemma_merge_all_closed, lemma_merge_all_tagged, lemma_merge_all_distinct, lemma_merge_into_append, lemma_merge_into_empty, merge_all, merge_into, merge_one, merge_one_exec};
use crate::ident::{is_tagged, lemma_ids_tagged};
use crate::model::{all_tagged, edges_closed, has_node, lemma_concat_closed, lemma_built_tagged, lemma_concat_tagged, built, dep_views, BuilderView, Dependency, DependencyBuilder, DependencyType, DependencyView};
use crate::producer::ProducerError;
use crate::text::{chars_of, has_prefix, push_all, starts_with, string_of};

verus! {

/// Asks npm for the installed package tree (`npm ls --json --all`).
pub struct NpmDynamicProducer {}

/// `pkg:npm/<name>@<version>`, repaired where malformed.
pub open spec fn npm_purl(name: Seq<char>, version: Seq<char>) -> Seq<char> {
    fixed_purl("pkg:npm/"@ + name + "@"@ + version)
}

/// A package of the workspace itself: linked (`"link": true`) or resolved
/// to a local path (`"resolved": "file:..."`).
pub open spec fn is_workspace_package(info: DataValue) -> bool {
    bool_value(field(info, "link"@)) == Some(true) || match str_value(field(info, "resolved"@)) {
        Some(r) => has_prefix(r, "file:"@),
        None => false,
    }
}

/// The identifiers of the entries that carry a version, under `scope`.
pub open spec fn entry_ids(es: Seq<Entry>, scope: Seq<char>) -> Seq<Seq<char>>
    decreases es.len(),
{
    if es.len() == 0 {
        Seq::empty()
    } else {
        let rest = entry_ids(es.drop_last(), scope);
        match str_value(field(es.last().value, "version"@)) {
            Some(v) => rest.push(instance_id(npm_purl(es.last().key@, v), scope)),
            None => rest,
        }
    }
}

/// The node of a package entry with a version, found under `scope`; its
/// edges go to its own entries, under `next`.
pub open spec fn tree_node(
    name: Seq<char>,
    version: Seq<char>,
    scope: Seq<char>,
    next: Seq<char>,
    subs: Seq<Entry>,
) -> DependencyView {
    let purl = npm_purl(name, version);
    built(
        BuilderView {
            group: None,
            kind: DependencyType::Library,
            name: Some(name),
            version: Some(version),
            purl: Some(purl),
            instance_id: Some(instance_id(purl, scope)),
            dependencies: entry_ids(subs, next),
            location: None,
        },
    )
}

/// The nodes of a tree entry, children first (each subtree in entry order),
/// then the entry itself; nothing for an entry without a version. Inside a
/// workspace package the scope becomes that package's URL.
pub open spec fn tree_nodes(name: Seq<char>, info: DataValue, scope: Seq<char>) -> Seq<DependencyView>
    decreases info, 0int,
{
    match info {
        DataValue::Table(es) => match str_value(field(info, "version"@)) {
            Some(version) => {
                let purl = npm_purl(name, version);
                let next = if is_workspace_package(info) {
                    purl
                } else {
                    scope
                };
                match find_key_from(es@, "dependencies"@, 0) {
                    Some(i) => if 0 <= i < es@.len() {
                        match es@[i].value {
                            DataValue::Table(des) => entries_nodes(
                                des@,
                                des@.len() as int,
                                next,
                            ).push(tree_node(name, version, scope, next, des@)),
                            _ => Seq::empty().push(
                                tree_node(name, version, scope, next, Seq::empty()),
                            ),
                        }
                    } else {
                        Seq::empty()
                    },
                    None => Seq::empty().push(tree_node(name, version, scope, next, Seq::empty())),
                }
            },
            None => Seq::empty(),
        },
        _ => Seq::empty(),
    }
}

/// The nodes of the first `k` entries, entry after entry.
pub open spec fn entries_nodes(es: Seq<Entry>, k: int, scope: Seq<char>) -> Seq<DependencyView>
    decreases es, k,
{
    if k <= 0 || k > es.len() {
        Seq::empty()
    } else {
        entries_nodes(es, k - 1, scope) + tree_nodes(es[k - 1].key@, es[k - 1].value, scope)
    }
}

/// The scope of the packages that the root depends on:
/// `pkg:npm/<root name>@<root version>`, with `npm-workspace-root` and
/// `0.0.0` where the report has none.
pub open spec fn root_scope(doc: DataValue) -> Seq<char> {
    let name = match str_value(field(doc, "name"@)) {
        Some(n) => n,
        None => "npm-workspace-root"@,
    };
    let version = match str_value(field(doc, "version"@)) {
        Some(v) => v,
        None => "0.0.0"@,
    };
    "pkg:npm/"@ + name + "@"@ + version
}

/// The graph of a report: the nodes of the root's dependency trees, merged
/// by identifier in order of first appearance.
pub open spec fn npm_tree_graph(doc: DataValue) -> Seq<DependencyView> {
    let es = match field(doc, "dependencies"@) {
        Some(DataValue::Table(es)) => es@,
        _ => Seq::empty(),
    };
    merge_all(entries_nodes(es, es.len() as int, root_scope(doc)))
}

/// What the producer makes of the output of `npm ls` (whatever its exit
/// status: npm reports problems and still prints the tree).
pub open spec fn npm_report_outcome(stdout: Seq<char>) -> Option<Seq<DependencyView>> {
    match json_document(stdout) {
        Some(doc) => Some(npm_tree_graph(doc)),
        None => None,
    }
}

/// The index of the first entry whose key is `key`.
fn find_key(es: &Vec<Entry>, key: &str) -> (r: Option<usize>)
    ensures
        match r {
            Some(i) => find_key_from(es@, key@, 0) == Some(i as int) && i < es.len(),
            None => find_key_from(es@, key@, 0) is None,
        },
{
    let mut i: usize = 0;
    while i < es.len()
        invariant
            i <= es.len(),
            find_key_from(es@, key@, 0) == find_key_from(es@, key@, i as int),
        decreases es.len() - i,
    {
        if crate::text::str_eq(es[i].key.as_str(), key) {
            return Some(i);
        }
        i = i + 1;
    }
    None
}

fn npm_purl_exec(name: &str, version: &str) -> (r: String)
    ensures
        r@ == npm_purl(name@, version@),
{
    let mut cs = chars_of("pkg:npm/");
    push_all(&mut cs, &chars_of(name));
    cs.push('@');
    push_all(&mut cs, &chars_of(version));
    proof {
        reveal_strlit("pkg:npm/");
        reveal_strlit("@");
        assert(cs@ =~= "pkg:npm/"@ + name@ + "@"@ + version@);
    }
    Dependency::auto_fix_and_validate_purl(string_of(&cs).as_str())
}

fn is_workspace_package_exec(info: &DataValue) -> (r: bool)
    ensures
        r == is_workspace_package(*info),
{
    let linked = match info.get("link") {
        Some(l) => match l.as_bool() {
            Some(b) => b,
            None => false,
        },
        None => false,
    };
    if linked {
        return true;
    }
    match get_str(info, "resolved") {
        Some(r) => {
            let mut p = chars_of("file:");
            proof {
                reveal_strlit("file:");
            }
            starts_with(&chars_of(r.as_str()), &p)
        },
        None => false,
    }
}

fn entry_ids_exec(es: &Vec<Entry>, scope: &str) -> (r: Vec<String>)
    ensures
        r.deep_view() == entry_ids(es@, scope@),
{
    let mut r: Vec<String> = Vec::new();
    let mut k: usize = 0;
    assert(es@.take(0) =~= Seq::<Entry>::empty());
    assert(r.deep_view() =~= Seq::<Seq<char>>::empty());
    while k < es.len()
        invariant
            k <= es.len(),
            r.deep_view() == entry_ids(es@.take(k as int), scope@),
        decreases es.len() - k,
    {
        assert(es@.take(k + 1).drop_last() =~= es@.take(k as int));
        assert(es@.take(k + 1).last() == es@[k as int]);
        let e = &es[k];
        match get_str(&e.value, "version") {
            Some(v) => {
                let purl = npm_purl_exec(e.key.as_str(), v.as_str());
                let id = make_instance_id(purl.as_str(), scope);
                let ghost before = r.deep_view();
                r.push(id);
                assert(r.deep_view() =~= before.push(id@));
            },
            None => {},
        }
        k = k + 1;
    }
    assert(es@.take(es.len() as int) =~= es@);
    r
}

proof fn lemma_entries_nodes_step(es: Seq<Entry>, k: int, scope: Seq<char>)
    requires
        0 <= k < es.len(),
    ensures
        entries_nodes(es, k + 1, scope) == entries_nodes(es, k, scope) + tree_nodes(
            es[k].key@,
            es[k].value,
            scope,
        ),
{
}

/// Merges the subtrees of `des` into `graph`, entry after entry.
fn extract_entries(des: &Vec<Entry>, scope: &str, graph_map: &mut Vec<Dependency>)
    ensures
        dep_views(final(graph_map)@) == merge_into(
            dep_views(old(graph_map)@),
            entries_nodes(des@, des@.len() as int, scope@),
        ),
    decreases des@, 1int,
{
    let ghost start = dep_views(graph_map@);
    let mut k: usize = 0;
    assert(entries_nodes(des@, 0, scope@) =~= Seq::<DependencyView>::empty());
    while k < des.len()
        invariant
            k <= des.len(),
            dep_views(graph_map@) == merge_into(start, entries_nodes(des@, k as int, scope@)),
        decreases des.len() - k,
    {
        let ghost before = dep_views(graph_map@);
        let e = &des[k];
        NpmDynamicProducer::extract_graph_node(e.key.as_str(), &e.value, scope, graph_map);
        proof {
            lemma_entries_nodes_step(des@, k as int, scope@);
            lemma_merge_into_append(
                start,
                entries_nodes(des@, k as int, scope@),
                tree_nodes(des@[k as int].key@, des@[k as int].value, scope@),
            );
        }
        k = k + 1;
    }
}

impl NpmDynamicProducer {
    /// Merges the nodes of one tree entry into `graph_map` (see
    /// [`tree_nodes`]): its subtrees first, then the entry itself, whose
    /// repeated appearances gain the edges they add.
    pub fn extract_graph_node(
        name: &str,
        info: &DataValue,
        current_scope: &str,
        graph_map: &mut Vec<Dependency>,
    )
        ensures
            dep_views(final(graph_map)@) == merge_into(
                dep_views(old(graph_map)@),
                tree_nodes(name@, *info, current_scope@),
            ),
        decreases info, 0int,
    {
        let ghost start = dep_views(graph_map@);
        match info {
            DataValue::Table(es) => {
                let version = match get_str(info, "version") {
                    Some(v) => v,
                    None => {
                        assert(merge_into(start, Seq::<DependencyView>::empty()) == start);
                        return ;
                    },
                };
                let purl = npm_purl_exec(name, version.as_str());
                let inst = make_instance_id(purl.as_str(), current_scope);
                let next_scope: String = if is_workspace_package_exec(info) {
                    purl.clone()
                } else {
                    string_of(&chars_of(current_scope))
                };
                let ghost next = next_scope@;
                let builder = DependencyBuilder::default().name(string_of(&chars_of(name))).version(
                    Some(version.clone()),
                ).dep_type(DependencyType::Library).purl(purl).instance_id(inst).location(None);
                match find_key(es, "dependencies") {
                    Some(i) => {
                        match &es[i].value {
                            DataValue::Table(des) => {
                                let kids = entry_ids_exec(des, next_scope.as_str());
                                extract_entries(des, next_scope.as_str(), graph_map);
                                let b = builder.dependencies(kids);
                                match b.build() {
                                    Ok(node) => {
                                        let ghost mid = dep_views(graph_map@);
                                        let ghost nv = node@;
                                        assert(nv == tree_node(name@, version@, current_scope@, next, des@));
                                        merge_one_exec(graph_map, node);
                                        let ghost sub = entries_nodes(des@, des@.len() as int, next);
                                        assert(sub.push(nv).drop_last() =~= sub);
                                        assert(tree_nodes(name@, *info, current_scope@) == sub.push(nv));
                                        assert(merge_into(start, sub.push(nv)) == merge_one(merge_into(start, sub), nv));
                                    },
                                    Err(_) => {
                                        assert(false);
                                    },
                                }
                            },
                            _ => {
                                let kids: Vec<String> = Vec::new();
                                assert(kids.deep_view() =~= entry_ids(Seq::<Entry>::empty(), next));
                                let b = builder.dependencies(kids);
                                match b.build() {
                                    Ok(node) => {
                                        let ghost nv = node@;
                                        merge_one_exec(graph_map, node);
                                        assert(Seq::<DependencyView>::empty().push(nv).drop_last() =~= Seq::<DependencyView>::empty());
                                        assert(tree_nodes(name@, *info, current_scope@) == Seq::<DependencyView>::empty().push(nv));
                                assert(merge_into(start, Seq::<DependencyView>::empty()) == start);
                                assert(merge_into(start, Seq::<DependencyView>::empty().push(nv)) == merge_one(start, nv));
                                    },
                                    Err(_) => {
                                        assert(false);
                                    },
                                }
                            },
                        }
                    },
                    None => {
                        let kids: Vec<String> = Vec::new();
                        assert(kids.deep_view() =~= entry_ids(Seq::<Entry>::empty(), next));
                        let b = builder.dependencies(kids);
                        match b.build() {
                            Ok(node) => {
                                let ghost nv = node@;
                                merge_one_exec(graph_map, node);
                                assert(Seq::<DependencyView>::empty().push(nv).drop_last() =~= Seq::<DependencyView>::empty());
                                assert(tree_nodes(name@, *info, current_scope@) == Seq::<DependencyView>::empty().push(nv));
                                assert(merge_into(start, Seq::<DependencyView>::empty()) == start);
                                assert(merge_into(start, Seq::<DependencyView>::empty().push(nv)) == merge_one(start, nv));
                            },
                            Err(_) => {
                                assert(false);
                            },
                        }
                    },
                }
            },
            _ => {
                assert(merge_into(start, Seq::<DependencyView>::empty()) == start);
            },
        }
    }

    /// The graph of the tree that `npm ls --json --all` printed (see
    /// [`npm_tree_graph`]); an error where it printed no JSON.
    pub fn graph_of_output(output: &CommandOutput) -> (r: Result<Vec<Dependency>, ProducerError>)
        ensures
            match r {
                Ok(ds) => npm_report_outcome(output.stdout@) == Some(dep_views(ds@)),
                Err(e) => npm_report_outcome(output.stdout@) is None && e is Parse,
            },
    {
        match parse_json(output.stdout.as_str()) {
            Ok(doc) => {
                let mut scope = chars_of("pkg:npm/");
                match get_str(&doc, "name") {
                    Some(n) => push_all(&mut scope, &chars_of(n.as_str())),
                    None => push_all(&mut scope, &chars_of("npm-workspace-root")),
                }
                scope.push('@');
                match get_str(&doc, "version") {
                    Some(v) => push_all(&mut scope, &chars_of(v.as_str())),
                    None => push_all(&mut scope, &chars_of("0.0.0")),
                }
                proof {
                    reveal_strlit("pkg:npm/");
                    reveal_strlit("@");
                    assert(scope@ =~= root_scope(doc));
                }
                let root = string_of(&scope);
                let mut graph: Vec<Dependency> = Vec::new();
                assert(dep_views(graph@) =~= Seq::<DependencyView>::empty());
                match doc.get("dependencies") {
                    Some(DataValue::Table(es)) => {
                        extract_entries(es, root.as_str(), &mut graph);
                        proof {
                            lemma_merge_into_empty(entries_nodes(es@, es@.len() as int, root@));
                        }
                    },
                    _ => {
                        proof {
                            lemma_merge_into_empty(Seq::<DependencyView>::empty());
                        }
                    },
                }
                Ok(graph)
            },
            Err(message) => Err(ProducerError::Parse { message }),
        }
    }
}

/// npm applies where the directory holds a `package.json` and a
/// `node_modules` directory.
pub open spec fn npm_applies(probe: DirectoryProbe) -> bool {
    has_entry(probe, "package.json"@) && has_entry(probe, "node_modules"@)
}

impl DynamicProducer for NpmDynamicProducer {
    fn is_applicable(&self, probe: &DirectoryProbe) -> (r: bool)
        ensures
            r == npm_applies(*probe),
    {
        probe_has(probe, "package.json") && probe_has(probe, "node_modules")
    }

    fn detect_dependencies(&self, output: &CommandOutput) -> (r: Result<Vec<Dependency>, ProducerError>)
        ensures
            match r {
                Ok(ds) => npm_report_outcome(output.stdout@) == Some(dep_views(ds@)),
                Err(_) => npm_report_outcome(output.stdout@) is None,
            },
    {
        NpmDynamicProducer::graph_of_output(output)
    }
}

/// The tree's repeated packages merge: no identifier occurs twice in the
/// graph of a report.
pub proof fn law_npm_graph_ids_distinct(doc: DataValue)
    ensures
        distinct_ids(npm_tree_graph(doc)),
{
    let es = match field(doc, "dependencies"@) {
        Some(DataValue::Table(es)) => es@,
        _ => Seq::empty(),
    };
    lemma_merge_all_distinct(entries_nodes(es, es.len() as int, root_scope(doc)));
}

proof fn lemma_tree_node_tagged(
    name: Seq<char>,
    version: Seq<char>,
    scope: Seq<char>,
    next: Seq<char>,
    subs: Seq<Entry>,
)
    ensures
        is_tagged(tree_node(name, version, scope, next, subs).instance_id),
{
    let purl = npm_purl(name, version);
    lemma_ids_tagged(purl, scope, None);
    lemma_built_tagged(
        BuilderView {
            group: None,
            kind: DependencyType::Library,
            name: Some(name),
            version: Some(version),
            purl: Some(purl),
            instance_id: Some(instance_id(purl, scope)),
            dependencies: entry_ids(subs, next),
            location: None,
        },
    );
}

proof fn lemma_tree_nodes_tagged(name: Seq<char>, info: DataValue, scope: Seq<char>)
    ensures
        all_tagged(tree_nodes(name, info, scope)),
    decreases info, 0int,
{
    match info {
        DataValue::Table(es) => match str_value(field(info, "version"@)) {
            Some(version) => {
                let purl = npm_purl(name, version);
                let next = if is_workspace_package(info) {
                    purl
                } else {
                    scope
                };
                match find_key_from(es@, "dependencies"@, 0) {
                    Some(i) => if 0 <= i < es@.len() {
                        match es@[i].value {
                            DataValue::Table(des) => {
                                lemma_entries_nodes_tagged(des@, des@.len() as int, next);
                                lemma_tree_node_tagged(name, version, scope, next, des@);
                                let sub = entries_nodes(des@, des@.len() as int, next);
                                let t = sub.push(tree_node(name, version, scope, next, des@));
                                assert forall|k: int| 0 <= k < t.len() implies is_tagged(#[trigger] t[k].instance_id) by {
                                    if k < sub.len() {
                                        assert(t[k] == sub[k]);
                                    }
                                }
                            },
                            _ => {
                                lemma_tree_node_tagged(name, version, scope, next, Seq::empty());
                                let t = Seq::<DependencyView>::empty().push(tree_node(name, version, scope, next, Seq::empty()));
                                assert(t[0] == tree_node(name, version, scope, next, Seq::empty()));
                            },
                        }
                    } else {
                    },
                    None => {
                        lemma_tree_node_tagged(name, version, scope, next, Seq::empty());
                        let t = Seq::<DependencyView>::empty().push(tree_node(name, version, scope, next, Seq::empty()));
                        assert(t[0] == tree_node(name, version, scope, next, Seq::empty()));
                    },
                }
            },
            None => {},
        },
        _ => {},
    }
}

proof fn lemma_entries_nodes_tagged(es: Seq<Entry>, k: int, scope: Seq<char>)
    ensures
        all_tagged(entries_nodes(es, k, scope)),
    decreases es, k,
{
    if k > 0 && k <= es.len() {
        lemma_entries_nodes_tagged(es, k - 1, scope);
        lemma_tree_nodes_tagged(es[k - 1].key@, es[k - 1].value, scope);
        lemma_concat_tagged(
            entries_nodes(es, k - 1, scope),
            tree_nodes(es[k - 1].key@, es[k - 1].value, scope),
        );
    }
}

/// Every node of a report's graph has a tagged identifier.
pub proof fn law_npm_graph_ids_tagged(doc: DataValue)
    ensures
        all_tagged(npm_tree_graph(doc)),
{
    let es = match field(doc, "dependencies"@) {
        Some(DataValue::Table(es)) => es@,
        _ => Seq::empty(),
    };
    lemma_entries_nodes_tagged(es, es.len() as int, root_scope(doc));
    lemma_merge_all_tagged(entries_nodes(es, es.len() as int, root_scope(doc)));
}

proof fn lemma_find_key_range(es: Seq<Entry>, key: Seq<char>, i: int)
    ensures
        match find_key_from(es, key, i) {
            Some(j) => i <= j < es.len() && es[j].key@ == key,
            None => true,
        },
    decreases es.len() - i,
{
    if 0 <= i < es.len() && es[i].key@ != key {
        lemma_find_key_range(es, key, i + 1);
    }
}

proof fn lemma_has_node_left(a: Seq<DependencyView>, b: Seq<DependencyView>, x: Seq<char>)
    requires
        has_node(a, x),
    ensures
        has_node(a + b, x),
{
    let k = choose|k: int| 0 <= k < a.len() && (#[trigger] a[k]).instance_id == x;
    assert((a + b)[k] == a[k]);
}

proof fn lemma_has_node_right(a: Seq<DependencyView>, b: Seq<DependencyView>, x: Seq<char>)
    requires
        has_node(b, x),
    ensures
        has_node(a + b, x),
{
    let k = choose|k: int| 0 <= k < b.len() && (#[trigger] b[k]).instance_id == x;
    assert((a + b)[a.len() + k] == b[k]);
}

/// The last node of a package entry with a version is the entry itself.
proof fn lemma_tree_nodes_last(name: Seq<char>, info: DataValue, scope: Seq<char>, version: Seq<char>)
    requires
        str_value(field(info, "version"@)) == Some(version),
    ensures
        tree_nodes(name, info, scope).len() > 0,
        tree_nodes(name, info, scope).last().instance_id == instance_id(npm_purl(name, version), scope),
{
    let purl = npm_purl(name, version);
    lemma_ids_tagged(purl, scope, None);
    if let DataValue::Table(es) = info {
        lemma_find_key_range(es@, "dependencies"@, 0);
    }
}

/// The first `k` entries of a list of entries are those of the list without
/// its last entry.
proof fn lemma_entries_nodes_drop_last(es: Seq<Entry>, k: int, scope: Seq<char>)
    requires
        0 <= k < es.len(),
    ensures
        entries_nodes(es, k, scope) == entries_nodes(es.drop_last(), k, scope),
    decreases k,
{
    if k > 0 {
        lemma_entries_nodes_drop_last(es, k - 1, scope);
        assert(es[k - 1] == es.drop_last()[k - 1]);
    }
}

/// Each identifier that a node lists for its entries is that of a node of
/// those entries' trees.
proof fn lemma_entry_ids_are_nodes(es: Seq<Entry>, scope: Seq<char>)
    ensures
        forall|j: int|
            0 <= j < entry_ids(es, scope).len() ==> has_node(
                entries_nodes(es, es.len() as int, scope),
                #[trigger] entry_ids(es, scope)[j],
            ),
    decreases es.len(),
{
    if es.len() > 0 {
        let n = es.len() as int;
        let d = es.drop_last();
        lemma_entry_ids_are_nodes(d, scope);
        lemma_entries_nodes_drop_last(es, n - 1, scope);
        let head = entries_nodes(es, n - 1, scope);
        let tail = tree_nodes(es[n - 1].key@, es[n - 1].value, scope);
        assert(entries_nodes(es, n, scope) == head + tail);
        let rest = entry_ids(d, scope);
        let ids = entry_ids(es, scope);
        assert forall|j: int| 0 <= j < ids.len() implies has_node(head + tail, #[trigger] ids[j]) by {
            if j < rest.len() {
                assert(ids[j] == rest[j]);
                lemma_has_node_left(head, tail, rest[j]);
            } else {
                let v = str_value(field(es.last().value, "version"@))->0;
                lemma_tree_nodes_last(es[n - 1].key@, es[n - 1].value, scope, v);
                assert(tail[tail.len() - 1] == tail.last());
                assert(has_node(tail, ids[j]));
                lemma_has_node_right(head, tail, ids[j]);
            }
        }
    }
}

/// A node whose edges lead into a closed graph, appended to it, keeps it
/// closed.
proof fn lemma_push_closed(sub: Seq<DependencyView>, node: DependencyView)
    requires
        edges_closed(sub),
        forall|j: int| 0 <= j < node.dependencies.len() ==> has_node(sub, #[trigger] node.dependencies[j]),
    ensures
        edges_closed(sub.push(node)),
{
    let t = sub.push(node);
    assert forall|i: int, j: int|
        0 <= i < t.len() && 0 <= j < t[i].dependencies.len() implies has_node(t, #[trigger] t[i].dependencies[j]) by {
        let x = t[i].dependencies[j];
        if i < sub.len() {
            assert(t[i] == sub[i]);
            assert(has_node(sub, sub[i].dependencies[j]));
        } else {
            assert(has_node(sub, node.dependencies[j]));
        }
        let k = choose|k: int| 0 <= k < sub.len() && (#[trigger] sub[k]).instance_id == x;
        assert(t[k] == sub[k]);
    }
}

proof fn lemma_tree_nodes_closed(name: Seq<char>, info: DataValue, scope: Seq<char>)
    ensures
        edges_closed(tree_nodes(name, info, scope)),
    decreases info, 0int,
{
    match info {
        DataValue::Table(es) => match str_value(field(info, "version"@)) {
            Some(version) => {
                let purl = npm_purl(name, version);
                let next = if is_workspace_package(info) {
                    purl
                } else {
                    scope
                };
                match find_key_from(es@, "dependencies"@, 0) {
                    Some(i) => if 0 <= i < es@.len() {
                        match es@[i].value {
                            DataValue::Table(des) => {
                                lemma_entries_nodes_closed(des@, des@.len() as int, next);
                                lemma_entry_ids_are_nodes(des@, next);
                                lemma_push_closed(
                                    entries_nodes(des@, des@.len() as int, next),
                                    tree_node(name, version, scope, next, des@),
                                );
                            },
                            _ => {
                                lemma_push_closed(Seq::empty(), tree_node(name, version, scope, next, Seq::empty()));
                            },
                        }
                    } else {
                    },
                    None => {
                        lemma_push_closed(Seq::empty(), tree_node(name, version, scope, next, Seq::empty()));
                    },
                }
            },
            None => {},
        },
        _ => {},
    }
}

proof fn lemma_entries_nodes_closed(es: Seq<Entry>, k: int, scope: Seq<char>)
    ensures
        edges_closed(entries_nodes(es, k, scope)),
    decreases es, k,
{
    if k > 0 && k <= es.len() {
        lemma_entries_nodes_closed(es, k - 1, scope);
        lemma_tree_nodes_closed(es[k - 1].key@, es[k - 1].value, scope);
        lemma_concat_closed(
            entries_nodes(es, k - 1, scope),
            tree_nodes(es[k - 1].key@, es[k - 1].value, scope),
        );
    }
}

/// Every edge of a report's graph leads to a node of that graph: a package
/// lists the packages under it, and each of those is a node.
pub proof fn law_npm_graph_edges_closed(doc: DataValue)
    ensures
        edges_closed(npm_tree_graph(doc)),
{
    let es = match field(doc, "dependencies"@) {
        Some(DataValue::Table(es)) => es@,
        _ => Seq::empty(),
    };
    lemma_entries_nodes_closed(es, es.len() as int, root_scope(doc));
    lemma_merge_all_closed(entries_nodes(es, es.len() as int, root_scope(doc)));
}

/// The graph of a report is the merge of the tree's nodes (each subtree,
/// then its entry; each with a version, under its scope): one node per
/// identifier, the first node with that identifier with the edges of the
/// later ones appended, and every tree node's identifier kept.
pub proof fn law_npm_tree_entries_merged(doc: DataValue)
    ensures
        ({
            let es = match field(doc, "dependencies"@) {
                Some(DataValue::Table(es)) => es@,
                _ => Seq::empty(),
            };
            let raw = entries_nodes(es, es.len() as int, root_scope(doc));
            &&& npm_tree_graph(doc) == merge_all(raw)
            &&& nodes_are_merged(raw, npm_tree_graph(doc))
            &&& ids_are_kept(raw, npm_tree_graph(doc))
            &&& distinct_ids(npm_tree_graph(doc))
        }),
{
    let es = match field(doc, "dependencies"@) {
        Some(DataValue::Table(es)) => es@,
        _ => Seq::empty(),
    };
    let raw = entries_nodes(es, es.len() as int, root_scope(doc));
    lemma_merge_all_nodes(raw);
    lemma_merge_all_distinct(raw);
}

/// A package entry with a version becomes the node of `tree_node`: its name
/// and version, the `pkg:npm/<name>@<version>` URL repaired twice, the
/// identifier of the once-repaired URL under its scope, and edges to the
/// identifiers of its own entries that have a version, under its scope or,
/// for a workspace package, under its own URL.
pub proof fn law_npm_tree_node_fields(name: Seq<char>, version: Seq<char>, scope: Seq<char>, next: Seq<char>, subs: Seq<Entry>)
    ensures
        ({
            let d = tree_node(name, version, scope, next, subs);
            &&& d.name == name
            &&& d.version == Some(version)
            &&& d.group is None
            &&& d.location is None
            &&& d.purl == fixed_purl(npm_purl(name, version))
            &&& d.instance_id == instance_id(npm_purl(name, version), scope)
            &&& d.dependencies == entry_ids(subs, next)
        }),
{
    lemma_ids_tagged(npm_purl(name, version), scope, None);
}

/// What merging a tree entry into a graph does (the contract of
/// `NpmDynamicProducer::extract_graph_node`): an entry without a version
/// leaves the graph as it is; otherwise no node is removed, each keeps its
/// fields and gains at most new edges after its own, and the entry's own
/// node is the last one merged.
pub proof fn law_extract_graph_node(graph: Seq<DependencyView>, name: Seq<char>, info: DataValue, scope: Seq<char>)
    ensures
        extends_nodes(graph, merge_into(graph, tree_nodes(name, info, scope))),
        str_value(field(info, "version"@)) is None ==> merge_into(graph, tree_nodes(name, info, scope)) == graph,
        str_value(field(info, "version"@)) matches Some(v) ==> tree_nodes(name, info, scope).len() > 0 && tree_nodes(
            name,
            info,
            scope,
        ).last().instance_id == instance_id(npm_purl(name, v), scope),
{
    law_merge_into_extends(graph, tree_nodes(name, info, scope));
    if let Some(v) = str_value(field(info, "version"@)) {
        lemma_tree_nodes_last(name, info, scope, v);
    }
}

/// A package entry with a version and its own entries yields the nodes of
/// its entries, then its own node. Its entries are taken under the entry's
/// own URL `pkg:npm/<name>@<version>` where it is a workspace package
/// (`"link": true`, or resolved to a `file:` path), else under the scope it
/// is found in; its own node's edges are its entries' identifiers in that
/// scope.
pub proof fn law_workspace_children_scope(
    name: Seq<char>,
    info: DataValue,
    scope: Seq<char>,
    version: Seq<char>,
    des: Seq<Entry>,
)
    requires
        str_value(field(info, "version"@)) == Some(version),
        field(info, "dependencies"@) matches Some(DataValue::Table(d)) && d@ == des,
    ensures
        ({
            let own = npm_purl(name, version);
            let linked = bool_value(field(info, "link"@)) == Some(true);
            let local = str_value(field(info, "resolved"@)) matches Some(r) && has_prefix(r, "file:"@);
            let next = if linked || local {
                own
            } else {
                scope
            };
            &&& tree_nodes(name, info, scope) == entries_nodes(des, des.len() as int, next).push(
                tree_node(name, version, scope, next, des),
            )
            &&& tree_node(name, version, scope, next, des).dependencies == entry_ids(des, next)
            &&& linked ==> tree_node(name, version, scope, next, des).dependencies == entry_ids(des, own)
        }),
{
    if let DataValue::Table(es) = info {
        lemma_find_key_range(es@, "dependencies"@, 0);
    }
    lemma_ids_tagged(npm_purl(name, version), scope, None);
}

} // verus!
