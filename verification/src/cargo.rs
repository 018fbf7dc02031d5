//! `Cargo.lock`: the packages of a lock file and the graph they form.
use vstd::prelude::*;

use crate::data::{
    field, get_array, get_str, parse_toml, str_value, string_items, strings_of, toml_document,
    DataValue,
};
use crate::ident::{lemma_tagged_nonempty, fix_purl, fixed_purl, instance_id, is_tagged, lemma_ids_tagged, make_instance_id};
use crate::lock_graph::{graph_dependency, law_lock_graph_closed, law_lock_graph_nodes, lock_graph_index, reachable, lemma_graph_prefix_tagged, node_views, reachable_dependencies, reachable_graph, LockNode, PackageNode};
use crate::model::{edges_closed, lemma_concat_closed, all_tagged, lemma_concat_tagged, dep_views, Dependency, DependencyView};
use crate::producer::{
    file_name_of, file_salt, file_salt_of, path_file_name, ProducerError, SbomProducerConfiguration,
    SourceFile,
};
use crate::text::{chars_of, push_all, str_eq, string_of};

verus! {

/// Reads `Cargo.lock` files.
pub struct CargoProducer {}

/// `pkg:cargo/<name>@<version>`, repaired where it is malformed.
pub open spec fn cargo_purl(name: Seq<char>, version: Seq<char>) -> Seq<char> {
    fixed_purl("pkg:cargo/"@ + name + "@"@ + version)
}

/// The node a `[[package]]` entry becomes: entries without a string `name`
/// and a string `version` become none.
pub open spec fn cargo_node(pkg: DataValue, salt: Seq<char>) -> Option<LockNode> {
    match (str_value(field(pkg, "name"@)), str_value(field(pkg, "version"@))) {
        (Some(name), Some(version)) => {
            let purl = cargo_purl(name, version);
            Some(
                LockNode {
                    name,
                    version,
                    purl,
                    id: instance_id(purl, salt),
                    deps: string_items(field(pkg, "dependencies"@)),
                },
            )
        },
        _ => None,
    }
}

/// The nodes of the `[[package]]` entries, in order.
pub open spec fn cargo_nodes(pkgs: Seq<DataValue>, salt: Seq<char>) -> Seq<LockNode>
    decreases pkgs.len(),
{
    if pkgs.len() == 0 {
        Seq::empty()
    } else {
        let rest = cargo_nodes(pkgs.drop_last(), salt);
        match cargo_node(pkgs.last(), salt) {
            Some(n) => rest.push(n),
            None => rest,
        }
    }
}

/// What a lock file's text yields under the scope `salt`: `None` where it is
/// not TOML; no dependencies where it has no `package` array; else the
/// reachable graph of its packages.
pub open spec fn cargo_lock_graph(content: Seq<char>, salt: Seq<char>) -> Option<
    Seq<DependencyView>,
> {
    match toml_document(content) {
        None => None,
        Some(doc) => match field(doc, "package"@) {
            Some(DataValue::Array(pkgs)) => Some(reachable_graph(cargo_nodes(pkgs@, salt))),
            _ => Some(Seq::empty()),
        },
    }
}

/// The view of a source file: its path and, where it was read, its text.
pub struct SourceView {
    pub path: Seq<char>,
    pub content: Option<Seq<char>>,
}

pub open spec fn source_views(files: Seq<SourceFile>) -> Seq<SourceView> {
    files.map_values(
        |f: SourceFile|
            SourceView {
                path: f.path@,
                content: match f.content {
                    Some(c) => Some(c@),
                    None => None,
                },
            },
    )
}

/// What the lock files yield together, in order; `None` when one of them is
/// unreadable or not TOML.
pub open spec fn cargo_files_graph(files: Seq<SourceView>) -> Option<Seq<DependencyView>>
    decreases files.len(),
{
    if files.len() == 0 {
        Some(Seq::empty())
    } else {
        match cargo_files_graph(files.drop_last()) {
            None => None,
            Some(acc) => match files.last().content {
                None => None,
                Some(c) => match cargo_lock_graph(c, file_salt(files.last().path)) {
                    None => None,
                    Some(g) => Some(acc + g),
                },
            },
        }
    }
}

fn cargo_purl_exec(name: &String, version: &String) -> (r: String)
    ensures
        r@ == cargo_purl(name@, version@),
{
    let mut raw = chars_of("pkg:cargo/");
    push_all(&mut raw, &chars_of(name.as_str()));
    push_all(&mut raw, &chars_of("@"));
    push_all(&mut raw, &chars_of(version.as_str()));
    fix_purl(string_of(&raw).as_str())
}

fn cargo_nodes_exec(pkgs: &Vec<DataValue>, salt: &str) -> (nodes: Vec<PackageNode>)
    ensures
        node_views(nodes@) == cargo_nodes(pkgs@, salt@),
{
    let mut nodes: Vec<PackageNode> = Vec::new();
    let mut i: usize = 0;
    assert(pkgs@.take(0) =~= Seq::<DataValue>::empty());
    assert(node_views(nodes@) =~= Seq::<LockNode>::empty());
    while i < pkgs.len()
        invariant
            i <= pkgs.len(),
            node_views(nodes@) == cargo_nodes(pkgs@.take(i as int), salt@),
        decreases pkgs.len() - i,
    {
        assert(pkgs@.take(i + 1).drop_last() =~= pkgs@.take(i as int));
        assert(pkgs@.take(i + 1).last() == pkgs@[i as int]);
        let pkg = &pkgs[i];
        match (get_str(pkg, "name"), get_str(pkg, "version")) {
            (Some(name), Some(version)) => {
                let purl = cargo_purl_exec(name, version);
                let id = make_instance_id(purl.as_str(), salt);
                let deps = match get_array(pkg, "dependencies") {
                    Some(items) => strings_of(items),
                    None => {
                        let e: Vec<String> = Vec::new();
                        assert(e.deep_view() =~= Seq::<Seq<char>>::empty());
                        e
                    },
                };
                let node = PackageNode {
                    name: name.clone(),
                    version: version.clone(),
                    purl,
                    id,
                    deps,
                };
                let ghost before = node_views(nodes@);
                nodes.push(node);
                assert(node_views(nodes@) =~= before.push(node@));
            },
            _ => {},
        }
        i = i + 1;
    }
    assert(pkgs@.take(pkgs.len() as int) =~= pkgs@);
    nodes
}

impl CargoProducer {
    /// A file is a Cargo lock file when its name is `Cargo.lock`.
    pub fn use_file(&self, path: &str) -> (r: bool)
        ensures
            r == (path_file_name(path@) == Some("Cargo.lock"@)),
    {
        match file_name_of(path) {
            Some(n) => str_eq(n.as_str(), "Cargo.lock"),
            None => false,
        }
    }

    /// Parses the text of a lock file and returns the reachable graph of its
    /// packages (see [`cargo_lock_graph`]).
    pub fn parse_cargo_lock(content: &str, file_salt: &str) -> (r: Result<
        Vec<Dependency>,
        ProducerError,
    >)
        ensures
            match r {
                Ok(ds) => cargo_lock_graph(content@, file_salt@) == Some(dep_views(ds@)),
                Err(e) => cargo_lock_graph(content@, file_salt@) is None && e is Parse,
            },
    {
        let doc = match parse_toml(content) {
            Ok(d) => d,
            Err(message) => {
                return Err(ProducerError::Parse { message });
            },
        };
        match get_array(&doc, "package") {
            Some(pkgs) => {
                let nodes = cargo_nodes_exec(pkgs, file_salt);
                Ok(reachable_dependencies(&nodes))
            },
            None => {
                let e: Vec<Dependency> = Vec::new();
                assert(dep_views(e@) =~= Seq::<DependencyView>::empty());
                Ok(e)
            },
        }
    }

    /// Reads every lock file in turn; stops at the first that is unreadable
    /// or not TOML (see [`cargo_files_graph`]).
    pub fn find_dependencies(&self, files: &Vec<SourceFile>, _config: &SbomProducerConfiguration) -> (r:
        Result<Vec<Dependency>, ProducerError>)
        ensures
            match r {
                Ok(ds) => cargo_files_graph(source_views(files@)) == Some(dep_views(ds@)),
                Err(_) => cargo_files_graph(source_views(files@)) is None,
            },
    {
        let ghost views = source_views(files@);
        let mut all: Vec<Dependency> = Vec::new();
        let mut i: usize = 0;
        assert(views.take(0) =~= Seq::<SourceView>::empty());
        assert(dep_views(all@) =~= Seq::<DependencyView>::empty());
        while i < files.len()
            invariant
                i <= files.len(),
                views == source_views(files@),
                cargo_files_graph(views.take(i as int)) == Some(dep_views(all@)),
            decreases files.len() - i,
        {
            assert(views.take(i + 1).drop_last() =~= views.take(i as int));
            assert(views.take(i + 1).last() == views[i as int]);
            let f = &files[i];
            let content = match &f.content {
                Some(c) => c,
                None => {
                    proof {
                        assert(views[i as int].content is None);
                        lemma_failure_persists(views, i as int + 1);
                    }
                    return Err(ProducerError::Unreadable { path: f.path.clone() });
                },
            };
            let salt = file_salt_of(f.path.as_str());
            let mut deps = match CargoProducer::parse_cargo_lock(content.as_str(), salt.as_str()) {
                Ok(d) => d,
                Err(e) => {
                    proof {
                        assert(cargo_files_graph(views.take(i + 1)) is None);
                        lemma_failure_persists(views, i as int + 1);
                    }
                    return Err(e);
                },
            };
            let ghost before = dep_views(all@);
            let ghost added = dep_views(deps@);
            all.append(&mut deps);
            assert(dep_views(all@) =~= before + added);
            i = i + 1;
        }
        assert(views.take(files.len() as int) =~= views);
        Ok(all)
    }
}

proof fn lemma_failure_persists(views: Seq<SourceView>, i: int)
    requires
        0 <= i <= views.len(),
        cargo_files_graph(views.take(i)) is None,
    ensures
        cargo_files_graph(views) is None,
    decreases views.len() - i,
{
    if i == views.len() {
        assert(views.take(i) =~= views);
    } else {
        assert(views.take(i + 1).drop_last() =~= views.take(i));
        lemma_failure_persists(views, i + 1);
    }
}

proof fn lemma_cargo_nodes_tagged(pkgs: Seq<DataValue>, salt: Seq<char>)
    ensures
        forall|k: int| 0 <= k < cargo_nodes(pkgs, salt).len() ==> is_tagged(#[trigger] cargo_nodes(pkgs, salt)[k].id),
    decreases pkgs.len(),
{
    if pkgs.len() > 0 {
        lemma_cargo_nodes_tagged(pkgs.drop_last(), salt);
        let rest = cargo_nodes(pkgs.drop_last(), salt);
        match cargo_node(pkgs.last(), salt) {
            Some(n) => {
                lemma_ids_tagged(n.purl, salt, None);
                let t = rest.push(n);
                assert forall|k: int| 0 <= k < t.len() implies is_tagged(#[trigger] t[k].id) by {
                    if k < rest.len() {
                        assert(t[k] == rest[k]);
                    }
                }
            },
            None => {},
        }
    }
}

/// Every node that the lock files yield has a tagged identifier.
pub proof fn law_cargo_ids_tagged(files: Seq<SourceView>)
    requires
        cargo_files_graph(files) is Some,
    ensures
        all_tagged(cargo_files_graph(files)->0),
    decreases files.len(),
{
    if files.len() > 0 {
        law_cargo_ids_tagged(files.drop_last());
        let f = files.last();
        let c = f.content->0;
        let salt = file_salt(f.path);
        let g = cargo_lock_graph(c, salt)->0;
        match toml_document(c) {
            Some(doc) => match field(doc, "package"@) {
                Some(DataValue::Array(pkgs)) => {
                    lemma_cargo_nodes_tagged(pkgs@, salt);
                    let nodes = cargo_nodes(pkgs@, salt);
                    lemma_graph_prefix_tagged(nodes, nodes.len() as int);
                },
                _ => {},
            },
            None => {},
        }
        lemma_concat_tagged(cargo_files_graph(files.drop_last())->0, g);
    }
}

/// Every edge of what the lock files yield leads to one of its nodes.
pub proof fn law_cargo_edges_closed(files: Seq<SourceView>)
    requires
        cargo_files_graph(files) is Some,
    ensures
        edges_closed(cargo_files_graph(files)->0),
    decreases files.len(),
{
    if files.len() > 0 {
        law_cargo_edges_closed(files.drop_last());
        let f = files.last();
        let c = f.content->0;
        let salt = file_salt(f.path);
        let g = cargo_lock_graph(c, salt)->0;
        match toml_document(c) {
            Some(doc) => match field(doc, "package"@) {
                Some(DataValue::Array(pkgs)) => {
                    lemma_cargo_nodes_tagged(pkgs@, salt);
                    let nodes = cargo_nodes(pkgs@, salt);
                    assert forall|k: int| 0 <= k < nodes.len() implies (#[trigger] nodes[k]).id.len() > 0 by {
                        lemma_tagged_nonempty(nodes[k].id);
                    }
                    law_lock_graph_closed(nodes);
                },
                _ => {},
            },
            None => {},
        }
        lemma_concat_closed(cargo_files_graph(files.drop_last())->0, g);
    }
}

/// `idx` lists, in increasing order, the `[[package]]` entries whose nodes
/// make up `g`: each entry has a string name and version, its node is
/// reachable, and every entry with a reachable node is among them.
pub open spec fn cargo_graph_index(pkgs: Seq<DataValue>, salt: Seq<char>, g: Seq<DependencyView>, idx: Seq<int>) -> bool {
    let nodes = cargo_nodes(pkgs, salt);
    &&& idx.len() == g.len()
    &&& forall|a: int, b: int| 0 <= a < b < idx.len() ==> #[trigger] idx[a] < #[trigger] idx[b]
    &&& forall|j: int|
        0 <= j < idx.len() ==> 0 <= #[trigger] idx[j] < pkgs.len() && cargo_node(pkgs[idx[j]], salt) is Some
            && reachable(nodes, cargo_node(pkgs[idx[j]], salt)->0.id) && g[j] == graph_dependency(
            nodes,
            cargo_node(pkgs[idx[j]], salt)->0,
        )
    &&& forall|p: int|
        0 <= p < pkgs.len() && (#[trigger] cargo_node(pkgs[p], salt)) is Some && reachable(
            nodes,
            cargo_node(pkgs[p], salt)->0.id,
        ) ==> idx.contains(p)
}

proof fn lemma_cargo_nodes_index(pkgs: Seq<DataValue>, salt: Seq<char>) -> (cidx: Seq<int>)
    ensures
        cidx.len() == cargo_nodes(pkgs, salt).len(),
        forall|a: int, b: int| 0 <= a < b < cidx.len() ==> #[trigger] cidx[a] < #[trigger] cidx[b],
        forall|m: int|
            0 <= m < cidx.len() ==> 0 <= #[trigger] cidx[m] < pkgs.len() && cargo_node(pkgs[cidx[m]], salt)
                == Some(cargo_nodes(pkgs, salt)[m]),
        forall|p: int| 0 <= p < pkgs.len() && (#[trigger] cargo_node(pkgs[p], salt)) is Some ==> cidx.contains(p),
    decreases pkgs.len(),
{
    if pkgs.len() == 0 {
        Seq::empty()
    } else {
        let d = pkgs.drop_last();
        let rest = lemma_cargo_nodes_index(d, salt);
        let nodes = cargo_nodes(pkgs, salt);
        let nr = cargo_nodes(d, salt);
        assert forall|q: int| 0 <= q < d.len() implies d[q] == #[trigger] pkgs[q] by {}
        match cargo_node(pkgs.last(), salt) {
            Some(n) => {
                let cidx = rest.push(pkgs.len() - 1);
                assert forall|m: int| 0 <= m < cidx.len() implies 0 <= #[trigger] cidx[m] < pkgs.len()
                    && cargo_node(pkgs[cidx[m]], salt) == Some(nodes[m]) by {
                    if m < rest.len() {
                        assert(cidx[m] == rest[m]);
                        assert(nodes[m] == nr[m]);
                        assert(d[rest[m]] == pkgs[rest[m]]);
                    }
                }
                assert forall|p: int| 0 <= p < pkgs.len() && (#[trigger] cargo_node(pkgs[p], salt)) is Some implies cidx.contains(p) by {
                    if p < pkgs.len() - 1 {
                        assert(d[p] == pkgs[p]);
                        let t = choose|t: int| 0 <= t < rest.len() && rest[t] == p;
                        assert(cidx[t] == p);
                    } else {
                        assert(cidx[cidx.len() - 1] == p);
                    }
                }
                cidx
            },
            None => {
                assert forall|m: int| 0 <= m < rest.len() implies 0 <= #[trigger] rest[m] < pkgs.len()
                    && cargo_node(pkgs[rest[m]], salt) == Some(nodes[m]) by {
                    assert(d[rest[m]] == pkgs[rest[m]]);
                }
                assert forall|p: int| 0 <= p < pkgs.len() && (#[trigger] cargo_node(pkgs[p], salt)) is Some implies rest.contains(p) by {
                    if p < pkgs.len() - 1 {
                        assert(d[p] == pkgs[p]);
                    }
                }
                rest
            },
        }
    }
}

/// A lock file's graph is its `[[package]]` entries that have a string
/// name and version and are reachable from a root, in file order (see
/// [`cargo_graph_index`]). Each becomes the node of
/// `lock_graph::law_graph_dependency_fields`: its name and version, its
/// `pkg:cargo/<name>@<version>` URL repaired twice, no group and no location,
/// the instance identifier of the once-repaired URL under the file's scope,
/// and the reachable targets of its entries in entry order.
pub proof fn law_cargo_lock_graph(content: Seq<char>, salt: Seq<char>, doc: DataValue, pkgs: Seq<DataValue>)
    requires
        toml_document(content) == Some(doc),
        field(doc, "package"@) matches Some(DataValue::Array(ps)) && ps@ == pkgs,
    ensures
        cargo_lock_graph(content, salt) == Some(reachable_graph(cargo_nodes(pkgs, salt))),
        exists|idx: Seq<int>| cargo_graph_index(pkgs, salt, reachable_graph(cargo_nodes(pkgs, salt)), idx),
        forall|p: int|
            0 <= p < pkgs.len() && (#[trigger] cargo_node(pkgs[p], salt)) is Some ==> {
                let n = cargo_node(pkgs[p], salt)->0;
                &&& str_value(field(pkgs[p], "name"@)) == Some(n.name)
                &&& str_value(field(pkgs[p], "version"@)) == Some(n.version)
                &&& n.purl == cargo_purl(n.name, n.version)
                &&& n.id == instance_id(n.purl, salt)
                &&& n.id.len() > 0
            },
{
    let nodes = cargo_nodes(pkgs, salt);
    let g = reachable_graph(nodes);
    let cidx = lemma_cargo_nodes_index(pkgs, salt);
    law_lock_graph_nodes(nodes);
    let gidx = choose|idx: Seq<int>| lock_graph_index(nodes, g, idx);
    let idx = Seq::new(gidx.len(), |j: int| cidx[gidx[j]]);
    assert forall|j: int| 0 <= j < idx.len() implies 0 <= #[trigger] idx[j] < pkgs.len() && cargo_node(pkgs[idx[j]], salt) is Some
        && reachable(nodes, cargo_node(pkgs[idx[j]], salt)->0.id) && g[j] == graph_dependency(
        nodes,
        cargo_node(pkgs[idx[j]], salt)->0,
    ) by {
        let m = gidx[j];
        assert(0 <= cidx[m] < pkgs.len());
    }
    assert forall|a: int, b: int| 0 <= a < b < idx.len() implies #[trigger] idx[a] < #[trigger] idx[b] by {
        assert(gidx[a] < gidx[b]);
        assert(0 <= gidx[b] < cidx.len());
        assert(cidx[gidx[a]] < cidx[gidx[b]]);
    }
    assert forall|p: int|
        0 <= p < pkgs.len() && (#[trigger] cargo_node(pkgs[p], salt)) is Some && reachable(
            nodes,
            cargo_node(pkgs[p], salt)->0.id,
        ) implies idx.contains(p) by {
        let m = choose|m: int| 0 <= m < cidx.len() && cidx[m] == p;
        assert(cargo_node(pkgs[cidx[m]], salt) == Some(nodes[m]));
        assert(reachable(nodes, nodes[m].id));
        let j = choose|j: int| 0 <= j < gidx.len() && gidx[j] == m;
        assert(idx[j] == p);
    }
    assert(cargo_graph_index(pkgs, salt, g, idx));
    assert forall|p: int| 0 <= p < pkgs.len() && (#[trigger] cargo_node(pkgs[p], salt)) is Some implies {
        let n = cargo_node(pkgs[p], salt)->0;
        &&& str_value(field(pkgs[p], "name"@)) == Some(n.name)
        &&& str_value(field(pkgs[p], "version"@)) == Some(n.version)
        &&& n.purl == cargo_purl(n.name, n.version)
        &&& n.id == instance_id(n.purl, salt)
        &&& n.id.len() > 0
    } by {
        let n = cargo_node(pkgs[p], salt)->0;
        lemma_ids_tagged(n.purl, salt, None);
    }
}

} // verus!
