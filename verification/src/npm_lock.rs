//! `package-lock.json`: installed packages by their place under
//! `node_modules`, and the edges that Node's module resolution gives them.
use vstd::prelude::*;

use crate::cargo::{source_views, SourceView};
use crate::data::{field, get_str, get_table, parse_json, json_document, str_value, DataValue, Entry};
use crate::ident::{lemma_tagged_nonempty, fix_purl, fixed_purl, instance_id, is_tagged, lemma_ids_tagged, make_instance_id};
use crate::model::{edges_closed, has_node, lemma_concat_closed, all_tagged, lemma_built_tagged, lemma_concat_tagged, built, dep_views, BuilderView, Dependency, DependencyBuilder, DependencyType, DependencyView};
use crate::producer::{
    file_name_of, file_salt, file_salt_of, path_file_name, ProducerError, SbomProducerConfiguration,
    SourceFile,
};
use crate::text::{
    chars_of, clean_json_text, occurs_at, clean_json_text_exec, eq_ignore_ascii_case,
    eq_ignore_ascii_case_exec, contains_seq, last_occurrence, lemma_last_occurrence_bounds, lemma_last_occurrence_exact, push_all, rfind,
    string_of, sub_chars,
};

verus! {

/// Reads `package-lock.json` files.
pub struct NpmLockProducer {}

/// An installed package: where it is installed, what it is, and the names
/// of the packages it depends on.
pub struct NpmNode {
    pub path: Seq<char>,
    pub name: Seq<char>,
    pub version: Seq<char>,
    pub purl: Seq<char>,
    pub id: Seq<char>,
    pub dep_names: Seq<Seq<char>>,
}

/// Where a package is installed, and its identifier.
pub struct PathEntry {
    pub path: String,
    pub id: String,
}

pub struct PathEntryView {
    pub path: Seq<char>,
    pub id: Seq<char>,
}

impl View for PathEntry {
    type V = PathEntryView;

    open spec fn view(&self) -> PathEntryView {
        PathEntryView { path: self.path@, id: self.id@ }
    }
}

pub open spec fn path_entry_views(s: Seq<PathEntry>) -> Seq<PathEntryView> {
    s.map_values(|e: PathEntry| e@)
}

/// The identifier installed at `path` (the last entry for it).
pub open spec fn path_lookup(index: Seq<PathEntryView>, path: Seq<char>) -> Option<Seq<char>>
    decreases index.len(),
{
    if index.len() == 0 {
        None
    } else if index.last().path == path {
        Some(index.last().id)
    } else {
        path_lookup(index.drop_last(), path)
    }
}

/// Where a package named `dep` would be installed for code in `scope`.
pub open spec fn candidate_path(scope: Seq<char>, dep: Seq<char>) -> Seq<char> {
    if scope.len() == 0 {
        "node_modules/"@ + dep
    } else {
        scope + "/node_modules/"@ + dep
    }
}

/// The scope enclosing `scope`: what precedes its last `/node_modules/`, or
/// the root.
pub open spec fn enclosing_scope(scope: Seq<char>) -> Seq<char> {
    match last_occurrence(scope, "/node_modules/"@) {
        Some(i) => scope.take(i),
        None => Seq::empty(),
    }
}

pub proof fn lemma_enclosing_scope_shorter(scope: Seq<char>)
    requires
        scope.len() > 0,
    ensures
        enclosing_scope(scope).len() < scope.len(),
{
    lemma_last_occurrence_bounds(scope, "/node_modules/"@);
    assert("/node_modules/"@.len() == 14) by {
        reveal_strlit("/node_modules/");
    }
}

/// Node's module resolution: the package `dep` that code in `scope` loads is
/// the one installed in the nearest `node_modules` of `scope` or of a scope
/// enclosing it.
pub open spec fn resolve(index: Seq<PathEntryView>, scope: Seq<char>, dep: Seq<char>) -> Option<
    Seq<char>,
>
    decreases scope.len(),
{
    match path_lookup(index, candidate_path(scope, dep)) {
        Some(id) => Some(id),
        None => if scope.len() == 0 {
            None
        } else {
            proof {
                lemma_enclosing_scope_shorter(scope);
            }
            resolve(index, enclosing_scope(scope), dep)
        },
    }
}

/// Whatever the scope, a package installed at the root `node_modules` is
/// always found.
pub proof fn law_root_install_resolves(
    index: Seq<PathEntryView>,
    scope: Seq<char>,
    dep: Seq<char>,
)
    requires
        path_lookup(index, candidate_path(Seq::empty(), dep)) is Some,
    ensures
        resolve(index, scope, dep) is Some,
    decreases scope.len(),
{
    if path_lookup(index, candidate_path(scope, dep)) is None && scope.len() > 0 {
        lemma_enclosing_scope_shorter(scope);
        law_root_install_resolves(index, enclosing_scope(scope), dep);
    }
}

/// A package installed in `scope`'s own `node_modules` shadows every other
/// copy.
pub proof fn law_nearest_install_wins(
    index: Seq<PathEntryView>,
    scope: Seq<char>,
    dep: Seq<char>,
)
    requires
        path_lookup(index, candidate_path(scope, dep)) is Some,
    ensures
        resolve(index, scope, dep) == path_lookup(index, candidate_path(scope, dep)),
{
}

fn path_lookup_exec<'a>(index: &'a Vec<PathEntry>, path: &Vec<char>) -> (r: Option<&'a String>)
    ensures
        match r {
            Some(id) => path_lookup(path_entry_views(index@), path@) == Some(id@),
            None => path_lookup(path_entry_views(index@), path@) is None,
        },
{
    let ghost vs = path_entry_views(index@);
    let target = string_of(path);
    let mut i = index.len();
    assert(vs.take(i as int) =~= vs);
    while i > 0
        invariant
            i <= index.len(),
            vs == path_entry_views(index@),
            target@ == path@,
            path_lookup(vs, path@) == path_lookup(vs.take(i as int), path@),
        decreases i,
    {
        assert(vs.take(i as int).drop_last() =~= vs.take(i - 1));
        assert(vs.take(i as int).last() == index@[i - 1]@);
        if index[i - 1].path == target {
            return Some(&index[i - 1].id);
        }
        i = i - 1;
    }
    None
}

impl NpmLockProducer {
    /// Resolves the package `dep_name` for code installed at `caller_pkg_path`
    /// (see [`resolve`]).
    pub fn resolve_npm_dep<'a>(caller_pkg_path: &str, dep_name: &str, path_to_id: &'a Vec<PathEntry>) -> (r:
        Option<&'a String>)
        ensures
            match r {
                Some(id) => resolve(path_entry_views(path_to_id@), caller_pkg_path@, dep_name@) == Some(
                    id@,
                ),
                None => resolve(path_entry_views(path_to_id@), caller_pkg_path@, dep_name@) is None,
            },
    {
        let ghost index = path_entry_views(path_to_id@);
        let dep = chars_of(dep_name);
        let root_prefix = chars_of("node_modules/");
        let scoped_infix = chars_of("/node_modules/");
        let mut curr = chars_of(caller_pkg_path);
        loop
            invariant
                index == path_entry_views(path_to_id@),
                dep@ == dep_name@,
                root_prefix@ == "node_modules/"@,
                scoped_infix@ == "/node_modules/"@,
                resolve(index, curr@, dep@) == resolve(index, caller_pkg_path@, dep_name@),
            decreases curr@.len(),
        {
            let mut candidate: Vec<char>;
            if curr.len() == 0 {
                candidate = sub_chars(&root_prefix, 0, root_prefix.len());
                assert(candidate@ =~= root_prefix@);
                push_all(&mut candidate, &dep);
            } else {
                candidate = sub_chars(&curr, 0, curr.len());
                assert(candidate@ =~= curr@);
                push_all(&mut candidate, &scoped_infix);
                push_all(&mut candidate, &dep);
            }
            assert(candidate@ == candidate_path(curr@, dep@));
            match path_lookup_exec(path_to_id, &candidate) {
                Some(id) => {
                    return Some(id);
                },
                None => {},
            }
            if curr.len() == 0 {
                return None;
            }
            proof {
                lemma_enclosing_scope_shorter(curr@);
                lemma_last_occurrence_bounds(curr@, scoped_infix@);
            }
            let next = match rfind(&curr, &scoped_infix) {
                Some(idx) => sub_chars(&curr, 0, idx),
                None => Vec::new(),
            };
            assert(next@ =~= enclosing_scope(curr@));
            curr = next;
        }
    }
}


// ---------------------------------------------------------------------
// The lock file's packages
// ---------------------------------------------------------------------

/// The name of a package that states none: what follows the last
/// `node_modules/` of its path, else what follows the last `/`.
pub open spec fn default_npm_name(path: Seq<char>) -> Seq<char> {
    match last_occurrence(path, "node_modules/"@) {
        Some(i) => path.skip(i + 13),
        None => match last_occurrence(path, "/"@) {
            Some(i) => path.skip(i + 1),
            None => path,
        },
    }
}

/// The keys of a table, in order.
pub open spec fn table_keys(entries: Seq<Entry>) -> Seq<Seq<char>> {
    entries.map_values(|e: Entry| e.key@)
}

/// The names under a package's `dependencies` object.
pub open spec fn dep_names_of(data: DataValue) -> Seq<Seq<char>> {
    match field(data, "dependencies"@) {
        Some(DataValue::Table(es)) => table_keys(es@),
        _ => Seq::empty(),
    }
}

/// `pkg:npm/<name>@<version>`, repaired where it is malformed.
pub open spec fn npm_purl(name: Seq<char>, version: Seq<char>) -> Seq<char> {
    fixed_purl("pkg:npm/"@ + name + "@"@ + version)
}

/// The node of one `packages` entry: none for the root entry (empty path)
/// and for entries without a string `version`.
pub open spec fn npm_lock_node(e: Entry, salt: Seq<char>) -> Option<NpmNode> {
    let path = e.key@;
    let data = e.value;
    if path.len() == 0 {
        None
    } else {
        match str_value(field(data, "version"@)) {
            None => None,
            Some(version) => {
                let name = match str_value(field(data, "name"@)) {
                    Some(n) => n,
                    None => default_npm_name(path),
                };
                let purl = npm_purl(name, version);
                Some(
                    NpmNode {
                        path,
                        name,
                        version,
                        purl,
                        id: instance_id(purl, salt + ":"@ + path),
                        dep_names: dep_names_of(data),
                    },
                )
            },
        }
    }
}

pub open spec fn npm_lock_nodes(entries: Seq<Entry>, salt: Seq<char>) -> Seq<NpmNode>
    decreases entries.len(),
{
    if entries.len() == 0 {
        Seq::empty()
    } else {
        let rest = npm_lock_nodes(entries.drop_last(), salt);
        match npm_lock_node(entries.last(), salt) {
            Some(n) => rest.push(n),
            None => rest,
        }
    }
}

/// Where each node is installed, and its identifier.
pub open spec fn node_index(nodes: Seq<NpmNode>) -> Seq<PathEntryView> {
    nodes.map_values(|n: NpmNode| PathEntryView { path: n.path, id: n.id })
}

/// The identifiers that the names resolve to from `scope`, in order; names
/// that resolve to nothing are dropped.
pub open spec fn resolved_ids(index: Seq<PathEntryView>, scope: Seq<char>, names: Seq<Seq<char>>) -> Seq<
    Seq<char>,
>
    decreases names.len(),
{
    if names.len() == 0 {
        Seq::empty()
    } else {
        let rest = resolved_ids(index, scope, names.drop_last());
        match resolve(index, scope, names.last()) {
            Some(id) => rest.push(id),
            None => rest,
        }
    }
}

/// The dependency that an installed package becomes.
pub open spec fn npm_lock_dependency(index: Seq<PathEntryView>, n: NpmNode) -> DependencyView {
    built(
        BuilderView {
            group: None,
            kind: DependencyType::Library,
            name: Some(n.name),
            version: Some(n.version),
            purl: Some(n.purl),
            instance_id: Some(n.id),
            dependencies: resolved_ids(index, n.path, n.dep_names),
            location: None,
        },
    )
}

/// What a parsed lock file yields under the scope `salt`: one dependency per
/// installed package, in the document's order, with resolved edges.
pub open spec fn npm_lock_graph(json: DataValue, salt: Seq<char>) -> Seq<DependencyView> {
    match field(json, "packages"@) {
        Some(DataValue::Table(es)) => {
            let nodes = npm_lock_nodes(es@, salt);
            nodes.map_values(|n: NpmNode| npm_lock_dependency(node_index(nodes), n))
        },
        _ => Seq::empty(),
    }
}

/// What the lock files yield together, in order; unreadable files and files
/// that are not JSON add nothing.
pub open spec fn npm_lock_files(files: Seq<SourceView>) -> Seq<DependencyView>
    decreases files.len(),
{
    if files.len() == 0 {
        Seq::empty()
    } else {
        let acc = npm_lock_files(files.drop_last());
        match files.last().content {
            None => acc,
            Some(c) => match json_document(clean_json_text(c)) {
                None => acc,
                Some(json) => acc + npm_lock_graph(json, file_salt(files.last().path)),
            },
        }
    }
}

/// An installed package.
pub struct InstalledPackage {
    pub path: String,
    pub name: String,
    pub version: String,
    pub purl: String,
    pub id: String,
    pub dep_names: Vec<String>,
}

impl View for InstalledPackage {
    type V = NpmNode;

    open spec fn view(&self) -> NpmNode {
        NpmNode {
            path: self.path@,
            name: self.name@,
            version: self.version@,
            purl: self.purl@,
            id: self.id@,
            dep_names: self.dep_names.deep_view(),
        }
    }
}

pub open spec fn installed_views(s: Seq<InstalledPackage>) -> Seq<NpmNode> {
    s.map_values(|p: InstalledPackage| p@)
}

fn default_npm_name_exec(path: &String) -> (r: String)
    ensures
        r@ == default_npm_name(path@),
{
    let cs = chars_of(path.as_str());
    let marker = chars_of("node_modules/");
    let slash = chars_of("/");
    proof {
        reveal_strlit("node_modules/");
        lemma_last_occurrence_bounds(cs@, marker@);
        lemma_last_occurrence_bounds(cs@, slash@);
        reveal_strlit("/");
        assert(slash@.len() == 1);
        assert(marker@.len() == 13);
    }
    match rfind(&cs, &marker) {
        Some(idx) => {
            assert(last_occurrence(cs@, marker@) == Some(idx as int));
            assert(occurs_at(cs@, marker@, idx as int));
            assert(marker@.len() == 13);
            assert(idx + 13 <= cs@.len());
            let n = cs.len();
            assert(idx + 13 <= n);
            let start: usize = idx + 13;
            let r = sub_chars(&cs, start, n);
            assert(r@ =~= cs@.skip(idx + 13));
            string_of(&r)
        },
        None => match rfind(&cs, &slash) {
            Some(idx) => {
                assert(last_occurrence(cs@, slash@) == Some(idx as int));
                assert(occurs_at(cs@, slash@, idx as int));
                let n = cs.len();
                assert(idx + 1 <= n);
                let start: usize = idx + 1;
                let r = sub_chars(&cs, start, n);
                assert(r@ =~= cs@.skip(idx + 1));
                string_of(&r)
            },
            None => path.clone(),
        },
    }
}

fn keys_of(entries: &Vec<Entry>) -> (r: Vec<String>)
    ensures
        r.deep_view() == table_keys(entries@),
{
    let mut r: Vec<String> = Vec::new();
    let mut i: usize = 0;
    while i < entries.len()
        invariant
            i <= entries.len(),
            r.deep_view() == table_keys(entries@).take(i as int),
        decreases entries.len() - i,
    {
        let ghost before = r.deep_view();
        assert(table_keys(entries@)[i as int] == entries@[i as int].key@);
        r.push(entries[i].key.clone());
        assert(r.deep_view() =~= before.push(entries@[i as int].key@));
        assert(table_keys(entries@).take(i + 1) =~= table_keys(entries@).take(i as int).push(table_keys(entries@)[i as int]));
        i = i + 1;
    }
    assert(table_keys(entries@).take(entries.len() as int) =~= table_keys(entries@));
    r
}

fn npm_purl_exec(name: &String, version: &String) -> (r: String)
    ensures
        r@ == npm_purl(name@, version@),
{
    let mut raw = chars_of("pkg:npm/");
    push_all(&mut raw, &chars_of(name.as_str()));
    push_all(&mut raw, &chars_of("@"));
    push_all(&mut raw, &chars_of(version.as_str()));
    fix_purl(string_of(&raw).as_str())
}

fn npm_lock_nodes_exec(entries: &Vec<Entry>, salt: &str) -> (r: (Vec<InstalledPackage>, Vec<PathEntry>))
    ensures
        installed_views(r.0@) == npm_lock_nodes(entries@, salt@),
        path_entry_views(r.1@) == node_index(npm_lock_nodes(entries@, salt@)),
{
    let mut nodes: Vec<InstalledPackage> = Vec::new();
    let mut index: Vec<PathEntry> = Vec::new();
    let mut i: usize = 0;
    assert(entries@.take(0) =~= Seq::<Entry>::empty());
    assert(installed_views(nodes@) =~= Seq::<NpmNode>::empty());
    assert(path_entry_views(index@) =~= Seq::<PathEntryView>::empty());
    while i < entries.len()
        invariant
            i <= entries.len(),
            installed_views(nodes@) == npm_lock_nodes(entries@.take(i as int), salt@),
            path_entry_views(index@) == node_index(npm_lock_nodes(entries@.take(i as int), salt@)),
        decreases entries.len() - i,
    {
        assert(entries@.take(i + 1).drop_last() =~= entries@.take(i as int));
        assert(entries@.take(i + 1).last() == entries@[i as int]);
        let e = &entries[i];
        if !e.key.as_str().is_empty() {
            match get_str(&e.value, "version") {
                Some(version) => {
                    let name = match get_str(&e.value, "name") {
                        Some(n) => n.clone(),
                        None => default_npm_name_exec(&e.key),
                    };
                    let purl = npm_purl_exec(&name, version);
                    let mut scope = chars_of(salt);
                    push_all(&mut scope, &chars_of(":"));
                    push_all(&mut scope, &chars_of(e.key.as_str()));
                    let scope = string_of(&scope);
                    let id = make_instance_id(purl.as_str(), scope.as_str());
                    let dep_names = match get_table(&e.value, "dependencies") {
                        Some(deps) => keys_of(deps),
                        None => {
                            let v: Vec<String> = Vec::new();
                            assert(v.deep_view() =~= Seq::<Seq<char>>::empty());
                            v
                        },
                    };
                    let node = InstalledPackage {
                        path: e.key.clone(),
                        name,
                        version: version.clone(),
                        purl,
                        id,
                        dep_names,
                    };
                    let entry = PathEntry { path: e.key.clone(), id: node.id.clone() };
                    let ghost nb = installed_views(nodes@);
                    let ghost ib = path_entry_views(index@);
                    let ghost nv = node@;
                    nodes.push(node);
                    index.push(entry);
                    assert(installed_views(nodes@) =~= nb.push(nv));
                    assert(path_entry_views(index@) =~= ib.push(entry@));
                    assert(node_index(installed_views(nodes@)) =~= node_index(nb).push(entry@));
                },
                None => {},
            }
        }
        i = i + 1;
    }
    assert(entries@.take(entries.len() as int) =~= entries@);
    (nodes, index)
}


fn resolved_ids_exec(index: &Vec<PathEntry>, scope: &String, names: &Vec<String>) -> (r: Vec<String>)
    ensures
        r.deep_view() == resolved_ids(path_entry_views(index@), scope@, names.deep_view()),
{
    let ghost iv = path_entry_views(index@);
    let ghost nv = names.deep_view();
    let mut r: Vec<String> = Vec::new();
    let mut i: usize = 0;
    assert(nv.take(0) =~= Seq::<Seq<char>>::empty());
    assert(r.deep_view() =~= Seq::<Seq<char>>::empty());
    while i < names.len()
        invariant
            i <= names.len(),
            iv == path_entry_views(index@),
            nv == names.deep_view(),
            r.deep_view() == resolved_ids(iv, scope@, nv.take(i as int)),
        decreases names.len() - i,
    {
        assert(nv.take(i + 1).drop_last() =~= nv.take(i as int));
        assert(nv.take(i + 1).last() == names@[i as int]@);
        match NpmLockProducer::resolve_npm_dep(scope.as_str(), names[i].as_str(), index) {
            Some(id) => {
                let ghost before = r.deep_view();
                r.push(id.clone());
                assert(r.deep_view() =~= before.push(id@));
            },
            None => {},
        }
        i = i + 1;
    }
    assert(nv.take(names.len() as int) =~= nv);
    r
}

impl NpmLockProducer {
    /// A file is an npm lock file when its name is `package-lock.json`, in
    /// any ASCII case.
    pub fn use_file(&self, path: &str) -> (r: bool)
        ensures
            r == (path_file_name(path@) matches Some(n) && eq_ignore_ascii_case(
                n,
                "package-lock.json"@,
            )),
    {
        match file_name_of(path) {
            Some(n) => eq_ignore_ascii_case_exec(&chars_of(n.as_str()), &chars_of("package-lock.json")),
            None => false,
        }
    }

    /// The dependencies of a parsed lock file (see [`npm_lock_graph`]).
    pub fn parse_npm_lock(json: &DataValue, file_salt: &str) -> (r: Result<Vec<Dependency>, ProducerError>)
        ensures
            match r {
                Ok(ds) => dep_views(ds@) == npm_lock_graph(*json, file_salt@),
                Err(_) => false,
            },
    {
        let entries = match get_table(json, "packages") {
            Some(t) => t,
            None => {
                let e: Vec<Dependency> = Vec::new();
                assert(dep_views(e@) =~= Seq::<DependencyView>::empty());
                return Ok(e);
            },
        };
        let (nodes, index) = npm_lock_nodes_exec(entries, file_salt);
        let ghost nv = installed_views(nodes@);
        let ghost iv = path_entry_views(index@);
        let ghost expected = nv.map_values(|n: NpmNode| npm_lock_dependency(node_index(nv), n));
        let mut out: Vec<Dependency> = Vec::new();
        let mut k: usize = 0;
        assert(dep_views(out@) =~= expected.take(0));
        while k < nodes.len()
            invariant
                k <= nodes.len(),
                nv == installed_views(nodes@),
                iv == path_entry_views(index@),
                iv == node_index(nv),
                expected == nv.map_values(|n: NpmNode| npm_lock_dependency(node_index(nv), n)),
                dep_views(out@) == expected.take(k as int),
            decreases nodes.len() - k,
        {
            let node = &nodes[k];
            let kids = resolved_ids_exec(&index, &node.path, &node.dep_names);
            let builder = DependencyBuilder::default().name(node.name.clone()).version(
                Some(node.version.clone()),
            ).dep_type(DependencyType::Library).purl(node.purl.clone()).instance_id(
                node.id.clone(),
            ).dependencies(kids).location(None);
            proof {
                assert(nv[k as int] == node@);
                assert(builder@ == (BuilderView {
                    group: None,
                    kind: DependencyType::Library,
                    name: Some(nv[k as int].name),
                    version: Some(nv[k as int].version),
                    purl: Some(nv[k as int].purl),
                    instance_id: Some(nv[k as int].id),
                    dependencies: resolved_ids(node_index(nv), nv[k as int].path, nv[k as int].dep_names),
                    location: None,
                }));
            }
            match builder.build() {
                Ok(d) => {
                    let ghost before = dep_views(out@);
                    assert(expected[k as int] == npm_lock_dependency(node_index(nv), nv[k as int]));
                    assert(d@ == expected[k as int]);
                    let ghost dv = d@;
                    out.push(d);
                    assert(dep_views(out@) =~= before.push(dv));
                    assert(expected.take(k + 1) =~= expected.take(k as int).push(expected[k as int]));
                },
                Err(_) => {
                    assert(false);
                },
            }
            k = k + 1;
        }
        assert(expected.take(nodes.len() as int) =~= expected);
        Ok(out)
    }

    /// Reads every lock file in turn; unreadable files and files that are not
    /// JSON are skipped (see [`npm_lock_files`]).
    pub fn find_dependencies(&self, files: &Vec<SourceFile>, _config: &SbomProducerConfiguration) -> (r:
        Result<Vec<Dependency>, ProducerError>)
        ensures
            match r {
                Ok(ds) => dep_views(ds@) == npm_lock_files(source_views(files@)),
                Err(_) => false,
            },
    {
        let ghost views = source_views(files@);
        let mut all: Vec<Dependency> = Vec::new();
        let mut i: usize = 0;
        assert(views.take(0) =~= Seq::<SourceView>::empty());
        assert(dep_views(all@) =~= Seq::<DependencyView>::empty());
        while i < files.len()
            invariant
                i <= files.len(),
                views == source_views(files@),
                npm_lock_files(views.take(i as int)) == dep_views(all@),
            decreases files.len() - i,
        {
            assert(views.take(i + 1).drop_last() =~= views.take(i as int));
            assert(views.take(i + 1).last() == views[i as int]);
            let f = &files[i];
            match &f.content {
                Some(content) => {
                    let clean = clean_json_text_exec(content.as_str());
                    match parse_json(clean.as_str()) {
                        Ok(json) => {
                            let salt = file_salt_of(f.path.as_str());
                            match NpmLockProducer::parse_npm_lock(&json, salt.as_str()) {
                                Ok(mut deps) => {
                                    let ghost before = dep_views(all@);
                                    let ghost added = dep_views(deps@);
                                    all.append(&mut deps);
                                    assert(dep_views(all@) =~= before + added);
                                },
                                Err(_) => {},
                            }
                        },
                        Err(_) => {},
                    }
                },
                None => {},
            }
            i = i + 1;
        }
        assert(views.take(files.len() as int) =~= views);
        Ok(all)
    }
}

proof fn lemma_npm_nodes_tagged(entries: Seq<Entry>, salt: Seq<char>)
    ensures
        forall|i: int| 0 <= i < npm_lock_nodes(entries, salt).len() ==> is_tagged(#[trigger] npm_lock_nodes(entries, salt)[i].id),
    decreases entries.len(),
{
    if entries.len() > 0 {
        lemma_npm_nodes_tagged(entries.drop_last(), salt);
        let rest = npm_lock_nodes(entries.drop_last(), salt);
        match npm_lock_node(entries.last(), salt) {
            Some(n) => {
                lemma_ids_tagged(n.purl, salt + ":"@ + n.path, None);
                let t = rest.push(n);
                assert forall|i: int| 0 <= i < t.len() implies is_tagged(#[trigger] t[i].id) by {
                    if i < rest.len() {
                        assert(t[i] == rest[i]);
                    }
                }
            },
            None => {},
        }
    }
}

/// Every node that the lock files yield has a tagged identifier.
pub proof fn law_npm_lock_ids_tagged(files: Seq<SourceView>)
    ensures
        all_tagged(npm_lock_files(files)),
    decreases files.len(),
{
    if files.len() > 0 {
        law_npm_lock_ids_tagged(files.drop_last());
        let f = files.last();
        match f.content {
            None => {},
            Some(c) => match json_document(clean_json_text(c)) {
                None => {},
                Some(json) => {
                    let salt = file_salt(f.path);
                    let g = npm_lock_graph(json, salt);
                    match field(json, "packages"@) {
                        Some(DataValue::Table(es)) => {
                            let nodes = npm_lock_nodes(es@, salt);
                            lemma_npm_nodes_tagged(es@, salt);
                            assert forall|i: int| 0 <= i < g.len() implies is_tagged(#[trigger] g[i].instance_id) by {
                                let n = nodes[i];
                                lemma_built_tagged(
                                    BuilderView {
                                        group: None,
                                        kind: DependencyType::Library,
                                        name: Some(n.name),
                                        version: Some(n.version),
                                        purl: Some(n.purl),
                                        instance_id: Some(n.id),
                                        dependencies: resolved_ids(node_index(nodes), n.path, n.dep_names),
                                        location: None,
                                    },
                                );
                            }
                        },
                        _ => {},
                    }
                    lemma_concat_tagged(npm_lock_files(files.drop_last()), g);
                },
            },
        }
    }
}

/// Some entry of the index installs `id`.
pub open spec fn indexed_id(index: Seq<PathEntryView>, id: Seq<char>) -> bool {
    exists|t: int| 0 <= t < index.len() && (#[trigger] index[t]).id == id
}

proof fn lemma_path_lookup_indexed(index: Seq<PathEntryView>, path: Seq<char>)
    ensures
        path_lookup(index, path) matches Some(id) ==> indexed_id(index, id),
    decreases index.len(),
{
    if index.len() > 0 {
        if index.last().path == path {
            assert(index[index.len() - 1].id == index.last().id);
        } else {
            lemma_path_lookup_indexed(index.drop_last(), path);
            if let Some(id) = path_lookup(index.drop_last(), path) {
                let t = choose|t: int| 0 <= t < index.drop_last().len() && (#[trigger] index.drop_last()[t]).id == id;
                assert(index[t] == index.drop_last()[t]);
            }
        }
    }
}

proof fn lemma_resolve_indexed(index: Seq<PathEntryView>, scope: Seq<char>, dep: Seq<char>)
    ensures
        resolve(index, scope, dep) matches Some(id) ==> indexed_id(index, id),
    decreases scope.len(),
{
    lemma_path_lookup_indexed(index, candidate_path(scope, dep));
    if path_lookup(index, candidate_path(scope, dep)) is None && scope.len() > 0 {
        lemma_enclosing_scope_shorter(scope);
        lemma_resolve_indexed(index, enclosing_scope(scope), dep);
    }
}

proof fn lemma_resolved_ids_indexed(index: Seq<PathEntryView>, scope: Seq<char>, names: Seq<Seq<char>>)
    ensures
        forall|j: int|
            0 <= j < resolved_ids(index, scope, names).len() ==> indexed_id(index, #[trigger] resolved_ids(index, scope, names)[j]),
    decreases names.len(),
{
    if names.len() > 0 {
        lemma_resolved_ids_indexed(index, scope, names.drop_last());
        lemma_resolve_indexed(index, scope, names.last());
        let rest = resolved_ids(index, scope, names.drop_last());
        let all = resolved_ids(index, scope, names);
        assert forall|j: int| 0 <= j < all.len() implies indexed_id(index, #[trigger] all[j]) by {
            if j < rest.len() {
                assert(all[j] == rest[j]);
                assert(indexed_id(index, rest[j]));
            }
        }
    }
}

/// Every edge of a lock file's graph leads to one of its nodes.
pub proof fn law_npm_lock_graph_closed(json: DataValue, salt: Seq<char>)
    ensures
        edges_closed(npm_lock_graph(json, salt)),
{
    match field(json, "packages"@) {
        Some(DataValue::Table(es)) => {
            let nodes = npm_lock_nodes(es@, salt);
            let index = node_index(nodes);
            let g = npm_lock_graph(json, salt);
            lemma_npm_nodes_tagged(es@, salt);
            assert forall|i: int, j: int|
                0 <= i < g.len() && 0 <= j < g[i].dependencies.len() implies has_node(g, #[trigger] g[i].dependencies[j]) by {
                let n = nodes[i];
                lemma_resolved_ids_indexed(index, n.path, n.dep_names);
                let e = g[i].dependencies[j];
                assert(indexed_id(index, resolved_ids(index, n.path, n.dep_names)[j]));
                let t = choose|t: int| 0 <= t < index.len() && (#[trigger] index[t]).id == e;
                assert(index[t].id == nodes[t].id);
                lemma_tagged_nonempty(nodes[t].id);
                assert(g[t].instance_id == nodes[t].id);
            }
        },
        _ => {},
    }
}

/// Every edge of what the lock files yield leads to one of its nodes.
pub proof fn law_npm_lock_edges_closed(files: Seq<SourceView>)
    ensures
        edges_closed(npm_lock_files(files)),
    decreases files.len(),
{
    if files.len() > 0 {
        law_npm_lock_edges_closed(files.drop_last());
        let f = files.last();
        match f.content {
            None => {},
            Some(c) => match json_document(clean_json_text(c)) {
                None => {},
                Some(json) => {
                    law_npm_lock_graph_closed(json, file_salt(f.path));
                    lemma_concat_closed(npm_lock_files(files.drop_last()), npm_lock_graph(json, file_salt(f.path)));
                },
            },
        }
    }
}

/// `idx` lists, in increasing order, the `packages` entries that are
/// installed packages (a non-empty key and a string version), and `nodes`
/// holds what each becomes.
pub open spec fn installed_index(entries: Seq<Entry>, salt: Seq<char>, nodes: Seq<NpmNode>, idx: Seq<int>) -> bool {
    &&& idx.len() == nodes.len()
    &&& forall|a: int, b: int| 0 <= a < b < idx.len() ==> #[trigger] idx[a] < #[trigger] idx[b]
    &&& forall|j: int|
        0 <= j < idx.len() ==> 0 <= #[trigger] idx[j] < entries.len() && npm_lock_node(entries[idx[j]], salt)
            == Some(nodes[j])
    &&& forall|q: int|
        0 <= q < entries.len() && (#[trigger] npm_lock_node(entries[q], salt)) is Some ==> idx.contains(q)
}

proof fn lemma_installed_index(entries: Seq<Entry>, salt: Seq<char>) -> (idx: Seq<int>)
    ensures
        installed_index(entries, salt, npm_lock_nodes(entries, salt), idx),
    decreases entries.len(),
{
    if entries.len() == 0 {
        Seq::empty()
    } else {
        let d = entries.drop_last();
        let rest = lemma_installed_index(d, salt);
        let ns = npm_lock_nodes(entries, salt);
        let rn = npm_lock_nodes(d, salt);
        assert forall|q: int| 0 <= q < d.len() implies d[q] == #[trigger] entries[q] by {}
        match npm_lock_node(entries.last(), salt) {
            Some(n) => {
                let idx = rest.push(entries.len() - 1);
                assert forall|j: int| 0 <= j < idx.len() implies 0 <= #[trigger] idx[j] < entries.len()
                    && npm_lock_node(entries[idx[j]], salt) == Some(ns[j]) by {
                    if j < rest.len() {
                        assert(idx[j] == rest[j] && ns[j] == rn[j]);
                        assert(d[rest[j]] == entries[rest[j]]);
                    }
                }
                assert forall|q: int|
                    0 <= q < entries.len() && (#[trigger] npm_lock_node(entries[q], salt)) is Some implies idx.contains(q) by {
                    if q < d.len() {
                        assert(d[q] == entries[q]);
                        let t = choose|t: int| 0 <= t < rest.len() && rest[t] == q;
                        assert(idx[t] == q);
                    } else {
                        assert(idx[idx.len() - 1] == q);
                    }
                }
                idx
            },
            None => {
                assert forall|j: int| 0 <= j < rest.len() implies 0 <= #[trigger] rest[j] < entries.len()
                    && npm_lock_node(entries[rest[j]], salt) == Some(ns[j]) by {
                    assert(d[rest[j]] == entries[rest[j]]);
                }
                assert forall|q: int|
                    0 <= q < entries.len() && (#[trigger] npm_lock_node(entries[q], salt)) is Some implies rest.contains(q) by {
                    if q < d.len() {
                        assert(d[q] == entries[q]);
                    }
                }
                rest
            },
        }
    }
}

proof fn lemma_resolved_ids_resolve(index: Seq<PathEntryView>, scope: Seq<char>, names: Seq<Seq<char>>)
    ensures
        forall|j: int|
            0 <= j < resolved_ids(index, scope, names).len() ==> exists|k: int|
                0 <= k < names.len() && resolve(index, scope, names[k]) == Some(
                    #[trigger] resolved_ids(index, scope, names)[j],
                ),
    decreases names.len(),
{
    if names.len() > 0 {
        let d = names.drop_last();
        lemma_resolved_ids_resolve(index, scope, d);
        let r = resolved_ids(index, scope, names);
        let rr = resolved_ids(index, scope, d);
        assert forall|j: int| 0 <= j < r.len() implies exists|k: int|
            0 <= k < names.len() && resolve(index, scope, names[k]) == Some(#[trigger] r[j]) by {
            if j < rr.len() {
                assert(r[j] == rr[j]);
                let k = choose|k: int| 0 <= k < d.len() && resolve(index, scope, d[k]) == Some(rr[j]);
                assert(names[k] == d[k]);
            } else {
                assert(names[names.len() - 1] == names.last());
            }
        }
    }
}

/// A lock file yields nothing where `packages` is not an object; else one
/// node per entry with a non-empty key and a string version, in document
/// order, keeping its name (or the one its path gives) and version, with
/// the identifier of its `pkg:npm` URL under the file's scope and its path.
/// Its edges are the identifiers that its dependency names resolve to from
/// its own path by Node's nearest-`node_modules` rule, in name order.
pub proof fn law_npm_lock_graph_shape(json: DataValue, salt: Seq<char>)
    ensures
        !(field(json, "packages"@) matches Some(DataValue::Table(_))) ==> npm_lock_graph(json, salt).len() == 0,
        field(json, "packages"@) matches Some(DataValue::Table(es)) ==> {
            let nodes = npm_lock_nodes(es@, salt);
            let g = npm_lock_graph(json, salt);
            &&& g.len() == nodes.len()
            &&& exists|idx: Seq<int>| installed_index(es@, salt, nodes, idx)
            &&& forall|j: int|
                0 <= j < g.len() ==> {
                    let d = #[trigger] g[j];
                    &&& d.name == nodes[j].name
                    &&& d.version == Some(nodes[j].version)
                    &&& d.purl == fixed_purl(nodes[j].purl)
                    &&& d.instance_id == nodes[j].id
                    &&& d.dependencies == resolved_ids(node_index(nodes), nodes[j].path, nodes[j].dep_names)
                    &&& forall|m: int|
                        0 <= m < d.dependencies.len() ==> exists|k: int|
                            0 <= k < nodes[j].dep_names.len() && resolve(
                                node_index(nodes),
                                nodes[j].path,
                                nodes[j].dep_names[k],
                            ) == Some(#[trigger] d.dependencies[m])
                }
        },
{
    if let Some(DataValue::Table(es)) = field(json, "packages"@) {
        let nodes = npm_lock_nodes(es@, salt);
        let g = npm_lock_graph(json, salt);
        let idx = lemma_installed_index(es@, salt);
        assert forall|j: int| 0 <= j < g.len() implies {
            let d = #[trigger] g[j];
            &&& d.name == nodes[j].name
            &&& d.version == Some(nodes[j].version)
            &&& d.purl == fixed_purl(nodes[j].purl)
            &&& d.instance_id == nodes[j].id
            &&& d.dependencies == resolved_ids(node_index(nodes), nodes[j].path, nodes[j].dep_names)
            &&& forall|m: int|
                0 <= m < d.dependencies.len() ==> exists|k: int|
                    0 <= k < nodes[j].dep_names.len() && resolve(
                        node_index(nodes),
                        nodes[j].path,
                        nodes[j].dep_names[k],
                    ) == Some(#[trigger] d.dependencies[m])
        } by {
            let q = idx[j];
            assert(npm_lock_node(es@[q], salt) == Some(nodes[j]));
            lemma_ids_tagged(nodes[j].purl, salt + ":"@ + nodes[j].path, None);
            lemma_resolved_ids_resolve(node_index(nodes), nodes[j].path, nodes[j].dep_names);
        }
    }
}

/// A lock entry without a name is named by what follows the last
/// `node_modules/` of its path (so `node_modules/@scope/pkg` is named
/// `@scope/pkg`); a path without `node_modules/` by what follows its last
/// `/`. Its URL is the repaired `pkg:npm/<that name>@<version>`.
pub proof fn law_unnamed_entry_name(e: Entry, salt: Seq<char>, version: Seq<char>)
    requires
        e.key@.len() > 0,
        str_value(field(e.value, "version"@)) == Some(version),
        str_value(field(e.value, "name"@)) is None,
    ensures
        npm_lock_node(e, salt) is Some,
        npm_lock_node(e, salt)->0.purl == fixed_purl("pkg:npm/"@ + npm_lock_node(e, salt)->0.name + "@"@ + version),
        npm_lock_node(e, salt)->0.version == version,
        contains_seq(e.key@, "node_modules/"@) ==> exists|i: int|
            occurs_at(e.key@, "node_modules/"@, i) && npm_lock_node(e, salt)->0.name == e.key@.skip(i + 13)
                && forall|j: int| i < j ==> !#[trigger] occurs_at(e.key@, "node_modules/"@, j),
        !contains_seq(e.key@, "node_modules/"@) && contains_seq(e.key@, "/"@) ==> exists|i: int|
            occurs_at(e.key@, "/"@, i) && npm_lock_node(e, salt)->0.name == e.key@.skip(i + 1) && forall|j: int|
                i < j ==> !#[trigger] occurs_at(e.key@, "/"@, j),
        !contains_seq(e.key@, "/"@) ==> npm_lock_node(e, salt)->0.name == e.key@,
{
    let path = e.key@;
    lemma_last_occurrence_exact(path, "node_modules/"@);
    lemma_last_occurrence_exact(path, "/"@);
    reveal_strlit("node_modules/");
    reveal_strlit("/");
    if !contains_seq(path, "/"@) && contains_seq(path, "node_modules/"@) {
        let i = choose|i: int| occurs_at(path, "node_modules/"@, i);
        assert(path.subrange(i, i + 13)[12] == "node_modules/"@[12]);
        assert(path[i + 12] == '/');
        assert(path.subrange(i + 12, i + 13) =~= "/"@);
        assert(occurs_at(path, "/"@, i + 12));
    }
}

} // verus!
