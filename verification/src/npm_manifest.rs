//! `package.json`: the project itself and the packages it declares.
use vstd::prelude::*;

use crate::cargo::{source_views, SourceView};
use crate::data::{field, get_str, get_table, json_document, parse_json, str_value, DataValue, Entry};
use crate::ident::{fix_purl, fixed_purl, instance_id, is_tagged, lemma_ids_tagged, make_instance_id};
use crate::model::{edges_closed, has_node, lemma_concat_closed, all_tagged, lemma_built_tagged, lemma_concat_tagged, built, dep_views, BuilderView, Dependency, DependencyBuilder, DependencyType, DependencyView};
use crate::producer::{
    dir_name, dir_name_of, file_name_of, file_salt, file_salt_of, path_file_name, ProducerError,
    SbomProducerConfiguration, SourceFile,
};
use crate::text::{
    chars_eq, chars_of, clean_json_text, clean_json_text_exec, eq_ignore_ascii_case,
    eq_ignore_ascii_case_exec, has_prefix, push_all, starts_with, string_of, sub_chars, trim,
    trim_chars,
};

verus! {

/// Reads `package.json` files.
pub struct NpmProducer {}

// ---------------------------------------------------------------------
// Version ranges
// ---------------------------------------------------------------------

/// The characters a version range may start with: `^ ~ > < =` and space.
pub open spec fn is_range_op(c: char) -> bool {
    c == '^' || c == '~' || c == '>' || c == '<' || c == '=' || c == ' '
}

/// `s` without the range operators it starts with.
pub open spec fn strip_range_ops(s: Seq<char>) -> Seq<char>
    decreases s.len(),
{
    if s.len() > 0 && is_range_op(s[0]) {
        strip_range_ops(s.drop_first())
    } else {
        s
    }
}

/// The version that a range names: trimmed, without leading range
/// operators; empty for the wildcards `*`, `x` and `X`.
pub open spec fn sanitized_range(raw: Seq<char>) -> Seq<char> {
    let cleaned = strip_range_ops(trim(raw));
    if cleaned == seq!['*'] || eq_ignore_ascii_case(cleaned, seq!['x']) {
        Seq::empty()
    } else {
        cleaned
    }
}

proof fn lemma_strip_range_ops_skip(s: Seq<char>, i: int)
    requires
        0 <= i <= s.len(),
        forall|k: int| 0 <= k < i ==> is_range_op(#[trigger] s[k]),
        i < s.len() ==> !is_range_op(s[i]),
    ensures
        strip_range_ops(s) == s.skip(i),
    decreases i,
{
    if i == 0 {
        assert(s.skip(0) =~= s);
    } else {
        lemma_strip_range_ops_skip(s.drop_first(), i - 1);
        assert(s.drop_first().skip(i - 1) =~= s.skip(i));
    }
}

/// Cleans an npm version range down to the version it names (see
/// [`sanitized_range`]).
pub fn sanitize_semver_range(raw: &str) -> (r: String)
    ensures
        r@ == sanitized_range(raw@),
{
    let s = trim_chars(&chars_of(raw));
    let mut i: usize = 0;
    while i < s.len() && (s[i] == '^' || s[i] == '~' || s[i] == '>' || s[i] == '<' || s[i] == '='
        || s[i] == ' ')
        invariant
            i <= s.len(),
            forall|k: int| 0 <= k < i ==> is_range_op(#[trigger] s@[k]),
        decreases s.len() - i,
    {
        i = i + 1;
    }
    proof {
        lemma_strip_range_ops_skip(s@, i as int);
    }
    let cleaned = sub_chars(&s, i, s.len());
    assert(cleaned@ =~= s@.skip(i as int));
    let mut star: Vec<char> = Vec::new();
    star.push('*');
    let mut x: Vec<char> = Vec::new();
    x.push('x');
    assert(star@ =~= seq!['*']);
    assert(x@ =~= seq!['x']);
    if chars_eq(&cleaned, &star) || eq_ignore_ascii_case_exec(&cleaned, &x) {
        String::new()
    } else {
        string_of(&cleaned)
    }
}

// ---------------------------------------------------------------------
// The manifest
// ---------------------------------------------------------------------

/// The project's name: its `name`, else the name of the directory holding
/// the manifest, else `unnamed-js-app`.
pub open spec fn manifest_app_name(json: DataValue, path: Seq<char>) -> Seq<char> {
    match str_value(field(json, "name"@)) {
        Some(n) => n,
        None => match dir_name(path) {
            Some(d) => d,
            None => "unnamed-js-app"@,
        },
    }
}

/// The project's version: its `version`, else `0.0.0`.
pub open spec fn manifest_app_version(json: DataValue) -> Seq<char> {
    match str_value(field(json, "version"@)) {
        Some(v) => v,
        None => "0.0.0"@,
    }
}

/// The project's package URL (as written, before repair).
pub open spec fn manifest_app_purl(json: DataValue, path: Seq<char>) -> Seq<char> {
    "pkg:npm/"@ + manifest_app_name(json, path) + "@"@ + manifest_app_version(json)
}

/// The entries of one dependency category (an object), or none.
pub open spec fn category_entries(json: DataValue, category: Seq<char>) -> Seq<Entry> {
    match field(json, category) {
        Some(DataValue::Table(es)) => es@,
        _ => Seq::empty(),
    }
}

/// The declared packages of all four categories, in order: `dependencies`,
/// `devDependencies`, `peerDependencies`, `optionalDependencies`.
pub open spec fn manifest_entries(json: DataValue) -> Seq<Entry> {
    category_entries(json, "dependencies"@) + category_entries(json, "devDependencies"@)
        + category_entries(json, "peerDependencies"@) + category_entries(
        json,
        "optionalDependencies"@,
    )
}

/// A declared package that is taken: its version (if it names one), its
/// repaired package URL and its identifier. Local (`file:`) and git
/// (`git+`) packages are not taken.
pub open spec fn declared_package(e: Entry, salt: Seq<char>) -> Option<
    (Option<Seq<char>>, Seq<char>, Seq<char>),
> {
    let raw = trim(
        match str_value(Some(e.value)) {
            Some(s) => s,
            None => Seq::empty(),
        },
    );
    if has_prefix(raw, "file:"@) || has_prefix(raw, "git+"@) {
        None
    } else {
        let clean = sanitized_range(raw);
        let (version, purl) = if clean.len() == 0 {
            (None, "pkg:npm/"@ + e.key@)
        } else {
            (Some(clean), "pkg:npm/"@ + e.key@ + "@"@ + clean)
        };
        let valid = fixed_purl(purl);
        Some((version, valid, instance_id(valid, salt)))
    }
}

/// The leaf dependency a taken package becomes.
pub open spec fn declared_leaf(e: Entry, p: (Option<Seq<char>>, Seq<char>, Seq<char>)) -> DependencyView {
    built(
        BuilderView {
            group: None,
            kind: DependencyType::Library,
            name: Some(e.key@),
            version: p.0,
            purl: Some(p.1),
            instance_id: Some(p.2),
            dependencies: Seq::empty(),
            location: None,
        },
    )
}

/// The leaves of the taken packages, in order.
pub open spec fn manifest_leaves(es: Seq<Entry>, salt: Seq<char>) -> Seq<DependencyView>
    decreases es.len(),
{
    if es.len() == 0 {
        Seq::empty()
    } else {
        let rest = manifest_leaves(es.drop_last(), salt);
        match declared_package(es.last(), salt) {
            Some(p) => rest.push(declared_leaf(es.last(), p)),
            None => rest,
        }
    }
}

/// The identifiers of the taken packages, in order.
pub open spec fn manifest_child_ids(es: Seq<Entry>, salt: Seq<char>) -> Seq<Seq<char>>
    decreases es.len(),
{
    if es.len() == 0 {
        Seq::empty()
    } else {
        let rest = manifest_child_ids(es.drop_last(), salt);
        match declared_package(es.last(), salt) {
            Some(p) => rest.push(p.2),
            None => rest,
        }
    }
}

/// What a parsed manifest yields: the project node, depending on every
/// taken package, followed by one leaf per taken package.
pub open spec fn manifest_graph(json: DataValue, salt: Seq<char>, path: Seq<char>) -> Seq<
    DependencyView,
> {
    let es = manifest_entries(json);
    let purl = manifest_app_purl(json, path);
    let root = built(
        BuilderView {
            group: None,
            kind: DependencyType::Library,
            name: Some(manifest_app_name(json, path)),
            version: Some(manifest_app_version(json)),
            purl: Some(purl),
            instance_id: Some(instance_id(purl, salt)),
            dependencies: manifest_child_ids(es, salt),
            location: None,
        },
    );
    seq![root] + manifest_leaves(es, salt)
}

/// What the manifests yield together, in order; unreadable files and files
/// that are not JSON add nothing.
pub open spec fn manifest_files(files: Seq<SourceView>) -> Seq<DependencyView>
    decreases files.len(),
{
    if files.len() == 0 {
        Seq::empty()
    } else {
        let acc = manifest_files(files.drop_last());
        let f = files.last();
        match f.content {
            None => acc,
            Some(c) => match json_document(clean_json_text(c)) {
                None => acc,
                Some(json) => acc + manifest_graph(json, file_salt(f.path), f.path),
            },
        }
    }
}

fn declared_package_exec(e: &Entry, salt: &str) -> (r: Option<(Option<String>, String, String)>)
    ensures
        match r {
            Some((v, p, id)) => declared_package(*e, salt@) == Some(
                (
                    match v {
                        Some(s) => Some(s@),
                        None => None,
                    },
                    p@,
                    id@,
                ),
            ),
            None => declared_package(*e, salt@) is None,
        },
{
    let raw0 = match e.value.as_str() {
        Some(s) => chars_of(s.as_str()),
        None => Vec::new(),
    };
    let raw = trim_chars(&raw0);
    if starts_with(&raw, &chars_of("file:")) || starts_with(&raw, &chars_of("git+")) {
        return None;
    }
    let clean = sanitize_semver_range(string_of(&raw).as_str());
    let mut purl = chars_of("pkg:npm/");
    push_all(&mut purl, &chars_of(e.key.as_str()));
    let version = if clean.as_str().is_empty() {
        None
    } else {
        push_all(&mut purl, &chars_of("@"));
        push_all(&mut purl, &chars_of(clean.as_str()));
        Some(clean)
    };
    let valid = fix_purl(string_of(&purl).as_str());
    let id = make_instance_id(valid.as_str(), salt);
    Some((version, valid, id))
}

fn collect_declared(
    es: &Vec<Entry>,
    salt: &str,
    leaves: &mut Vec<Dependency>,
    ids: &mut Vec<String>,
)
    ensures
        dep_views(final(leaves)@) == dep_views(old(leaves)@) + manifest_leaves(es@, salt@),
        final(ids).deep_view() == old(ids).deep_view() + manifest_child_ids(es@, salt@),
{
    let ghost l0 = dep_views(leaves@);
    let ghost i0 = ids.deep_view();
    let mut i: usize = 0;
    assert(es@.take(0) =~= Seq::<Entry>::empty());
    assert(l0 + manifest_leaves(es@.take(0), salt@) =~= l0);
    assert(i0 + manifest_child_ids(es@.take(0), salt@) =~= i0);
    while i < es.len()
        invariant
            i <= es.len(),
            dep_views(leaves@) == l0 + manifest_leaves(es@.take(i as int), salt@),
            ids.deep_view() == i0 + manifest_child_ids(es@.take(i as int), salt@),
        decreases es.len() - i,
    {
        assert(es@.take(i + 1).drop_last() =~= es@.take(i as int));
        assert(es@.take(i + 1).last() == es@[i as int]);
        let e = &es[i];
        match declared_package_exec(e, salt) {
            Some((version, purl, id)) => {
                let no_deps: Vec<String> = Vec::new();
                assert(no_deps.deep_view() =~= Seq::<Seq<char>>::empty());
                let leaf = DependencyBuilder::default().name(e.key.clone()).version(version).dep_type(
                    DependencyType::Library,
                ).purl(purl).instance_id(id.clone()).dependencies(no_deps).location(None);
                proof {
                    let p = declared_package(*e, salt@)->0;
                    assert(leaf@ == (BuilderView {
                        group: None,
                        kind: DependencyType::Library,
                        name: Some(e.key@),
                        version: p.0,
                        purl: Some(p.1),
                        instance_id: Some(p.2),
                        dependencies: Seq::empty(),
                        location: None,
                    }));
                }
                match leaf.build() {
                    Ok(d) => {
                        let ghost lb = dep_views(leaves@);
                        let ghost dv = d@;
                        leaves.push(d);
                        assert(dep_views(leaves@) =~= lb.push(dv));
                    },
                    Err(_) => {
                        assert(false);
                    },
                }
                let ghost ib = ids.deep_view();
                let ghost p = declared_package(*e, salt@)->0;
                ids.push(id);
                assert(ids.deep_view() =~= ib.push(p.2));
            },
            None => {},
        }
        i = i + 1;
    }
    assert(es@.take(es.len() as int) =~= es@);
}

fn collect_category(
    json: &DataValue,
    category: &str,
    salt: &str,
    leaves: &mut Vec<Dependency>,
    ids: &mut Vec<String>,
)
    ensures
        dep_views(final(leaves)@) == dep_views(old(leaves)@) + manifest_leaves(
            category_entries(*json, category@),
            salt@,
        ),
        final(ids).deep_view() == old(ids).deep_view() + manifest_child_ids(
            category_entries(*json, category@),
            salt@,
        ),
{
    match get_table(json, category) {
        Some(es) => collect_declared(es, salt, leaves, ids),
        None => {
            assert(dep_views(leaves@) =~= dep_views(leaves@) + Seq::<DependencyView>::empty());
            assert(ids.deep_view() =~= ids.deep_view() + Seq::<Seq<char>>::empty());
        },
    }
}

proof fn lemma_manifest_concat(a: Seq<Entry>, b: Seq<Entry>, salt: Seq<char>)
    ensures
        manifest_leaves(a + b, salt) == manifest_leaves(a, salt) + manifest_leaves(b, salt),
        manifest_child_ids(a + b, salt) == manifest_child_ids(a, salt) + manifest_child_ids(b, salt),
    decreases b.len(),
{
    if b.len() == 0 {
        assert(a + b =~= a);
        assert(manifest_leaves(a, salt) + manifest_leaves(b, salt) =~= manifest_leaves(a, salt));
        assert(manifest_child_ids(a, salt) + manifest_child_ids(b, salt) =~= manifest_child_ids(a, salt));
    } else {
        lemma_manifest_concat(a, b.drop_last(), salt);
        assert((a + b).drop_last() =~= a + b.drop_last());
        assert((a + b).last() == b.last());
        match declared_package(b.last(), salt) {
            Some(p) => {
                assert(manifest_leaves(a, salt) + manifest_leaves(b, salt) =~= (manifest_leaves(a, salt)
                    + manifest_leaves(b.drop_last(), salt)).push(declared_leaf(b.last(), p)));
                assert(manifest_child_ids(a, salt) + manifest_child_ids(b, salt) =~= (manifest_child_ids(a, salt)
                    + manifest_child_ids(b.drop_last(), salt)).push(p.2));
            },
            None => {},
        }
    }
}

impl NpmProducer {
    /// A file is an npm manifest when its name is `package.json`, in any
    /// ASCII case.
    pub fn use_file(&self, path: &str) -> (r: bool)
        ensures
            r == (path_file_name(path@) matches Some(n) && eq_ignore_ascii_case(n, "package.json"@)),
    {
        match file_name_of(path) {
            Some(n) => eq_ignore_ascii_case_exec(&chars_of(n.as_str()), &chars_of("package.json")),
            None => false,
        }
    }

    /// The project node and the leaves of one parsed manifest (see
    /// [`manifest_graph`]).
    pub fn parse_single_package_json(json: &DataValue, file_salt: &str, file_path: &str) -> (r: Result<
        Vec<Dependency>,
        ProducerError,
    >)
        ensures
            match r {
                Ok(ds) => dep_views(ds@) == manifest_graph(*json, file_salt@, file_path@),
                Err(_) => false,
            },
    {
        let app_name = match get_str(json, "name") {
            Some(n) => n.clone(),
            None => match dir_name_of(file_path) {
                Some(d) => d,
                None => string_of(&chars_of("unnamed-js-app")),
            },
        };
        let app_ver = match get_str(json, "version") {
            Some(v) => v.clone(),
            None => string_of(&chars_of("0.0.0")),
        };
        let mut purl = chars_of("pkg:npm/");
        push_all(&mut purl, &chars_of(app_name.as_str()));
        push_all(&mut purl, &chars_of("@"));
        push_all(&mut purl, &chars_of(app_ver.as_str()));
        let app_purl = string_of(&purl);
        let app_id = make_instance_id(app_purl.as_str(), file_salt);
        let mut leaves: Vec<Dependency> = Vec::new();
        let mut ids: Vec<String> = Vec::new();
        assert(dep_views(leaves@) =~= Seq::<DependencyView>::empty());
        assert(ids.deep_view() =~= Seq::<Seq<char>>::empty());
        collect_category(json, "dependencies", file_salt, &mut leaves, &mut ids);
        collect_category(json, "devDependencies", file_salt, &mut leaves, &mut ids);
        collect_category(json, "peerDependencies", file_salt, &mut leaves, &mut ids);
        collect_category(json, "optionalDependencies", file_salt, &mut leaves, &mut ids);
        proof {
            let a = category_entries(*json, "dependencies"@);
            let b = category_entries(*json, "devDependencies"@);
            let c = category_entries(*json, "peerDependencies"@);
            let d = category_entries(*json, "optionalDependencies"@);
            lemma_manifest_concat(a, b, file_salt@);
            lemma_manifest_concat(a + b, c, file_salt@);
            lemma_manifest_concat(a + b + c, d, file_salt@);
            assert(dep_views(leaves@) =~= manifest_leaves(manifest_entries(*json), file_salt@));
            assert(ids.deep_view() =~= manifest_child_ids(manifest_entries(*json), file_salt@));
        }
        let root = DependencyBuilder::default().name(app_name).version(Some(app_ver)).dep_type(
            DependencyType::Library,
        ).purl(app_purl).instance_id(app_id).dependencies(ids).location(None);
        let mut all: Vec<Dependency> = Vec::new();
        match root.build() {
            Ok(d) => all.push(d),
            Err(_) => {
                assert(false);
            },
        }
        let ghost rv = dep_views(all@);
        let ghost lv = dep_views(leaves@);
        all.append(&mut leaves);
        assert(dep_views(all@) =~= rv + lv);
        Ok(all)
    }

    /// Reads every manifest in turn; unreadable files and files that are not
    /// JSON are skipped (see [`manifest_files`]).
    pub fn find_dependencies(&self, files: &Vec<SourceFile>, _config: &SbomProducerConfiguration) -> (r:
        Result<Vec<Dependency>, ProducerError>)
        ensures
            match r {
                Ok(ds) => dep_views(ds@) == manifest_files(source_views(files@)),
                Err(_) => false,
            },
    {
        let ghost views = source_views(files@);
        let mut all: Vec<Dependency> = Vec::new();
        let mut i: usize = 0;
        assert(views.take(0) =~= Seq::<SourceView>::empty());
        assert(dep_views(all@) =~= Seq::<DependencyView>::empty());
        while i < files.len()
            invariant
                i <= files.len(),
                views == source_views(files@),
                manifest_files(views.take(i as int)) == dep_views(all@),
            decreases files.len() - i,
        {
            assert(views.take(i + 1).drop_last() =~= views.take(i as int));
            assert(views.take(i + 1).last() == views[i as int]);
            let f = &files[i];
            match &f.content {
                Some(content) => {
                    let clean = clean_json_text_exec(content.as_str());
                    match parse_json(clean.as_str()) {
                        Ok(json) => {
                            let salt = file_salt_of(f.path.as_str());
                            match NpmProducer::parse_single_package_json(&json, salt.as_str(), f.path.as_str()) {
                                Ok(mut deps) => {
                                    let ghost before = dep_views(all@);
                                    let ghost added = dep_views(deps@);
                                    all.append(&mut deps);
                                    assert(dep_views(all@) =~= before + added);
                                },
                                Err(_) => {},
                            }
                        },
                        Err(_) => {},
                    }
                },
                None => {},
            }
            i = i + 1;
        }
        assert(views.take(files.len() as int) =~= views);
        Ok(all)
    }
}

proof fn lemma_manifest_leaves_tagged(es: Seq<Entry>, salt: Seq<char>)
    ensures
        all_tagged(manifest_leaves(es, salt)),
    decreases es.len(),
{
    if es.len() > 0 {
        lemma_manifest_leaves_tagged(es.drop_last(), salt);
        let rest = manifest_leaves(es.drop_last(), salt);
        match declared_package(es.last(), salt) {
            Some(p) => {
                lemma_ids_tagged(p.1, salt, None);
                lemma_built_tagged(
                    BuilderView {
                        group: None,
                        kind: DependencyType::Library,
                        name: Some(es.last().key@),
                        version: p.0,
                        purl: Some(p.1),
                        instance_id: Some(p.2),
                        dependencies: Seq::empty(),
                        location: None,
                    },
                );
                let t = rest.push(declared_leaf(es.last(), p));
                assert forall|i: int| 0 <= i < t.len() implies is_tagged(#[trigger] t[i].instance_id) by {
                    if i < rest.len() {
                        assert(t[i] == rest[i]);
                    }
                }
            },
            None => {},
        }
    }
}

/// Every node that the manifests yield has a tagged identifier.
pub proof fn law_manifest_ids_tagged(files: Seq<SourceView>)
    ensures
        all_tagged(manifest_files(files)),
    decreases files.len(),
{
    if files.len() > 0 {
        law_manifest_ids_tagged(files.drop_last());
        let f = files.last();
        match f.content {
            None => {},
            Some(c) => match json_document(clean_json_text(c)) {
                None => {},
                Some(json) => {
                    let salt = file_salt(f.path);
                    let es = manifest_entries(json);
                    lemma_manifest_leaves_tagged(es, salt);
                    let purl = manifest_app_purl(json, f.path);
                    lemma_ids_tagged(purl, salt, None);
                    let b = BuilderView {
                        group: None,
                        kind: DependencyType::Library,
                        name: Some(manifest_app_name(json, f.path)),
                        version: Some(manifest_app_version(json)),
                        purl: Some(purl),
                        instance_id: Some(instance_id(purl, salt)),
                        dependencies: manifest_child_ids(es, salt),
                        location: None,
                    };
                    lemma_built_tagged(b);
                    let root = seq![built(b)];
                    assert(all_tagged(root)) by {
                        assert(root[0] == built(b));
                    }
                    lemma_concat_tagged(root, manifest_leaves(es, salt));
                    lemma_concat_tagged(manifest_files(files.drop_last()), manifest_graph(json, salt, f.path));
                },
            },
        }
    }
}

proof fn lemma_leaf_ids(es: Seq<Entry>, salt: Seq<char>)
    ensures
        manifest_leaves(es, salt).len() == manifest_child_ids(es, salt).len(),
        forall|j: int| 0 <= j < manifest_child_ids(es, salt).len() ==> #[trigger] manifest_leaves(es, salt)[j].instance_id
            == manifest_child_ids(es, salt)[j],
        forall|j: int| 0 <= j < manifest_leaves(es, salt).len() ==> #[trigger] manifest_leaves(es, salt)[j].dependencies.len() == 0,
    decreases es.len(),
{
    if es.len() > 0 {
        lemma_leaf_ids(es.drop_last(), salt);
        match declared_package(es.last(), salt) {
            Some(p) => {
                lemma_ids_tagged(p.1, salt, None);
                let leaves = manifest_leaves(es, salt);
                let ids = manifest_child_ids(es, salt);
                let rl = manifest_leaves(es.drop_last(), salt);
                let ri = manifest_child_ids(es.drop_last(), salt);
                assert forall|j: int| 0 <= j < ids.len() implies #[trigger] leaves[j].instance_id == ids[j] by {
                    if j < ri.len() {
                        assert(leaves[j] == rl[j]);
                        assert(ids[j] == ri[j]);
                    }
                }
                assert forall|j: int| 0 <= j < leaves.len() implies #[trigger] leaves[j].dependencies.len() == 0 by {
                    if j < rl.len() {
                        assert(leaves[j] == rl[j]);
                    }
                }
            },
            None => {},
        }
    }
}

/// Every edge of a manifest's graph leads to one of its nodes: the project
/// depends on its leaves, which depend on nothing.
pub proof fn law_manifest_graph_closed(json: DataValue, salt: Seq<char>, path: Seq<char>)
    ensures
        edges_closed(manifest_graph(json, salt, path)),
{
    let es = manifest_entries(json);
    let g = manifest_graph(json, salt, path);
    let leaves = manifest_leaves(es, salt);
    lemma_leaf_ids(es, salt);
    assert forall|i: int, j: int|
        0 <= i < g.len() && 0 <= j < g[i].dependencies.len() implies has_node(g, #[trigger] g[i].dependencies[j]) by {
        if i == 0 {
            assert(g[1 + j] == leaves[j]);
        } else {
            assert(g[i] == leaves[i - 1]);
        }
    }
}

/// Every edge of what the manifests yield leads to one of its nodes.
pub proof fn law_manifest_edges_closed(files: Seq<SourceView>)
    ensures
        edges_closed(manifest_files(files)),
    decreases files.len(),
{
    if files.len() > 0 {
        law_manifest_edges_closed(files.drop_last());
        let f = files.last();
        match f.content {
            None => {},
            Some(c) => match json_document(clean_json_text(c)) {
                None => {},
                Some(json) => {
                    law_manifest_graph_closed(json, file_salt(f.path), f.path);
                    lemma_concat_closed(manifest_files(files.drop_last()), manifest_graph(json, file_salt(f.path), f.path));
                },
            },
        }
    }
}

/// A declared package whose cleaned range is a version `v` is taken with
/// that version, the repaired URL `pkg:npm/<name>@<v>` and the identifier of
/// that URL under the file's scope; one whose range cleans to nothing has a
/// URL without a version; local (`file:`) and git (`git+`) ones are not
/// taken. The leaf carries that name, version, URL and identifier.
pub proof fn law_declared_purl_carries_version(e: Entry, salt: Seq<char>, raw: Seq<char>)
    requires
        str_value(Some(e.value)) == Some(raw),
    ensures
        (has_prefix(trim(raw), "file:"@) || has_prefix(trim(raw), "git+"@)) ==> declared_package(e, salt) is None,
        !(has_prefix(trim(raw), "file:"@) || has_prefix(trim(raw), "git+"@)) ==> {
            let v = sanitized_range(trim(raw));
            let p = declared_package(e, salt)->0;
            &&& declared_package(e, salt) is Some
            &&& v.len() > 0 ==> p.0 == Some(v) && p.1 == fixed_purl("pkg:npm/"@ + e.key@ + "@"@ + v)
            &&& v.len() == 0 ==> p.0 is None && p.1 == fixed_purl("pkg:npm/"@ + e.key@)
            &&& p.2 == instance_id(p.1, salt)
            &&& declared_leaf(e, p).name == e.key@
            &&& declared_leaf(e, p).version == p.0
            &&& declared_leaf(e, p).purl == fixed_purl(p.1)
            &&& declared_leaf(e, p).instance_id == p.2
        },
{
    if !(has_prefix(trim(raw), "file:"@) || has_prefix(trim(raw), "git+"@)) {
        let p = declared_package(e, salt)->0;
        lemma_ids_tagged(p.1, salt, None);
    }
}

/// The cleaned range drops the leading operators (`^ ~ > < =` and blanks)
/// of the trimmed range: what is left is a suffix of it that starts with
/// none of them, or nothing for the wildcards `*`, `x` and `X`.
pub proof fn law_sanitized_range_drops_operators(raw: Seq<char>)
    ensures
        ({
            let t = trim(raw);
            let v = sanitized_range(raw);
            &&& v.len() > 0 ==> !is_range_op(v[0]) && v.len() <= t.len() && t.skip(t.len() - v.len()) == v
            &&& forall|i: int| 0 <= i < t.len() - v.len() ==> v.len() > 0 ==> is_range_op(#[trigger] t[i])
        }),
{
    let t = trim(raw);
    lemma_strip_range_ops_suffix(t);
}

proof fn lemma_strip_range_ops_suffix(s: Seq<char>)
    ensures
        ({
            let r = strip_range_ops(s);
            &&& r.len() <= s.len()
            &&& s.skip(s.len() - r.len()) == r
            &&& r.len() > 0 ==> !is_range_op(r[0])
            &&& forall|i: int| 0 <= i < s.len() - r.len() ==> is_range_op(#[trigger] s[i])
        }),
    decreases s.len(),
{
    if s.len() > 0 && is_range_op(s[0]) {
        let d = s.drop_first();
        lemma_strip_range_ops_suffix(d);
        let r = strip_range_ops(d);
        assert(s.skip(s.len() - r.len()) =~= d.skip(d.len() - r.len()));
        assert forall|i: int| 0 <= i < s.len() - r.len() implies is_range_op(#[trigger] s[i]) by {
            if i > 0 {
                assert(s[i] == d[i - 1]);
            }
        }
    } else {
        assert(s.skip(0) =~= s);
    }
}

} // verus!
