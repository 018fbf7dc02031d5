//! `requirements.txt`: the project and the packages it requires.
use vstd::prelude::*;

use crate::cargo::{source_views, SourceView};
use crate::ident::{fix_purl, fixed_purl, instance_id, is_tagged, lemma_ids_tagged, make_instance_id};
use crate::model::{edges_closed, has_node, lemma_concat_closed, all_tagged, lemma_built_tagged, lemma_concat_tagged, built, dep_views, BuilderView, Dependency, DependencyBuilder, DependencyType, DependencyView};
use crate::pattern::{captures, collapse_separators, law_collapse_separators_idempotent, lowercase, opt_text, regex_captures, replace_all, separators_collapsed, unicode_lowercase};
use crate::pypi_dynamic::PypiDynamicProducer;
use crate::producer::{
    dir_name, dir_name_of, file_name_of, file_salt, file_salt_of, path_file_name, ProducerError,
    SbomProducerConfiguration, SourceFile,
};
use crate::text::{
    before_char, before_char_exec, chars_of, contains, contains_seq, eq_ignore_ascii_case,
    eq_ignore_ascii_case_exec, has_prefix, push_all, split_lines, starts_with, string_of,
    text_lines, trim, trim_chars,
};

verus! {

/// Reads `requirements.txt` files.
pub struct PypiProducer {}

/// A requirement line: a name, optional extras, and an optional version
/// constraint (`==`, `>=`, `<=`, `~=`, `!=`, `>`, `<`) with its version.
pub const PYPI_LINE_PATTERN: &'static str = "(?i)^([A-Z0-9][A-Z0-9_\\-\\.]*)(?:\\[[^\\]]+\\])?(?:\\s*(==|>=|<=|~=|!=|>|<)\\s*([A-Z0-9\\.\\-\\*]+))?";

/// A run of name separators.
pub const PEP503_SEPARATORS: &'static str = "[-_.]+";

/// The PEP 503 normal form of a name: lower-cased, each run of `-`, `_` and
/// `.` turned into one `-`.
pub open spec fn pep503(name: Seq<char>) -> Seq<char> {
    collapse_separators(unicode_lowercase(name))
}

/// The requirement written on a line: what precedes any `#` comment and any
/// `;` marker, trimmed.
pub open spec fn requirement_text(line: Seq<char>) -> Seq<char> {
    trim(before_char(before_char(line, '#'), ';'))
}

/// Lines that name no package: empty lines, options (`-r`, `-e`, ...), local
/// paths (`.`, `/`) and URLs.
pub open spec fn is_not_requirement(t: Seq<char>) -> bool {
    t.len() == 0 || has_prefix(t, "-"@) || has_prefix(t, "."@) || has_prefix(t, "/"@)
        || contains_seq(t, "://"@)
}

/// The name and the version that a requirement names, as the line pattern
/// captures them.
pub open spec fn requirement_of(t: Seq<char>) -> Option<(Seq<char>, Option<Seq<char>>)> {
    match regex_captures(PYPI_LINE_PATTERN@, t) {
        Some(groups) => if groups.len() > 1 && groups[1] is Some {
            Some((groups[1]->0, if groups.len() > 3 { groups[3] } else { None }))
        } else {
            None
        },
        None => None,
    }
}

/// A required package: its written name, its version, its repaired package
/// URL and its identifier. A version holding `*` is left out of the URL.
pub open spec fn required_package(line: Seq<char>, salt: Seq<char>) -> Option<
    (Seq<char>, Option<Seq<char>>, Seq<char>, Seq<char>),
> {
    let t = requirement_text(line);
    if is_not_requirement(t) {
        None
    } else {
        match requirement_of(t) {
            None => None,
            Some((name, version)) => {
                let norm = pep503(name);
                let purl = match version {
                    Some(v) => if !contains_seq(v, "*"@) {
                        "pkg:pypi/"@ + norm + "@"@ + v
                    } else {
                        "pkg:pypi/"@ + norm
                    },
                    None => "pkg:pypi/"@ + norm,
                };
                let valid = fixed_purl(purl);
                Some((name, version, valid, instance_id(valid, salt)))
            },
        }
    }
}

pub open spec fn required_leaf(p: (Seq<char>, Option<Seq<char>>, Seq<char>, Seq<char>)) -> DependencyView {
    built(
        BuilderView {
            group: None,
            kind: DependencyType::Library,
            name: Some(p.0),
            version: p.1,
            purl: Some(p.2),
            instance_id: Some(p.3),
            dependencies: Seq::empty(),
            location: None,
        },
    )
}

/// The leaves of the required packages, line by line.
pub open spec fn required_leaves(lines: Seq<Seq<char>>, salt: Seq<char>) -> Seq<DependencyView>
    decreases lines.len(),
{
    if lines.len() == 0 {
        Seq::empty()
    } else {
        let rest = required_leaves(lines.drop_last(), salt);
        match required_package(lines.last(), salt) {
            Some(p) => rest.push(required_leaf(p)),
            None => rest,
        }
    }
}

/// The identifiers of the required packages, line by line.
pub open spec fn required_ids(lines: Seq<Seq<char>>, salt: Seq<char>) -> Seq<Seq<char>>
    decreases lines.len(),
{
    if lines.len() == 0 {
        Seq::empty()
    } else {
        let rest = required_ids(lines.drop_last(), salt);
        match required_package(lines.last(), salt) {
            Some(p) => rest.push(p.3),
            None => rest,
        }
    }
}

/// The project's name: the directory holding the file, else `python-app`.
pub open spec fn requirements_app_name(path: Seq<char>) -> Seq<char> {
    match dir_name(path) {
        Some(d) => d,
        None => "python-app"@,
    }
}

/// The project's package URL.
pub open spec fn requirements_root_purl(path: Seq<char>) -> Seq<char> {
    "pkg:pypi/"@ + pep503(requirements_app_name(path)) + "@0.0.0"@
}

/// What a requirements file yields: nothing when it requires no package;
/// else the project node, depending on every required package, followed by
/// one leaf per required package.
pub open spec fn requirements_graph(content: Seq<char>, salt: Seq<char>, path: Seq<char>) -> Seq<
    DependencyView,
> {
    let lines = text_lines(content);
    let leaves = required_leaves(lines, salt);
    if leaves.len() == 0 {
        Seq::empty()
    } else {
        let purl = requirements_root_purl(path);
        let root = built(
            BuilderView {
                group: None,
                kind: DependencyType::Library,
                name: Some(requirements_app_name(path)),
                version: Some("0.0.0"@),
                purl: Some(purl),
                instance_id: Some(instance_id(purl, salt)),
                dependencies: required_ids(lines, salt),
                location: None,
            },
        );
        seq![root] + leaves
    }
}

/// What the requirements files yield together, in order; unreadable files
/// add nothing.
pub open spec fn requirements_files(files: Seq<SourceView>) -> Seq<DependencyView>
    decreases files.len(),
{
    if files.len() == 0 {
        Seq::empty()
    } else {
        let acc = requirements_files(files.drop_last());
        let f = files.last();
        match f.content {
            None => acc,
            Some(c) => acc + requirements_graph(c, file_salt(f.path), f.path),
        }
    }
}

fn requirement_of_exec(t: &Vec<char>) -> (r: Option<(String, Option<String>)>)
    ensures
        match r {
            Some((n, v)) => requirement_of(t@) == Some((n@, opt_text(v))),
            None => requirement_of(t@) is None,
        },
{
    let text = string_of(t);
    match captures(PYPI_LINE_PATTERN, text.as_str()) {
        Some(groups) => {
            proof {
                assert(groups@.map_values(|g: Option<String>| opt_text(g)).len() == groups@.len());
            }
            if groups.len() > 1 {
                match &groups[1] {
                    Some(name) => {
                        let version = if groups.len() > 3 {
                            match &groups[3] {
                                Some(v) => Some(v.clone()),
                                None => None,
                            }
                        } else {
                            None
                        };
                        proof {
                            let gv = groups@.map_values(|g: Option<String>| opt_text(g));
                            assert(gv[1] == Some(name@));
                            if groups@.len() > 3 {
                                assert(gv[3] == opt_text(groups@[3]));
                            }
                        }
                        Some((name.clone(), version))
                    },
                    None => {
                        proof {
                            let gv = groups@.map_values(|g: Option<String>| opt_text(g));
                            assert(gv[1] is None);
                        }
                        None
                    },
                }
            } else {
                None
            }
        },
        None => None,
    }
}

fn required_package_exec(line: &Vec<char>, salt: &str) -> (r: Option<(String, Option<String>, String, String)>)
    ensures
        match r {
            Some((n, v, p, id)) => required_package(line@, salt@) == Some((n@, opt_text(v), p@, id@)),
            None => required_package(line@, salt@) is None,
        },
{
    let t = trim_chars(&before_char_exec(&before_char_exec(line, '#'), ';'));
    if t.len() == 0 || starts_with(&t, &chars_of("-")) || starts_with(&t, &chars_of("."))
        || starts_with(&t, &chars_of("/")) || contains(&t, &chars_of("://")) {
        return None;
    }
    match requirement_of_exec(&t) {
        None => None,
        Some((name, version)) => {
            let norm = PypiDynamicProducer::pep503_normalize(name.as_str());
            let mut purl = chars_of("pkg:pypi/");
            push_all(&mut purl, &chars_of(norm.as_str()));
            match &version {
                Some(v) => {
                    if !contains(&chars_of(v.as_str()), &chars_of("*")) {
                        push_all(&mut purl, &chars_of("@"));
                        push_all(&mut purl, &chars_of(v.as_str()));
                    }
                },
                None => {},
            }
            let valid = fix_purl(string_of(&purl).as_str());
            let id = make_instance_id(valid.as_str(), salt);
            Some((name, version, valid, id))
        },
    }
}

impl PypiProducer {
    /// A file is a requirements file when its name is `requirements.txt`, in
    /// any ASCII case.
    pub fn use_file(&self, path: &str) -> (r: bool)
        ensures
            r == (path_file_name(path@) matches Some(n) && eq_ignore_ascii_case(n, "requirements.txt"@)),
    {
        match file_name_of(path) {
            Some(n) => eq_ignore_ascii_case_exec(&chars_of(n.as_str()), &chars_of("requirements.txt")),
            None => false,
        }
    }

    /// The project node and the leaves of one requirements file (see
    /// [`requirements_graph`]).
    pub fn parse_single_requirements(content: &str, file_salt: &str, file_path: &str) -> (r: Result<
        Vec<Dependency>,
        ProducerError,
    >)
        ensures
            match r {
                Ok(ds) => dep_views(ds@) == requirements_graph(content@, file_salt@, file_path@),
                Err(_) => false,
            },
    {
        let app_name = match dir_name_of(file_path) {
            Some(d) => d,
            None => string_of(&chars_of("python-app")),
        };
        let norm_app = PypiDynamicProducer::pep503_normalize(app_name.as_str());
        let mut rp = chars_of("pkg:pypi/");
        push_all(&mut rp, &chars_of(norm_app.as_str()));
        push_all(&mut rp, &chars_of("@0.0.0"));
        let root_purl = string_of(&rp);
        let root_id = make_instance_id(root_purl.as_str(), file_salt);
        let lines = split_lines(&chars_of(content));
        let ghost lv = lines@.map_values(|l: Vec<char>| l@);
        let mut leaves: Vec<Dependency> = Vec::new();
        let mut ids: Vec<String> = Vec::new();
        let mut i: usize = 0;
        assert(lv.take(0) =~= Seq::<Seq<char>>::empty());
        assert(dep_views(leaves@) =~= Seq::<DependencyView>::empty());
        assert(ids.deep_view() =~= Seq::<Seq<char>>::empty());
        while i < lines.len()
            invariant
                i <= lines.len(),
                lv == lines@.map_values(|l: Vec<char>| l@),
                dep_views(leaves@) == required_leaves(lv.take(i as int), file_salt@),
                ids.deep_view() == required_ids(lv.take(i as int), file_salt@),
            decreases lines.len() - i,
        {
            assert(lv.take(i + 1).drop_last() =~= lv.take(i as int));
            assert(lv.take(i + 1).last() == lines@[i as int]@);
            match required_package_exec(&lines[i], file_salt) {
                Some((name, version, purl, id)) => {
                    let ghost p = required_package(lines@[i as int]@, file_salt@)->0;
                    let no_deps: Vec<String> = Vec::new();
                    assert(no_deps.deep_view() =~= Seq::<Seq<char>>::empty());
                    let leaf = DependencyBuilder::default().name(name).version(version).dep_type(
                        DependencyType::Library,
                    ).purl(purl).instance_id(id.clone()).dependencies(no_deps).location(None);
                    assert(leaf@ == (BuilderView {
                        group: None,
                        kind: DependencyType::Library,
                        name: Some(p.0),
                        version: p.1,
                        purl: Some(p.2),
                        instance_id: Some(p.3),
                        dependencies: Seq::empty(),
                        location: None,
                    }));
                    match leaf.build() {
                        Ok(d) => {
                            let ghost lb = dep_views(leaves@);
                            let ghost dv = d@;
                            leaves.push(d);
                            assert(dep_views(leaves@) =~= lb.push(dv));
                        },
                        Err(_) => {
                            assert(false);
                        },
                    }
                    let ghost ib = ids.deep_view();
                    ids.push(id);
                    assert(ids.deep_view() =~= ib.push(p.3));
                },
                None => {},
            }
            i = i + 1;
        }
        assert(lv.take(lines.len() as int) =~= lv);
        assert(lv == text_lines(content@));
        if leaves.len() == 0 {
            let e: Vec<Dependency> = Vec::new();
            assert(dep_views(e@) =~= Seq::<DependencyView>::empty());
            return Ok(e);
        }
        let root = DependencyBuilder::default().name(app_name).version(
            Some(string_of(&chars_of("0.0.0"))),
        ).dep_type(DependencyType::Library).purl(root_purl).instance_id(root_id).dependencies(
            ids,
        ).location(None);
        let mut all: Vec<Dependency> = Vec::new();
        match root.build() {
            Ok(d) => all.push(d),
            Err(_) => {
                assert(false);
            },
        }
        let ghost rv = dep_views(all@);
        let ghost lvs = dep_views(leaves@);
        all.append(&mut leaves);
        assert(dep_views(all@) =~= rv + lvs);
        Ok(all)
    }

    /// Reads every requirements file in turn; unreadable files are skipped
    /// (see [`requirements_files`]).
    pub fn find_dependencies(&self, files: &Vec<SourceFile>, _config: &SbomProducerConfiguration) -> (r:
        Result<Vec<Dependency>, ProducerError>)
        ensures
            match r {
                Ok(ds) => dep_views(ds@) == requirements_files(source_views(files@)),
                Err(_) => false,
            },
    {
        let ghost views = source_views(files@);
        let mut all: Vec<Dependency> = Vec::new();
        let mut i: usize = 0;
        assert(views.take(0) =~= Seq::<SourceView>::empty());
        assert(dep_views(all@) =~= Seq::<DependencyView>::empty());
        while i < files.len()
            invariant
                i <= files.len(),
                views == source_views(files@),
                requirements_files(views.take(i as int)) == dep_views(all@),
            decreases files.len() - i,
        {
            assert(views.take(i + 1).drop_last() =~= views.take(i as int));
            assert(views.take(i + 1).last() == views[i as int]);
            let f = &files[i];
            match &f.content {
                Some(content) => {
                    let salt = file_salt_of(f.path.as_str());
                    match PypiProducer::parse_single_requirements(content.as_str(), salt.as_str(), f.path.as_str()) {
                        Ok(mut deps) => {
                            let ghost before = dep_views(all@);
                            let ghost added = dep_views(deps@);
                            all.append(&mut deps);
                            assert(dep_views(all@) =~= before + added);
                        },
                        Err(_) => {},
                    }
                },
                None => {},
            }
            i = i + 1;
        }
        assert(views.take(files.len() as int) =~= views);
        Ok(all)
    }
}

proof fn lemma_required_leaves_tagged(lines: Seq<Seq<char>>, salt: Seq<char>)
    ensures
        all_tagged(required_leaves(lines, salt)),
    decreases lines.len(),
{
    if lines.len() > 0 {
        lemma_required_leaves_tagged(lines.drop_last(), salt);
        let rest = required_leaves(lines.drop_last(), salt);
        match required_package(lines.last(), salt) {
            Some(p) => {
                lemma_ids_tagged(p.2, salt, None);
                lemma_built_tagged(
                    BuilderView {
                        group: None,
                        kind: DependencyType::Library,
                        name: Some(p.0),
                        version: p.1,
                        purl: Some(p.2),
                        instance_id: Some(p.3),
                        dependencies: Seq::empty(),
                        location: None,
                    },
                );
                let t = rest.push(required_leaf(p));
                assert forall|i: int| 0 <= i < t.len() implies is_tagged(#[trigger] t[i].instance_id) by {
                    if i < rest.len() {
                        assert(t[i] == rest[i]);
                    }
                }
            },
            None => {},
        }
    }
}

/// Every node that the requirements files yield has a tagged identifier.
pub proof fn law_requirements_ids_tagged(files: Seq<SourceView>)
    ensures
        all_tagged(requirements_files(files)),
    decreases files.len(),
{
    if files.len() > 0 {
        law_requirements_ids_tagged(files.drop_last());
        let f = files.last();
        match f.content {
            None => {},
            Some(c) => {
                let salt = file_salt(f.path);
                let lines = text_lines(c);
                lemma_required_leaves_tagged(lines, salt);
                let leaves = required_leaves(lines, salt);
                if leaves.len() > 0 {
                    let purl = requirements_root_purl(f.path);
                    lemma_ids_tagged(purl, salt, None);
                    let b = BuilderView {
                        group: None,
                        kind: DependencyType::Library,
                        name: Some(requirements_app_name(f.path)),
                        version: Some("0.0.0"@),
                        purl: Some(purl),
                        instance_id: Some(instance_id(purl, salt)),
                        dependencies: required_ids(lines, salt),
                        location: None,
                    };
                    lemma_built_tagged(b);
                    let root = seq![built(b)];
                    assert(all_tagged(root)) by {
                        assert(root[0] == built(b));
                    }
                    lemma_concat_tagged(root, leaves);
                }
                lemma_concat_tagged(requirements_files(files.drop_last()), requirements_graph(c, salt, f.path));
            },
        }
    }
}

proof fn lemma_leaf_ids(lines: Seq<Seq<char>>, salt: Seq<char>)
    ensures
        required_leaves(lines, salt).len() == required_ids(lines, salt).len(),
        forall|j: int| 0 <= j < required_ids(lines, salt).len() ==> #[trigger] required_leaves(lines, salt)[j].instance_id
            == required_ids(lines, salt)[j],
        forall|j: int| 0 <= j < required_leaves(lines, salt).len() ==> #[trigger] required_leaves(lines, salt)[j].dependencies.len() == 0,
    decreases lines.len(),
{
    if lines.len() > 0 {
        lemma_leaf_ids(lines.drop_last(), salt);
        match required_package(lines.last(), salt) {
            Some(p) => {
                lemma_ids_tagged(p.2, salt, None);
                let leaves = required_leaves(lines, salt);
                let ids = required_ids(lines, salt);
                let rl = required_leaves(lines.drop_last(), salt);
                let ri = required_ids(lines.drop_last(), salt);
                assert forall|j: int| 0 <= j < ids.len() implies #[trigger] leaves[j].instance_id == ids[j] by {
                    if j < ri.len() {
                        assert(leaves[j] == rl[j]);
                        assert(ids[j] == ri[j]);
                    }
                }
                assert forall|j: int| 0 <= j < leaves.len() implies #[trigger] leaves[j].dependencies.len() == 0 by {
                    if j < rl.len() {
                        assert(leaves[j] == rl[j]);
                    }
                }
            },
            None => {},
        }
    }
}

/// Every edge of a requirements file's graph leads to one of its nodes.
pub proof fn law_requirements_graph_closed(content: Seq<char>, salt: Seq<char>, path: Seq<char>)
    ensures
        edges_closed(requirements_graph(content, salt, path)),
{
    let lines = text_lines(content);
    let g = requirements_graph(content, salt, path);
    let leaves = required_leaves(lines, salt);
    lemma_leaf_ids(lines, salt);
    if leaves.len() > 0 {
        assert forall|i: int, j: int|
            0 <= i < g.len() && 0 <= j < g[i].dependencies.len() implies has_node(g, #[trigger] g[i].dependencies[j]) by {
            if i == 0 {
                assert(g[1 + j] == leaves[j]);
            } else {
                assert(g[i] == leaves[i - 1]);
            }
        }
    }
}

/// Every edge of what the requirements files yield leads to one of its
/// nodes.
pub proof fn law_requirements_edges_closed(files: Seq<SourceView>)
    ensures
        edges_closed(requirements_files(files)),
    decreases files.len(),
{
    if files.len() > 0 {
        law_requirements_edges_closed(files.drop_last());
        let f = files.last();
        match f.content {
            None => {},
            Some(c) => {
                law_requirements_graph_closed(c, file_salt(f.path), f.path);
                lemma_concat_closed(requirements_files(files.drop_last()), requirements_graph(c, file_salt(f.path), f.path));
            },
        }
    }
}

proof fn lemma_required_ids_are_leaf_ids(lines: Seq<Seq<char>>, salt: Seq<char>)
    ensures
        required_ids(lines, salt).len() == required_leaves(lines, salt).len(),
        forall|j: int|
            0 <= j < required_ids(lines, salt).len() ==> #[trigger] required_ids(lines, salt)[j]
                == required_leaves(lines, salt)[j].instance_id,
    decreases lines.len(),
{
    if lines.len() > 0 {
        let d = lines.drop_last();
        lemma_required_ids_are_leaf_ids(d, salt);
        match required_package(lines.last(), salt) {
            Some(p) => {
                lemma_ids_tagged(p.2, salt, None);
                let ids = required_ids(lines, salt);
                let ls = required_leaves(lines, salt);
                assert forall|j: int| 0 <= j < ids.len() implies #[trigger] ids[j] == ls[j].instance_id by {
                    if j < ids.len() - 1 {
                        assert(ids[j] == required_ids(d, salt)[j]);
                        assert(ls[j] == required_leaves(d, salt)[j]);
                    }
                }
            },
            None => {},
        }
    }
}

/// `idx` lists, in increasing order, the lines that require a package, and
/// `leaves` holds their leaves.
pub open spec fn leaf_index(lines: Seq<Seq<char>>, salt: Seq<char>, leaves: Seq<DependencyView>, idx: Seq<int>) -> bool {
    &&& idx.len() == leaves.len()
    &&& forall|a: int, b: int| 0 <= a < b < idx.len() ==> #[trigger] idx[a] < #[trigger] idx[b]
    &&& forall|j: int|
        0 <= j < idx.len() ==> 0 <= #[trigger] idx[j] < lines.len() && required_package(lines[idx[j]], salt) is Some
            && leaves[j] == required_leaf(required_package(lines[idx[j]], salt)->0)
    &&& forall|q: int|
        0 <= q < lines.len() && (#[trigger] required_package(lines[q], salt)) is Some ==> idx.contains(q)
}

proof fn lemma_leaf_index(lines: Seq<Seq<char>>, salt: Seq<char>) -> (idx: Seq<int>)
    ensures
        leaf_index(lines, salt, required_leaves(lines, salt), idx),
    decreases lines.len(),
{
    if lines.len() == 0 {
        Seq::empty()
    } else {
        let d = lines.drop_last();
        let rest = lemma_leaf_index(d, salt);
        let ls = required_leaves(lines, salt);
        let rl = required_leaves(d, salt);
        assert forall|q: int| 0 <= q < d.len() implies d[q] == #[trigger] lines[q] by {}
        match required_package(lines.last(), salt) {
            Some(p) => {
                let idx = rest.push(lines.len() - 1);
                assert forall|j: int| 0 <= j < idx.len() implies 0 <= #[trigger] idx[j] < lines.len()
                    && required_package(lines[idx[j]], salt) is Some && ls[j] == required_leaf(
                    required_package(lines[idx[j]], salt)->0,
                ) by {
                    if j < rest.len() {
                        assert(idx[j] == rest[j] && ls[j] == rl[j]);
                        assert(d[rest[j]] == lines[rest[j]]);
                    }
                }
                assert forall|q: int|
                    0 <= q < lines.len() && (#[trigger] required_package(lines[q], salt)) is Some implies idx.contains(q) by {
                    if q < d.len() {
                        assert(d[q] == lines[q]);
                        let t = choose|t: int| 0 <= t < rest.len() && rest[t] == q;
                        assert(idx[t] == q);
                    } else {
                        assert(idx[idx.len() - 1] == q);
                    }
                }
                idx
            },
            None => {
                assert forall|j: int| 0 <= j < rest.len() implies 0 <= #[trigger] rest[j] < lines.len()
                    && required_package(lines[rest[j]], salt) is Some && ls[j] == required_leaf(
                    required_package(lines[rest[j]], salt)->0,
                ) by {
                    assert(d[rest[j]] == lines[rest[j]]);
                }
                assert forall|q: int|
                    0 <= q < lines.len() && (#[trigger] required_package(lines[q], salt)) is Some implies rest.contains(q) by {
                    if q < d.len() {
                        assert(d[q] == lines[q]);
                    }
                }
                rest
            },
        }
    }
}

/// A requirements file that requires `k > 0` packages yields `k + 1` nodes:
/// first the project (named after its directory, version `0.0.0`, the
/// repaired URL `pkg:pypi/<PEP 503 name>@0.0.0`), depending on the other
/// nodes' identifiers in order; then one leaf per requiring line, in line
/// order, keeping the written name, with no edges and the identifier of its
/// repaired URL under the file's scope. One requiring nothing yields nothing.
pub proof fn law_requirements_graph_shape(content: Seq<char>, salt: Seq<char>, path: Seq<char>)
    ensures
        ({
            let lines = text_lines(content);
            let g = requirements_graph(content, salt, path);
            let leaves = required_leaves(lines, salt);
            &&& leaves.len() == 0 ==> g.len() == 0
            &&& leaves.len() > 0 ==> {
                &&& g.len() == leaves.len() + 1
                &&& g[0].name == requirements_app_name(path)
                &&& g[0].version == Some("0.0.0"@)
                &&& g[0].purl == fixed_purl(requirements_root_purl(path))
                &&& g[0].instance_id == instance_id(requirements_root_purl(path), salt)
                &&& g[0].dependencies.len() == leaves.len()
                &&& forall|j: int|
                    0 <= j < leaves.len() ==> #[trigger] g[j + 1] == leaves[j] && g[0].dependencies[j]
                        == leaves[j].instance_id
            }
            &&& exists|idx: Seq<int>| leaf_index(lines, salt, leaves, idx)
            &&& forall|j: int|
                0 <= j < leaves.len() ==> {
                    let l = #[trigger] leaves[j];
                    &&& l.dependencies.len() == 0
                    &&& l.group is None
                    &&& l.location is None
                }
        }),
{
    let lines = text_lines(content);
    let leaves = required_leaves(lines, salt);
    lemma_required_ids_are_leaf_ids(lines, salt);
    lemma_ids_tagged(requirements_root_purl(path), salt, None);
    let idx = lemma_leaf_index(lines, salt);
    let g = requirements_graph(content, salt, path);
    if leaves.len() > 0 {
        assert forall|j: int| 0 <= j < leaves.len() implies #[trigger] g[j + 1] == leaves[j] && g[0].dependencies[j]
            == leaves[j].instance_id by {
            assert(required_ids(lines, salt)[j] == leaves[j].instance_id);
        }
    }
    assert forall|j: int| 0 <= j < leaves.len() implies {
        let l = #[trigger] leaves[j];
        &&& l.dependencies.len() == 0
        &&& l.group is None
        &&& l.location is None
    } by {
        assert(0 <= idx[j] < lines.len());
    }
}

/// A PEP 503 name has no `_` or `.` and no two `-` in a row, and collapsing
/// its separators again changes nothing.
pub proof fn law_pep503_separators(name: Seq<char>)
    ensures
        separators_collapsed(pep503(name)),
        collapse_separators(pep503(name)) == pep503(name),
{
    law_collapse_separators_idempotent(unicode_lowercase(name));
}

/// The package URL of a requirement carries its version: where the line
/// pattern captures a name `n` and a version `v` without `*`, the package is
/// taken with the name `n`, the version `v`, the repaired URL
/// `pkg:pypi/<PEP 503 name of n>@<v>` and the identifier of that URL under
/// the file's scope; with a version holding `*`, or none, the URL has no
/// version. The leaf keeps the written name, that version and URL.
pub proof fn law_requirement_purl_carries_version(
    line: Seq<char>,
    salt: Seq<char>,
    groups: Seq<Option<Seq<char>>>,
    name: Seq<char>,
)
    requires
        !is_not_requirement(requirement_text(line)),
        regex_captures(PYPI_LINE_PATTERN@, requirement_text(line)) == Some(groups),
        groups.len() > 3,
        groups[1] == Some(name),
    ensures
        required_package(line, salt) is Some,
        ({
            let p = required_package(line, salt)->0;
            &&& p.0 == name
            &&& p.1 == groups[3]
            &&& (groups[3] matches Some(v) && !contains_seq(v, "*"@)) ==> p.2 == fixed_purl(
                "pkg:pypi/"@ + pep503(name) + "@"@ + groups[3]->0,
            )
            &&& !(groups[3] matches Some(v) && !contains_seq(v, "*"@)) ==> p.2 == fixed_purl(
                "pkg:pypi/"@ + pep503(name),
            )
            &&& p.3 == instance_id(p.2, salt)
            &&& required_leaf(p).name == name
            &&& required_leaf(p).version == groups[3]
            &&& required_leaf(p).purl == fixed_purl(p.2)
            &&& required_leaf(p).instance_id == p.3
        }),
{
    let p = required_package(line, salt)->0;
    lemma_ids_tagged(p.2, salt, None);
}

} // verus!
