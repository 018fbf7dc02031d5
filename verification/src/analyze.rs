//! How an ecosystem is analysed: its build tool's graph where it gave one;
//! else, project directory by project directory, the first of its file
//! producers that yields dependencies.
use vstd::prelude::*;

use crate::cargo::{law_cargo_edges_closed, law_cargo_ids_tagged, cargo_files_graph, source_views, CargoProducer, SourceView};
use crate::model::{all_tagged, edges_closed, lemma_concat_closed, lemma_concat_tagged, dep_views, Dependency, DependencyView};
use crate::npm_lock::{law_npm_lock_edges_closed, law_npm_lock_ids_tagged, npm_lock_files, NpmLockProducer};
use crate::npm_manifest::{law_manifest_edges_closed, law_manifest_ids_tagged, manifest_files, NpmProducer};
use crate::producer::{parent_of, path_file_name, path_parent, ProducerError, SbomProducerConfiguration, SourceFile};
use crate::pypi::{law_requirements_edges_closed, law_requirements_ids_tagged, requirements_files, PypiProducer};
use crate::maven::MavenProducer;
use crate::text::{eq_ignore_ascii_case, str_eq};

verus! {

/// A producer that reads project files.
#[derive(Clone, Copy, PartialEq, Eq, Structural)]
pub enum StaticKind {
    CargoLock,
    NpmLock,
    NpmManifest,
    Requirements,
}

/// The files a producer reads.
pub open spec fn kind_uses(kind: StaticKind, path: Seq<char>) -> bool {
    match kind {
        StaticKind::CargoLock => path_file_name(path) == Some("Cargo.lock"@),
        StaticKind::NpmLock => path_file_name(path) matches Some(n) && eq_ignore_ascii_case(
            n,
            "package-lock.json"@,
        ),
        StaticKind::NpmManifest => path_file_name(path) matches Some(n) && eq_ignore_ascii_case(
            n,
            "package.json"@,
        ),
        StaticKind::Requirements => path_file_name(path) matches Some(n) && eq_ignore_ascii_case(
            n,
            "requirements.txt"@,
        ),
    }
}

/// What a producer yields for its files; `None` where it fails.
pub open spec fn kind_result(kind: StaticKind, files: Seq<SourceView>) -> Option<Seq<DependencyView>> {
    match kind {
        StaticKind::CargoLock => cargo_files_graph(files),
        StaticKind::NpmLock => Some(npm_lock_files(files)),
        StaticKind::NpmManifest => Some(manifest_files(files)),
        StaticKind::Requirements => Some(requirements_files(files)),
    }
}

impl StaticKind {
    /// Whether the producer reads the file at `path`.
    pub fn uses(&self, path: &str) -> (r: bool)
        ensures
            r == kind_uses(*self, path@),
    {
        match self {
            StaticKind::CargoLock => (CargoProducer {}).use_file(path),
            StaticKind::NpmLock => (NpmLockProducer {}).use_file(path),
            StaticKind::NpmManifest => (NpmProducer {}).use_file(path),
            StaticKind::Requirements => (PypiProducer {}).use_file(path),
        }
    }

    /// Runs the producer on its files.
    pub fn run(&self, files: &Vec<SourceFile>, config: &SbomProducerConfiguration) -> (r: Result<
        Vec<Dependency>,
        ProducerError,
    >)
        ensures
            match r {
                Ok(ds) => kind_result(*self, source_views(files@)) == Some(dep_views(ds@)),
                Err(_) => kind_result(*self, source_views(files@)) is None,
            },
    {
        match self {
            StaticKind::CargoLock => (CargoProducer {}).find_dependencies(files, config),
            StaticKind::NpmLock => (NpmLockProducer {}).find_dependencies(files, config),
            StaticKind::NpmManifest => (NpmProducer {}).find_dependencies(files, config),
            StaticKind::Requirements => (PypiProducer {}).find_dependencies(files, config),
        }
    }
}

/// Some producer reads the file.
pub open spec fn any_uses(kinds: Seq<StaticKind>, path: Seq<char>) -> bool {
    exists|k: int| 0 <= k < kinds.len() && kind_uses(#[trigger] kinds[k], path)
}

/// The files of one project directory.
pub struct DirGroupView {
    pub dir: Seq<char>,
    pub files: Seq<SourceView>,
}

/// The index of the group of directory `dir`.
pub open spec fn dir_index(groups: Seq<DirGroupView>, dir: Seq<char>) -> Option<int>
    decreases groups.len(),
{
    if groups.len() == 0 {
        None
    } else if groups.last().dir == dir {
        Some(groups.len() - 1)
    } else {
        dir_index(groups.drop_last(), dir)
    }
}

/// Adds a file to the group of its directory (a new group at the end for a
/// new directory); a file without a directory is left out.
pub open spec fn add_to_group(groups: Seq<DirGroupView>, f: SourceView) -> Seq<DirGroupView> {
    match path_parent(f.path) {
        Some(d) => match dir_index(groups, d) {
            Some(i) => groups.update(i, DirGroupView { dir: d, files: groups[i].files.push(f) }),
            None => groups.push(DirGroupView { dir: d, files: seq![f] }),
        },
        None => groups,
    }
}

/// The files some producer reads, grouped by directory in order of first
/// appearance, each group in file order.
pub open spec fn dir_groups(kinds: Seq<StaticKind>, files: Seq<SourceView>) -> Seq<DirGroupView>
    decreases files.len(),
{
    if files.len() == 0 {
        Seq::empty()
    } else {
        let g = dir_groups(kinds, files.drop_last());
        if any_uses(kinds, files.last().path) {
            add_to_group(g, files.last())
        } else {
            g
        }
    }
}

/// The files of `files` that a producer reads.
pub open spec fn used_files(kind: StaticKind, files: Seq<SourceView>) -> Seq<SourceView>
    decreases files.len(),
{
    if files.len() == 0 {
        Seq::empty()
    } else {
        let rest = used_files(kind, files.drop_last());
        if kind_uses(kind, files.last().path) {
            rest.push(files.last())
        } else {
            rest
        }
    }
}

/// What a directory yields: the result of the first producer, from the
/// `i`-th on, that reads some of its files and yields at least one
/// dependency; nothing where none does.
pub open spec fn first_success(kinds: Seq<StaticKind>, files: Seq<SourceView>, i: int) -> Seq<
    DependencyView,
>
    decreases kinds.len() - i,
{
    if i < 0 || i >= kinds.len() {
        Seq::empty()
    } else {
        let matched = used_files(kinds[i], files);
        let yielded = match kind_result(kinds[i], matched) {
            Some(g) => matched.len() > 0 && g.len() > 0,
            None => false,
        };
        if yielded {
            kind_result(kinds[i], matched)->0
        } else {
            first_success(kinds, files, i + 1)
        }
    }
}

/// What the directories yield, directory after directory.
pub open spec fn groups_result(kinds: Seq<StaticKind>, groups: Seq<DirGroupView>) -> Seq<DependencyView>
    decreases groups.len(),
{
    if groups.len() == 0 {
        Seq::empty()
    } else {
        groups_result(kinds, groups.drop_last()) + first_success(kinds, groups.last().files, 0)
    }
}

/// What the file producers yield for a set of files.
pub open spec fn static_chain(kinds: Seq<StaticKind>, files: Seq<SourceView>) -> Seq<DependencyView> {
    groups_result(kinds, dir_groups(kinds, files))
}

/// What an ecosystem yields: the tool's graph where it gave a non-empty
/// one, else what its file producers yield.
pub open spec fn ecosystem_result(
    tool: Option<Seq<DependencyView>>,
    kinds: Seq<StaticKind>,
    files: Seq<SourceView>,
) -> Seq<DependencyView> {
    match tool {
        Some(g) => if g.len() > 0 {
            g
        } else {
            static_chain(kinds, files)
        },
        None => static_chain(kinds, files),
    }
}

// ---------------------------------------------------------------------
// Computing it
// ---------------------------------------------------------------------

/// A copy of a source file.
pub fn copy_source(f: &SourceFile) -> (r: SourceFile)
    ensures
        source_views(seq![r]) == source_views(seq![*f]),
{
    SourceFile {
        path: f.path.clone(),
        content: match &f.content {
            Some(c) => Some(c.clone()),
            None => None,
        },
    }
}

fn any_uses_exec(kinds: &Vec<StaticKind>, path: &str) -> (r: bool)
    ensures
        r == any_uses(kinds@, path@),
{
    let mut k: usize = 0;
    while k < kinds.len()
        invariant
            k <= kinds.len(),
            forall|j: int| 0 <= j < k ==> !kind_uses(#[trigger] kinds@[j], path@),
        decreases kinds.len() - k,
    {
        if kinds[k].uses(path) {
            return true;
        }
        k = k + 1;
    }
    false
}

/// The files of one project directory.
pub struct DirGroup {
    pub dir: String,
    pub files: Vec<SourceFile>,
}

pub open spec fn group_views(s: Seq<DirGroup>) -> Seq<DirGroupView> {
    s.map_values(|g: DirGroup| DirGroupView { dir: g.dir@, files: source_views(g.files@) })
}

fn find_dir(groups: &Vec<DirGroup>, dir: &String) -> (r: Option<usize>)
    ensures
        match r {
            Some(i) => dir_index(group_views(groups@), dir@) == Some(i as int) && i < groups.len(),
            None => dir_index(group_views(groups@), dir@) is None,
        },
{
    let ghost vs = group_views(groups@);
    let mut i = groups.len();
    assert(vs.take(i as int) =~= vs);
    while i > 0
        invariant
            i <= groups.len(),
            vs == group_views(groups@),
            dir_index(vs, dir@) == dir_index(vs.take(i as int), dir@),
        decreases i,
    {
        assert(vs.take(i as int).drop_last() =~= vs.take(i - 1));
        assert(vs.take(i as int).last() == vs[i - 1]);
        if str_eq(groups[i - 1].dir.as_str(), dir.as_str()) {
            return Some(i - 1);
        }
        i = i - 1;
    }
    None
}

/// Groups the files that some producer reads by directory (see
/// [`dir_groups`]).
/// Adds a file to the group of its directory (see [`add_to_group`]).
fn add_file_to_groups(groups: &mut Vec<DirGroup>, f: &SourceFile)
    ensures
        group_views(final(groups)@) == add_to_group(group_views(old(groups)@), source_views(seq![*f])[0]),
{
    let ghost fvi = source_views(seq![*f])[0];
    assert(fvi.path == f.path@);
    match parent_of(f.path.as_str()) {
        Some(d) => {
            let ghost before = group_views(groups@);
            match find_dir(&groups, &d) {
                Some(k) => {
                    let copy = copy_source(f);
                    let ghost cv = source_views(seq![copy])[0];
                    assert(cv == fvi);
                    let ghost dv = d@;
                    let mut g = DirGroup { dir: d, files: Vec::new() };
                    let mut j: usize = 0;
                    while j < groups[k].files.len()
                        invariant
                            k < groups.len(),
                            g.dir@ == dv,
                            j <= groups@[k as int].files.len(),
                            source_views(g.files@) == source_views(groups@[k as int].files@).take(j as int),
                        decreases groups@[k as int].files.len() - j,
                    {
                        let c = copy_source(&groups[k].files[j]);
                        let ghost gb = source_views(g.files@);
                        g.files.push(c);
                        assert(source_views(g.files@) =~= gb.push(source_views(seq![c])[0]));
                        assert(source_views(seq![c])[0] == source_views(groups@[k as int].files@)[j as int]);
                        assert(source_views(groups@[k as int].files@).take(j + 1) =~= source_views(
                            groups@[k as int].files@,
                        ).take(j as int).push(source_views(groups@[k as int].files@)[j as int]));
                        j = j + 1;
                    }
                    assert(source_views(groups@[k as int].files@).take(j as int) =~= source_views(groups@[k as int].files@));
                    let ghost gb = source_views(g.files@);
                    assert(before[k as int].files == source_views(groups@[k as int].files@));
                    g.files.push(copy);
                    assert(source_views(g.files@) =~= gb.push(cv));
                    assert(source_views(g.files@) =~= before[k as int].files.push(fvi));
                    let ghost gv = DirGroupView { dir: g.dir@, files: source_views(g.files@) };
                    assert(gv == DirGroupView { dir: dv, files: before[k as int].files.push(fvi) });
                    groups.set(k, g);
                    assert(group_views(groups@) =~= before.update(k as int, gv));
                },
                None => {
                    let copy = copy_source(f);
                    let ghost cv = source_views(seq![copy])[0];
                    let mut fs: Vec<SourceFile> = Vec::new();
                    fs.push(copy);
                    assert(source_views(fs@) =~= seq![cv]);
                    let g = DirGroup { dir: d, files: fs };
                    let ghost gv = DirGroupView { dir: g.dir@, files: source_views(g.files@) };
                    groups.push(g);
                    assert(group_views(groups@) =~= before.push(gv));
                },
            }
        },
        None => {},
    }
}

pub fn group_by_dir(kinds: &Vec<StaticKind>, files: &Vec<SourceFile>) -> (r: Vec<DirGroup>)
    ensures
        group_views(r@) == dir_groups(kinds@, source_views(files@)),
{
    let ghost fv = source_views(files@);
    let mut groups: Vec<DirGroup> = Vec::new();
    let mut i: usize = 0;
    assert(fv.take(0) =~= Seq::<SourceView>::empty());
    assert(group_views(groups@) =~= Seq::<DirGroupView>::empty());
    while i < files.len()
        invariant
            i <= files.len(),
            fv == source_views(files@),
            group_views(groups@) == dir_groups(kinds@, fv.take(i as int)),
        decreases files.len() - i,
    {
        assert(fv.take(i + 1).drop_last() =~= fv.take(i as int));
        assert(fv.take(i + 1).last() == fv[i as int]);
        let f = &files[i];
        let ghost fvi = fv[i as int];
        assert(fvi.path == f.path@);
        if any_uses_exec(kinds, f.path.as_str()) {
            add_file_to_groups(&mut groups, f);
        }
        i = i + 1;
    }
    assert(fv.take(files.len() as int) =~= fv);
    groups
}

/// The files of `files` that the producer reads.
fn used_files_exec(kind: StaticKind, files: &Vec<SourceFile>) -> (r: Vec<SourceFile>)
    ensures
        source_views(r@) == used_files(kind, source_views(files@)),
{
    let ghost fv = source_views(files@);
    let mut r: Vec<SourceFile> = Vec::new();
    let mut i: usize = 0;
    assert(fv.take(0) =~= Seq::<SourceView>::empty());
    assert(source_views(r@) =~= Seq::<SourceView>::empty());
    while i < files.len()
        invariant
            i <= files.len(),
            fv == source_views(files@),
            source_views(r@) == used_files(kind, fv.take(i as int)),
        decreases files.len() - i,
    {
        assert(fv.take(i + 1).drop_last() =~= fv.take(i as int));
        assert(fv.take(i + 1).last() == fv[i as int]);
        if kind.uses(files[i].path.as_str()) {
            let c = copy_source(&files[i]);
            let ghost before = source_views(r@);
            r.push(c);
            assert(source_views(r@) =~= before.push(source_views(seq![c])[0]));
            assert(source_views(seq![c])[0] == fv[i as int]);
        }
        i = i + 1;
    }
    assert(fv.take(files.len() as int) =~= fv);
    r
}

/// The `pom.xml` files (by file name, case aside), grouped by directory in
/// order of first appearance, each group in file order.
pub open spec fn pom_groups(files: Seq<SourceView>) -> Seq<DirGroupView>
    decreases files.len(),
{
    if files.len() == 0 {
        Seq::empty()
    } else {
        let g = pom_groups(files.drop_last());
        if path_file_name(files.last().path) matches Some(n) && eq_ignore_ascii_case(n, "pom.xml"@) {
            add_to_group(g, files.last())
        } else {
            g
        }
    }
}

/// Groups the Maven project files by directory (see [`pom_groups`]); each
/// group is one Maven project for [`crate::maven::MavenProducer::find_dependencies`].
pub fn group_poms_by_dir(files: &Vec<SourceFile>) -> (r: Vec<DirGroup>)
    ensures
        group_views(r@) == pom_groups(source_views(files@)),
{
    let ghost fv = source_views(files@);
    let producer = MavenProducer {};
    let mut groups: Vec<DirGroup> = Vec::new();
    let mut i: usize = 0;
    assert(fv.take(0) =~= Seq::<SourceView>::empty());
    assert(group_views(groups@) =~= Seq::<DirGroupView>::empty());
    while i < files.len()
        invariant
            i <= files.len(),
            fv == source_views(files@),
            group_views(groups@) == pom_groups(fv.take(i as int)),
        decreases files.len() - i,
    {
        assert(fv.take(i + 1).drop_last() =~= fv.take(i as int));
        assert(fv.take(i + 1).last() == fv[i as int]);
        let f = &files[i];
        assert(fv[i as int] == source_views(seq![*f])[0]);
        if producer.use_file(f.path.as_str()) {
            add_file_to_groups(&mut groups, f);
        }
        i = i + 1;
    }
    assert(fv.take(files.len() as int) =~= fv);
    groups
}

/// What one directory yields (see [`first_success`]).
pub fn run_directory(kinds: &Vec<StaticKind>, files: &Vec<SourceFile>, config: &SbomProducerConfiguration) -> (r:
    Vec<Dependency>)
    ensures
        dep_views(r@) == first_success(kinds@, source_views(files@), 0),
{
    let ghost fv = source_views(files@);
    let mut i: usize = 0;
    while i < kinds.len()
        invariant
            i <= kinds.len(),
            fv == source_views(files@),
            first_success(kinds@, fv, 0) == first_success(kinds@, fv, i as int),
        decreases kinds.len() - i,
    {
        let kind = kinds[i];
        let matched = used_files_exec(kind, files);
        if matched.len() > 0 {
            match kind.run(&matched, config) {
                Ok(deps) => {
                    if deps.len() > 0 {
                        return deps;
                    }
                },
                Err(_) => {},
            }
        }
        i = i + 1;
    }
    let e: Vec<Dependency> = Vec::new();
    assert(dep_views(e@) =~= Seq::<DependencyView>::empty());
    e
}

/// What the file producers yield for a set of files (see
/// [`static_chain`]).
pub fn run_static_chain(kinds: &Vec<StaticKind>, files: &Vec<SourceFile>, config: &SbomProducerConfiguration) -> (r:
    Vec<Dependency>)
    ensures
        dep_views(r@) == static_chain(kinds@, source_views(files@)),
{
    let groups = group_by_dir(kinds, files);
    let ghost gv = group_views(groups@);
    let mut out: Vec<Dependency> = Vec::new();
    let mut k: usize = 0;
    assert(gv.take(0) =~= Seq::<DirGroupView>::empty());
    assert(dep_views(out@) =~= Seq::<DependencyView>::empty());
    while k < groups.len()
        invariant
            k <= groups.len(),
            gv == group_views(groups@),
            dep_views(out@) == groups_result(kinds@, gv.take(k as int)),
        decreases groups.len() - k,
    {
        assert(gv.take(k + 1).drop_last() =~= gv.take(k as int));
        assert(gv.take(k + 1).last() == gv[k as int]);
        let mut deps = run_directory(kinds, &groups[k].files, config);
        let ghost before = dep_views(out@);
        let ghost added = dep_views(deps@);
        out.append(&mut deps);
        assert(dep_views(out@) =~= before + added);
        k = k + 1;
    }
    assert(gv.take(groups.len() as int) =~= gv);
    out
}

/// What an ecosystem yields (see [`ecosystem_result`]): the tool's graph
/// where it is given and not empty, else the file producers' result.
pub fn run_ecosystem(
    tool: Option<Vec<Dependency>>,
    kinds: &Vec<StaticKind>,
    files: &Vec<SourceFile>,
    config: &SbomProducerConfiguration,
) -> (r: Vec<Dependency>)
    ensures
        dep_views(r@) == ecosystem_result(
            match tool {
                Some(g) => Some(dep_views(g@)),
                None => None,
            },
            kinds@,
            source_views(files@),
        ),
{
    match tool {
        Some(g) => {
            if g.len() > 0 {
                g
            } else {
                run_static_chain(kinds, files, config)
            }
        },
        None => run_static_chain(kinds, files, config),
    }
}

// ---------------------------------------------------------------------
// Laws
// ---------------------------------------------------------------------

proof fn lemma_kind_result_tagged(kind: StaticKind, files: Seq<SourceView>)
    requires
        kind_result(kind, files) is Some,
    ensures
        all_tagged(kind_result(kind, files)->0),
{
    match kind {
        StaticKind::CargoLock => law_cargo_ids_tagged(files),
        StaticKind::NpmLock => law_npm_lock_ids_tagged(files),
        StaticKind::NpmManifest => law_manifest_ids_tagged(files),
        StaticKind::Requirements => law_requirements_ids_tagged(files),
    }
}

proof fn lemma_first_success_tagged(kinds: Seq<StaticKind>, files: Seq<SourceView>, i: int)
    ensures
        all_tagged(first_success(kinds, files, i)),
    decreases kinds.len() - i,
{
    if 0 <= i < kinds.len() {
        let matched = used_files(kinds[i], files);
        if kind_result(kinds[i], matched) is Some {
            lemma_kind_result_tagged(kinds[i], matched);
        }
        lemma_first_success_tagged(kinds, files, i + 1);
    }
}

proof fn lemma_groups_result_tagged(kinds: Seq<StaticKind>, groups: Seq<DirGroupView>)
    ensures
        all_tagged(groups_result(kinds, groups)),
    decreases groups.len(),
{
    if groups.len() > 0 {
        lemma_groups_result_tagged(kinds, groups.drop_last());
        lemma_first_success_tagged(kinds, groups.last().files, 0);
        lemma_concat_tagged(
            groups_result(kinds, groups.drop_last()),
            first_success(kinds, groups.last().files, 0),
        );
    }
}

/// Every node that an ecosystem yields carries the `?package-id=` marker,
/// where the tool's graph does.
pub proof fn law_ecosystem_ids_tagged(
    tool: Option<Seq<DependencyView>>,
    kinds: Seq<StaticKind>,
    files: Seq<SourceView>,
)
    requires
        tool matches Some(g) ==> all_tagged(g),
    ensures
        all_tagged(ecosystem_result(tool, kinds, files)),
{
    lemma_groups_result_tagged(kinds, dir_groups(kinds, files));
}

proof fn lemma_kind_result_closed(kind: StaticKind, files: Seq<SourceView>)
    requires
        kind_result(kind, files) is Some,
    ensures
        edges_closed(kind_result(kind, files)->0),
{
    match kind {
        StaticKind::CargoLock => law_cargo_edges_closed(files),
        StaticKind::NpmLock => law_npm_lock_edges_closed(files),
        StaticKind::NpmManifest => law_manifest_edges_closed(files),
        StaticKind::Requirements => law_requirements_edges_closed(files),
    }
}

proof fn lemma_first_success_closed(kinds: Seq<StaticKind>, files: Seq<SourceView>, i: int)
    ensures
        edges_closed(first_success(kinds, files, i)),
    decreases kinds.len() - i,
{
    if 0 <= i < kinds.len() {
        let matched = used_files(kinds[i], files);
        if kind_result(kinds[i], matched) is Some {
            lemma_kind_result_closed(kinds[i], matched);
        }
        lemma_first_success_closed(kinds, files, i + 1);
    }
}

proof fn lemma_groups_result_closed(kinds: Seq<StaticKind>, groups: Seq<DirGroupView>)
    ensures
        edges_closed(groups_result(kinds, groups)),
    decreases groups.len(),
{
    if groups.len() > 0 {
        lemma_groups_result_closed(kinds, groups.drop_last());
        lemma_first_success_closed(kinds, groups.last().files, 0);
        lemma_concat_closed(
            groups_result(kinds, groups.drop_last()),
            first_success(kinds, groups.last().files, 0),
        );
    }
}

/// Every edge of what an ecosystem yields leads to one of its nodes, where
/// the tool's graph has that property.
pub proof fn law_ecosystem_edges_closed(
    tool: Option<Seq<DependencyView>>,
    kinds: Seq<StaticKind>,
    files: Seq<SourceView>,
)
    requires
        tool matches Some(g) ==> edges_closed(g),
    ensures
        edges_closed(ecosystem_result(tool, kinds, files)),
{
    lemma_groups_result_closed(kinds, dir_groups(kinds, files));
}

} // verus!
