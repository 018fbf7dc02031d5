//! Maven projects: the dependencies that a `pom.xml` declares, resolved
//! against the properties and the dependency management that it inherits
//! from its parents.
use std::path::{Path, PathBuf};

use vstd::prelude::*;

use crate::ident::{fixed_purl, instance_id, is_tagged, lemma_ids_tagged, make_instance_id};
use crate::model::{all_tagged, lemma_built_tagged, 
    built, clone_opt_dep_location, clone_opt_string, dep_views, opt_dep_location_view, opt_view,
    BuilderView, Dependency, DependencyBuilder, DependencyLocation, DependencyLocationView,
    DependencyType, DependencyView,
};
use crate::producer::{file_name_of, parent_of, path_file_name, path_parent};
use crate::properties::{enrich_string_with_properties, enriched, replace_properties, resolved_properties, PropertyMap};
use crate::text::{chars_of, ends_with, has_suffix, eq_ignore_ascii_case, eq_ignore_ascii_case_exec, has_char, push_all, str_eq, string_of, trim, trim_chars};

verus! {

// ---------------------------------------------------------------------
// Scopes and types
// ---------------------------------------------------------------------

/// The scope of a Maven dependency.
#[derive(Clone, Copy, Debug, PartialEq, Eq, Structural)]
pub enum MavenDependencyScope {
    Compile,
    Provided,
    Runtime,
    Test,
    System,
    Import,
}

/// The scope that a `<scope>` value names.
pub open spec fn scope_named(s: Seq<char>) -> Option<MavenDependencyScope> {
    if s == "compile"@ {
        Some(MavenDependencyScope::Compile)
    } else if s == "provided"@ {
        Some(MavenDependencyScope::Provided)
    } else if s == "runtime"@ {
        Some(MavenDependencyScope::Runtime)
    } else if s == "test"@ {
        Some(MavenDependencyScope::Test)
    } else if s == "system"@ {
        Some(MavenDependencyScope::System)
    } else if s == "import"@ {
        Some(MavenDependencyScope::Import)
    } else {
        None
    }
}

impl MavenDependencyScope {
    /// The scope that `s` names, if any.
    pub fn from_name(s: &str) -> (r: Option<MavenDependencyScope>)
        ensures
            r == scope_named(s@),
    {
        if str_eq(s, "compile") {
            Some(MavenDependencyScope::Compile)
        } else if str_eq(s, "provided") {
            Some(MavenDependencyScope::Provided)
        } else if str_eq(s, "runtime") {
            Some(MavenDependencyScope::Runtime)
        } else if str_eq(s, "test") {
            Some(MavenDependencyScope::Test)
        } else if str_eq(s, "system") {
            Some(MavenDependencyScope::System)
        } else if str_eq(s, "import") {
            Some(MavenDependencyScope::Import)
        } else {
            None
        }
    }
}

/// The packaging type of a Maven dependency.
#[derive(Clone, Copy, Debug, PartialEq, Eq, Structural)]
pub enum MavenDependencyType {
    Jar,
    War,
    Ear,
    Pom,
    Ejb,
    Rar,
    MavenPlugin,
    TestJar,
}

/// The type that a `<type>` value names.
pub open spec fn type_named(s: Seq<char>) -> Option<MavenDependencyType> {
    if s == "jar"@ {
        Some(MavenDependencyType::Jar)
    } else if s == "war"@ {
        Some(MavenDependencyType::War)
    } else if s == "ear"@ {
        Some(MavenDependencyType::Ear)
    } else if s == "pom"@ {
        Some(MavenDependencyType::Pom)
    } else if s == "ejb"@ {
        Some(MavenDependencyType::Ejb)
    } else if s == "rar"@ {
        Some(MavenDependencyType::Rar)
    } else if s == "maven-plugin"@ {
        Some(MavenDependencyType::MavenPlugin)
    } else if s == "test-jar"@ {
        Some(MavenDependencyType::TestJar)
    } else {
        None
    }
}

impl MavenDependencyType {
    /// The type that `s` names, if any.
    pub fn from_name(s: &str) -> (r: Option<MavenDependencyType>)
        ensures
            r == type_named(s@),
    {
        if str_eq(s, "jar") {
            Some(MavenDependencyType::Jar)
        } else if str_eq(s, "war") {
            Some(MavenDependencyType::War)
        } else if str_eq(s, "ear") {
            Some(MavenDependencyType::Ear)
        } else if str_eq(s, "pom") {
            Some(MavenDependencyType::Pom)
        } else if str_eq(s, "ejb") {
            Some(MavenDependencyType::Ejb)
        } else if str_eq(s, "rar") {
            Some(MavenDependencyType::Rar)
        } else if str_eq(s, "maven-plugin") {
            Some(MavenDependencyType::MavenPlugin)
        } else if str_eq(s, "test-jar") {
            Some(MavenDependencyType::TestJar)
        } else {
            None
        }
    }
}

// ---------------------------------------------------------------------
// Project coordinates
// ---------------------------------------------------------------------

/// The coordinates of a project.
pub struct MavenProjectInfo {
    pub group_id: Option<String>,
    pub artifact_id: String,
    pub version: Option<String>,
}

pub struct ProjectInfoView {
    pub group_id: Option<Seq<char>>,
    pub artifact_id: Seq<char>,
    pub version: Option<Seq<char>>,
}

impl View for MavenProjectInfo {
    type V = ProjectInfoView;

    open spec fn view(&self) -> ProjectInfoView {
        ProjectInfoView {
            group_id: opt_view(self.group_id),
            artifact_id: self.artifact_id@,
            version: opt_view(self.version),
        }
    }
}

impl Clone for MavenProjectInfo {
    fn clone(&self) -> (r: Self)
        ensures
            r@ == self@,
    {
        MavenProjectInfo {
            group_id: clone_opt_string(&self.group_id),
            artifact_id: self.artifact_id.clone(),
            version: clone_opt_string(&self.version),
        }
    }
}

fn opt_str_eq(a: &Option<String>, b: &Option<String>) -> (r: bool)
    ensures
        r == (opt_view(*a) == opt_view(*b)),
{
    match (a, b) {
        (Some(x), Some(y)) => str_eq(x.as_str(), y.as_str()),
        (None, None) => true,
        _ => false,
    }
}

impl MavenProjectInfo {
    /// Whether both name the same coordinates.
    pub fn same_as(&self, other: &MavenProjectInfo) -> (r: bool)
        ensures
            r == (self@ == other@),
    {
        opt_str_eq(&self.group_id, &other.group_id) && str_eq(
            self.artifact_id.as_str(),
            other.artifact_id.as_str(),
        ) && opt_str_eq(&self.version, &other.version)
    }
}

// ---------------------------------------------------------------------
// Declared dependencies
// ---------------------------------------------------------------------

/// A dependency as a `pom.xml` declares it.
pub struct MavenDependency {
    pub group_id: String,
    pub artifact_id: String,
    pub version: Option<String>,
    pub dep_type: Option<MavenDependencyType>,
    pub scope: Option<MavenDependencyScope>,
    pub location: Option<DependencyLocation>,
}

pub struct MavenDependencyView {
    pub group_id: Seq<char>,
    pub artifact_id: Seq<char>,
    pub version: Option<Seq<char>>,
    pub dep_type: Option<MavenDependencyType>,
    pub scope: Option<MavenDependencyScope>,
    pub location: Option<DependencyLocationView>,
}

impl View for MavenDependency {
    type V = MavenDependencyView;

    open spec fn view(&self) -> MavenDependencyView {
        MavenDependencyView {
            group_id: self.group_id@,
            artifact_id: self.artifact_id@,
            version: opt_view(self.version),
            dep_type: self.dep_type,
            scope: self.scope,
            location: opt_dep_location_view(self.location),
        }
    }
}

impl Clone for MavenDependency {
    fn clone(&self) -> (r: Self)
        ensures
            r@ == self@,
    {
        MavenDependency {
            group_id: self.group_id.clone(),
            artifact_id: self.artifact_id.clone(),
            version: clone_opt_string(&self.version),
            dep_type: self.dep_type,
            scope: self.scope,
            location: clone_opt_dep_location(&self.location),
        }
    }
}

pub open spec fn maven_views(s: Seq<MavenDependency>) -> Seq<MavenDependencyView> {
    s.map_values(|d: MavenDependency| d@)
}

/// A declared dependency with its coordinates resolved against `props` and
/// trimmed; type, scope and location kept.
pub open spec fn enriched_dependency(d: MavenDependencyView, props: Map<Seq<char>, Seq<char>>) -> MavenDependencyView {
    MavenDependencyView {
        group_id: trim(enriched(d.group_id, props)),
        artifact_id: trim(enriched(d.artifact_id, props)),
        version: match d.version {
            Some(v) => Some(trim(enriched(v, props))),
            None => None,
        },
        ..d
    }
}

/// A dependency names a package: its group and artifact are not blank.
pub open spec fn valid_for_sbom(d: MavenDependencyView) -> bool {
    trim(d.group_id).len() > 0 && trim(d.artifact_id).len() > 0
}

/// `pkg:maven/<group>/<artifact>`.
pub open spec fn maven_base_purl(group: Seq<char>, artifact: Seq<char>) -> Seq<char> {
    "pkg:maven/"@ + group + "/"@ + artifact
}

/// The version that a node keeps: the trimmed version, unless it is blank
/// or still holds an unresolved `$` reference.
pub open spec fn kept_version(version: Option<Seq<char>>) -> Option<Seq<char>> {
    match version {
        Some(v) => if trim(v).len() == 0 || trim(v).contains('$') {
            None
        } else {
            Some(trim(v))
        },
        None => None,
    }
}

/// The package URL of a declared dependency: with `@<version>` where a
/// version is kept.
pub open spec fn maven_purl(d: MavenDependencyView) -> Seq<char> {
    let base = maven_base_purl(trim(d.group_id), trim(d.artifact_id));
    match kept_version(d.version) {
        Some(v) => base + "@"@ + v,
        None => base,
    }
}

/// The node that a declared dependency becomes under the scope `salt`.
pub open spec fn isolated_dependency(d: MavenDependencyView, salt: Seq<char>) -> DependencyView {
    let valid = fixed_purl(maven_purl(d));
    built(
        BuilderView {
            group: Some(trim(d.group_id)),
            kind: DependencyType::Library,
            name: Some(trim(d.artifact_id)),
            version: kept_version(d.version),
            purl: Some(valid),
            instance_id: Some(instance_id(valid, salt)),
            dependencies: Seq::empty(),
            location: d.location,
        },
    )
}

/// The scope a dependency lends to its own node: the file of its location,
/// else `maven-fallback-pom`.
pub open spec fn fallback_salt(d: MavenDependencyView) -> Seq<char> {
    match d.location {
        Some(l) => l.block.file,
        None => "maven-fallback-pom"@,
    }
}

fn trimmed(s: &str) -> (r: String)
    ensures
        r@ == trim(s@),
{
    string_of(&trim_chars(&chars_of(s)))
}

impl MavenDependency {
    /// Resolves the property references in the coordinates (see
    /// [`enriched_dependency`]).
    pub fn enrich(&self, properties: &PropertyMap) -> (r: Self)
        ensures
            r@ == enriched_dependency(self@, properties@),
    {
        let group_id = trimmed(enrich_string_with_properties(self.group_id.as_str(), properties).as_str());
        let artifact_id = trimmed(
            enrich_string_with_properties(self.artifact_id.as_str(), properties).as_str(),
        );
        let version = match &self.version {
            Some(v) => Some(trimmed(enrich_string_with_properties(v.as_str(), properties).as_str())),
            None => None,
        };
        MavenDependency {
            group_id,
            artifact_id,
            version,
            dep_type: self.dep_type,
            scope: self.scope,
            location: clone_opt_dep_location(&self.location),
        }
    }

    /// Whether the group and the artifact are both non-blank.
    pub fn is_valid_for_sbom(&self) -> (r: bool)
        ensures
            r == valid_for_sbom(self@),
    {
        trim_chars(&chars_of(self.group_id.as_str())).len() > 0 && trim_chars(
            &chars_of(self.artifact_id.as_str()),
        ).len() > 0
    }

    /// The node of this dependency, identified under the scope `file_salt`
    /// (see [`isolated_dependency`]).
    pub fn to_isolated_dependency(&self, file_salt: &str) -> (r: Dependency)
        ensures
            r@ == isolated_dependency(self@, file_salt@),
    {
        let group_clean = trim_chars(&chars_of(self.group_id.as_str()));
        let name_clean = trim_chars(&chars_of(self.artifact_id.as_str()));
        let mut purl = chars_of("pkg:maven/");
        push_all(&mut purl, &group_clean);
        purl.push('/');
        push_all(&mut purl, &name_clean);
        proof {
            reveal_strlit("pkg:maven/");
            reveal_strlit("/");
            assert(purl@ =~= maven_base_purl(group_clean@, name_clean@));
        }
        let version_opt: Option<String> = match &self.version {
            Some(raw) => {
                let clean = trim_chars(&chars_of(raw.as_str()));
                if clean.len() == 0 || has_char(&clean, '$') {
                    None
                } else {
                    let ghost base = purl@;
                    purl.push('@');
                    push_all(&mut purl, &clean);
                    proof {
                        reveal_strlit("@");
                        assert(purl@ =~= base + "@"@ + clean@);
                    }
                    Some(string_of(&clean))
                }
            },
            None => None,
        };
        assert(opt_view(version_opt) == kept_version(self@.version));
        assert(purl@ == maven_purl(self@));
        let valid_purl = Dependency::auto_fix_and_validate_purl(string_of(&purl).as_str());
        let id = make_instance_id(valid_purl.as_str(), file_salt);
        let builder = DependencyBuilder::default().group(Some(string_of(&group_clean))).name(
            string_of(&name_clean),
        ).version(version_opt).location(clone_opt_dep_location(&self.location)).dep_type(
            DependencyType::Library,
        ).purl(valid_purl).instance_id(id);
        let e: Vec<String> = Vec::new();
        assert(e.deep_view() =~= Seq::<Seq<char>>::empty());
        assert(builder@.dependencies == Seq::<Seq<char>>::empty());
        match builder.build() {
            Ok(d) => d,
            Err(_) => {
                assert(false);
                Dependency::default()
            },
        }
    }

    /// The node of this dependency, identified under the file of its
    /// location, or `maven-fallback-pom` where it has none.
    pub fn to_dependency(&self) -> (r: Dependency)
        ensures
            r@ == isolated_dependency(self@, fallback_salt(self@)),
    {
        match &self.location {
            Some(l) => self.to_isolated_dependency(l.block.file.as_str()),
            None => self.to_isolated_dependency("maven-fallback-pom"),
        }
    }
}

// ---------------------------------------------------------------------
// Files and their parents
// ---------------------------------------------------------------------

/// The `<parent>` element of a `pom.xml`.
pub struct MavenFileParent {
    pub relative_path: Option<String>,
    pub group_id: Option<String>,
    pub artifact_id: Option<String>,
    pub version: Option<String>,
}

pub struct ParentView {
    pub relative_path: Option<Seq<char>>,
    pub group_id: Option<Seq<char>>,
    pub artifact_id: Option<Seq<char>>,
    pub version: Option<Seq<char>>,
}

impl View for MavenFileParent {
    type V = ParentView;

    open spec fn view(&self) -> ParentView {
        ParentView {
            relative_path: opt_view(self.relative_path),
            group_id: opt_view(self.group_id),
            artifact_id: opt_view(self.artifact_id),
            version: opt_view(self.version),
        }
    }
}

impl Clone for MavenFileParent {
    fn clone(&self) -> (r: Self)
        ensures
            r@ == self@,
    {
        MavenFileParent {
            relative_path: clone_opt_string(&self.relative_path),
            group_id: clone_opt_string(&self.group_id),
            artifact_id: clone_opt_string(&self.artifact_id),
            version: clone_opt_string(&self.version),
        }
    }
}

/// What a `pom.xml` declares. `parent_path` is where its `<relativePath>`
/// leads, relative to the scanned directory (with `pom.xml` appended to a
/// directory), where that file exists.
pub struct MavenFile {
    pub project_info: MavenProjectInfo,
    pub path: String,
    pub properties: PropertyMap,
    pub dependency_management: Vec<MavenDependency>,
    pub dependencies: Vec<MavenDependency>,
    pub parent: Option<MavenFileParent>,
    pub parent_path: Option<String>,
}

pub struct MavenFileView {
    pub project_info: ProjectInfoView,
    pub path: Seq<char>,
    pub properties: Map<Seq<char>, Seq<char>>,
    pub dependency_management: Seq<MavenDependencyView>,
    pub dependencies: Seq<MavenDependencyView>,
    pub parent: Option<ParentView>,
    pub parent_path: Option<Seq<char>>,
}

pub open spec fn opt_parent_view(o: Option<MavenFileParent>) -> Option<ParentView> {
    match o {
        Some(p) => Some(p@),
        None => None,
    }
}

impl View for MavenFile {
    type V = MavenFileView;

    open spec fn view(&self) -> MavenFileView {
        MavenFileView {
            project_info: self.project_info@,
            path: self.path@,
            properties: self.properties@,
            dependency_management: maven_views(self.dependency_management@),
            dependencies: maven_views(self.dependencies@),
            parent: opt_parent_view(self.parent),
            parent_path: opt_view(self.parent_path),
        }
    }
}

fn clone_dependencies(v: &Vec<MavenDependency>) -> (r: Vec<MavenDependency>)
    ensures
        maven_views(r@) == maven_views(v@),
{
    let mut r: Vec<MavenDependency> = Vec::new();
    let mut i: usize = 0;
    while i < v.len()
        invariant
            i <= v.len(),
            maven_views(r@) == maven_views(v@.take(i as int)),
        decreases v.len() - i,
    {
        let ghost before = maven_views(r@);
        r.push(v[i].clone());
        assert(maven_views(r@) =~= before.push(v@[i as int]@));
        assert(maven_views(v@.take(i + 1)) =~= maven_views(v@.take(i as int)).push(v@[i as int]@));
        i = i + 1;
    }
    assert(v@.take(v.len() as int) =~= v@);
    r
}

impl Clone for MavenFile {
    fn clone(&self) -> (r: Self)
        ensures
            r@ == self@,
    {
        MavenFile {
            project_info: self.project_info.clone(),
            path: self.path.clone(),
            properties: self.properties.copy(),
            dependency_management: clone_dependencies(&self.dependency_management),
            dependencies: clone_dependencies(&self.dependencies),
            parent: match &self.parent {
                Some(p) => Some(p.clone()),
                None => None,
            },
            parent_path: clone_opt_string(&self.parent_path),
        }
    }
}

// ---------------------------------------------------------------------
// The set of files
// ---------------------------------------------------------------------

/// The files of one scan, in the order they were added.
pub struct MavenProducerContext {
    pub base_path: String,
    pub files: Vec<MavenFile>,
}

pub open spec fn file_views(s: Seq<MavenFile>) -> Seq<MavenFileView> {
    s.map_values(|f: MavenFile| f@)
}

/// The index of the last file whose path is `path`.
pub open spec fn file_at(files: Seq<MavenFileView>, path: Seq<char>) -> Option<int>
    decreases files.len(),
{
    if files.len() == 0 {
        None
    } else if files.last().path == path {
        Some(files.len() - 1)
    } else {
        file_at(files.drop_last(), path)
    }
}

/// The index of the last file with the coordinates `info`.
pub open spec fn file_with_info(files: Seq<MavenFileView>, info: ProjectInfoView) -> Option<int>
    decreases files.len(),
{
    if files.len() == 0 {
        None
    } else if files.last().project_info == info {
        Some(files.len() - 1)
    } else {
        file_with_info(files.drop_last(), info)
    }
}

proof fn lemma_file_at(files: Seq<MavenFileView>, path: Seq<char>)
    ensures
        file_at(files, path) matches Some(k) ==> 0 <= k < files.len(),
    decreases files.len(),
{
    if files.len() > 0 && files.last().path != path {
        lemma_file_at(files.drop_last(), path);
    }
}

proof fn lemma_file_with_info(files: Seq<MavenFileView>, info: ProjectInfoView)
    ensures
        file_with_info(files, info) matches Some(k) ==> 0 <= k < files.len(),
    decreases files.len(),
{
    if files.len() > 0 && files.last().project_info != info {
        lemma_file_with_info(files.drop_last(), info);
    }
}

impl MavenProducerContext {
    pub fn new(base_path: String) -> (r: Self)
        ensures
            r.base_path == base_path,
            r.files@.len() == 0,
    {
        MavenProducerContext { base_path, files: Vec::new() }
    }

    /// Adds a copy of `file`.
    pub fn add_maven_file(&mut self, file: &MavenFile)
        ensures
            final(self).base_path == old(self).base_path,
            file_views(final(self).files@) == file_views(old(self).files@).push(file@),
    {
        let ghost before = file_views(self.files@);
        self.files.push(file.clone());
        assert(file_views(self.files@) =~= before.push(file@));
    }

    /// The files, in the order they were added.
    pub fn get_all_files(&self) -> (r: &Vec<MavenFile>)
        ensures
            r == &self.files,
    {
        &self.files
    }

    /// The last file added with the path `path`.
    pub fn get_maven_file_by_path(&self, path: &str) -> (r: Option<usize>)
        ensures
            match r {
                Some(k) => file_at(file_views(self.files@), path@) == Some(k as int),
                None => file_at(file_views(self.files@), path@) is None,
            },
    {
        let ghost vs = file_views(self.files@);
        let mut i = self.files.len();
        assert(vs.take(i as int) =~= vs);
        while i > 0
            invariant
                i <= self.files.len(),
                vs == file_views(self.files@),
                file_at(vs, path@) == file_at(vs.take(i as int), path@),
            decreases i,
        {
            assert(vs.take(i as int).drop_last() =~= vs.take(i - 1));
            assert(vs.take(i as int).last() == self.files@[i - 1]@);
            if str_eq(self.files[i - 1].path.as_str(), path) {
                return Some(i - 1);
            }
            i = i - 1;
        }
        None
    }

    /// The last file added with the coordinates `info`.
    pub fn get_maven_file_by_project_info(&self, info: &MavenProjectInfo) -> (r: Option<usize>)
        ensures
            match r {
                Some(k) => file_with_info(file_views(self.files@), info@) == Some(k as int),
                None => file_with_info(file_views(self.files@), info@) is None,
            },
    {
        let ghost vs = file_views(self.files@);
        let mut i = self.files.len();
        assert(vs.take(i as int) =~= vs);
        while i > 0
            invariant
                i <= self.files.len(),
                vs == file_views(self.files@),
                file_with_info(vs, info@) == file_with_info(vs.take(i as int), info@),
            decreases i,
        {
            assert(vs.take(i as int).drop_last() =~= vs.take(i - 1));
            assert(vs.take(i as int).last() == self.files@[i - 1]@);
            if self.files[i - 1].project_info.same_as(info) {
                return Some(i - 1);
            }
            i = i - 1;
        }
        None
    }
}

// ---------------------------------------------------------------------
// Parent paths
// ---------------------------------------------------------------------

/// What `PathBuf::push` makes of `base` with `segment` pushed onto it.
pub uninterp spec fn path_pushed(base: Seq<char>, segment: Seq<char>) -> Seq<char>;

/// What `Path::strip_prefix` leaves of `path` once `base` is taken off its
/// front; `None` where `base` is not a prefix of it.
pub uninterp spec fn path_stripped(path: Seq<char>, base: Seq<char>) -> Option<Seq<char>>;

/// `PathBuf::push`: `base` with `segment` pushed onto it, as a string.
#[verifier::external_body]
fn push_path(base: &str, segment: &str) -> (r: String)
    ensures
        r@ == path_pushed(base@, segment@),
{
    let mut p = PathBuf::from(base);
    p.push(segment);
    p.to_string_lossy().into_owned()
}

/// `Path::strip_prefix`: what is left of `path` after `base`, as a string.
#[verifier::external_body]
fn strip_path_prefix(path: &str, base: &str) -> (r: Option<String>)
    ensures
        match r {
            Some(s) => path_stripped(path@, base@) == Some(s@),
            None => path_stripped(path@, base@) is None,
        },
{
    Path::new(path).strip_prefix(base).ok().map(|p| p.to_string_lossy().into_owned())
}

/// Where a file's parent is looked for, before the file system resolves
/// it: the file's directory with `<relativePath>` pushed onto it.
pub open spec fn parent_candidate(f: MavenFileView) -> Option<Seq<char>> {
    match f.parent {
        Some(p) => match (p.relative_path, path_parent(f.path)) {
            (Some(rel), Some(dir)) => Some(path_pushed(dir, rel)),
            _ => None,
        },
        None => None,
    }
}

/// The parent's `pom.xml` relative to the project root, given the resolved
/// candidate and the resolved root: the candidate with the root taken off
/// its front, and `pom.xml` pushed onto it where `<relativePath>` names a
/// directory.
pub open spec fn parent_pom_path(f: MavenFileView, full: Seq<char>, base: Seq<char>) -> Option<Seq<char>> {
    match f.parent {
        Some(p) => match p.relative_path {
            Some(rel) => match path_stripped(full, base) {
                Some(r) => if has_suffix(rel, "pom.xml"@) {
                    Some(r)
                } else {
                    Some(path_pushed(r, "pom.xml"@))
                },
                None => None,
            },
            None => None,
        },
        None => None,
    }
}

impl MavenFile {
    /// The path to resolve for the parent (see [`parent_candidate`]); the
    /// file system then turns it and the project root into canonical paths
    /// for [`MavenFile::get_parent_file_path`].
    pub fn parent_candidate(&self) -> (r: Option<String>)
        ensures
            opt_view(r) == parent_candidate(self@),
    {
        match &self.parent {
            Some(p) => match &p.relative_path {
                Some(rel) => match parent_of(self.path.as_str()) {
                    Some(dir) => Some(push_path(dir.as_str(), rel.as_str())),
                    None => None,
                },
                None => None,
            },
            None => None,
        }
    }

    /// The parent's `pom.xml` relative to the project root (see
    /// [`parent_pom_path`]), from the canonical forms of the candidate and
    /// of the root.
    pub fn get_parent_file_path(&self, full_path: &str, base_path: &str) -> (r: Option<String>)
        ensures
            opt_view(r) == parent_pom_path(self@, full_path@, base_path@),
    {
        let rel = match &self.parent {
            Some(p) => match &p.relative_path {
                Some(rel) => rel,
                None => {
                    return None;
                },
            },
            None => {
                return None;
            },
        };
        match strip_path_prefix(full_path, base_path) {
            Some(r) => {
                let suffix = chars_of("pom.xml");
                proof {
                    reveal_strlit("pom.xml");
                }
                if ends_with(&chars_of(rel.as_str()), &suffix) {
                    Some(r)
                } else {
                    Some(push_path(r.as_str(), "pom.xml"))
                }
            },
            None => None,
        }
    }
}

// ---------------------------------------------------------------------
// Inheritance
// ---------------------------------------------------------------------

/// The parent whose properties a file inherits: the file at its parent
/// path where it has one; else, where the parent element names a group,
/// an artifact and a version, the file with those coordinates.
pub open spec fn property_parent(files: Seq<MavenFileView>, f: MavenFileView) -> Option<int> {
    match f.parent_path {
        Some(pp) => file_at(files, pp),
        None => match f.parent {
            Some(p) => match (p.group_id, p.artifact_id, p.version) {
                (Some(g), Some(a), Some(v)) => file_with_info(
                    files,
                    ProjectInfoView { group_id: Some(g), artifact_id: a, version: Some(v) },
                ),
                _ => None,
            },
            None => None,
        },
    }
}

/// The file that the parent element's coordinates name (its artifact, with
/// its group and version as given).
pub open spec fn info_parent(files: Seq<MavenFileView>, f: MavenFileView) -> Option<int> {
    match f.parent {
        Some(p) => match p.artifact_id {
            Some(a) => file_with_info(
                files,
                ProjectInfoView { group_id: p.group_id, artifact_id: a, version: p.version },
            ),
            None => None,
        },
        None => None,
    }
}

/// The parent whose dependency management a file inherits: the file at its
/// parent path where it has one, else the file its parent's coordinates
/// name.
pub open spec fn management_parent(files: Seq<MavenFileView>, f: MavenFileView) -> Option<int> {
    match f.parent_path {
        Some(pp) => file_at(files, pp),
        None => info_parent(files, f),
    }
}

/// A file's properties over those it inherits, following at most `fuel`
/// parents (the number of files suffices where no file is its own
/// ancestor). What a parent passes on is its own full set, already
/// resolved (see [`all_properties`]).
pub open spec fn inherited_properties(files: Seq<MavenFileView>, f: MavenFileView, fuel: nat) -> Map<
    Seq<char>,
    Seq<char>,
>
    decreases fuel,
{
    if fuel == 0 {
        f.properties
    } else {
        match property_parent(files, f) {
            Some(k) => if 0 <= k < files.len() {
                resolved_properties(
                    inherited_properties(files, files[k], (fuel - 1) as nat),
                ).union_prefer_right(f.properties)
            } else {
                f.properties
            },
            None => f.properties,
        }
    }
}

/// The inherited dependency management, farthest ancestor first, then the
/// file's own, following at most `fuel` parents.
pub open spec fn inherited_management(files: Seq<MavenFileView>, f: MavenFileView, fuel: nat) -> Seq<
    MavenDependencyView,
>
    decreases fuel,
{
    if fuel == 0 {
        f.dependency_management
    } else {
        match management_parent(files, f) {
            Some(k) => if 0 <= k < files.len() {
                inherited_management(files, files[k], (fuel - 1) as nat) + f.dependency_management
            } else {
                f.dependency_management
            },
            None => f.dependency_management,
        }
    }
}

/// A file's properties, inherited ones included, each resolved against all.
pub open spec fn all_properties(files: Seq<MavenFileView>, f: MavenFileView) -> Map<Seq<char>, Seq<char>> {
    resolved_properties(inherited_properties(files, f, files.len()))
}

/// A file's dependency management, inherited entries first.
pub open spec fn all_management(files: Seq<MavenFileView>, f: MavenFileView) -> Seq<MavenDependencyView> {
    inherited_management(files, f, files.len())
}

fn property_parent_exec(ctx: &MavenProducerContext, f: &MavenFile) -> (r: Option<usize>)
    ensures
        match r {
            Some(k) => property_parent(file_views(ctx.files@), f@) == Some(k as int) && k
                < ctx.files.len(),
            None => property_parent(file_views(ctx.files@), f@) is None,
        },
{
    let ghost vs = file_views(ctx.files@);
    match &f.parent_path {
        Some(pp) => {
            let r = ctx.get_maven_file_by_path(pp.as_str());
            proof {
                lemma_file_at(vs, pp@);
            }
            r
        },
        None => match &f.parent {
            Some(p) => match (&p.group_id, &p.artifact_id, &p.version) {
                (Some(g), Some(a), Some(v)) => {
                    let key = MavenProjectInfo {
                        artifact_id: a.clone(),
                        group_id: Some(g.clone()),
                        version: Some(v.clone()),
                    };
                    let r = ctx.get_maven_file_by_project_info(&key);
                    proof {
                        lemma_file_with_info(vs, key@);
                    }
                    r
                },
                _ => None,
            },
            None => None,
        },
    }
}

fn info_parent_exec(ctx: &MavenProducerContext, f: &MavenFile) -> (r: Option<usize>)
    ensures
        match r {
            Some(k) => info_parent(file_views(ctx.files@), f@) == Some(k as int) && k
                < ctx.files.len(),
            None => info_parent(file_views(ctx.files@), f@) is None,
        },
{
    let ghost vs = file_views(ctx.files@);
    match &f.parent {
        Some(p) => match &p.artifact_id {
            Some(a) => {
                let key = MavenProjectInfo {
                    artifact_id: a.clone(),
                    group_id: clone_opt_string(&p.group_id),
                    version: clone_opt_string(&p.version),
                };
                let r = ctx.get_maven_file_by_project_info(&key);
                proof {
                    lemma_file_with_info(vs, key@);
                }
                r
            },
            None => None,
        },
        None => None,
    }
}

fn management_parent_exec(ctx: &MavenProducerContext, f: &MavenFile) -> (r: Option<usize>)
    ensures
        match r {
            Some(k) => management_parent(file_views(ctx.files@), f@) == Some(k as int) && k
                < ctx.files.len(),
            None => management_parent(file_views(ctx.files@), f@) is None,
        },
{
    let ghost vs = file_views(ctx.files@);
    match &f.parent_path {
        Some(pp) => {
            let r = ctx.get_maven_file_by_path(pp.as_str());
            proof {
                lemma_file_at(vs, pp@);
            }
            r
        },
        None => info_parent_exec(ctx, f),
    }
}

fn inherited_properties_exec(ctx: &MavenProducerContext, f: &MavenFile, fuel: usize) -> (r:
    PropertyMap)
    ensures
        r@ == inherited_properties(file_views(ctx.files@), f@, fuel as nat),
    decreases fuel,
{
    if fuel == 0 {
        return f.properties.copy();
    }
    match property_parent_exec(ctx, f) {
        Some(k) => {
            let parent = inherited_properties_exec(ctx, &ctx.files[k], fuel - 1);
            assert(file_views(ctx.files@)[k as int] == ctx.files@[k as int]@);
            let mut res = replace_properties(&parent);
            res.extend(&f.properties);
            res
        },
        None => f.properties.copy(),
    }
}

fn inherited_management_exec(ctx: &MavenProducerContext, f: &MavenFile, fuel: usize) -> (r: Vec<
    MavenDependency,
>)
    ensures
        maven_views(r@) == inherited_management(file_views(ctx.files@), f@, fuel as nat),
    decreases fuel,
{
    if fuel == 0 {
        return clone_dependencies(&f.dependency_management);
    }
    match management_parent_exec(ctx, f) {
        Some(k) => {
            let mut res = inherited_management_exec(ctx, &ctx.files[k], fuel - 1);
            assert(file_views(ctx.files@)[k as int] == ctx.files@[k as int]@);
            let ghost before = maven_views(res@);
            let mut own = clone_dependencies(&f.dependency_management);
            let ghost added = maven_views(own@);
            res.append(&mut own);
            assert(maven_views(res@) =~= before + added);
            res
        },
        None => clone_dependencies(&f.dependency_management),
    }
}

/// The first managed entry with the artifact and the group of `d`.
pub open spec fn first_managed(mgmt: Seq<MavenDependencyView>, d: MavenDependencyView) -> Option<int>
    decreases mgmt.len(),
{
    if mgmt.len() == 0 {
        None
    } else {
        match first_managed(mgmt.drop_last(), d) {
            Some(i) => Some(i),
            None => if mgmt.last().artifact_id == d.artifact_id && mgmt.last().group_id
                == d.group_id {
                Some(mgmt.len() - 1)
            } else {
                None
            },
        }
    }
}

/// What a declared dependency reports: the managed entry for it where it
/// has no version of its own and one is managed, else itself; resolved
/// against the properties; dropped where its group or artifact is blank.
pub open spec fn sbom_dependency(
    mgmt: Seq<MavenDependencyView>,
    props: Map<Seq<char>, Seq<char>>,
    d: MavenDependencyView,
) -> Option<MavenDependencyView> {
    let target = if d.version is None {
        match first_managed(mgmt, d) {
            Some(i) => mgmt[i],
            None => d,
        }
    } else {
        d
    };
    let e = enriched_dependency(target, props);
    if valid_for_sbom(e) {
        Some(e)
    } else {
        None
    }
}

pub open spec fn sbom_dependencies_of(
    mgmt: Seq<MavenDependencyView>,
    props: Map<Seq<char>, Seq<char>>,
    deps: Seq<MavenDependencyView>,
) -> Seq<MavenDependencyView>
    decreases deps.len(),
{
    if deps.len() == 0 {
        Seq::empty()
    } else {
        let rest = sbom_dependencies_of(mgmt, props, deps.drop_last());
        match sbom_dependency(mgmt, props, deps.last()) {
            Some(e) => rest.push(e),
            None => rest,
        }
    }
}

/// The dependencies that a file reports.
pub open spec fn sbom_dependencies(files: Seq<MavenFileView>, f: MavenFileView) -> Seq<MavenDependencyView> {
    sbom_dependencies_of(all_management(files, f), all_properties(files, f), f.dependencies)
}

proof fn lemma_first_managed(mgmt: Seq<MavenDependencyView>, d: MavenDependencyView)
    ensures
        first_managed(mgmt, d) matches Some(i) ==> 0 <= i < mgmt.len(),
    decreases mgmt.len(),
{
    if mgmt.len() > 0 {
        lemma_first_managed(mgmt.drop_last(), d);
    }
}

fn first_managed_exec(mgmt: &Vec<MavenDependency>, d: &MavenDependency) -> (r: Option<usize>)
    ensures
        match r {
            Some(i) => first_managed(maven_views(mgmt@), d@) == Some(i as int) && i < mgmt.len(),
            None => first_managed(maven_views(mgmt@), d@) is None,
        },
{
    let ghost vs = maven_views(mgmt@);
    let mut i: usize = 0;
    assert(vs.take(0) =~= Seq::<MavenDependencyView>::empty());
    while i < mgmt.len()
        invariant
            i <= mgmt.len(),
            vs == maven_views(mgmt@),
            first_managed(vs.take(i as int), d@) is None,
        decreases mgmt.len() - i,
    {
        assert(vs.take(i + 1).drop_last() =~= vs.take(i as int));
        assert(vs.take(i + 1).last() == mgmt@[i as int]@);
        if str_eq(mgmt[i].artifact_id.as_str(), d.artifact_id.as_str()) && str_eq(
            mgmt[i].group_id.as_str(),
            d.group_id.as_str(),
        ) {
            proof {
                lemma_first_managed_prefix(vs, d@, i + 1);
            }
            return Some(i);
        }
        i = i + 1;
    }
    assert(vs.take(mgmt.len() as int) =~= vs);
    None
}

proof fn lemma_first_managed_prefix(vs: Seq<MavenDependencyView>, d: MavenDependencyView, k: int)
    requires
        0 < k <= vs.len(),
        first_managed(vs.take(k), d) is Some,
    ensures
        first_managed(vs, d) == first_managed(vs.take(k), d),
    decreases vs.len() - k,
{
    if k == vs.len() {
        assert(vs.take(k) =~= vs);
    } else {
        assert(vs.take(k + 1).drop_last() =~= vs.take(k));
        lemma_first_managed_prefix(vs, d, k + 1);
    }
}

impl MavenFile {
    /// The file its parent's coordinates name, if added.
    pub fn get_parent_by_project_info(&self, context: &MavenProducerContext) -> (r: Option<
        MavenFile,
    >)
        ensures
            match r {
                Some(m) => exists|k: int|
                    info_parent(file_views(context.files@), self@) == Some(k) && 0 <= k
                        < context.files.len() && m@ == #[trigger] context.files@[k]@,
                None => info_parent(file_views(context.files@), self@) is None,
            },
    {
        match info_parent_exec(context, self) {
            Some(k) => Some(context.files[k].clone()),
            None => None,
        }
    }

    /// The file's properties with those it inherits, each resolved against
    /// all of them (see [`all_properties`]).
    pub fn get_all_properties(&self, context: &MavenProducerContext) -> (r: PropertyMap)
        ensures
            r@ == all_properties(file_views(context.files@), self@),
    {
        let raw = inherited_properties_exec(context, self, context.files.len());
        replace_properties(&raw)
    }

    /// The inherited dependency management, then the file's own (see
    /// [`all_management`]).
    pub fn get_all_dependencies_from_dependency_management(&self, context: &MavenProducerContext) -> (r:
        Vec<MavenDependency>)
        ensures
            maven_views(r@) == all_management(file_views(context.files@), self@),
    {
        inherited_management_exec(context, self, context.files.len())
    }

    /// The dependencies that the file reports (see [`sbom_dependencies`]).
    pub fn get_dependencies_for_sbom(&self, context: &MavenProducerContext) -> (r: Vec<
        MavenDependency,
    >)
        ensures
            maven_views(r@) == sbom_dependencies(file_views(context.files@), self@),
    {
        let ghost files = file_views(context.files@);
        let properties = self.get_all_properties(context);
        let dep_mgmt = self.get_all_dependencies_from_dependency_management(context);
        let ghost deps = maven_views(self.dependencies@);
        let mut res: Vec<MavenDependency> = Vec::new();
        let mut i: usize = 0;
        assert(deps.take(0) =~= Seq::<MavenDependencyView>::empty());
        assert(maven_views(res@) =~= Seq::<MavenDependencyView>::empty());
        while i < self.dependencies.len()
            invariant
                i <= self.dependencies.len(),
                deps == maven_views(self.dependencies@),
                properties@ == all_properties(files, self@),
                maven_views(dep_mgmt@) == all_management(files, self@),
                maven_views(res@) == sbom_dependencies_of(
                    maven_views(dep_mgmt@),
                    properties@,
                    deps.take(i as int),
                ),
            decreases self.dependencies.len() - i,
        {
            assert(deps.take(i + 1).drop_last() =~= deps.take(i as int));
            assert(deps.take(i + 1).last() == self.dependencies@[i as int]@);
            let dep = &self.dependencies[i];
            let enriched = if dep.version.is_none() {
                match first_managed_exec(&dep_mgmt, dep) {
                    Some(k) => {
                        assert(maven_views(dep_mgmt@)[k as int] == dep_mgmt@[k as int]@);
                        dep_mgmt[k].enrich(&properties)
                    },
                    None => dep.enrich(&properties),
                }
            } else {
                dep.enrich(&properties)
            };
            if enriched.is_valid_for_sbom() {
                let ghost before = maven_views(res@);
                let ghost ev = enriched@;
                res.push(enriched);
                assert(maven_views(res@) =~= before.push(ev));
            }
            i = i + 1;
        }
        assert(deps.take(self.dependencies.len() as int) =~= deps);
        res
    }
}

// ---------------------------------------------------------------------
// The producer
// ---------------------------------------------------------------------

/// Reads `pom.xml` files.
pub struct MavenProducer {}

/// The nodes of the dependencies that one file reports.
pub open spec fn file_nodes(files: Seq<MavenFileView>, f: MavenFileView) -> Seq<DependencyView> {
    sbom_dependencies(files, f).map_values(|d: MavenDependencyView| isolated_dependency(d, fallback_salt(d)))
}

/// The nodes of the first `k` files, file after file.
pub open spec fn files_nodes(files: Seq<MavenFileView>, k: int) -> Seq<DependencyView>
    decreases k,
{
    if k <= 0 || k > files.len() {
        Seq::empty()
    } else {
        files_nodes(files, k - 1) + file_nodes(files, files[k - 1])
    }
}

/// What the static analysis of a set of files reports: the nodes of every
/// file, resolved against all of them.
pub open spec fn static_graph(files: Seq<MavenFileView>) -> Seq<DependencyView> {
    files_nodes(files, files.len() as int)
}

/// What the producer reports for `paths` project files (parsed into
/// `files`): nothing for no paths; the tool's graph where it produced one
/// that is not empty; else the static graph of the files.
pub open spec fn maven_outcome(
    paths: nat,
    files: Seq<MavenFileView>,
    cli: Option<Seq<DependencyView>>,
) -> Seq<DependencyView> {
    if paths == 0 {
        Seq::empty()
    } else {
        match cli {
            Some(g) => if g.len() > 0 {
                g
            } else {
                static_graph(files)
            },
            None => static_graph(files),
        }
    }
}

impl MavenProducer {
    /// A file is a Maven project file when its name is `pom.xml`, in any
    /// case.
    pub fn use_file(&self, path: &str) -> (r: bool)
        ensures
            r == (path_file_name(path@) matches Some(n) && eq_ignore_ascii_case(n, "pom.xml"@)),
    {
        match file_name_of(path) {
            Some(n) => eq_ignore_ascii_case_exec(&chars_of(n.as_str()), &chars_of("pom.xml")),
            None => false,
        }
    }

    /// Adds every file to one context, then reports the dependencies of
    /// each, resolved against the whole set (see [`static_graph`]).
    pub fn find_dependencies_via_static(&self, files: &Vec<MavenFile>, base_path: &str) -> (r: Vec<
        Dependency,
    >)
        ensures
            dep_views(r@) == static_graph(file_views(files@)),
    {
        let mut context = MavenProducerContext::new(string_of(&chars_of(base_path)));
        let mut i: usize = 0;
        while i < files.len()
            invariant
                i <= files.len(),
                file_views(context.files@) == file_views(files@.take(i as int)),
            decreases files.len() - i,
        {
            context.add_maven_file(&files[i]);
            assert(file_views(files@.take(i + 1)) =~= file_views(files@.take(i as int)).push(
                files@[i as int]@,
            ));
            i = i + 1;
        }
        assert(files@.take(files.len() as int) =~= files@);
        let ghost fv = file_views(context.files@);
        let all = context.get_all_files();
        let mut result: Vec<Dependency> = Vec::new();
        let mut k: usize = 0;
        assert(dep_views(result@) =~= files_nodes(fv, 0));
        while k < all.len()
            invariant
                k <= all.len(),
                all == &context.files,
                fv == file_views(context.files@),
                dep_views(result@) == files_nodes(fv, k as int),
            decreases all.len() - k,
        {
            let f = &all[k];
            assert(fv[k as int] == f@);
            let deps = f.get_dependencies_for_sbom(&context);
            let ghost ds = maven_views(deps@);
            let ghost before = dep_views(result@);
            let mut j: usize = 0;
            while j < deps.len()
                invariant
                    j <= deps.len(),
                    ds == maven_views(deps@),
                    dep_views(result@) == before + ds.take(j as int).map_values(
                        |d: MavenDependencyView| isolated_dependency(d, fallback_salt(d)),
                    ),
                decreases deps.len() - j,
            {
                let node = deps[j].to_dependency();
                let ghost mid = dep_views(result@);
                result.push(node);
                assert(dep_views(result@) =~= mid.push(node@));
                assert(ds.take(j + 1).map_values(
                    |d: MavenDependencyView| isolated_dependency(d, fallback_salt(d)),
                ) =~= ds.take(j as int).map_values(
                    |d: MavenDependencyView| isolated_dependency(d, fallback_salt(d)),
                ).push(isolated_dependency(ds[j as int], fallback_salt(ds[j as int]))));
                assert(deps@[j as int]@ == ds[j as int]);
                j = j + 1;
            }
            assert(ds.take(deps.len() as int) =~= ds);
            assert(ds == sbom_dependencies(fv, fv[k as int]));
            k = k + 1;
        }
        result
    }

    /// The dependencies of a set of `pom.xml` files (`paths`, parsed into
    /// `files`): the graph that the Maven command reported (`cli`) where it
    /// is not empty, else the static analysis of the files (see
    /// [`maven_outcome`]).
    pub fn find_dependencies(
        &self,
        paths: &Vec<String>,
        files: &Vec<MavenFile>,
        base_path: &str,
        cli: Option<Vec<Dependency>>,
    ) -> (r: Vec<Dependency>)
        ensures
            dep_views(r@) == maven_outcome(
                paths.len() as nat,
                file_views(files@),
                match cli {
                    Some(g) => Some(dep_views(g@)),
                    None => None,
                },
            ),
    {
        if paths.len() == 0 {
            let e: Vec<Dependency> = Vec::new();
            assert(dep_views(e@) =~= Seq::<DependencyView>::empty());
            return e;
        }
        match cli {
            Some(g) => {
                if g.len() > 0 {
                    g
                } else {
                    self.find_dependencies_via_static(files, base_path)
                }
            },
            None => self.find_dependencies_via_static(files, base_path),
        }
    }
}

// ---------------------------------------------------------------------
// Laws
// ---------------------------------------------------------------------

/// A file's own property overrides an inherited one of the same name.
pub proof fn law_own_properties_win(files: Seq<MavenFileView>, f: MavenFileView, fuel: nat, key: Seq<char>)
    requires
        f.properties.contains_key(key),
    ensures
        inherited_properties(files, f, fuel).contains_key(key),
        inherited_properties(files, f, fuel)[key] == f.properties[key],
{
}

/// A file's own managed entries come last, after every inherited one.
pub proof fn law_own_management_last(files: Seq<MavenFileView>, f: MavenFileView, fuel: nat)
    ensures
        inherited_management(files, f, fuel).len() >= f.dependency_management.len(),
        inherited_management(files, f, fuel).subrange(
            inherited_management(files, f, fuel).len() - f.dependency_management.len(),
            inherited_management(files, f, fuel).len() as int,
        ) == f.dependency_management,
{
    let all = inherited_management(files, f, fuel);
    assert(all.subrange(all.len() - f.dependency_management.len(), all.len() as int) =~= f.dependency_management);
}

/// A declared dependency without a version reports the version of the
/// first managed entry for its group and artifact.
pub proof fn law_managed_version_fills(
    mgmt: Seq<MavenDependencyView>,
    props: Map<Seq<char>, Seq<char>>,
    d: MavenDependencyView,
)
    requires
        d.version is None,
        first_managed(mgmt, d) is Some,
        sbom_dependency(mgmt, props, d) is Some,
    ensures
        sbom_dependency(mgmt, props, d)->0 == enriched_dependency(mgmt[first_managed(mgmt, d)->0], props),
{
}

proof fn lemma_files_nodes_tagged(files: Seq<MavenFileView>, k: int)
    ensures
        all_tagged(files_nodes(files, k)),
    decreases k,
{
    if k > 0 && k <= files.len() {
        lemma_files_nodes_tagged(files, k - 1);
        let rest = files_nodes(files, k - 1);
        let fnodes = file_nodes(files, files[k - 1]);
        let ds = sbom_dependencies(files, files[k - 1]);
        assert forall|i: int| 0 <= i < fnodes.len() implies is_tagged(#[trigger] fnodes[i].instance_id) by {
            let d = ds[i];
            let valid = fixed_purl(maven_purl(d));
            lemma_ids_tagged(valid, fallback_salt(d), None);
            lemma_built_tagged(
                BuilderView {
                    group: Some(trim(d.group_id)),
                    kind: DependencyType::Library,
                    name: Some(trim(d.artifact_id)),
                    version: kept_version(d.version),
                    purl: Some(valid),
                    instance_id: Some(instance_id(valid, fallback_salt(d))),
                    dependencies: Seq::empty(),
                    location: d.location,
                },
            );
        }
        let g = files_nodes(files, k);
        assert forall|i: int| 0 <= i < g.len() implies is_tagged(#[trigger] g[i].instance_id) by {
            if i < rest.len() {
                assert(g[i] == rest[i]);
            } else {
                assert(g[i] == fnodes[i - rest.len()]);
            }
        }
    }
}

/// Every node of the static analysis has a tagged identifier.
pub proof fn law_static_ids_tagged(files: Seq<MavenFileView>)
    ensures
        all_tagged(static_graph(files)),
{
    lemma_files_nodes_tagged(files, files.len() as int);
}

/// A file's properties are its merged map with every value resolved
/// against that map. The merged map holds the file's own properties over
/// those its parent passes on; the parent is the file at its parent path, or
/// where it has none, the file its parent's group, artifact and version name;
/// and what a parent passes on is its own merged map, resolved.
pub proof fn law_all_properties_merged(files: Seq<MavenFileView>, f: MavenFileView)
    ensures
        ({
            let merged = inherited_properties(files, f, files.len());
            &&& all_properties(files, f).dom() == merged.dom()
            &&& forall|k: Seq<char>|
                #[trigger] merged.contains_key(k) ==> all_properties(files, f)[k] == enriched(merged[k], merged)
            &&& forall|k: Seq<char>|
                #[trigger] f.properties.contains_key(k) ==> merged.contains_key(k) && merged[k] == f.properties[k]
            &&& (files.len() > 0 && property_parent(files, f) is Some && 0 <= property_parent(files, f)->0 < files.len()) ==> {
                let passed = resolved_properties(
                    inherited_properties(files, files[property_parent(files, f)->0], (files.len() - 1) as nat),
                );
                forall|k: Seq<char>|
                    #[trigger] merged.contains_key(k) <==> f.properties.contains_key(k) || passed.contains_key(k)
                        && (!f.properties.contains_key(k) && passed.contains_key(k) ==> merged[k] == passed[k])
            }
            &&& !(files.len() > 0 && property_parent(files, f) is Some && 0 <= property_parent(files, f)->0 < files.len()) ==> merged
                == f.properties
        }),
{
    let merged = inherited_properties(files, f, files.len());
    assert(all_properties(files, f).dom() =~= merged.dom());
}

/// The inherited dependency management puts the parent's, itself inherited
/// in the same way, before the file's own entries; without a parent (the
/// file at the parent path, or the one the parent's coordinates name) it is
/// the file's own.
pub proof fn law_management_ancestors_first(files: Seq<MavenFileView>, f: MavenFileView, fuel: nat)
    ensures
        (fuel > 0 && management_parent(files, f) is Some && 0 <= management_parent(files, f)->0 < files.len()) ==> inherited_management(
            files,
            f,
            fuel,
        ) == inherited_management(files, files[management_parent(files, f)->0], (fuel - 1) as nat)
            + f.dependency_management,
        !(fuel > 0 && management_parent(files, f) is Some && 0 <= management_parent(files, f)->0 < files.len()) ==> inherited_management(
            files,
            f,
            fuel,
        ) == f.dependency_management,
{
}

/// `idx` lists, in increasing order, the declared dependencies that a file
/// reports, and `out` is what each reports.
pub open spec fn reported_index(
    mgmt: Seq<MavenDependencyView>,
    props: Map<Seq<char>, Seq<char>>,
    deps: Seq<MavenDependencyView>,
    out: Seq<MavenDependencyView>,
    idx: Seq<int>,
) -> bool {
    &&& idx.len() == out.len()
    &&& forall|a: int, b: int| 0 <= a < b < idx.len() ==> #[trigger] idx[a] < #[trigger] idx[b]
    &&& forall|j: int|
        0 <= j < idx.len() ==> 0 <= #[trigger] idx[j] < deps.len() && sbom_dependency(mgmt, props, deps[idx[j]])
            == Some(out[j])
    &&& forall|p: int|
        0 <= p < deps.len() && (#[trigger] sbom_dependency(mgmt, props, deps[p])) is Some ==> idx.contains(p)
}

proof fn lemma_reported_index(
    mgmt: Seq<MavenDependencyView>,
    props: Map<Seq<char>, Seq<char>>,
    deps: Seq<MavenDependencyView>,
) -> (idx: Seq<int>)
    ensures
        reported_index(mgmt, props, deps, sbom_dependencies_of(mgmt, props, deps), idx),
    decreases deps.len(),
{
    if deps.len() == 0 {
        Seq::empty()
    } else {
        let d = deps.drop_last();
        let rest = lemma_reported_index(mgmt, props, d);
        let out = sbom_dependencies_of(mgmt, props, deps);
        let ro = sbom_dependencies_of(mgmt, props, d);
        assert forall|q: int| 0 <= q < d.len() implies d[q] == #[trigger] deps[q] by {}
        match sbom_dependency(mgmt, props, deps.last()) {
            Some(e) => {
                let idx = rest.push(deps.len() - 1);
                assert forall|j: int| 0 <= j < idx.len() implies 0 <= #[trigger] idx[j] < deps.len()
                    && sbom_dependency(mgmt, props, deps[idx[j]]) == Some(out[j]) by {
                    if j < rest.len() {
                        assert(idx[j] == rest[j] && out[j] == ro[j]);
                        assert(d[rest[j]] == deps[rest[j]]);
                    }
                }
                assert forall|p: int|
                    0 <= p < deps.len() && (#[trigger] sbom_dependency(mgmt, props, deps[p])) is Some implies idx.contains(p) by {
                    if p < d.len() {
                        assert(d[p] == deps[p]);
                        let t = choose|t: int| 0 <= t < rest.len() && rest[t] == p;
                        assert(idx[t] == p);
                    } else {
                        assert(idx[idx.len() - 1] == p);
                    }
                }
                idx
            },
            None => {
                assert forall|j: int| 0 <= j < rest.len() implies 0 <= #[trigger] rest[j] < deps.len()
                    && sbom_dependency(mgmt, props, deps[rest[j]]) == Some(out[j]) by {
                    assert(d[rest[j]] == deps[rest[j]]);
                }
                assert forall|p: int|
                    0 <= p < deps.len() && (#[trigger] sbom_dependency(mgmt, props, deps[p])) is Some implies rest.contains(p) by {
                    if p < d.len() {
                        assert(d[p] == deps[p]);
                    }
                }
                rest
            },
        }
    }
}

/// What a file reports are its declared dependencies that are valid once
/// resolved, in declaration order: each one without a version of its own is
/// replaced by the first managed entry (inherited ones first) with its group
/// and artifact, then resolved against all its properties and trimmed; the
/// blank ones are dropped.
pub proof fn law_sbom_dependencies(files: Seq<MavenFileView>, f: MavenFileView)
    ensures
        exists|idx: Seq<int>|
            reported_index(
                all_management(files, f),
                all_properties(files, f),
                f.dependencies,
                sbom_dependencies(files, f),
                idx,
            ),
        forall|d: MavenDependencyView|
            #![trigger sbom_dependency(all_management(files, f), all_properties(files, f), d)]
            {
                let mgmt = all_management(files, f);
                let props = all_properties(files, f);
                let target = if d.version is None && first_managed(mgmt, d) is Some {
                    mgmt[first_managed(mgmt, d)->0]
                } else {
                    d
                };
                &&& sbom_dependency(mgmt, props, d) is Some <==> valid_for_sbom(
                    enriched_dependency(target, props),
                )
                &&& sbom_dependency(mgmt, props, d) is Some ==> sbom_dependency(mgmt, props, d)->0
                    == enriched_dependency(target, props)
            },
{
    let idx = lemma_reported_index(all_management(files, f), all_properties(files, f), f.dependencies);
    assert(sbom_dependencies(files, f) == sbom_dependencies_of(
        all_management(files, f),
        all_properties(files, f),
        f.dependencies,
    ));
    assert(reported_index(
        all_management(files, f),
        all_properties(files, f),
        f.dependencies,
        sbom_dependencies(files, f),
        idx,
    ));
}

/// The chain of property parents from `f` ends within `d` steps: no file on
/// it is its own ancestor within that many steps.
pub open spec fn property_chain_ends(files: Seq<MavenFileView>, f: MavenFileView, d: nat) -> bool
    decreases d,
{
    match property_parent(files, f) {
        Some(k) => if 0 <= k < files.len() {
            d > 0 && property_chain_ends(files, files[k], (d - 1) as nat)
        } else {
            true
        },
        None => true,
    }
}

/// The chain of management parents from `f` ends within `d` steps.
pub open spec fn management_chain_ends(files: Seq<MavenFileView>, f: MavenFileView, d: nat) -> bool
    decreases d,
{
    match management_parent(files, f) {
        Some(k) => if 0 <= k < files.len() {
            d > 0 && management_chain_ends(files, files[k], (d - 1) as nat)
        } else {
            true
        },
        None => true,
    }
}

/// Where the property chain ends within `d` steps, any fuel of at least
/// `d` gives the same inherited properties.
pub proof fn law_properties_fuel_independent(files: Seq<MavenFileView>, f: MavenFileView, d: nat, a: nat, b: nat)
    requires
        property_chain_ends(files, f, d),
        d <= a,
        d <= b,
    ensures
        inherited_properties(files, f, a) == inherited_properties(files, f, b),
    decreases d,
{
    match property_parent(files, f) {
        Some(k) => if 0 <= k < files.len() {
            law_properties_fuel_independent(files, files[k], (d - 1) as nat, (a - 1) as nat, (b - 1) as nat);
        },
        None => {},
    }
}

/// Where the management chain ends within `d` steps, any fuel of at least
/// `d` gives the same inherited management.
pub proof fn law_management_fuel_independent(files: Seq<MavenFileView>, f: MavenFileView, d: nat, a: nat, b: nat)
    requires
        management_chain_ends(files, f, d),
        d <= a,
        d <= b,
    ensures
        inherited_management(files, f, a) == inherited_management(files, f, b),
    decreases d,
{
    match management_parent(files, f) {
        Some(k) => if 0 <= k < files.len() {
            law_management_fuel_independent(files, files[k], (d - 1) as nat, (a - 1) as nat, (b - 1) as nat);
        },
        None => {},
    }
}

/// Where the parent's property chain ends within the number of files less
/// one (no file on it is its own ancestor), a file's properties are the
/// parent's own full set of properties overridden by the file's, each
/// value resolved against that merged map.
pub proof fn law_all_properties_from_parent(files: Seq<MavenFileView>, f: MavenFileView)
    requires
        property_parent(files, f) is Some,
        0 <= property_parent(files, f)->0 < files.len(),
        property_chain_ends(files, files[property_parent(files, f)->0], (files.len() - 1) as nat),
    ensures
        inherited_properties(files, f, files.len()) == all_properties(
            files,
            files[property_parent(files, f)->0],
        ).union_prefer_right(f.properties),
        all_properties(files, f) == resolved_properties(
            all_properties(files, files[property_parent(files, f)->0]).union_prefer_right(f.properties),
        ),
{
    let k = property_parent(files, f)->0;
    law_properties_fuel_independent(
        files,
        files[k],
        (files.len() - 1) as nat,
        (files.len() - 1) as nat,
        files.len() as nat,
    );
}

/// Where the parent's management chain ends within the number of files
/// less one, a file's dependency management is the parent's own full
/// management followed by the file's entries; without a parent it is the
/// file's own.
pub proof fn law_all_management_from_parent(files: Seq<MavenFileView>, f: MavenFileView)
    ensures
        (management_parent(files, f) is Some && 0 <= management_parent(files, f)->0 < files.len()
            && management_chain_ends(files, files[management_parent(files, f)->0], (files.len() - 1) as nat))
            ==> all_management(files, f) == all_management(files, files[management_parent(files, f)->0])
            + f.dependency_management,
        !(management_parent(files, f) is Some && 0 <= management_parent(files, f)->0 < files.len())
            ==> all_management(files, f) == f.dependency_management,
{
    if management_parent(files, f) is Some && 0 <= management_parent(files, f)->0 < files.len()
        && management_chain_ends(files, files[management_parent(files, f)->0], (files.len() - 1) as nat) {
        let k = management_parent(files, f)->0;
        law_management_fuel_independent(
            files,
            files[k],
            (files.len() - 1) as nat,
            (files.len() - 1) as nat,
            files.len() as nat,
        );
    }
}

} // verus!
