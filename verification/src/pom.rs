//! What the matches of the `pom.xml` queries yield: declared dependencies
//! with their locations, project coordinates, properties and the parent
//! element. A match is a list of captures: the capture's index in its
//! query, the byte span of the captured node and its text.
use vstd::prelude::*;
use vstd::string::StringSliceAdditionalSpecFns;

use crate::maven::{
    maven_views, scope_named, type_named, MavenDependency, MavenDependencyScope,
    MavenDependencyType, MavenDependencyView, MavenFileParent, MavenProjectInfo, ParentView,
    ProjectInfoView,
};
use crate::model::{opt_view, DependencyLocation, DependencyLocationView, Location, LocationView, Position};
use crate::position::{get_position_in_string, position_of};
use crate::properties::PropertyMap;
use crate::text::{str_eq, string_of, chars_of};

verus! {

/// One capture of a query match.
pub struct Capture {
    pub index: u32,
    pub start_byte: usize,
    pub end_byte: usize,
    pub text: String,
}

pub struct CapturedView {
    pub index: u32,
    pub start: nat,
    pub end: nat,
    pub text: Seq<char>,
}

impl View for Capture {
    type V = CapturedView;

    open spec fn view(&self) -> CapturedView {
        CapturedView {
            index: self.index,
            start: self.start_byte as nat,
            end: self.end_byte as nat,
            text: self.text@,
        }
    }
}

/// One match of a query: its captures in order.
pub struct QueryMatch {
    pub captures: Vec<Capture>,
}

pub open spec fn capture_views(m: QueryMatch) -> Seq<CapturedView> {
    m.captures@.map_values(|c: Capture| c@)
}

pub open spec fn match_views(ms: Seq<QueryMatch>) -> Seq<Seq<CapturedView>> {
    ms.map_values(|m: QueryMatch| capture_views(m))
}

/// The tag names of a dependency element.
pub const ARTIFACT_ID: &'static str = "artifactId";

pub const GROUP_ID: &'static str = "groupId";

pub const VERSION: &'static str = "version";

pub const TYPE: &'static str = "type";

pub const SCOPE: &'static str = "scope";

/// The stretch of `path` between two byte offsets of its text `bytes`;
/// none where an offset has no position.
pub open spec fn location_of(path: Seq<char>, bytes: Seq<u8>, start: nat, end: nat) -> Option<LocationView> {
    match (position_of(bytes, start), position_of(bytes, end)) {
        (Some(s), Some(e)) => Some(
            LocationView {
                file: path,
                start: Position { line: s.0 as u32, col: s.1 as u32 },
                end: Position { line: e.0 as u32, col: e.1 as u32 },
            },
        ),
        _ => None,
    }
}

/// What the tags of one dependency element have set so far.
pub struct TagState {
    pub group: Option<Seq<char>>,
    pub artifact: Option<Seq<char>>,
    pub version: Option<Seq<char>>,
    pub dep_type: Option<MavenDependencyType>,
    pub scope: Option<MavenDependencyScope>,
    pub name_location: Option<LocationView>,
    pub version_location: Option<LocationView>,
}

pub open spec fn empty_tags() -> TagState {
    TagState {
        group: None,
        artifact: None,
        version: None,
        dep_type: None,
        scope: None,
        name_location: None,
        version_location: None,
    }
}

/// Reads the tag/value capture pairs from index `i` on, every second
/// capture: a pair counts where its first capture has index `tag_index`.
/// `artifactId` and `version` values are located; a type is read only
/// where `with_type` holds. `None` where a value cannot be located.
pub open spec fn read_tags(
    caps: Seq<CapturedView>,
    i: int,
    tag_index: u32,
    with_type: bool,
    path: Seq<char>,
    bytes: Seq<u8>,
    st: TagState,
) -> Option<TagState>
    decreases caps.len() + 2 - i,
{
    if i < 0 || i >= caps.len() {
        Some(st)
    } else if caps[i].index != tag_index || i + 1 >= caps.len() {
        read_tags(caps, i + 2, tag_index, with_type, path, bytes, st)
    } else {
        let tag = caps[i].text;
        let value = caps[i + 1];
        if tag == ARTIFACT_ID@ {
            match location_of(path, bytes, value.start, value.end) {
                Some(l) => read_tags(
                    caps,
                    i + 2,
                    tag_index,
                    with_type,
                    path,
                    bytes,
                    TagState { artifact: Some(value.text), name_location: Some(l), ..st },
                ),
                None => None,
            }
        } else if tag == GROUP_ID@ {
            read_tags(caps, i + 2, tag_index, with_type, path, bytes, TagState { group: Some(value.text), ..st })
        } else if tag == VERSION@ {
            match location_of(path, bytes, value.start, value.end) {
                Some(l) => read_tags(
                    caps,
                    i + 2,
                    tag_index,
                    with_type,
                    path,
                    bytes,
                    TagState { version: Some(value.text), version_location: Some(l), ..st },
                ),
                None => None,
            }
        } else if with_type && tag == TYPE@ {
            read_tags(caps, i + 2, tag_index, with_type, path, bytes, TagState { dep_type: type_named(value.text), ..st })
        } else if tag == SCOPE@ {
            read_tags(caps, i + 2, tag_index, with_type, path, bytes, TagState { scope: scope_named(value.text), ..st })
        } else {
            read_tags(caps, i + 2, tag_index, with_type, path, bytes, st)
        }
    }
}

/// The dependency that one match declares, if it names a group and an
/// artifact: located at its element (the first capture). `None` where a
/// position is missing.
pub open spec fn match_dependency(
    caps: Seq<CapturedView>,
    first: int,
    tag_index: u32,
    with_type: bool,
    path: Seq<char>,
    bytes: Seq<u8>,
) -> Option<Option<MavenDependencyView>> {
    if caps.len() <= 1 {
        Some(None)
    } else {
        match location_of(path, bytes, caps[0].start, caps[0].end) {
            None => None,
            Some(block) => match read_tags(caps, first, tag_index, with_type, path, bytes, empty_tags()) {
                None => None,
                Some(st) => match (st.group, st.artifact, st.name_location) {
                    (Some(g), Some(a), Some(n)) => Some(
                        Some(
                            MavenDependencyView {
                                group_id: g,
                                artifact_id: a,
                                version: st.version,
                                dep_type: st.dep_type,
                                scope: st.scope,
                                location: Some(
                                    DependencyLocationView {
                                        block,
                                        name: n,
                                        version: st.version_location,
                                    },
                                ),
                            },
                        ),
                    ),
                    _ => Some(None),
                },
            },
        }
    }
}

/// The dependencies that the matches declare, in match order; `None` where
/// a position is missing.
pub open spec fn matches_dependencies(
    ms: Seq<Seq<CapturedView>>,
    first: int,
    tag_index: u32,
    with_type: bool,
    path: Seq<char>,
    bytes: Seq<u8>,
) -> Option<Seq<MavenDependencyView>>
    decreases ms.len(),
{
    if ms.len() == 0 {
        Some(Seq::empty())
    } else {
        match matches_dependencies(ms.drop_last(), first, tag_index, with_type, path, bytes) {
            None => None,
            Some(rest) => match match_dependency(ms.last(), first, tag_index, with_type, path, bytes) {
                None => None,
                Some(None) => Some(rest),
                Some(Some(d)) => Some(rest.push(d)),
            },
        }
    }
}

fn location_exec(path: &str, content: &str, start: usize, end: usize) -> (r: Option<Location>)
    requires
        content.spec_bytes().len() < u32::MAX,
    ensures
        match r {
            Some(l) => location_of(path@, content.spec_bytes(), start as nat, end as nat) == Some(l@),
            None => location_of(path@, content.spec_bytes(), start as nat, end as nat) is None,
        },
{
    let s = match get_position_in_string(content, start) {
        Ok(p) => p,
        Err(_) => {
            return None;
        },
    };
    let e = match get_position_in_string(content, end) {
        Ok(p) => p,
        Err(_) => {
            return None;
        },
    };
    Some(Location { file: string_of(&chars_of(path)), start: s, end: e })
}

/// The exec form of [`TagState`].
struct Tags {
    group: Option<String>,
    artifact: Option<String>,
    version: Option<String>,
    dep_type: Option<MavenDependencyType>,
    scope: Option<MavenDependencyScope>,
    name_location: Option<Location>,
    version_location: Option<Location>,
}

spec fn opt_location(o: Option<Location>) -> Option<LocationView> {
    match o {
        Some(l) => Some(l@),
        None => None,
    }
}

spec fn tags_view(t: Tags) -> TagState {
    TagState {
        group: opt_view(t.group),
        artifact: opt_view(t.artifact),
        version: opt_view(t.version),
        dep_type: t.dep_type,
        scope: t.scope,
        name_location: opt_location(t.name_location),
        version_location: opt_location(t.version_location),
    }
}

fn read_tags_exec(
    caps: &Vec<Capture>,
    first: usize,
    tag_index: u32,
    with_type: bool,
    path: &str,
    content: &str,
) -> (r: Option<Tags>)
    requires
        content.spec_bytes().len() < u32::MAX,
    ensures
        match r {
            Some(t) => read_tags(
                caps@.map_values(|c: Capture| c@),
                first as int,
                tag_index,
                with_type,
                path@,
                content.spec_bytes(),
                empty_tags(),
            ) == Some(tags_view(t)),
            None => read_tags(
                caps@.map_values(|c: Capture| c@),
                first as int,
                tag_index,
                with_type,
                path@,
                content.spec_bytes(),
                empty_tags(),
            ) is None,
        },
{
    let ghost cv = caps@.map_values(|c: Capture| c@);
    let mut t = Tags {
        group: None,
        artifact: None,
        version: None,
        dep_type: None,
        scope: None,
        name_location: None,
        version_location: None,
    };
    let mut i = first;
    assert(tags_view(t) == empty_tags());
    while i < caps.len()
        invariant
            first >= caps.len() ==> i == first,
            cv == caps@.map_values(|c: Capture| c@),
            content.spec_bytes().len() < u32::MAX,
            read_tags(cv, first as int, tag_index, with_type, path@, content.spec_bytes(), empty_tags())
                == read_tags(cv, i as int, tag_index, with_type, path@, content.spec_bytes(), tags_view(t)),
        decreases caps.len() - i,
    {
        assert(cv[i as int] == caps@[i as int]@);
        if caps[i].index != tag_index || i + 1 >= caps.len() {
            proof {
                let tv = tags_view(t);
                assert(read_tags(cv, caps.len() as int, tag_index, with_type, path@, content.spec_bytes(), tv) == Some(tv));
                assert(read_tags(cv, i + 2, tag_index, with_type, path@, content.spec_bytes(), tv) == (if i + 2 >= caps.len() { Some(tv) } else { read_tags(cv, i + 2, tag_index, with_type, path@, content.spec_bytes(), tv) }));
            }
            if caps.len() - i < 2 {
                i = caps.len();
            } else {
                i = i + 2;
            }
            continue;
        }
        assert(cv[i + 1] == caps@[i + 1]@);
        let tag = caps[i].text.as_str();
        let value = &caps[i + 1];
        if str_eq(tag, ARTIFACT_ID) {
            match location_exec(path, content, value.start_byte, value.end_byte) {
                Some(l) => {
                    t.artifact = Some(value.text.clone());
                    t.name_location = Some(l);
                },
                None => {
                    return None;
                },
            }
        } else if str_eq(tag, GROUP_ID) {
            t.group = Some(value.text.clone());
        } else if str_eq(tag, VERSION) {
            match location_exec(path, content, value.start_byte, value.end_byte) {
                Some(l) => {
                    t.version = Some(value.text.clone());
                    t.version_location = Some(l);
                },
                None => {
                    return None;
                },
            }
        } else if with_type && str_eq(tag, TYPE) {
            t.dep_type = MavenDependencyType::from_name(value.text.as_str());
        } else if str_eq(tag, SCOPE) {
            t.scope = MavenDependencyScope::from_name(value.text.as_str());
        }
        proof {
            let tv = tags_view(t);
            assert(read_tags(cv, caps.len() as int, tag_index, with_type, path@, content.spec_bytes(), tv) == Some(tv));
        }
        if caps.len() - i < 2 {
            i = caps.len();
        } else {
            i = i + 2;
        }
    }
    Some(t)
}

/// The dependencies that the matches of a dependency query declare (see
/// [`matches_dependencies`]): the tag/value pairs are read from capture
/// `first` on, those whose tag capture has index `tag_index`; types are
/// read where `with_type` holds. `None` where a position is missing.
pub fn dependencies_of_matches(
    matches: &Vec<QueryMatch>,
    first: usize,
    tag_index: u32,
    with_type: bool,
    path: &str,
    content: &str,
) -> (r: Option<Vec<MavenDependency>>)
    requires
        content.spec_bytes().len() < u32::MAX,
    ensures
        match r {
            Some(ds) => matches_dependencies(
                match_views(matches@),
                first as int,
                tag_index,
                with_type,
                path@,
                content.spec_bytes(),
            ) == Some(maven_views(ds@)),
            None => matches_dependencies(
                match_views(matches@),
                first as int,
                tag_index,
                with_type,
                path@,
                content.spec_bytes(),
            ) is None,
        },
{
    let ghost mv = match_views(matches@);
    let ghost bytes = content.spec_bytes();
    let mut out: Vec<MavenDependency> = Vec::new();
    let mut k: usize = 0;
    assert(mv.take(0) =~= Seq::<Seq<CapturedView>>::empty());
    assert(maven_views(out@) =~= Seq::<MavenDependencyView>::empty());
    while k < matches.len()
        invariant
            k <= matches.len(),
            mv == match_views(matches@),
            bytes == content.spec_bytes(),
            content.spec_bytes().len() < u32::MAX,
            matches_dependencies(mv.take(k as int), first as int, tag_index, with_type, path@, bytes)
                == Some(maven_views(out@)),
        decreases matches.len() - k,
    {
        assert(mv.take(k + 1).drop_last() =~= mv.take(k as int));
        assert(mv.take(k + 1).last() == mv[k as int]);
        let caps = &matches[k].captures;
        let ghost cv = caps@.map_values(|c: Capture| c@);
        assert(mv[k as int] == cv);
        if caps.len() > 1 {
            assert(cv[0] == caps@[0]@);
            let block = match location_exec(path, content, caps[0].start_byte, caps[0].end_byte) {
                Some(b) => b,
                None => {
                    proof {
                        lemma_matches_failure(mv, k as int + 1, first as int, tag_index, with_type, path@, bytes);
                    }
                    return None;
                },
            };
            let t = match read_tags_exec(caps, first, tag_index, with_type, path, content) {
                Some(t) => t,
                None => {
                    proof {
                        lemma_matches_failure(mv, k as int + 1, first as int, tag_index, with_type, path@, bytes);
                    }
                    return None;
                },
            };
            match (t.group, t.artifact, t.name_location) {
                (Some(g), Some(a), Some(n)) => {
                    let d = MavenDependency {
                        group_id: g,
                        artifact_id: a,
                        version: t.version,
                        dep_type: t.dep_type,
                        scope: t.scope,
                        location: Some(DependencyLocation { block, name: n, version: t.version_location }),
                    };
                    let ghost before = maven_views(out@);
                    let ghost dv = d@;
                    out.push(d);
                    assert(maven_views(out@) =~= before.push(dv));
                },
                _ => {},
            }
        }
        k = k + 1;
    }
    assert(mv.take(matches.len() as int) =~= mv);
    Some(out)
}

proof fn lemma_matches_failure(
    ms: Seq<Seq<CapturedView>>,
    k: int,
    first: int,
    tag_index: u32,
    with_type: bool,
    path: Seq<char>,
    bytes: Seq<u8>,
)
    requires
        0 <= k <= ms.len(),
        matches_dependencies(ms.take(k), first, tag_index, with_type, path, bytes) is None,
    ensures
        matches_dependencies(ms, first, tag_index, with_type, path, bytes) is None,
    decreases ms.len() - k,
{
    if k == ms.len() {
        assert(ms.take(k) =~= ms);
    } else {
        assert(ms.take(k + 1).drop_last() =~= ms.take(k));
        lemma_matches_failure(ms, k + 1, first, tag_index, with_type, path, bytes);
    }
}

// ---------------------------------------------------------------------
// Key/value matches: project coordinates, properties, parent
// ---------------------------------------------------------------------

/// The key and the value that a match captures at `k` and `k + 1`; none
/// for a match with fewer captures.
pub open spec fn key_value(caps: Seq<CapturedView>, k: int) -> Option<(Seq<char>, Seq<char>)> {
    if 0 <= k && k + 1 < caps.len() {
        Some((caps[k].text, caps[k + 1].text))
    } else {
        None
    }
}

fn key_value_exec(m: &QueryMatch, k: usize) -> (r: Option<(String, String)>)
    ensures
        match r {
            Some((a, b)) => key_value(capture_views(*m), k as int) == Some((a@, b@)),
            None => key_value(capture_views(*m), k as int) is None,
        },
{
    if k < m.captures.len() && m.captures.len() - k > 1 {
        assert(capture_views(*m)[k as int] == m.captures@[k as int]@);
        assert(capture_views(*m)[k + 1] == m.captures@[k + 1]@);
        Some((m.captures[k].text.clone(), m.captures[k + 1].text.clone()))
    } else {
        None
    }
}

/// Project coordinates read so far: group, artifact and version.
pub open spec fn info_fields(ms: Seq<Seq<CapturedView>>) -> (Option<Seq<char>>, Option<Seq<char>>, Option<Seq<char>>)
    decreases ms.len(),
{
    if ms.len() == 0 {
        (None, None, None)
    } else {
        let (g, a, v) = info_fields(ms.drop_last());
        match key_value(ms.last(), 1) {
            Some((key, value)) => if key == VERSION@ {
                (g, a, Some(value))
            } else if key == ARTIFACT_ID@ {
                (g, Some(value), v)
            } else if key == GROUP_ID@ {
                (Some(value), a, v)
            } else {
                (g, a, v)
            },
            None => (g, a, v),
        }
    }
}

/// The project's coordinates, from the matches of the project metadata
/// query (key at capture 1, value at capture 2; a later key wins); none
/// without an artifact.
pub open spec fn project_info_of(ms: Seq<Seq<CapturedView>>) -> Option<ProjectInfoView> {
    let (g, a, v) = info_fields(ms);
    match a {
        Some(a) => Some(ProjectInfoView { group_id: g, artifact_id: a, version: v }),
        None => None,
    }
}

/// The project's coordinates (see [`project_info_of`]).
pub fn get_project_info(matches: &Vec<QueryMatch>) -> (r: Option<MavenProjectInfo>)
    ensures
        match r {
            Some(p) => project_info_of(match_views(matches@)) == Some(p@),
            None => project_info_of(match_views(matches@)) is None,
        },
{
    let ghost mv = match_views(matches@);
    let mut group: Option<String> = None;
    let mut artifact: Option<String> = None;
    let mut version: Option<String> = None;
    let mut k: usize = 0;
    assert(mv.take(0) =~= Seq::<Seq<CapturedView>>::empty());
    while k < matches.len()
        invariant
            k <= matches.len(),
            mv == match_views(matches@),
            info_fields(mv.take(k as int)) == (opt_view(group), opt_view(artifact), opt_view(version)),
        decreases matches.len() - k,
    {
        assert(mv.take(k + 1).drop_last() =~= mv.take(k as int));
        assert(mv.take(k + 1).last() == capture_views(matches@[k as int]));
        match key_value_exec(&matches[k], 1) {
            Some((key, value)) => {
                if str_eq(key.as_str(), VERSION) {
                    version = Some(value);
                } else if str_eq(key.as_str(), ARTIFACT_ID) {
                    artifact = Some(value);
                } else if str_eq(key.as_str(), GROUP_ID) {
                    group = Some(value);
                }
            },
            None => {},
        }
        k = k + 1;
    }
    assert(mv.take(matches.len() as int) =~= mv);
    match artifact {
        Some(a) => Some(MavenProjectInfo { group_id: group, artifact_id: a, version }),
        None => None,
    }
}

/// The properties that the project metadata matches (`version` becomes
/// `project.version`) and then the property matches (key at capture 2,
/// value at capture 3) set, a later setting winning.
pub open spec fn variables_of(meta: Seq<Seq<CapturedView>>, props: Seq<Seq<CapturedView>>) -> Map<Seq<char>, Seq<char>> {
    property_settings(props, version_settings(meta, Map::empty()))
}

pub open spec fn version_settings(ms: Seq<Seq<CapturedView>>, base: Map<Seq<char>, Seq<char>>) -> Map<Seq<char>, Seq<char>>
    decreases ms.len(),
{
    if ms.len() == 0 {
        base
    } else {
        let m = version_settings(ms.drop_last(), base);
        match key_value(ms.last(), 1) {
            Some((key, value)) => if key == VERSION@ {
                m.insert("project.version"@, value)
            } else {
                m
            },
            None => m,
        }
    }
}

pub open spec fn property_settings(ms: Seq<Seq<CapturedView>>, base: Map<Seq<char>, Seq<char>>) -> Map<Seq<char>, Seq<char>>
    decreases ms.len(),
{
    if ms.len() == 0 {
        base
    } else {
        let m = property_settings(ms.drop_last(), base);
        match key_value(ms.last(), 2) {
            Some((key, value)) => m.insert(key, value),
            None => m,
        }
    }
}

/// The properties that a file sets (see [`variables_of`]).
pub fn get_variables(meta: &Vec<QueryMatch>, props: &Vec<QueryMatch>) -> (r: PropertyMap)
    ensures
        r@ == variables_of(match_views(meta@), match_views(props@)),
{
    let ghost mv = match_views(meta@);
    let ghost pv = match_views(props@);
    let mut vars = PropertyMap::new();
    let mut k: usize = 0;
    assert(mv.take(0) =~= Seq::<Seq<CapturedView>>::empty());
    while k < meta.len()
        invariant
            k <= meta.len(),
            mv == match_views(meta@),
            vars@ == version_settings(mv.take(k as int), Map::empty()),
        decreases meta.len() - k,
    {
        assert(mv.take(k + 1).drop_last() =~= mv.take(k as int));
        assert(mv.take(k + 1).last() == capture_views(meta@[k as int]));
        match key_value_exec(&meta[k], 1) {
            Some((key, value)) => {
                if str_eq(key.as_str(), VERSION) {
                    proof {
                        reveal_strlit("project.version");
                    }
                    vars.insert(string_of(&chars_of("project.version")), value);
                }
            },
            None => {},
        }
        k = k + 1;
    }
    assert(mv.take(meta.len() as int) =~= mv);
    let ghost base = vars@;
    let mut j: usize = 0;
    assert(pv.take(0) =~= Seq::<Seq<CapturedView>>::empty());
    while j < props.len()
        invariant
            j <= props.len(),
            pv == match_views(props@),
            base == version_settings(mv, Map::empty()),
            vars@ == property_settings(pv.take(j as int), base),
        decreases props.len() - j,
    {
        assert(pv.take(j + 1).drop_last() =~= pv.take(j as int));
        assert(pv.take(j + 1).last() == capture_views(props@[j as int]));
        match key_value_exec(&props[j], 2) {
            Some((key, value)) => {
                vars.insert(key, value);
            },
            None => {},
        }
        j = j + 1;
    }
    assert(pv.take(props.len() as int) =~= pv);
    vars
}

/// The parent element's fields read so far: relative path, group,
/// artifact, version.
pub open spec fn parent_fields(ms: Seq<Seq<CapturedView>>) -> (
    Option<Seq<char>>,
    Option<Seq<char>>,
    Option<Seq<char>>,
    Option<Seq<char>>,
)
    decreases ms.len(),
{
    if ms.len() == 0 {
        (None, None, None, None)
    } else {
        let (rp, g, a, v) = parent_fields(ms.drop_last());
        match key_value(ms.last(), 2) {
            Some((key, value)) => if key == "relativePath"@ {
                (Some(value), g, a, v)
            } else if key == ARTIFACT_ID@ {
                (rp, g, Some(value), v)
            } else if key == GROUP_ID@ {
                (rp, Some(value), a, v)
            } else if key == VERSION@ {
                (rp, g, a, Some(value))
            } else {
                (rp, g, a, v)
            },
            None => (rp, g, a, v),
        }
    }
}

/// The parent element (key at capture 2, value at capture 3): a relative
/// path alone; or a group, an artifact and a version, with or without a
/// relative path; any other combination gives none.
pub open spec fn parent_of_matches(ms: Seq<Seq<CapturedView>>) -> Option<ParentView> {
    match parent_fields(ms) {
        (Some(rp), None, None, None) => Some(
            ParentView { relative_path: Some(rp), group_id: None, artifact_id: None, version: None },
        ),
        (rp, Some(g), Some(a), Some(v)) => Some(
            ParentView { relative_path: rp, group_id: Some(g), artifact_id: Some(a), version: Some(v) },
        ),
        _ => None,
    }
}

/// The parent element of a file (see [`parent_of_matches`]).
pub fn get_parent_information(matches: &Vec<QueryMatch>) -> (r: Option<MavenFileParent>)
    ensures
        match r {
            Some(p) => parent_of_matches(match_views(matches@)) == Some(p@),
            None => parent_of_matches(match_views(matches@)) is None,
        },
{
    let ghost mv = match_views(matches@);
    let mut relative_path: Option<String> = None;
    let mut group_id: Option<String> = None;
    let mut artifact_id: Option<String> = None;
    let mut version: Option<String> = None;
    let mut k: usize = 0;
    assert(mv.take(0) =~= Seq::<Seq<CapturedView>>::empty());
    while k < matches.len()
        invariant
            k <= matches.len(),
            mv == match_views(matches@),
            parent_fields(mv.take(k as int)) == (
                opt_view(relative_path),
                opt_view(group_id),
                opt_view(artifact_id),
                opt_view(version),
            ),
        decreases matches.len() - k,
    {
        assert(mv.take(k + 1).drop_last() =~= mv.take(k as int));
        assert(mv.take(k + 1).last() == capture_views(matches@[k as int]));
        match key_value_exec(&matches[k], 2) {
            Some((key, value)) => {
                if str_eq(key.as_str(), "relativePath") {
                    relative_path = Some(value);
                } else if str_eq(key.as_str(), ARTIFACT_ID) {
                    artifact_id = Some(value);
                } else if str_eq(key.as_str(), GROUP_ID) {
                    group_id = Some(value);
                } else if str_eq(key.as_str(), VERSION) {
                    version = Some(value);
                }
            },
            None => {},
        }
        k = k + 1;
    }
    assert(mv.take(matches.len() as int) =~= mv);
    match (relative_path, group_id, artifact_id, version) {
        (Some(rp), None, None, None) => Some(
            MavenFileParent { relative_path: Some(rp), group_id: None, artifact_id: None, version: None },
        ),
        (rp, Some(g), Some(a), Some(v)) => Some(
            MavenFileParent {
                relative_path: rp,
                group_id: Some(g),
                artifact_id: Some(a),
                version: Some(v),
            },
        ),
        _ => None,
    }
}

// ---------------------------------------------------------------------
// A whole file
// ---------------------------------------------------------------------

/// The matches of the five queries on one `pom.xml`.
pub struct PomMatches {
    pub metadata: Vec<QueryMatch>,
    pub properties: Vec<QueryMatch>,
    pub dependencies: Vec<QueryMatch>,
    pub management: Vec<QueryMatch>,
    pub parent: Vec<QueryMatch>,
}

/// The file that the matches describe: `None` where the project has no
/// artifact or a position is missing. Dependencies are read from capture 0
/// on with tag index 3; managed ones from capture 5 on with tag index 4,
/// types included.
pub open spec fn pom_file(
    path: Seq<char>,
    bytes: Seq<u8>,
    m: PomMatches,
    parent_path: Option<Seq<char>>,
) -> Option<crate::maven::MavenFileView> {
    match project_info_of(match_views(m.metadata@)) {
        None => None,
        Some(info) => match (
            matches_dependencies(match_views(m.dependencies@), 0, 3, false, path, bytes),
            matches_dependencies(match_views(m.management@), 5, 4, true, path, bytes),
        ) {
            (Some(deps), Some(mgmt)) => Some(
                crate::maven::MavenFileView {
                    project_info: info,
                    path,
                    properties: variables_of(match_views(m.metadata@), match_views(m.properties@)),
                    dependency_management: mgmt,
                    dependencies: deps,
                    parent: parent_of_matches(match_views(m.parent@)),
                    parent_path,
                },
            ),
            _ => None,
        },
    }
}

/// Builds the file that the matches describe (see [`pom_file`]).
pub fn maven_file_from_matches(
    path: &str,
    content: &str,
    m: &PomMatches,
    parent_path: Option<String>,
) -> (r: Option<crate::maven::MavenFile>)
    requires
        content.spec_bytes().len() < u32::MAX,
    ensures
        match r {
            Some(f) => pom_file(path@, content.spec_bytes(), *m, opt_view(parent_path)) == Some(f@),
            None => pom_file(path@, content.spec_bytes(), *m, opt_view(parent_path)) is None,
        },
{
    let project_info = match get_project_info(&m.metadata) {
        Some(p) => p,
        None => {
            return None;
        },
    };
    let dependencies = match dependencies_of_matches(&m.dependencies, 0, 3, false, path, content) {
        Some(d) => d,
        None => {
            return None;
        },
    };
    let dependency_management = match dependencies_of_matches(&m.management, 5, 4, true, path, content) {
        Some(d) => d,
        None => {
            return None;
        },
    };
    let properties = get_variables(&m.metadata, &m.properties);
    let parent = get_parent_information(&m.parent);
    Some(
        crate::maven::MavenFile {
            project_info,
            path: string_of(&chars_of(path)),
            properties,
            dependency_management,
            dependencies,
            parent,
            parent_path,
        },
    )
}

} // verus!
