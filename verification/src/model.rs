//! The dependency model: positions, locations, dependencies and their builder.
use std::fmt::Write;

use vstd::prelude::*;

use crate::ident::{dec_digits, dec_exec, fallback_id, fallback_id_exec, fixed_purl, fix_purl, is_tagged, lemma_ids_tagged};
use crate::text::{chars_of, push_all, string_of};

verus! {

// ---------------------------------------------------------------------
// Small helpers on strings
// ---------------------------------------------------------------------

pub open spec fn opt_view(o: Option<String>) -> Option<Seq<char>> {
    match o {
        Some(s) => Some(s@),
        None => None,
    }
}

pub fn clone_opt_string(o: &Option<String>) -> (r: Option<String>)
    ensures
        opt_view(r) == opt_view(*o),
{
    match o {
        Some(s) => Some(s.clone()),
        None => None,
    }
}

pub fn clone_strings(v: &Vec<String>) -> (r: Vec<String>)
    ensures
        r.deep_view() == v.deep_view(),
{
    let r = v.clone();
    assert(r.deep_view() =~= v.deep_view());
    r
}

// ---------------------------------------------------------------------
// Dependency type
// ---------------------------------------------------------------------

/// The kind of a component.
#[derive(Clone, Copy, Debug, PartialEq, Eq, Structural)]
pub enum DependencyType {
    Library,
}

impl Default for DependencyType {
    fn default() -> (r: Self)
        ensures
            r == DependencyType::Library,
    {
        DependencyType::Library
    }
}

impl DependencyType {
    /// The lower-case name under which the type is serialised.
    pub fn as_str(&self) -> (r: &'static str)
        ensures
            r@ == "library"@,
    {
        "library"
    }
}

// ---------------------------------------------------------------------
// Positions and locations
// ---------------------------------------------------------------------

/// A line and a column, both counted from 1.
#[derive(Clone, Copy, Debug, PartialEq, Eq, Structural)]
pub struct Position {
    pub line: u32,
    pub col: u32,
}

impl Position {
    /// Lines and columns are counted from 1.
    pub open spec fn wf(self) -> bool {
        self.line >= 1 && self.col >= 1
    }
}

impl Default for Position {
    fn default() -> (r: Self)
        ensures
            r == (Position { line: 1, col: 1 }),
    {
        Position { line: 1, col: 1 }
    }
}

/// A stretch of a file.
#[derive(Debug)]
pub struct Location {
    pub file: String,
    pub start: Position,
    pub end: Position,
}

pub struct LocationView {
    pub file: Seq<char>,
    pub start: Position,
    pub end: Position,
}

impl View for Location {
    type V = LocationView;

    open spec fn view(&self) -> LocationView {
        LocationView { file: self.file@, start: self.start, end: self.end }
    }
}

impl Clone for Location {
    fn clone(&self) -> (r: Self)
        ensures
            r@ == self@,
    {
        Location { file: self.file.clone(), start: self.start, end: self.end }
    }
}

impl Default for Location {
    fn default() -> (r: Self)
        ensures
            r@ == (LocationView {
                file: Seq::empty(),
                start: Position { line: 1, col: 1 },
                end: Position { line: 1, col: 1 },
            }),
    {
        Location { file: String::new(), start: Position::default(), end: Position::default() }
    }
}

/// What `format!("{:?}", s)` gives for the string `s`.
pub uninterp spec fn debug_str(s: Seq<char>) -> Seq<char>;

/// Renders `s` with `str`'s `Debug` (quoted and escaped).
#[verifier::external_body]
fn debug_str_exec(s: &str) -> (r: String)
    ensures
        r@ == debug_str(s@),
{
    let mut out = String::new();
    let _ = write!(out, "{:?}", s);
    out
}

/// The `Debug` text of a position.
pub open spec fn position_debug(p: Position) -> Seq<char> {
    "Position { line: "@ + dec_digits(p.line as nat) + ", col: "@ + dec_digits(p.col as nat)
        + " }"@
}

/// The `Debug` text of a location.
pub open spec fn location_debug(l: LocationView) -> Seq<char> {
    "Location { file: "@ + debug_str(l.file) + ", start: "@ + position_debug(l.start)
        + ", end: "@ + position_debug(l.end) + " }"@
}

fn position_debug_exec(p: Position, out: &mut Vec<char>)
    ensures
        final(out)@ == old(out)@ + position_debug(p),
{
    push_all(out, &chars_of("Position { line: "));
    push_all(out, &dec_exec(p.line));
    push_all(out, &chars_of(", col: "));
    push_all(out, &dec_exec(p.col));
    push_all(out, &chars_of(" }"));
}

/// Renders a location as its derived `Debug` would.
pub fn location_debug_exec(l: &Location) -> (r: String)
    ensures
        r@ == location_debug(l@),
{
    let mut out = chars_of("Location { file: ");
    push_all(&mut out, &chars_of(debug_str_exec(l.file.as_str()).as_str()));
    push_all(&mut out, &chars_of(", start: "));
    position_debug_exec(l.start, &mut out);
    push_all(&mut out, &chars_of(", end: "));
    position_debug_exec(l.end, &mut out);
    push_all(&mut out, &chars_of(" }"));
    string_of(&out)
}

/// Where a dependency is declared: its block, its name and its version.
#[derive(Debug)]
pub struct DependencyLocation {
    pub block: Location,
    pub name: Location,
    pub version: Option<Location>,
}

pub struct DependencyLocationView {
    pub block: LocationView,
    pub name: LocationView,
    pub version: Option<LocationView>,
}

pub open spec fn opt_location_view(o: Option<Location>) -> Option<LocationView> {
    match o {
        Some(l) => Some(l@),
        None => None,
    }
}

impl View for DependencyLocation {
    type V = DependencyLocationView;

    open spec fn view(&self) -> DependencyLocationView {
        DependencyLocationView {
            block: self.block@,
            name: self.name@,
            version: opt_location_view(self.version),
        }
    }
}

impl Clone for DependencyLocation {
    fn clone(&self) -> (r: Self)
        ensures
            r@ == self@,
    {
        let version = match &self.version {
            Some(v) => Some(v.clone()),
            None => None,
        };
        DependencyLocation { block: self.block.clone(), name: self.name.clone(), version }
    }
}

impl Default for DependencyLocation {
    fn default() -> (r: Self)
        ensures
            r@.version is None,
            r@.block == r@.name,
            r@.block == (LocationView {
                file: Seq::empty(),
                start: Position { line: 1, col: 1 },
                end: Position { line: 1, col: 1 },
            }),
    {
        DependencyLocation { block: Location::default(), name: Location::default(), version: None }
    }
}

pub open spec fn opt_dep_location_view(o: Option<DependencyLocation>) -> Option<
    DependencyLocationView,
> {
    match o {
        Some(l) => Some(l@),
        None => None,
    }
}

pub fn clone_opt_dep_location(o: &Option<DependencyLocation>) -> (r: Option<DependencyLocation>)
    ensures
        opt_dep_location_view(r) == opt_dep_location_view(*o),
{
    match o {
        Some(l) => Some(l.clone()),
        None => None,
    }
}

// ---------------------------------------------------------------------
// Dependency
// ---------------------------------------------------------------------

/// One node of the dependency graph.
#[derive(Debug)]
pub struct Dependency {
    pub group: Option<String>,
    pub dep_type: DependencyType,
    pub name: String,
    pub version: Option<String>,
    pub purl: String,
    /// The identifier that keeps this node apart from every other one.
    pub instance_id: String,
    /// The instance identifiers of the nodes this one depends on.
    pub dependencies: Vec<String>,
    pub location: Option<DependencyLocation>,
}

pub struct DependencyView {
    pub group: Option<Seq<char>>,
    pub kind: DependencyType,
    pub name: Seq<char>,
    pub version: Option<Seq<char>>,
    pub purl: Seq<char>,
    pub instance_id: Seq<char>,
    pub dependencies: Seq<Seq<char>>,
    pub location: Option<DependencyLocationView>,
}

impl View for Dependency {
    type V = DependencyView;

    open spec fn view(&self) -> DependencyView {
        DependencyView {
            group: opt_view(self.group),
            kind: self.dep_type,
            name: self.name@,
            version: opt_view(self.version),
            purl: self.purl@,
            instance_id: self.instance_id@,
            dependencies: self.dependencies.deep_view(),
            location: opt_dep_location_view(self.location),
        }
    }
}

impl Clone for Dependency {
    fn clone(&self) -> (r: Self)
        ensures
            r@ == self@,
    {
        Dependency {
            group: clone_opt_string(&self.group),
            dep_type: self.dep_type,
            name: self.name.clone(),
            version: clone_opt_string(&self.version),
            purl: self.purl.clone(),
            instance_id: self.instance_id.clone(),
            dependencies: clone_strings(&self.dependencies),
            location: clone_opt_dep_location(&self.location),
        }
    }
}

impl Default for Dependency {
    fn default() -> (r: Self)
        ensures
            r@ == (DependencyView {
                group: None,
                kind: DependencyType::Library,
                name: Seq::empty(),
                version: None,
                purl: Seq::empty(),
                instance_id: Seq::empty(),
                dependencies: Seq::empty(),
                location: None,
            }),
    {
        let r = Dependency {
            group: None,
            dep_type: DependencyType::Library,
            name: String::new(),
            version: None,
            purl: String::new(),
            instance_id: String::new(),
            dependencies: Vec::new(),
            location: None,
        };
        assert(r.dependencies.deep_view() =~= Seq::<Seq<char>>::empty());
        r
    }
}

/// The views of a sequence of dependencies.
pub open spec fn dep_views(s: Seq<Dependency>) -> Seq<DependencyView> {
    s.map_values(|d: Dependency| d@)
}

pub open spec fn block_text(location: Option<DependencyLocationView>) -> Option<Seq<char>> {
    match location {
        Some(l) => Some(location_debug(l.block)),
        None => None,
    }
}

impl Dependency {
    /// Checks a package URL and repairs it where it is malformed: the normal
    /// form of a valid URL; else the URL without `^`, `~` and `=` where that
    /// is valid; else the part before the first `@`.
    pub fn auto_fix_and_validate_purl(raw_purl: &str) -> (r: String)
        ensures
            r@ == fixed_purl(raw_purl@),
    {
        fix_purl(raw_purl)
    }

    /// The identifier of a node that was given none: the URL tagged with the
    /// hash of the URL and, where there is a location, of its block.
    pub fn derive_fallback_id(clean_purl: &str, location: &Option<DependencyLocation>) -> (r:
        String)
        ensures
            r@ == fallback_id(clean_purl@, block_text(opt_dep_location_view(*location))),
    {
        match location {
            Some(loc) => {
                let text = location_debug_exec(&loc.block);
                fallback_id_exec(clean_purl, Some(text.as_str()))
            },
            None => fallback_id_exec(clean_purl, None),
        }
    }
}

// ---------------------------------------------------------------------
// Builder
// ---------------------------------------------------------------------

/// Collects the fields of a [`Dependency`]; `build` fills in the rest.
pub struct DependencyBuilder {
    pub group: Option<Option<String>>,
    pub dep_type: Option<DependencyType>,
    pub name: Option<String>,
    pub version: Option<Option<String>>,
    pub purl: Option<String>,
    pub instance_id: Option<String>,
    pub dependencies: Option<Vec<String>>,
    pub location: Option<Option<DependencyLocation>>,
}

pub open spec fn flat_opt_view(o: Option<Option<String>>) -> Option<Seq<char>> {
    match o {
        Some(Some(s)) => Some(s@),
        _ => None,
    }
}

pub open spec fn flat_location_view(o: Option<Option<DependencyLocation>>) -> Option<
    DependencyLocationView,
> {
    match o {
        Some(Some(l)) => Some(l@),
        _ => None,
    }
}

/// The view of what the builder holds.
pub struct BuilderView {
    pub group: Option<Seq<char>>,
    pub kind: DependencyType,
    pub name: Option<Seq<char>>,
    pub version: Option<Seq<char>>,
    pub purl: Option<Seq<char>>,
    pub instance_id: Option<Seq<char>>,
    pub dependencies: Seq<Seq<char>>,
    pub location: Option<DependencyLocationView>,
}

impl View for DependencyBuilder {
    type V = BuilderView;

    /// Unset optional fields read as their defaults.
    open spec fn view(&self) -> BuilderView {
        BuilderView {
            group: flat_opt_view(self.group),
            kind: match self.dep_type {
                Some(t) => t,
                None => DependencyType::Library,
            },
            name: opt_view(self.name),
            version: flat_opt_view(self.version),
            purl: opt_view(self.purl),
            instance_id: opt_view(self.instance_id),
            dependencies: match self.dependencies {
                Some(d) => d.deep_view(),
                None => Seq::empty(),
            },
            location: flat_location_view(self.location),
        }
    }
}

/// The identifier that `build` gives a node: the explicit one where it is
/// set and not empty, else the fallback identifier.
pub open spec fn built_id(b: BuilderView, clean_purl: Seq<char>) -> Seq<char> {
    match b.instance_id {
        Some(id) if id.len() > 0 => id,
        _ => fallback_id(clean_purl, block_text(b.location)),
    }
}

/// The node that `build` makes of a builder whose name and URL are set.
pub open spec fn built(b: BuilderView) -> DependencyView
    recommends
        b.name is Some,
        b.purl is Some,
{
    let clean = fixed_purl(b.purl->0);
    DependencyView {
        group: b.group,
        kind: b.kind,
        name: b.name->0,
        version: b.version,
        purl: clean,
        instance_id: built_id(b, clean),
        dependencies: b.dependencies,
        location: b.location,
    }
}

impl Default for DependencyBuilder {
    fn default() -> (r: Self)
        ensures
            r.group is None,
            r.dep_type is None,
            r.name is None,
            r.version is None,
            r.purl is None,
            r.instance_id is None,
            r.dependencies is None,
            r.location is None,
    {
        DependencyBuilder {
            group: None,
            dep_type: None,
            name: None,
            version: None,
            purl: None,
            instance_id: None,
            dependencies: None,
            location: None,
        }
    }
}

impl DependencyBuilder {
    pub fn group(self, value: Option<String>) -> (r: Self)
        ensures
            r == (DependencyBuilder { group: Some(value), ..self }),
    {
        DependencyBuilder { group: Some(value), ..self }
    }

    pub fn dep_type(self, value: DependencyType) -> (r: Self)
        ensures
            r == (DependencyBuilder { dep_type: Some(value), ..self }),
    {
        DependencyBuilder { dep_type: Some(value), ..self }
    }

    pub fn name(self, value: String) -> (r: Self)
        ensures
            r == (DependencyBuilder { name: Some(value), ..self }),
    {
        DependencyBuilder { name: Some(value), ..self }
    }

    pub fn version(self, value: Option<String>) -> (r: Self)
        ensures
            r == (DependencyBuilder { version: Some(value), ..self }),
    {
        DependencyBuilder { version: Some(value), ..self }
    }

    pub fn purl(self, value: String) -> (r: Self)
        ensures
            r == (DependencyBuilder { purl: Some(value), ..self }),
    {
        DependencyBuilder { purl: Some(value), ..self }
    }

    pub fn instance_id(self, value: String) -> (r: Self)
        ensures
            r == (DependencyBuilder { instance_id: Some(value), ..self }),
    {
        DependencyBuilder { instance_id: Some(value), ..self }
    }

    pub fn dependencies(self, value: Vec<String>) -> (r: Self)
        ensures
            r == (DependencyBuilder { dependencies: Some(value), ..self }),
    {
        DependencyBuilder { dependencies: Some(value), ..self }
    }

    pub fn location(self, value: Option<DependencyLocation>) -> (r: Self)
        ensures
            r == (DependencyBuilder { location: Some(value), ..self }),
    {
        DependencyBuilder { location: Some(value), ..self }
    }

    /// Builds the node. The name and the URL are required; the URL is
    /// repaired (see [`fixed_purl`]); an empty or missing identifier is
    /// replaced by the fallback identifier.
    pub fn build(&self) -> (r: Result<Dependency, String>)
        ensures
            match r {
                Ok(d) => self.name is Some && self.purl is Some && d@ == built(self@),
                Err(e) => {
                    ||| self.name is None && e@ == "field 'name' is required but not initialized"@
                    ||| self.name is Some && self.purl is None && e@
                        == "field 'purl' is required but not initialized"@
                },
            },
    {
        let name = match &self.name {
            Some(n) => n.clone(),
            None => {
                return Err(string_of(&chars_of("field 'name' is required but not initialized")));
            },
        };
        let raw_purl = match &self.purl {
            Some(p) => p.clone(),
            None => {
                return Err(string_of(&chars_of("field 'purl' is required but not initialized")));
            },
        };
        let clean_purl = Dependency::auto_fix_and_validate_purl(raw_purl.as_str());
        let final_location: Option<DependencyLocation> = match &self.location {
            Some(l) => clone_opt_dep_location(l),
            None => None,
        };
        let final_id = match &self.instance_id {
            Some(explicit_id) if !explicit_id.as_str().is_empty() => explicit_id.clone(),
            _ => Dependency::derive_fallback_id(clean_purl.as_str(), &final_location),
        };
        let group = match &self.group {
            Some(g) => clone_opt_string(g),
            None => None,
        };
        let version = match &self.version {
            Some(v) => clone_opt_string(v),
            None => None,
        };
        let dep_type = match self.dep_type {
            Some(t) => t,
            None => DependencyType::Library,
        };
        let dependencies = match &self.dependencies {
            Some(d) => clone_strings(d),
            None => {
                let e: Vec<String> = Vec::new();
                assert(e.deep_view() =~= Seq::<Seq<char>>::empty());
                e
            },
        };
        Ok(
            Dependency {
                group,
                dep_type,
                name,
                version,
                purl: clean_purl,
                instance_id: final_id,
                dependencies,
                location: final_location,
            },
        )
    }
}

/// A node built with a tagged identifier, or with none, has a tagged
/// identifier.
pub proof fn lemma_built_tagged(b: BuilderView)
    requires
        b.name is Some,
        b.purl is Some,
        match b.instance_id {
            Some(id) => is_tagged(id),
            None => true,
        },
    ensures
        is_tagged(built(b).instance_id),
{
    let clean = fixed_purl(b.purl->0);
    lemma_ids_tagged(clean, Seq::empty(), block_text(b.location));
}

/// Every node's identifier is tagged.
pub open spec fn all_tagged(s: Seq<DependencyView>) -> bool {
    forall|i: int| 0 <= i < s.len() ==> is_tagged(#[trigger] s[i].instance_id)
}

/// Joining two runs of tagged nodes keeps them tagged.
pub proof fn lemma_concat_tagged(a: Seq<DependencyView>, b: Seq<DependencyView>)
    requires
        all_tagged(a),
        all_tagged(b),
    ensures
        all_tagged(a + b),
{
    assert forall|i: int| 0 <= i < (a + b).len() implies is_tagged(#[trigger] (a + b)[i].instance_id) by {
        if i < a.len() {
            assert((a + b)[i] == a[i]);
        } else {
            assert((a + b)[i] == b[i - a.len()]);
        }
    }
}

/// Some node of `s` has the identifier `id`.
pub open spec fn has_node(s: Seq<DependencyView>, id: Seq<char>) -> bool {
    exists|k: int| 0 <= k < s.len() && (#[trigger] s[k]).instance_id == id
}

/// Every edge leads to a node of the graph.
pub open spec fn edges_closed(s: Seq<DependencyView>) -> bool {
    forall|i: int, j: int|
        0 <= i < s.len() && 0 <= j < s[i].dependencies.len() ==> has_node(s, #[trigger] s[i].dependencies[j])
}

/// Joining two graphs whose edges lead to their own nodes gives such a
/// graph.
pub proof fn lemma_concat_closed(a: Seq<DependencyView>, b: Seq<DependencyView>)
    requires
        edges_closed(a),
        edges_closed(b),
    ensures
        edges_closed(a + b),
{
    let c = a + b;
    assert forall|i: int, j: int|
        0 <= i < c.len() && 0 <= j < c[i].dependencies.len() implies has_node(c, #[trigger] c[i].dependencies[j]) by {
        if i < a.len() {
            assert(c[i] == a[i]);
            assert(has_node(a, a[i].dependencies[j]));
            let w = choose|w: int| 0 <= w < a.len() && (#[trigger] a[w]).instance_id == a[i].dependencies[j];
            assert(c[w] == a[w]);
        } else {
            assert(c[i] == b[i - a.len()]);
            assert(has_node(b, b[i - a.len()].dependencies[j]));
            let w = choose|w: int| 0 <= w < b.len() && (#[trigger] b[w]).instance_id == b[i - a.len()].dependencies[j];
            assert(c[w + a.len()] == b[w]);
        }
    }
}

} // verus!
