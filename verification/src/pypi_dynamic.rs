//! The installed Python distributions, as `pip inspect` reports them, with
//! the edges their requirements draw.
use vstd::prelude::*;

use crate::cargo_dynamic::array_items;
use crate::config::{has_entry, probe_has, CommandOutput, DirectoryProbe, DynamicProducer};
use crate::data::{field, get_array, get_str, json_document, parse_json, str_value, string_items, strings_of, DataValue};
use crate::ident::{fixed_purl, instance_id, make_instance_id};
use crate::merge::contains_id;
use crate::ident::{is_tagged, lemma_ids_tagged};
use crate::model::{all_tagged, edges_closed, has_node, lemma_built_tagged, built, dep_views, BuilderView, Dependency, DependencyBuilder, DependencyType, DependencyView};
use crate::pattern::{captures, lowercase, opt_text, regex_captures, replace_all};
use crate::producer::ProducerError;
use crate::pypi::{pep503, PEP503_SEPARATORS};
use crate::text::{chars_of, push_all, string_of};

verus! {

/// Asks pip for the installed distributions (`python -m pip inspect`).
pub struct PypiDynamicProducer {}

impl PypiDynamicProducer {
    /// Normalises a package name as PEP 503 asks: lower-cased, each run of
    /// `-`, `_` and `.` turned into one `-`.
    pub fn pep503_normalize(raw: &str) -> (r: String)
        ensures
            r@ == pep503(raw@),
    {
        let lower = lowercase(raw);
        match replace_all(PEP503_SEPARATORS, lower.as_str(), "-") {
            Some(s) => s,
            None => {
                assert(false);
                String::new()
            },
        }
    }
}

/// The name at the start of a requirement (after blanks), in any case.
pub const REQUIREMENT_NAME_PATTERN: &'static str = "(?i)^\\s*([A-Z0-9][A-Z0-9_\\-\\.]*)";

/// The scope of every installed distribution: one environment holds each
/// package once.
pub const SITE_PACKAGES_SCOPE: &'static str = "pypi-site-packages";

/// An installed distribution: its name and version, and its requirements.
pub struct InstalledDist {
    pub name: String,
    pub version: String,
    pub requirements: Vec<String>,
}

pub struct DistView {
    pub name: Seq<char>,
    pub version: Seq<char>,
    pub requirements: Seq<Seq<char>>,
}

impl View for InstalledDist {
    type V = DistView;

    open spec fn view(&self) -> DistView {
        DistView { name: self.name@, version: self.version@, requirements: self.requirements.deep_view() }
    }
}

pub open spec fn dist_views(s: Seq<InstalledDist>) -> Seq<DistView> {
    s.map_values(|d: InstalledDist| d@)
}

/// An entry of `installed` whose `metadata` has a string `name` and
/// `version`; its requirements are the strings of `requires_dist`.
pub open spec fn installed_dist(item: DataValue) -> Option<DistView> {
    match field(item, "metadata"@) {
        Some(meta) => match (str_value(field(meta, "name"@)), str_value(field(meta, "version"@))) {
            (Some(name), Some(version)) => Some(
                DistView { name, version, requirements: string_items(field(meta, "requires_dist"@)) },
            ),
            _ => None,
        },
        None => None,
    }
}

pub open spec fn installed_dists(items: Seq<DataValue>) -> Seq<DistView>
    decreases items.len(),
{
    if items.len() == 0 {
        Seq::empty()
    } else {
        let rest = installed_dists(items.drop_last());
        match installed_dist(items.last()) {
            Some(d) => rest.push(d),
            None => rest,
        }
    }
}

/// The distributions of a `pip inspect` report.
pub open spec fn installed_of(doc: DataValue) -> Seq<DistView> {
    installed_dists(array_items(field(doc, "installed"@)))
}

/// `pkg:pypi/<normalised name>@<version>`.
pub open spec fn dist_purl(d: DistView) -> Seq<char> {
    "pkg:pypi/"@ + pep503(d.name) + "@"@ + d.version
}

pub open spec fn dist_instance(d: DistView) -> Seq<char> {
    instance_id(dist_purl(d), SITE_PACKAGES_SCOPE@)
}

/// The index of the last distribution whose normalised name is `norm`.
pub open spec fn last_dist_named(dists: Seq<DistView>, norm: Seq<char>) -> Option<int>
    decreases dists.len(),
{
    if dists.len() == 0 {
        None
    } else if pep503(dists.last().name) == norm {
        Some(dists.len() - 1)
    } else {
        last_dist_named(dists.drop_last(), norm)
    }
}

/// The package name that a requirement starts with.
pub open spec fn requirement_name(req: Seq<char>) -> Option<Seq<char>> {
    match regex_captures(REQUIREMENT_NAME_PATTERN@, req) {
        Some(groups) => if groups.len() > 1 && groups[1] is Some {
            Some(groups[1]->0)
        } else {
            None
        },
        None => None,
    }
}

/// The identifiers of the installed distributions that `reqs` name, each
/// once, in order; requirements that name nothing installed are dropped.
pub open spec fn requirement_targets(dists: Seq<DistView>, reqs: Seq<Seq<char>>) -> Seq<Seq<char>>
    decreases reqs.len(),
{
    if reqs.len() == 0 {
        Seq::empty()
    } else {
        let rest = requirement_targets(dists, reqs.drop_last());
        match requirement_name(reqs.last()) {
            Some(n) => match last_dist_named(dists, pep503(n)) {
                Some(t) => {
                    let id = dist_instance(dists[t]);
                    if rest.contains(id) {
                        rest
                    } else {
                        rest.push(id)
                    }
                },
                None => rest,
            },
            None => rest,
        }
    }
}

/// The node of one distribution.
pub open spec fn dist_node(dists: Seq<DistView>, d: DistView) -> DependencyView {
    built(
        BuilderView {
            group: None,
            kind: DependencyType::Library,
            name: Some(d.name),
            version: Some(d.version),
            purl: Some(dist_purl(d)),
            instance_id: Some(dist_instance(d)),
            dependencies: requirement_targets(dists, d.requirements),
            location: None,
        },
    )
}

/// The graph of the installed distributions: one node each, in report order.
pub open spec fn dists_graph(dists: Seq<DistView>) -> Seq<DependencyView> {
    dists.map_values(|d: DistView| dist_node(dists, d))
}

/// What the producer makes of the output of `pip inspect`.
pub open spec fn pip_report_outcome(success: bool, stdout: Seq<char>) -> Option<Seq<DependencyView>> {
    if !success {
        None
    } else {
        match json_document(stdout) {
            Some(doc) => Some(dists_graph(installed_of(doc))),
            None => None,
        }
    }
}

fn installed_dists_exec(items: &Vec<DataValue>) -> (r: Vec<InstalledDist>)
    ensures
        dist_views(r@) == installed_dists(items@),
{
    let mut r: Vec<InstalledDist> = Vec::new();
    let mut i: usize = 0;
    assert(items@.take(0) =~= Seq::<DataValue>::empty());
    assert(dist_views(r@) =~= Seq::<DistView>::empty());
    while i < items.len()
        invariant
            i <= items.len(),
            dist_views(r@) == installed_dists(items@.take(i as int)),
        decreases items.len() - i,
    {
        assert(items@.take(i + 1).drop_last() =~= items@.take(i as int));
        assert(items@.take(i + 1).last() == items@[i as int]);
        match items[i].get("metadata") {
            Some(meta) => match (get_str(meta, "name"), get_str(meta, "version")) {
                (Some(name), Some(version)) => {
                    let requirements = match get_array(meta, "requires_dist") {
                        Some(a) => strings_of(a),
                        None => {
                            let e: Vec<String> = Vec::new();
                            assert(e.deep_view() =~= Seq::<Seq<char>>::empty());
                            e
                        },
                    };
                    let d = InstalledDist { name: name.clone(), version: version.clone(), requirements };
                    let ghost before = dist_views(r@);
                    assert(d@ == installed_dist(items@[i as int])->0);
                    r.push(d);
                    assert(dist_views(r@) =~= before.push(d@));
                },
                _ => {},
            },
            None => {},
        }
        i = i + 1;
    }
    assert(items@.take(items.len() as int) =~= items@);
    r
}

fn dist_purl_exec(d: &InstalledDist) -> (r: String)
    ensures
        r@ == dist_purl(d@),
{
    let mut cs = chars_of("pkg:pypi/");
    let norm = PypiDynamicProducer::pep503_normalize(d.name.as_str());
    push_all(&mut cs, &chars_of(norm.as_str()));
    cs.push('@');
    push_all(&mut cs, &chars_of(d.version.as_str()));
    proof {
        reveal_strlit("pkg:pypi/");
        reveal_strlit("@");
        assert(cs@ =~= "pkg:pypi/"@ + pep503(d.name@) + "@"@ + d.version@);
    }
    string_of(&cs)
}

fn requirement_name_exec(req: &String) -> (r: Option<String>)
    ensures
        opt_text(r) == requirement_name(req@),
{
    match captures(REQUIREMENT_NAME_PATTERN, req.as_str()) {
        Some(groups) => {
            let ghost gv = groups@.map_values(|g: Option<String>| opt_text(g));
            if groups.len() > 1 {
                match &groups[1] {
                    Some(n) => {
                        assert(gv[1] == Some(n@));
                        Some(n.clone())
                    },
                    None => {
                        assert(gv[1] is None);
                        None
                    },
                }
            } else {
                None
            }
        },
        None => None,
    }
}

proof fn lemma_last_dist_named(dists: Seq<DistView>, norm: Seq<char>)
    ensures
        last_dist_named(dists, norm) matches Some(t) ==> 0 <= t < dists.len(),
    decreases dists.len(),
{
    if dists.len() > 0 && pep503(dists.last().name) != norm {
        lemma_last_dist_named(dists.drop_last(), norm);
    }
}

/// The index of the last distribution whose normalised name, listed in
/// `norms`, is `norm`.
fn last_dist_named_exec(dists: &Vec<InstalledDist>, norms: &Vec<String>, norm: &String) -> (r:
    Option<usize>)
    requires
        norms.len() == dists.len(),
        forall|k: int| 0 <= k < dists.len() ==> #[trigger] norms@[k]@ == pep503(dists@[k].name@),
    ensures
        match r {
            Some(t) => last_dist_named(dist_views(dists@), norm@) == Some(t as int),
            None => last_dist_named(dist_views(dists@), norm@) is None,
        },
{
    let ghost vs = dist_views(dists@);
    let mut i = dists.len();
    assert(vs.take(i as int) =~= vs);
    while i > 0
        invariant
            i <= dists.len(),
            norms.len() == dists.len(),
            forall|k: int| 0 <= k < dists.len() ==> #[trigger] norms@[k]@ == pep503(dists@[k].name@),
            vs == dist_views(dists@),
            last_dist_named(vs, norm@) == last_dist_named(vs.take(i as int), norm@),
        decreases i,
    {
        assert(vs.take(i as int).drop_last() =~= vs.take(i - 1));
        assert(vs.take(i as int).last() == dists@[i - 1]@);
        assert(norms@[i - 1]@ == pep503(dists@[i - 1].name@));
        if norms[i - 1] == *norm {
            return Some(i - 1);
        }
        i = i - 1;
    }
    None
}

proof fn lemma_requirement_targets_take(dists: Seq<DistView>, reqs: Seq<Seq<char>>, j: int)
    requires
        0 <= j < reqs.len(),
    ensures
        requirement_targets(dists, reqs.take(j + 1)) == match requirement_name(reqs[j]) {
            Some(n) => match last_dist_named(dists, pep503(n)) {
                Some(t) => {
                    let rest = requirement_targets(dists, reqs.take(j));
                    let id = dist_instance(dists[t]);
                    if rest.contains(id) {
                        rest
                    } else {
                        rest.push(id)
                    }
                },
                None => requirement_targets(dists, reqs.take(j)),
            },
            None => requirement_targets(dists, reqs.take(j)),
        },
{
    assert(reqs.take(j + 1).drop_last() =~= reqs.take(j));
    assert(reqs.take(j + 1).last() == reqs[j]);
}

/// The identifiers of the distributions that `reqs` name, each once.
fn requirement_targets_exec(
    dists: &Vec<InstalledDist>,
    norms: &Vec<String>,
    ids: &Vec<String>,
    reqs: &Vec<String>,
) -> (r: Vec<String>)
    requires
        norms.len() == dists.len(),
        ids.len() == dists.len(),
        forall|k: int| 0 <= k < dists.len() ==> #[trigger] norms@[k]@ == pep503(dists@[k].name@),
        forall|k: int| 0 <= k < dists.len() ==> #[trigger] ids@[k]@ == dist_instance(dists@[k]@),
    ensures
        r.deep_view() == requirement_targets(dist_views(dists@), reqs.deep_view()),
{
    let ghost vs = dist_views(dists@);
    let ghost rv = reqs.deep_view();
    let mut r: Vec<String> = Vec::new();
    let mut j: usize = 0;
    assert(rv.take(0) =~= Seq::<Seq<char>>::empty());
    assert(r.deep_view() =~= Seq::<Seq<char>>::empty());
    while j < reqs.len()
        invariant
            j <= reqs.len(),
            norms.len() == dists.len(),
            ids.len() == dists.len(),
            forall|k: int| 0 <= k < dists.len() ==> #[trigger] norms@[k]@ == pep503(dists@[k].name@),
            forall|k: int| 0 <= k < dists.len() ==> #[trigger] ids@[k]@ == dist_instance(dists@[k]@),
            vs == dist_views(dists@),
            rv == reqs.deep_view(),
            r.deep_view() == requirement_targets(vs, rv.take(j as int)),
        decreases reqs.len() - j,
    {
        proof {
            lemma_requirement_targets_take(vs, rv, j as int);
        }
        assert(reqs@[j as int]@ == rv[j as int]);
        match requirement_name_exec(&reqs[j]) {
            Some(n) => {
                let norm = PypiDynamicProducer::pep503_normalize(n.as_str());
                match last_dist_named_exec(dists, norms, &norm) {
                    Some(t) => {
                        proof {
                            lemma_last_dist_named(vs, norm@);
                            assert(vs[t as int] == dists@[t as int]@);
                        }
                        let id = &ids[t];
                        if !contains_id(&r, id) {
                            let ghost before = r.deep_view();
                            r.push(id.clone());
                            assert(r.deep_view() =~= before.push(id@));
                        }
                    },
                    None => {},
                }
            },
            None => {},
        }
        j = j + 1;
    }
    assert(rv.take(reqs.len() as int) =~= rv);
    r
}

/// The graph of the installed distributions (see [`dists_graph`]).
pub fn dists_dependencies(dists: &Vec<InstalledDist>) -> (out: Vec<Dependency>)
    ensures
        dep_views(out@) == dists_graph(dist_views(dists@)),
{
    let ghost vs = dist_views(dists@);
    // First pass: each distribution's normalised name, URL and identifier.
    let mut norms: Vec<String> = Vec::new();
    let mut purls: Vec<String> = Vec::new();
    let mut ids: Vec<String> = Vec::new();
    let mut i: usize = 0;
    while i < dists.len()
        invariant
            i <= dists.len(),
            norms.len() == i,
            purls.len() == i,
            ids.len() == i,
            forall|k: int| 0 <= k < i ==> #[trigger] norms@[k]@ == pep503(dists@[k].name@),
            forall|k: int| 0 <= k < i ==> #[trigger] purls@[k]@ == dist_purl(dists@[k]@),
            forall|k: int| 0 <= k < i ==> #[trigger] ids@[k]@ == dist_instance(dists@[k]@),
        decreases dists.len() - i,
    {
        let d = &dists[i];
        let norm = PypiDynamicProducer::pep503_normalize(d.name.as_str());
        let purl = dist_purl_exec(d);
        let id = make_instance_id(purl.as_str(), SITE_PACKAGES_SCOPE);
        norms.push(norm);
        purls.push(purl);
        ids.push(id);
        i = i + 1;
    }
    // Second pass: the nodes and their edges.
    let mut out: Vec<Dependency> = Vec::new();
    let mut k: usize = 0;
    assert(dep_views(out@) =~= vs.take(0).map_values(|d: DistView| dist_node(vs, d)));
    while k < dists.len()
        invariant
            k <= dists.len(),
            norms.len() == dists.len(),
            purls.len() == dists.len(),
            ids.len() == dists.len(),
            vs == dist_views(dists@),
            forall|m: int| 0 <= m < dists.len() ==> #[trigger] norms@[m]@ == pep503(dists@[m].name@),
            forall|m: int| 0 <= m < dists.len() ==> #[trigger] purls@[m]@ == dist_purl(dists@[m]@),
            forall|m: int| 0 <= m < dists.len() ==> #[trigger] ids@[m]@ == dist_instance(dists@[m]@),
            dep_views(out@) == vs.take(k as int).map_values(|d: DistView| dist_node(vs, d)),
        decreases dists.len() - k,
    {
        let d = &dists[k];
        assert(vs[k as int] == d@);
        let kids = requirement_targets_exec(dists, &norms, &ids, &d.requirements);
        let builder = DependencyBuilder::default().name(d.name.clone()).version(
            Some(d.version.clone()),
        ).dep_type(DependencyType::Library).purl(purls[k].clone()).instance_id(
            ids[k].clone(),
        ).dependencies(kids).location(None);
        assert(builder@ == (BuilderView {
            group: None,
            kind: DependencyType::Library,
            name: Some(d@.name),
            version: Some(d@.version),
            purl: Some(dist_purl(d@)),
            instance_id: Some(dist_instance(d@)),
            dependencies: requirement_targets(vs, d@.requirements),
            location: None,
        }));
        let ghost before = dep_views(out@);
        match builder.build() {
            Ok(node) => {
                out.push(node);
                assert(dep_views(out@) =~= before.push(dist_node(vs, vs[k as int])));
            },
            Err(_) => {
                assert(false);
            },
        }
        assert(vs.take(k + 1).map_values(|d: DistView| dist_node(vs, d)) =~= vs.take(
            k as int,
        ).map_values(|d: DistView| dist_node(vs, d)).push(dist_node(vs, vs[k as int])));
        k = k + 1;
    }
    assert(vs.take(dists.len() as int) =~= vs);
    out
}

impl PypiDynamicProducer {
    /// The graph of the distributions that `pip inspect` reported; an error
    /// where the command failed (with its standard error) or printed no JSON.
    pub fn graph_of_output(output: &CommandOutput) -> (r: Result<Vec<Dependency>, ProducerError>)
        ensures
            match r {
                Ok(ds) => pip_report_outcome(output.success, output.stdout@) == Some(dep_views(ds@)),
                Err(e) => {
                    &&& pip_report_outcome(output.success, output.stdout@) is None
                    &&& !output.success ==> e == ProducerError::Command {
                        message: output.stderr,
                    }
                    &&& output.success ==> e is Parse
                },
            },
    {
        if !output.success {
            return Err(ProducerError::Command { message: output.stderr.clone() });
        }
        match parse_json(output.stdout.as_str()) {
            Ok(doc) => {
                let dists = match get_array(&doc, "installed") {
                    Some(items) => installed_dists_exec(items),
                    None => {
                        let e: Vec<InstalledDist> = Vec::new();
                        assert(dist_views(e@) =~= installed_dists(Seq::<DataValue>::empty()));
                        e
                    },
                };
                Ok(dists_dependencies(&dists))
            },
            Err(message) => Err(ProducerError::Parse { message }),
        }
    }
}

/// pip applies where the directory holds a Python manifest and an
/// interpreter answered.
pub open spec fn pip_applies(probe: DirectoryProbe) -> bool {
    &&& (has_entry(probe, "requirements.txt"@) || has_entry(probe, "pyproject.toml"@) || has_entry(
        probe,
        "setup.py"@,
    ) || has_entry(probe, "Pipfile"@))
    &&& probe.python is Some
}

impl DynamicProducer for PypiDynamicProducer {
    fn is_applicable(&self, probe: &DirectoryProbe) -> (r: bool)
        ensures
            r == pip_applies(*probe),
    {
        let has_manifest = probe_has(probe, "requirements.txt") || probe_has(probe, "pyproject.toml")
            || probe_has(probe, "setup.py") || probe_has(probe, "Pipfile");
        has_manifest && probe.python.is_some()
    }

    fn detect_dependencies(&self, output: &CommandOutput) -> (r: Result<Vec<Dependency>, ProducerError>)
        ensures
            match r {
                Ok(ds) => pip_report_outcome(output.success, output.stdout@) == Some(dep_views(ds@)),
                Err(_) => pip_report_outcome(output.success, output.stdout@) is None,
            },
    {
        PypiDynamicProducer::graph_of_output(output)
    }
}

proof fn lemma_requirement_targets_distinct(dists: Seq<DistView>, reqs: Seq<Seq<char>>)
    ensures
        requirement_targets(dists, reqs).no_duplicates(),
    decreases reqs.len(),
{
    if reqs.len() > 0 {
        lemma_requirement_targets_distinct(dists, reqs.drop_last());
        let rest = requirement_targets(dists, reqs.drop_last());
        match requirement_name(reqs.last()) {
            Some(n) => match last_dist_named(dists, pep503(n)) {
                Some(t) => {
                    let id = dist_instance(dists[t]);
                    if !rest.contains(id) {
                        let r = rest.push(id);
                        assert forall|a: int, b: int| 0 <= a < r.len() && 0 <= b < r.len() && a != b implies r[a] != r[b] by {
                            if a == rest.len() {
                                assert(rest[b] != id);
                            } else if b == rest.len() {
                                assert(rest[a] != id);
                            }
                        }
                    }
                },
                None => {},
            },
            None => {},
        }
    }
}

/// Each installed distribution's edges name each target once, however many
/// of its requirements name it.
pub proof fn law_dist_edges_distinct(dists: Seq<DistView>, i: int)
    requires
        0 <= i < dists.len(),
    ensures
        requirement_targets(dists, dists[i].requirements).no_duplicates(),
{
    lemma_requirement_targets_distinct(dists, dists[i].requirements);
}

/// Every installed distribution's node has a tagged identifier.
pub proof fn law_dists_ids_tagged(dists: Seq<DistView>)
    ensures
        all_tagged(dists_graph(dists)),
{
    let g = dists_graph(dists);
    assert forall|i: int| 0 <= i < g.len() implies is_tagged(#[trigger] g[i].instance_id) by {
        let d = dists[i];
        lemma_ids_tagged(dist_purl(d), SITE_PACKAGES_SCOPE@, None);
        lemma_built_tagged(
            BuilderView {
                group: None,
                kind: DependencyType::Library,
                name: Some(d.name),
                version: Some(d.version),
                purl: Some(dist_purl(d)),
                instance_id: Some(dist_instance(d)),
                dependencies: requirement_targets(dists, d.requirements),
                location: None,
            },
        );
    }
}

/// Some installed distribution has the identifier `id`.
pub open spec fn is_dist_id(dists: Seq<DistView>, id: Seq<char>) -> bool {
    exists|t: int| 0 <= t < dists.len() && dist_instance(#[trigger] dists[t]) == id
}

proof fn lemma_targets_are_dists(dists: Seq<DistView>, reqs: Seq<Seq<char>>)
    ensures
        forall|j: int|
            0 <= j < requirement_targets(dists, reqs).len() ==> is_dist_id(
                dists,
                #[trigger] requirement_targets(dists, reqs)[j],
            ),
    decreases reqs.len(),
{
    if reqs.len() > 0 {
        lemma_targets_are_dists(dists, reqs.drop_last());
        let rest = requirement_targets(dists, reqs.drop_last());
        let all = requirement_targets(dists, reqs);
        assert forall|j: int| 0 <= j < all.len() implies is_dist_id(dists, #[trigger] all[j]) by {
            if j < rest.len() {
                assert(all[j] == rest[j]);
                assert(is_dist_id(dists, rest[j]));
            } else {
                let n = requirement_name(reqs.last())->0;
                let t = last_dist_named(dists, pep503(n))->0;
                lemma_last_dist_named(dists, pep503(n));
                assert(dist_instance(dists[t]) == all[j]);
            }
        }
    }
}

/// Every edge between installed distributions leads to one of their nodes.
pub proof fn law_dists_edges_closed(dists: Seq<DistView>)
    ensures
        edges_closed(dists_graph(dists)),
{
    let g = dists_graph(dists);
    assert forall|i: int, j: int|
        0 <= i < g.len() && 0 <= j < g[i].dependencies.len() implies has_node(g, #[trigger] g[i].dependencies[j]) by {
        lemma_targets_are_dists(dists, dists[i].requirements);
        assert(is_dist_id(dists, requirement_targets(dists, dists[i].requirements)[j]));
        let t = choose|t: int| 0 <= t < dists.len() && dist_instance(#[trigger] dists[t]) == requirement_targets(dists, dists[i].requirements)[j];
        lemma_ids_tagged(dist_purl(dists[t]), SITE_PACKAGES_SCOPE@, None);
        assert(g[t].instance_id == dist_instance(dists[t]));
    }
}

/// The identifier of the installed distribution that a requirement names,
/// if any: the last one whose PEP 503 name is that of the requirement.
pub open spec fn req_target(dists: Seq<DistView>, req: Seq<char>) -> Option<Seq<char>> {
    match requirement_name(req) {
        Some(n) => match last_dist_named(dists, pep503(n)) {
            Some(t) => Some(dist_instance(dists[t])),
            None => None,
        },
        None => None,
    }
}

/// Some requirement of `reqs` names the distribution with identifier `x`.
pub open spec fn names_target(dists: Seq<DistView>, reqs: Seq<Seq<char>>, x: Seq<char>) -> bool {
    exists|i: int| 0 <= i < reqs.len() && req_target(dists, #[trigger] reqs[i]) == Some(x)
}

/// `x` is named by a requirement before any requirement names `y`.
pub open spec fn mentioned_before(dists: Seq<DistView>, reqs: Seq<Seq<char>>, x: Seq<char>, y: Seq<char>) -> bool {
    exists|i: int|
        0 <= i < reqs.len() && req_target(dists, #[trigger] reqs[i]) == Some(x) && !names_target(
            dists,
            reqs.take(i + 1),
            y,
        )
}

proof fn lemma_names_target_take(dists: Seq<DistView>, reqs: Seq<Seq<char>>, n: int, x: Seq<char>)
    requires
        0 <= n <= reqs.len(),
        names_target(dists, reqs.take(n), x),
    ensures
        names_target(dists, reqs, x),
{
    let i = choose|i: int| 0 <= i < reqs.take(n).len() && req_target(dists, #[trigger] reqs.take(n)[i]) == Some(x);
    assert(reqs.take(n)[i] == reqs[i]);
}

proof fn lemma_targets_first_mention(dists: Seq<DistView>, reqs: Seq<Seq<char>>)
    ensures
        forall|x: Seq<char>|
            #[trigger] requirement_targets(dists, reqs).contains(x) <==> names_target(dists, reqs, x),
        forall|a: int, b: int|
            0 <= a < b < requirement_targets(dists, reqs).len() ==> mentioned_before(
                dists,
                reqs,
                #[trigger] requirement_targets(dists, reqs)[a],
                #[trigger] requirement_targets(dists, reqs)[b],
            ),
    decreases reqs.len(),
{
    if reqs.len() > 0 {
        let p = reqs.drop_last();
        lemma_targets_first_mention(dists, p);
        let rp = requirement_targets(dists, p);
        let r = requirement_targets(dists, reqs);
        assert forall|q: int| 0 <= q < p.len() implies p[q] == #[trigger] reqs[q] by {}
        assert(reqs[reqs.len() - 1] == reqs.last());
        assert forall|x: Seq<char>| #[trigger] r.contains(x) <==> names_target(dists, reqs, x) by {
            if r.contains(x) {
                if rp.contains(x) {
                    let i = choose|i: int| 0 <= i < p.len() && req_target(dists, #[trigger] p[i]) == Some(x);
                    assert(reqs[i] == p[i]);
                } else {
                    let k = choose|k: int| 0 <= k < r.len() && r[k] == x;
                    if k < rp.len() {
                        assert(r[k] == rp[k]);
                    }
                    assert(req_target(dists, reqs[reqs.len() - 1]) == Some(x));
                }
            }
            if names_target(dists, reqs, x) {
                let i = choose|i: int| 0 <= i < reqs.len() && req_target(dists, #[trigger] reqs[i]) == Some(x);
                if i < p.len() {
                    assert(req_target(dists, p[i]) == Some(x));
                    assert(rp.contains(x));
                    let k = choose|k: int| 0 <= k < rp.len() && rp[k] == x;
                    assert(r[k] == x);
                } else if !rp.contains(x) {
                    assert(r[r.len() - 1] == x);
                } else {
                    let k = choose|k: int| 0 <= k < rp.len() && rp[k] == x;
                    assert(r[k] == x);
                }
            }
        }
        assert forall|a: int, b: int| 0 <= a < b < r.len() implies mentioned_before(
            dists,
            reqs,
            #[trigger] r[a],
            #[trigger] r[b],
        ) by {
            assert(r[a] == rp[a]);
            if b < rp.len() {
                assert(r[b] == rp[b]);
                assert(mentioned_before(dists, p, rp[a], rp[b]));
                let i = choose|i: int|
                    0 <= i < p.len() && req_target(dists, #[trigger] p[i]) == Some(rp[a]) && !names_target(
                        dists,
                        p.take(i + 1),
                        rp[b],
                    );
                assert(reqs.take(i + 1) =~= p.take(i + 1));
                assert(reqs[i] == p[i]);
            } else {
                assert(rp.contains(rp[a]));
                let i = choose|i: int| 0 <= i < p.len() && req_target(dists, #[trigger] p[i]) == Some(rp[a]);
                assert(reqs.take(i + 1) =~= p.take(i + 1));
                assert(reqs[i] == p[i]);
                assert(!rp.contains(r[b]));
                if names_target(dists, p.take(i + 1), r[b]) {
                    lemma_names_target_take(dists, p, i + 1, r[b]);
                }
            }
        }
    }
}

/// The graph of the installed distributions has one node per distribution,
/// in report order: its name and version, the URL
/// `pkg:pypi/<PEP 503 name>@<version>` (repaired), the instance identifier
/// of that URL in the site-packages scope, no group and no location. Its
/// edges are the distributions its requirements name (by PEP 503 name, the
/// last one listed under it): each named one is there, nothing else is,
/// none twice, and in order of first mention.
pub proof fn law_dists_graph(dists: Seq<DistView>)
    ensures
        dists_graph(dists).len() == dists.len(),
        forall|i: int|
            0 <= i < dists.len() ==> {
                let d = #[trigger] dists_graph(dists)[i];
                let reqs = dists[i].requirements;
                &&& d.name == dists[i].name
                &&& d.version == Some(dists[i].version)
                &&& d.group is None
                &&& d.location is None
                &&& d.purl == fixed_purl(dist_purl(dists[i]))
                &&& d.instance_id == dist_instance(dists[i])
                &&& d.dependencies == requirement_targets(dists, reqs)
                &&& d.dependencies.no_duplicates()
                &&& forall|x: Seq<char>| #[trigger] d.dependencies.contains(x) <==> names_target(dists, reqs, x)
                &&& forall|a: int, b: int|
                    0 <= a < b < d.dependencies.len() ==> mentioned_before(
                        dists,
                        reqs,
                        #[trigger] d.dependencies[a],
                        #[trigger] d.dependencies[b],
                    )
            },
{
    assert forall|i: int| 0 <= i < dists.len() implies {
        let d = #[trigger] dists_graph(dists)[i];
        let reqs = dists[i].requirements;
        &&& d.name == dists[i].name
        &&& d.version == Some(dists[i].version)
        &&& d.group is None
        &&& d.location is None
        &&& d.purl == fixed_purl(dist_purl(dists[i]))
        &&& d.instance_id == dist_instance(dists[i])
        &&& d.dependencies == requirement_targets(dists, reqs)
        &&& d.dependencies.no_duplicates()
        &&& forall|x: Seq<char>| #[trigger] d.dependencies.contains(x) <==> names_target(dists, reqs, x)
        &&& forall|a: int, b: int|
            0 <= a < b < d.dependencies.len() ==> mentioned_before(
                dists,
                reqs,
                #[trigger] d.dependencies[a],
                #[trigger] d.dependencies[b],
            )
    } by {
        lemma_ids_tagged(dist_purl(dists[i]), SITE_PACKAGES_SCOPE@, None);
        lemma_requirement_targets_distinct(dists, dists[i].requirements);
        lemma_targets_first_mention(dists, dists[i].requirements);
    }
}

} // verus!
