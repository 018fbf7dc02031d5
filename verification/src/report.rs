//! The logical report of an SBOM: its component instances grouped by name
//! and version.
use vstd::prelude::*;

use crate::cargo_dynamic::array_items;
use crate::data::{field, get_array, get_str, json_document, parse_json, str_value, DataValue};
use crate::model::{clone_opt_string, opt_view};
use crate::text::{chars_of, contains, contains_seq, string_of};

verus! {

/// One logical component: a name and version, and the `bom-ref` of each of
/// its instances.
pub struct LogicalComponent {
    pub name: String,
    pub version: Option<String>,
    pub instance_count: usize,
    pub instances: Vec<String>,
}

pub struct ComponentView {
    pub name: Seq<char>,
    pub version: Option<Seq<char>>,
    pub instance_count: nat,
    pub instances: Seq<Seq<char>>,
}

impl View for LogicalComponent {
    type V = ComponentView;

    open spec fn view(&self) -> ComponentView {
        ComponentView {
            name: self.name@,
            version: opt_view(self.version),
            instance_count: self.instance_count as nat,
            instances: self.instances.deep_view(),
        }
    }
}

/// The grouped components, with the number of groups and the number of
/// component entries read (skipped ones included).
pub struct LogicalReport {
    pub total_logical_components: usize,
    pub total_physical_instances: usize,
    pub components: Vec<LogicalComponent>,
}

pub open spec fn component_views(s: Seq<LogicalComponent>) -> Seq<ComponentView> {
    s.map_values(|c: LogicalComponent| c@)
}

/// A component entry as the report reads it: its name (`unknown` where it
/// has none), its version and its `bom-ref` (empty where it has none).
pub struct ComponentEntry {
    pub name: Seq<char>,
    pub version: Option<Seq<char>>,
    pub bom_ref: Seq<char>,
    /// The entry is left out: its name holds `macro` or `windows`.
    pub skipped: bool,
}

pub open spec fn component_entry(comp: DataValue) -> ComponentEntry {
    let raw = str_value(field(comp, "name"@));
    let text = match raw {
        Some(n) => n,
        None => Seq::empty(),
    };
    ComponentEntry {
        name: match raw {
            Some(n) => n,
            None => "unknown"@,
        },
        version: str_value(field(comp, "version"@)),
        bom_ref: match str_value(field(comp, "bom-ref"@)) {
            Some(r) => r,
            None => Seq::empty(),
        },
        skipped: contains_seq(text, "macro"@) || contains_seq(text, "windows"@),
    }
}

/// The index of the group with this name and version.
pub open spec fn group_index(groups: Seq<ComponentView>, name: Seq<char>, version: Option<Seq<char>>) -> Option<int>
    decreases groups.len(),
{
    if groups.len() == 0 {
        None
    } else if groups.last().name == name && groups.last().version == version {
        Some(groups.len() - 1)
    } else {
        group_index(groups.drop_last(), name, version)
    }
}

/// Adds one entry: to its group, or as a new group at the end.
pub open spec fn add_entry(groups: Seq<ComponentView>, e: ComponentEntry) -> Seq<ComponentView> {
    if e.skipped {
        groups
    } else {
        match group_index(groups, e.name, e.version) {
            Some(i) => groups.update(
                i,
                ComponentView {
                    instance_count: groups[i].instance_count + 1,
                    instances: groups[i].instances.push(e.bom_ref),
                    ..groups[i]
                },
            ),
            None => groups.push(
                ComponentView {
                    name: e.name,
                    version: e.version,
                    instance_count: 1,
                    instances: seq![e.bom_ref],
                },
            ),
        }
    }
}

/// The groups of the entries, in order of first appearance.
pub open spec fn grouped(comps: Seq<DataValue>) -> Seq<ComponentView>
    decreases comps.len(),
{
    if comps.len() == 0 {
        Seq::empty()
    } else {
        add_entry(grouped(comps.drop_last()), component_entry(comps.last()))
    }
}

/// The report of an SBOM text: `None` where it is not JSON or has no
/// `components` array; else its groups, their number, and the number of
/// component entries.
pub open spec fn report_of(content: Seq<char>) -> Option<(Seq<ComponentView>, nat, nat)> {
    match json_document(content) {
        Some(doc) => match field(doc, "components"@) {
            Some(DataValue::Array(a)) => Some((grouped(a@), grouped(a@).len(), a@.len())),
            _ => None,
        },
        None => None,
    }
}

proof fn lemma_group_index(groups: Seq<ComponentView>, name: Seq<char>, version: Option<Seq<char>>)
    ensures
        group_index(groups, name, version) matches Some(i) ==> 0 <= i < groups.len() && groups[i].name == name
            && groups[i].version == version,
        group_index(groups, name, version) is None ==> forall|i: int|
            0 <= i < groups.len() ==> !((#[trigger] groups[i]).name == name && groups[i].version == version),
    decreases groups.len(),
{
    if groups.len() > 0 {
        lemma_group_index(groups.drop_last(), name, version);
        assert forall|i: int| 0 <= i < groups.len() - 1 implies groups.drop_last()[i] == #[trigger] groups[i] by {}
    }
}

/// Every group counts its instances.
pub open spec fn counts_match(groups: Seq<ComponentView>) -> bool {
    forall|i: int| 0 <= i < groups.len() ==> #[trigger] groups[i].instance_count == groups[i].instances.len()
}

proof fn lemma_grouped_counts(comps: Seq<DataValue>)
    ensures
        counts_match(grouped(comps)),
        grouped(comps).len() <= comps.len(),
    decreases comps.len(),
{
    if comps.len() > 0 {
        lemma_grouped_counts(comps.drop_last());
        let g = grouped(comps.drop_last());
        let e = component_entry(comps.last());
        lemma_group_index(g, e.name, e.version);
    }
}

fn opt_text_eq(a: &Option<String>, b: &Option<String>) -> (r: bool)
    ensures
        r == (opt_view(*a) == opt_view(*b)),
{
    match (a, b) {
        (Some(x), Some(y)) => crate::text::str_eq(x.as_str(), y.as_str()),
        (None, None) => true,
        _ => false,
    }
}

fn find_group(groups: &Vec<LogicalComponent>, name: &String, version: &Option<String>) -> (r: Option<usize>)
    ensures
        match r {
            Some(i) => group_index(component_views(groups@), name@, opt_view(*version)) == Some(i as int),
            None => group_index(component_views(groups@), name@, opt_view(*version)) is None,
        },
{
    let ghost vs = component_views(groups@);
    let mut i = groups.len();
    assert(vs.take(i as int) =~= vs);
    while i > 0
        invariant
            i <= groups.len(),
            vs == component_views(groups@),
            group_index(vs, name@, opt_view(*version)) == group_index(vs.take(i as int), name@, opt_view(*version)),
        decreases i,
    {
        assert(vs.take(i as int).drop_last() =~= vs.take(i - 1));
        assert(vs.take(i as int).last() == groups@[i - 1]@);
        if crate::text::str_eq(groups[i - 1].name.as_str(), name.as_str()) && opt_text_eq(
            &groups[i - 1].version,
            version,
        ) {
            return Some(i - 1);
        }
        i = i - 1;
    }
    None
}

/// Groups the component instances of an SBOM by name and version (see
/// [`report_of`]); an error where the text is not JSON or holds no
/// `components` array.
pub fn generate_report(content: &str) -> (r: Result<LogicalReport, String>)
    ensures
        match r {
            Ok(rep) => report_of(content@) == Some(
                (
                    component_views(rep.components@),
                    rep.total_logical_components as nat,
                    rep.total_physical_instances as nat,
                ),
            ),
            Err(_) => report_of(content@) is None,
        },
{
    let doc = match parse_json(content) {
        Ok(d) => d,
        Err(e) => {
            return Err(e);
        },
    };
    let components = match get_array(&doc, "components") {
        Some(a) => a,
        None => {
            return Err(string_of(&chars_of("No components found")));
        },
    };
    let ghost cs = components@;
    let mut groups: Vec<LogicalComponent> = Vec::new();
    let mut i: usize = 0;
    assert(cs.take(0) =~= Seq::<DataValue>::empty());
    assert(component_views(groups@) =~= Seq::<ComponentView>::empty());
    while i < components.len()
        invariant
            i <= components.len(),
            cs == components@,
            component_views(groups@) == grouped(cs.take(i as int)),
        decreases components.len() - i,
    {
        assert(cs.take(i + 1).drop_last() =~= cs.take(i as int));
        assert(cs.take(i + 1).last() == cs[i as int]);
        proof {
            lemma_grouped_counts(cs.take(i as int));
        }
        let comp = &components[i];
        let raw = get_str(comp, "name");
        let name = match raw {
            Some(n) => n.clone(),
            None => string_of(&chars_of("unknown")),
        };
        let text = match raw {
            Some(n) => chars_of(n.as_str()),
            None => Vec::new(),
        };
        let version = match get_str(comp, "version") {
            Some(v) => Some(v.clone()),
            None => None,
        };
        let bom_ref = match get_str(comp, "bom-ref") {
            Some(b) => b.clone(),
            None => String::new(),
        };
        let ghost e = component_entry(cs[i as int]);
        assert(text@ =~= match str_value(field(cs[i as int], "name"@)) {
            Some(n) => n,
            None => Seq::<char>::empty(),
        });
        let skipped = contains(&text, &chars_of("macro")) || contains(&text, &chars_of("windows"));
        assert(skipped == e.skipped);
        assert(name@ == e.name && opt_view(version) == e.version && bom_ref@ == e.bom_ref);
        if !skipped {
            let ghost before = component_views(groups@);
            match find_group(&groups, &name, &version) {
                Some(k) => {
                    proof {
                        lemma_group_index(before, name@, opt_view(version));
                        assert(before[k as int].instance_count == before[k as int].instances.len());
                        assert(groups@[k as int].instances.len() == before[k as int].instances.len());
                    }
                    let mut g = groups[k].clone_component();
                    let ghost old_instances = g.instances.deep_view();
                    g.instances.push(bom_ref);
                    assert(g.instances.deep_view() =~= old_instances.push(e.bom_ref));
                    g.instance_count = g.instances.len();
                    let ghost gv = g@;
                    groups.set(k, g);
                    assert(component_views(groups@) =~= before.update(k as int, gv));
                },
                None => {
                    let mut instances: Vec<String> = Vec::new();
                    instances.push(bom_ref);
                    assert(instances.deep_view() =~= seq![e.bom_ref]);
                    let g = LogicalComponent { name, version, instance_count: 1, instances };
                    let ghost gv = g@;
                    groups.push(g);
                    assert(component_views(groups@) =~= before.push(gv));
                },
            }
        }
        i = i + 1;
    }
    assert(cs.take(components.len() as int) =~= cs);
    let total = groups.len();
    Ok(
        LogicalReport {
            total_logical_components: total,
            total_physical_instances: components.len(),
            components: groups,
        },
    )
}

impl LogicalComponent {
    /// A copy of the component.
    pub fn clone_component(&self) -> (r: LogicalComponent)
        ensures
            r@ == self@,
    {
        LogicalComponent {
            name: self.name.clone(),
            version: clone_opt_string(&self.version),
            instance_count: self.instance_count,
            instances: crate::model::clone_strings(&self.instances),
        }
    }
}

/// Every group counts exactly its instances, and there are no more groups
/// than component entries.
pub proof fn law_report_counts(content: Seq<char>)
    requires
        report_of(content) is Some,
    ensures
        counts_match((report_of(content)->0).0),
        (report_of(content)->0).1 <= (report_of(content)->0).2,
{
    let doc = json_document(content)->0;
    if let Some(DataValue::Array(a)) = field(doc, "components"@) {
        lemma_grouped_counts(a@);
    }
}

/// No two groups have the same name and version.
pub open spec fn groups_distinct(groups: Seq<ComponentView>) -> bool {
    forall|i: int, j: int|
        0 <= i < j < groups.len() ==> !(#[trigger] groups[i].name == #[trigger] groups[j].name
            && groups[i].version == groups[j].version)
}

/// The group has the name and version of an entry that is not skipped.
pub open spec fn group_of_kept_entry(comps: Seq<DataValue>, g: ComponentView) -> bool {
    exists|k: int|
        0 <= k < comps.len() && !(#[trigger] component_entry(comps[k])).skipped && component_entry(comps[k]).name
            == g.name && component_entry(comps[k]).version == g.version
}

/// Some group has the entry's name and version.
pub open spec fn has_group(groups: Seq<ComponentView>, e: ComponentEntry) -> bool {
    exists|i: int| 0 <= i < groups.len() && (#[trigger] groups[i]).name == e.name && groups[i].version == e.version
}

proof fn lemma_grouped_shape(comps: Seq<DataValue>)
    ensures
        groups_distinct(grouped(comps)),
        forall|i: int| 0 <= i < grouped(comps).len() ==> group_of_kept_entry(comps, #[trigger] grouped(comps)[i]),
        forall|k: int|
            0 <= k < comps.len() && !(#[trigger] component_entry(comps[k])).skipped ==> has_group(
                grouped(comps),
                component_entry(comps[k]),
            ),
    decreases comps.len(),
{
    if comps.len() > 0 {
        let d = comps.drop_last();
        lemma_grouped_shape(d);
        let g = grouped(d);
        let e = component_entry(comps.last());
        let out = grouped(comps);
        lemma_group_index(g, e.name, e.version);
        assert forall|q: int| 0 <= q < d.len() implies d[q] == #[trigger] comps[q] by {}
        assert(comps[comps.len() - 1] == comps.last());
        assert(out.len() >= g.len());
        assert forall|i: int| 0 <= i < g.len() implies out[i].name == g[i].name && out[i].version == g[i].version by {}
        assert forall|i: int, j: int| 0 <= i < j < out.len() implies !(#[trigger] out[i].name == #[trigger] out[j].name
            && out[i].version == out[j].version) by {
            if j < g.len() {
                assert(!(g[i].name == g[j].name && g[i].version == g[j].version));
            } else {
                assert(out[i].name == g[i].name && out[i].version == g[i].version);
            }
        }
        assert forall|i: int| 0 <= i < out.len() implies group_of_kept_entry(comps, #[trigger] out[i]) by {
            if i < g.len() {
                assert(group_of_kept_entry(d, g[i]));
                let k = choose|k: int|
                    0 <= k < d.len() && !(#[trigger] component_entry(d[k])).skipped && component_entry(d[k]).name
                        == g[i].name && component_entry(d[k]).version == g[i].version;
                assert(component_entry(comps[k]) == component_entry(d[k]));
            } else {
                assert(component_entry(comps[comps.len() - 1]) == e);
            }
        }
        assert forall|k: int| 0 <= k < comps.len() && !(#[trigger] component_entry(comps[k])).skipped implies has_group(
            out,
            component_entry(comps[k]),
        ) by {
            if k < d.len() {
                assert(component_entry(comps[k]) == component_entry(d[k]));
                assert(has_group(g, component_entry(d[k])));
                let i = choose|i: int|
                    0 <= i < g.len() && (#[trigger] g[i]).name == component_entry(d[k]).name && g[i].version
                        == component_entry(d[k]).version;
                assert(out[i].name == g[i].name && out[i].version == g[i].version);
            } else {
                match group_index(g, e.name, e.version) {
                    Some(i) => {
                        assert(out[i].name == g[i].name && out[i].version == g[i].version);
                    },
                    None => {
                        assert(out[g.len() as int].name == e.name);
                    },
                }
            }
        }
    }
}

/// A report counts every component entry read as a physical instance and
/// every group as a logical component. Groups are distinct by name and
/// version; each is that of an entry whose name holds neither `macro` nor
/// `windows`; every such entry has its group; and each group counts exactly
/// its instances.
pub proof fn law_report_groups(content: Seq<char>, doc: DataValue, comps: Seq<DataValue>)
    requires
        json_document(content) == Some(doc),
        field(doc, "components"@) matches Some(DataValue::Array(a)) && a@ == comps,
    ensures
        report_of(content) == Some((grouped(comps), grouped(comps).len(), comps.len())),
        groups_distinct(grouped(comps)),
        counts_match(grouped(comps)),
        forall|i: int| 0 <= i < grouped(comps).len() ==> group_of_kept_entry(comps, #[trigger] grouped(comps)[i]),
        forall|k: int|
            0 <= k < comps.len() && !(#[trigger] component_entry(comps[k])).skipped ==> has_group(
                grouped(comps),
                component_entry(comps[k]),
            ),
{
    lemma_grouped_shape(comps);
    lemma_grouped_counts(comps);
}

/// The instances that the groups count, together.
pub open spec fn total_instances(groups: Seq<ComponentView>) -> nat
    decreases groups.len(),
{
    if groups.len() == 0 {
        0
    } else {
        total_instances(groups.drop_last()) + groups.last().instance_count
    }
}

/// The number of entries that are not skipped.
pub open spec fn kept_entries(comps: Seq<DataValue>) -> nat
    decreases comps.len(),
{
    if comps.len() == 0 {
        0
    } else {
        kept_entries(comps.drop_last()) + if component_entry(comps.last()).skipped {
            0nat
        } else {
            1nat
        }
    }
}

proof fn lemma_total_update(groups: Seq<ComponentView>, i: int, g: ComponentView)
    requires
        0 <= i < groups.len(),
        g.instance_count == groups[i].instance_count + 1,
    ensures
        total_instances(groups.update(i, g)) == total_instances(groups) + 1,
    decreases groups.len(),
{
    let u = groups.update(i, g);
    if i == groups.len() - 1 {
        assert(u.drop_last() =~= groups.drop_last());
    } else {
        lemma_total_update(groups.drop_last(), i, g);
        assert(u.drop_last() =~= groups.drop_last().update(i, g));
    }
}

proof fn lemma_grouped_total(comps: Seq<DataValue>)
    ensures
        total_instances(grouped(comps)) == kept_entries(comps),
    decreases comps.len(),
{
    if comps.len() > 0 {
        lemma_grouped_total(comps.drop_last());
        let g = grouped(comps.drop_last());
        let e = component_entry(comps.last());
        lemma_group_index(g, e.name, e.version);
        if !e.skipped {
            match group_index(g, e.name, e.version) {
                Some(i) => {
                    lemma_total_update(
                        g,
                        i,
                        ComponentView {
                            instance_count: g[i].instance_count + 1,
                            instances: g[i].instances.push(e.bom_ref),
                            ..g[i]
                        },
                    );
                },
                None => {
                    let n = ComponentView {
                        name: e.name,
                        version: e.version,
                        instance_count: 1,
                        instances: seq![e.bom_ref],
                    };
                    assert(g.push(n).drop_last() =~= g);
                },
            }
        }
    }
}

/// The groups' instance counts add up to the number of component entries
/// whose name holds neither `macro` nor `windows`.
pub proof fn law_report_instances_sum(content: Seq<char>)
    requires
        report_of(content) is Some,
    ensures
        ({
            let doc = json_document(content)->0;
            let comps = field(doc, "components"@)->0->Array_0@;
            total_instances((report_of(content)->0).0) == kept_entries(comps)
        }),
{
    let doc = json_document(content)->0;
    if let Some(DataValue::Array(a)) = field(doc, "components"@) {
        lemma_grouped_total(a@);
    }
}

} // verus!
