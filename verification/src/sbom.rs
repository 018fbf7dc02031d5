//! What a CycloneDX document records of the dependency graph: one component
//! per node and one dependency entry per node that can be referenced.
use vstd::prelude::*;

use crate::ident::{is_tagged, lemma_tagged_nonempty};
use crate::text::{chars_of, string_of};
use crate::model::{all_tagged, edges_closed, has_node, clone_opt_string, clone_strings, dep_views, opt_view, Dependency, DependencyType, DependencyView};

verus! {

/// A component of the document.
pub struct SbomComponent {
    pub kind: DependencyType,
    pub name: String,
    pub group: Option<String>,
    pub version: Option<String>,
    /// The package URL, where the node has one.
    pub purl: Option<String>,
    /// The reference: the node's instance identifier, else its package URL.
    pub bom_ref: Option<String>,
    /// The file the node was declared in, recorded as a property.
    pub location_path: Option<String>,
}

pub struct ComponentRecord {
    pub kind: DependencyType,
    pub name: Seq<char>,
    pub group: Option<Seq<char>>,
    pub version: Option<Seq<char>>,
    pub purl: Option<Seq<char>>,
    pub bom_ref: Option<Seq<char>>,
    pub location_path: Option<Seq<char>>,
}

impl View for SbomComponent {
    type V = ComponentRecord;

    open spec fn view(&self) -> ComponentRecord {
        ComponentRecord {
            kind: self.kind,
            name: self.name@,
            group: opt_view(self.group),
            version: opt_view(self.version),
            purl: opt_view(self.purl),
            bom_ref: opt_view(self.bom_ref),
            location_path: opt_view(self.location_path),
        }
    }
}

/// A dependency entry of the document: a reference and the references it
/// depends on, where there are any.
pub struct SbomNode {
    pub reference: String,
    pub depends_on: Option<Vec<String>>,
}

pub struct NodeRecord {
    pub reference: Seq<char>,
    pub depends_on: Option<Seq<Seq<char>>>,
}

impl View for SbomNode {
    type V = NodeRecord;

    open spec fn view(&self) -> NodeRecord {
        NodeRecord {
            reference: self.reference@,
            depends_on: match self.depends_on {
                Some(d) => Some(d.deep_view()),
                None => None,
            },
        }
    }
}

/// The components and the dependency entries of a document.
pub struct SbomDocument {
    pub components: Vec<SbomComponent>,
    pub dependencies: Vec<SbomNode>,
}

/// The reference of a node: its instance identifier, else its package URL;
/// none where both are empty.
pub open spec fn node_ref(d: DependencyView) -> Option<Seq<char>> {
    if d.instance_id.len() > 0 {
        Some(d.instance_id)
    } else if d.purl.len() > 0 {
        Some(d.purl)
    } else {
        None
    }
}

/// The component that a node becomes.
pub open spec fn component_record(d: DependencyView) -> ComponentRecord {
    ComponentRecord {
        kind: d.kind,
        name: d.name,
        group: d.group,
        version: d.version,
        purl: if d.purl.len() > 0 {
            Some(d.purl)
        } else {
            None
        },
        bom_ref: node_ref(d),
        location_path: match d.location {
            Some(l) => Some(l.block.file),
            None => None,
        },
    }
}

/// The dependency entries of the nodes that can be referenced, in order.
pub open spec fn node_records(s: Seq<DependencyView>) -> Seq<NodeRecord>
    decreases s.len(),
{
    if s.len() == 0 {
        Seq::empty()
    } else {
        let rest = node_records(s.drop_last());
        let d = s.last();
        match node_ref(d) {
            Some(r) => rest.push(
                NodeRecord {
                    reference: r,
                    depends_on: if d.dependencies.len() > 0 {
                        Some(d.dependencies)
                    } else {
                        None
                    },
                },
            ),
            None => rest,
        }
    }
}

fn node_ref_exec(d: &Dependency) -> (r: Option<String>)
    ensures
        opt_view(r) == node_ref(d@),
{
    if !d.instance_id.as_str().is_empty() {
        Some(d.instance_id.clone())
    } else if !d.purl.as_str().is_empty() {
        Some(d.purl.clone())
    } else {
        None
    }
}

/// The components and dependency entries of the nodes, in node order.
pub fn sbom_document(dependencies: &Vec<Dependency>) -> (doc: SbomDocument)
    ensures
        doc.components@.map_values(|c: SbomComponent| c@) == dep_views(dependencies@).map_values(
            |d: DependencyView| component_record(d),
        ),
        doc.dependencies@.map_values(|n: SbomNode| n@) == node_records(dep_views(dependencies@)),
{
    let ghost vs = dep_views(dependencies@);
    let mut components: Vec<SbomComponent> = Vec::new();
    let mut nodes: Vec<SbomNode> = Vec::new();
    let mut i: usize = 0;
    assert(vs.take(0) =~= Seq::<DependencyView>::empty());
    assert(components@.map_values(|c: SbomComponent| c@) =~= vs.take(0).map_values(
        |d: DependencyView| component_record(d),
    ));
    assert(nodes@.map_values(|n: SbomNode| n@) =~= Seq::<NodeRecord>::empty());
    while i < dependencies.len()
        invariant
            i <= dependencies.len(),
            vs == dep_views(dependencies@),
            components@.map_values(|c: SbomComponent| c@) == vs.take(i as int).map_values(
                |d: DependencyView| component_record(d),
            ),
            nodes@.map_values(|n: SbomNode| n@) == node_records(vs.take(i as int)),
        decreases dependencies.len() - i,
    {
        let d = &dependencies[i];
        assert(vs[i as int] == d@);
        assert(vs.take(i + 1).drop_last() =~= vs.take(i as int));
        assert(vs.take(i + 1).last() == d@);
        let reference = node_ref_exec(d);
        let c = SbomComponent {
            kind: d.dep_type,
            name: d.name.clone(),
            group: clone_opt_string(&d.group),
            version: clone_opt_string(&d.version),
            purl: if !d.purl.as_str().is_empty() {
                Some(d.purl.clone())
            } else {
                None
            },
            bom_ref: match &reference {
                Some(r) => Some(r.clone()),
                None => None,
            },
            location_path: match &d.location {
                Some(l) => Some(l.block.file.clone()),
                None => None,
            },
        };
        let ghost before_c = components@.map_values(|c: SbomComponent| c@);
        let ghost cv = c@;
        assert(cv == component_record(d@));
        components.push(c);
        assert(components@.map_values(|c: SbomComponent| c@) =~= before_c.push(cv));
        assert(vs.take(i + 1).map_values(|d: DependencyView| component_record(d)) =~= vs.take(
            i as int,
        ).map_values(|d: DependencyView| component_record(d)).push(component_record(d@)));
        match reference {
            Some(r) => {
                let depends_on = if d.dependencies.len() > 0 {
                    Some(clone_strings(&d.dependencies))
                } else {
                    None
                };
                let n = SbomNode { reference: r, depends_on };
                let ghost before_n = nodes@.map_values(|n: SbomNode| n@);
                let ghost nv = n@;
                nodes.push(n);
                assert(nodes@.map_values(|n: SbomNode| n@) =~= before_n.push(nv));
            },
            None => {},
        }
        i = i + 1;
    }
    assert(vs.take(dependencies.len() as int) =~= vs);
    SbomDocument { components, dependencies: nodes }
}

/// Each dependency entry comes from a node that has its reference and its
/// edges.
proof fn lemma_node_records_from(s: Seq<DependencyView>)
    ensures
        forall|k: int|
            0 <= k < node_records(s).len() ==> exists|i: int|
                0 <= i < s.len() && node_ref(#[trigger] s[i]) == Some(
                    (#[trigger] node_records(s)[k]).reference,
                ) && node_records(s)[k].depends_on == (if s[i].dependencies.len() > 0 {
                    Some(s[i].dependencies)
                } else {
                    None
                }),
    decreases s.len(),
{
    if s.len() > 0 {
        let p = s.drop_last();
        lemma_node_records_from(p);
        let rest = node_records(p);
        let all = node_records(s);
        assert forall|k: int| 0 <= k < all.len() implies exists|i: int|
            0 <= i < s.len() && node_ref(#[trigger] s[i]) == Some((#[trigger] all[k]).reference)
                && all[k].depends_on == (if s[i].dependencies.len() > 0 {
                Some(s[i].dependencies)
            } else {
                None
            }) by {
            if k < rest.len() {
                assert(all[k] == rest[k]);
                let i = choose|i: int|
                    0 <= i < p.len() && node_ref(#[trigger] p[i]) == Some(rest[k].reference)
                        && rest[k].depends_on == (if p[i].dependencies.len() > 0 {
                        Some(p[i].dependencies)
                    } else {
                        None
                    });
                assert(s[i] == p[i]);
            } else {
                assert(s[s.len() - 1] == s.last());
            }
        }
    }
}

/// Some component of the nodes' document has the reference `x`.
pub open spec fn is_component_ref(s: Seq<DependencyView>, x: Seq<char>) -> bool {
    exists|i: int| 0 <= i < s.len() && (#[trigger] component_record(s[i])).bom_ref == Some(x)
}

/// Every dependency entry of a document refers to one of its components.
pub proof fn law_sbom_entries_refer_to_components(s: Seq<DependencyView>)
    ensures
        forall|k: int|
            0 <= k < node_records(s).len() ==> is_component_ref(s, (#[trigger] node_records(s)[k]).reference),
{
    lemma_node_records_from(s);
    assert forall|k: int| 0 <= k < node_records(s).len() implies is_component_ref(
        s,
        (#[trigger] node_records(s)[k]).reference,
    ) by {
        let r = node_records(s)[k];
        let i = choose|i: int|
            0 <= i < s.len() && node_ref(#[trigger] s[i]) == Some(r.reference) && r.depends_on == (
            if s[i].dependencies.len() > 0 {
                Some(s[i].dependencies)
            } else {
                None
            });
        assert(component_record(s[i]).bom_ref == Some(r.reference));
    }
}

/// Where every edge of the graph leads to one of its nodes and every node
/// has a tagged identifier, each reference that a dependency entry depends
/// on is the reference of a component.
pub proof fn law_sbom_depends_on_resolve(s: Seq<DependencyView>)
    requires
        edges_closed(s),
        all_tagged(s),
    ensures
        forall|k: int, j: int|
            #![trigger node_records(s)[k].depends_on->0[j]]
            0 <= k < node_records(s).len() && node_records(s)[k].depends_on is Some && 0 <= j
                < node_records(s)[k].depends_on->0.len() ==> is_component_ref(
                s,
                node_records(s)[k].depends_on->0[j],
            ),
{
    lemma_node_records_from(s);
    assert forall|k: int, j: int|
        #![trigger node_records(s)[k].depends_on->0[j]]
        0 <= k < node_records(s).len() && node_records(s)[k].depends_on is Some && 0 <= j
            < node_records(s)[k].depends_on->0.len() implies is_component_ref(
            s,
            node_records(s)[k].depends_on->0[j],
        ) by {
        let r = node_records(s)[k];
        let ds = r.depends_on->0;
        let w = choose|i: int|
            0 <= i < s.len() && node_ref(#[trigger] s[i]) == Some(r.reference) && r.depends_on == (
            if s[i].dependencies.len() > 0 {
                Some(s[i].dependencies)
            } else {
                None
            });
        assert(ds == s[w].dependencies);
        assert(has_node(s, s[w].dependencies[j]));
        let z = choose|z: int| 0 <= z < s.len() && (#[trigger] s[z]).instance_id == ds[j];
        assert(is_tagged(s[z].instance_id));
        lemma_tagged_nonempty(s[z].instance_id);
        assert(component_record(s[z]).bom_ref == Some(ds[j]));
    }
}

/// The dependency entry of a node that has a reference.
pub open spec fn node_record(d: DependencyView) -> NodeRecord {
    NodeRecord {
        reference: node_ref(d)->0,
        depends_on: if d.dependencies.len() > 0 {
            Some(d.dependencies)
        } else {
            None
        },
    }
}

proof fn lemma_node_records_has(s: Seq<DependencyView>)
    ensures
        forall|i: int|
            0 <= i < s.len() && node_ref(#[trigger] s[i]) is Some ==> node_records(s).contains(node_record(s[i])),
    decreases s.len(),
{
    if s.len() > 0 {
        let p = s.drop_last();
        lemma_node_records_has(p);
        let rest = node_records(p);
        let all = node_records(s);
        assert forall|i: int| 0 <= i < s.len() && node_ref(#[trigger] s[i]) is Some implies all.contains(node_record(s[i])) by {
            if i < p.len() {
                assert(p[i] == s[i]);
                let k = choose|k: int| 0 <= k < rest.len() && rest[k] == node_record(p[i]);
                assert(all[k] == rest[k]);
            } else {
                assert(s[i] == s.last());
                assert(all[all.len() - 1] == node_record(s[i]));
            }
        }
    }
}

/// Each component mirrors its node: kind, name, group and version as they
/// are; the URL where it is not empty; the reference is the instance
/// identifier, else the URL, where one is not empty; the location's file.
/// Each node with a reference has the dependency entry with that reference,
/// depending on its edges where it has any; and every entry is such a node's.
pub proof fn law_sbom_mirrors_nodes(s: Seq<DependencyView>)
    ensures
        forall|i: int|
            0 <= i < s.len() ==> {
                let c = #[trigger] component_record(s[i]);
                &&& c.kind == s[i].kind
                &&& c.name == s[i].name
                &&& c.group == s[i].group
                &&& c.version == s[i].version
                &&& c.purl == (if s[i].purl.len() > 0 {
                    Some(s[i].purl)
                } else {
                    None
                })
                &&& c.bom_ref == (if s[i].instance_id.len() > 0 {
                    Some(s[i].instance_id)
                } else if s[i].purl.len() > 0 {
                    Some(s[i].purl)
                } else {
                    None
                })
                &&& c.location_path == (match s[i].location {
                    Some(l) => Some(l.block.file),
                    None => None,
                })
            },
        forall|i: int|
            0 <= i < s.len() && node_ref(#[trigger] s[i]) is Some ==> node_records(s).contains(node_record(s[i])),
        forall|k: int|
            0 <= k < node_records(s).len() ==> exists|i: int|
                0 <= i < s.len() && node_ref(s[i]) is Some && (#[trigger] node_records(s)[k]) == node_record(
                    #[trigger] s[i],
                ),
{
    lemma_node_records_has(s);
    lemma_node_records_from(s);
    assert forall|k: int| 0 <= k < node_records(s).len() implies exists|i: int|
        0 <= i < s.len() && node_ref(s[i]) is Some && (#[trigger] node_records(s)[k]) == node_record(#[trigger] s[i]) by {
        let r = node_records(s)[k];
        let i = choose|i: int|
            0 <= i < s.len() && node_ref(#[trigger] s[i]) == Some(r.reference) && r.depends_on == (
            if s[i].dependencies.len() > 0 {
                Some(s[i].dependencies)
            } else {
                None
            });
        assert(r == node_record(s[i]));
    }
}

/// The fixed part of a document: its format, specification version and
/// document version, the tool recorded as its producer, and the property
/// name under which a component's file is recorded.
pub struct SbomHeader {
    pub bom_format: String,
    pub spec_version: String,
    pub version: i32,
    pub tool_vendor: String,
    pub tool_name: String,
    pub tool_version: String,
    pub location_property: String,
}

/// The header of a document produced by this tool at version
/// `tool_version`: CycloneDX 1.6, document version 1, tool `sbom-generator`
/// of `BNBU_DS`, file property `syft:location:0:path`.
pub fn sbom_header(tool_version: &str) -> (h: SbomHeader)
    ensures
        h.bom_format@ == "CycloneDX"@,
        h.spec_version@ == "1.6"@,
        h.version == 1,
        h.tool_vendor@ == "BNBU_DS"@,
        h.tool_name@ == "sbom-generator"@,
        h.tool_version@ == tool_version@,
        h.location_property@ == "syft:location:0:path"@,
{
    SbomHeader {
        bom_format: string_of(&chars_of("CycloneDX")),
        spec_version: string_of(&chars_of("1.6")),
        version: 1,
        tool_vendor: string_of(&chars_of("BNBU_DS")),
        tool_name: string_of(&chars_of("sbom-generator")),
        tool_version: string_of(&chars_of(tool_version)),
        location_property: string_of(&chars_of("syft:location:0:path")),
    }
}

} // verus!
