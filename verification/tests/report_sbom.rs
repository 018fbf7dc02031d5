use sbom_generator::model::{Dependency, DependencyLocation, DependencyType, Location, Position};
use sbom_generator::report::generate_report;
use sbom_generator::sbom::{sbom_document, sbom_header};

const SBOM: &str = r#"{
  "bomFormat": "CycloneDX",
  "components": [
    {"name": "serde", "version": "1.0", "bom-ref": "r1"},
    {"name": "serde", "version": "1.0", "bom-ref": "r2"},
    {"name": "proc-macro2", "version": "1", "bom-ref": "r3"},
    {"name": "windows-sys", "version": "0.52", "bom-ref": "r4"},
    {"name": "serde", "version": "2.0", "bom-ref": "r5"},
    {"name": "x"},
    {"version": "2"}
  ]
}"#;

#[test]
fn report_groups_instances_by_name_and_version() {
    let report = generate_report(SBOM).expect("report");
    assert_eq!(report.total_physical_instances, 7);
    assert_eq!(report.total_logical_components, 4);
    assert_eq!(report.components.len(), 4);
    let c = &report.components[0];
    assert_eq!(c.name, "serde");
    assert_eq!(c.version.as_deref(), Some("1.0"));
    assert_eq!(c.instances, vec!["r1".to_string(), "r2".to_string()]);
    assert_eq!(c.instance_count, 2);
    assert_eq!(report.components[1].version.as_deref(), Some("2.0"));
    assert_eq!(report.components[2].name, "x");
    assert_eq!(report.components[2].version, None);
    assert_eq!(report.components[2].instances, vec![String::new()]);
    assert_eq!(report.components[3].name, "unknown");
    assert!(report.components.iter().all(|c| c.instance_count == c.instances.len()));
    assert!(!report.components.iter().any(|c| c.name.contains("macro") || c.name.contains("windows")));
}

#[test]
fn report_errors() {
    assert!(generate_report("not json").is_err());
    assert_eq!(
        generate_report(r#"{"components": {}}"#).err(),
        Some("No components found".to_string())
    );
}

fn node(name: &str, purl: &str, id: &str, deps: &[&str], file: Option<&str>) -> Dependency {
    Dependency {
        group: Some("g".to_string()),
        dep_type: DependencyType::Library,
        name: name.to_string(),
        version: Some("1".to_string()),
        purl: purl.to_string(),
        instance_id: id.to_string(),
        dependencies: deps.iter().map(|d| d.to_string()).collect(),
        location: file.map(|f| {
            let p = Position { line: 1, col: 1 };
            let l = Location { file: f.to_string(), start: p, end: p };
            DependencyLocation { block: l.clone(), name: l, version: None }
        }),
    }
}

#[test]
fn sbom_records_components_and_references() {
    let deps = vec![
        node("a", "pkg:npm/a@1", "pkg:npm/a@1?package-id=0000000000000001", &["x"], Some("pom.xml")),
        node("b", "pkg:npm/b@1", "", &[], None),
        node("c", "", "", &[], None),
    ];
    let doc = sbom_document(&deps);
    assert_eq!(doc.components.len(), 3);
    assert_eq!(doc.components[0].bom_ref.as_deref(), Some("pkg:npm/a@1?package-id=0000000000000001"));
    assert_eq!(doc.components[0].location_path.as_deref(), Some("pom.xml"));
    assert_eq!(doc.components[1].bom_ref.as_deref(), Some("pkg:npm/b@1"));
    assert_eq!(doc.components[2].bom_ref, None);
    assert_eq!(doc.components[2].purl, None);
    assert_eq!(doc.components[1].kind.as_str(), "library");
    assert_eq!(doc.dependencies.len(), 2);
    assert_eq!(doc.dependencies[0].depends_on, Some(vec!["x".to_string()]));
    assert_eq!(doc.dependencies[1].reference, "pkg:npm/b@1");
    assert_eq!(doc.dependencies[1].depends_on, None);
}

#[test]
fn sbom_depends_on_refers_to_components() {
    let a = "pkg:npm/a@1?package-id=0000000000000001";
    let b = "pkg:npm/b@1?package-id=0000000000000002";
    let deps = vec![
        node("a", "pkg:npm/a@1", a, &[b], None),
        node("b", "pkg:npm/b@1", b, &[], None),
    ];
    let doc = sbom_document(&deps);
    for entry in &doc.dependencies {
        assert!(doc.components.iter().any(|c| c.bom_ref.as_deref() == Some(entry.reference.as_str())));
        for target in entry.depends_on.iter().flatten() {
            assert!(doc.components.iter().any(|c| c.bom_ref.as_deref() == Some(target.as_str())));
        }
    }
    assert_eq!(doc.dependencies[0].depends_on, Some(vec![b.to_string()]));
}

#[test]
fn report_instances_add_up_to_kept_entries() {
    let report = generate_report(SBOM).expect("report");
    let total: usize = report.components.iter().map(|c| c.instance_count).sum();
    // seven entries, of which proc-macro2 and windows-sys are skipped
    assert_eq!(total, 5);
    assert_eq!(report.total_physical_instances, 7);
}

#[test]
fn sbom_header_is_cyclonedx_1_6() {
    let h = sbom_header("9.9.9");
    assert_eq!(h.bom_format, "CycloneDX");
    assert_eq!(h.spec_version, "1.6");
    assert_eq!(h.version, 1);
    assert_eq!(h.tool_vendor, "BNBU_DS");
    assert_eq!(h.tool_name, "sbom-generator");
    assert_eq!(h.tool_version, "9.9.9");
    assert_eq!(h.location_property, "syft:location:0:path");
}
