use sbom_generator::cargo_dynamic::CargoDynamicProducer;
use sbom_generator::config::{CommandOutput, DirectoryProbe, DynamicProducer};
use sbom_generator::ident::make_instance_id;
use sbom_generator::model::Dependency;
use sbom_generator::npm_dynamic::NpmDynamicProducer;
use sbom_generator::producer::ProducerError;
use sbom_generator::pypi_dynamic::PypiDynamicProducer;

fn output(success: bool, stdout: &str, stderr: &str) -> CommandOutput {
    CommandOutput { success, stdout: stdout.to_string(), stderr: stderr.to_string() }
}

fn probe(entries: &[&str], python: Option<&str>) -> DirectoryProbe {
    DirectoryProbe {
        entries: entries.iter().map(|e| e.to_string()).collect(),
        python: python.map(|p| p.to_string()),
    }
}

fn find<'a>(deps: &'a [Dependency], name: &str, version: &str) -> Vec<&'a Dependency> {
    deps.iter()
        .filter(|d| d.name == name && d.version.as_deref() == Some(version))
        .collect()
}

const CARGO_METADATA: &str = r#"{
  "packages": [
    {"id": "app 0.1.0 (path+file:///w/app)", "name": "app", "version": "0.1.0"},
    {"id": "serde 1.0.0 (registry)", "name": "serde", "version": "1.0.0"},
    {"id": "orphan 2.0.0 (registry)", "name": "orphan", "version": "2.0.0"},
    {"id": "broken", "name": "broken"}
  ],
  "workspace_members": ["app 0.1.0 (path+file:///w/app)"],
  "resolve": {
    "nodes": [
      {"id": "app 0.1.0 (path+file:///w/app)", "deps": [{"name": "serde", "pkg": "serde 1.0.0 (registry)"}]},
      {"id": "serde 1.0.0 (registry)", "deps": []},
      {"id": "orphan 2.0.0 (registry)", "deps": [{"pkg": "serde 1.0.0 (registry)"}]}
    ]
  }
}"#;

#[test]
fn cargo_dynamic_keeps_reachable_packages_in_package_order() {
    let deps = CargoDynamicProducer {}
        .detect_dependencies(&output(true, CARGO_METADATA, ""))
        .expect("metadata is read");
    assert_eq!(deps.len(), 2);
    assert_eq!(deps[0].name, "app");
    assert_eq!(deps[1].name, "serde");
    let app_purl = Dependency::auto_fix_and_validate_purl("pkg:cargo/app@0.1.0");
    let serde_purl = Dependency::auto_fix_and_validate_purl("pkg:cargo/serde@1.0.0");
    assert_eq!(deps[0].purl, app_purl);
    assert_eq!(deps[0].instance_id, make_instance_id(&app_purl, "app 0.1.0 (path+file:///w/app)"));
    let serde_id = make_instance_id(&serde_purl, "serde 1.0.0 (registry)");
    assert_eq!(deps[1].instance_id, serde_id);
    assert_eq!(deps[0].dependencies, vec![serde_id]);
    assert!(deps[1].dependencies.is_empty());
    assert!(!deps.iter().any(|d| d.name == "orphan" || d.name == "broken"));
}

#[test]
fn cargo_dynamic_reports_failed_command() {
    let r = CargoDynamicProducer {}.detect_dependencies(&output(false, "", "no Cargo.toml"));
    match r {
        Err(ProducerError::Command { message }) => assert_eq!(message, "no Cargo.toml"),
        _ => panic!("expected a command error"),
    }
}

#[test]
fn cargo_dynamic_reports_non_json() {
    let r = CargoDynamicProducer {}.detect_dependencies(&output(true, "not json", ""));
    assert!(matches!(r, Err(ProducerError::Parse { .. })));
}

#[test]
fn cargo_dynamic_applies_to_cargo_projects() {
    assert!(CargoDynamicProducer {}.is_applicable(&probe(&["Cargo.toml", "src"], None)));
    assert!(!CargoDynamicProducer {}.is_applicable(&probe(&["package.json"], None)));
}

const PIP_INSPECT: &str = r#"{
  "version": "1",
  "installed": [
    {"metadata": {"name": "Requests", "version": "2.31.0", "requires_dist": [
      "charset-normalizer<4,>=2", "idna<4,>=2.5", "urllib3<3,>=1.21.1", "IDNA>=2", "PySocks!=1.5.7; extra == \"socks\""
    ]}},
    {"metadata": {"name": "charset_normalizer", "version": "3.3.2"}},
    {"metadata": {"name": "idna", "version": "3.6"}},
    {"nothing": true}
  ]
}"#;

#[test]
fn pypi_dynamic_links_requirements_to_installed_distributions() {
    let deps = PypiDynamicProducer {}
        .detect_dependencies(&output(true, PIP_INSPECT, ""))
        .expect("report is read");
    assert_eq!(deps.len(), 3);
    assert_eq!(deps[0].name, "Requests");
    assert_eq!(deps[1].name, "charset_normalizer");
    assert_eq!(deps[2].name, "idna");
    let charset_id = make_instance_id("pkg:pypi/charset-normalizer@3.3.2", "pypi-site-packages");
    let idna_id = make_instance_id("pkg:pypi/idna@3.6", "pypi-site-packages");
    assert_eq!(deps[0].instance_id, make_instance_id("pkg:pypi/requests@2.31.0", "pypi-site-packages"));
    assert_eq!(deps[1].instance_id, charset_id);
    // `idna` is named twice (once as `IDNA`): one edge.
    assert_eq!(deps[0].dependencies, vec![charset_id, idna_id]);
    assert!(deps[1].dependencies.is_empty());
    assert_eq!(deps[0].purl, Dependency::auto_fix_and_validate_purl("pkg:pypi/requests@2.31.0"));
}

#[test]
fn pypi_dynamic_without_installed_list_is_empty() {
    let deps = PypiDynamicProducer {}
        .detect_dependencies(&output(true, r#"{"version": "1"}"#, ""))
        .expect("report is read");
    assert!(deps.is_empty());
}

#[test]
fn pypi_dynamic_errors() {
    let r = PypiDynamicProducer {}.detect_dependencies(&output(false, "", "pip too old"));
    match r {
        Err(ProducerError::Command { message }) => assert_eq!(message, "pip too old"),
        _ => panic!("expected a command error"),
    }
    let r = PypiDynamicProducer {}.detect_dependencies(&output(true, "{", ""));
    assert!(matches!(r, Err(ProducerError::Parse { .. })));
}

#[test]
fn pep503_normalisation() {
    assert_eq!(PypiDynamicProducer::pep503_normalize("My_Custom--Pkg.Ext"), "my-custom-pkg-ext");
    assert_eq!(PypiDynamicProducer::pep503_normalize("requests"), "requests");
    assert_eq!(PypiDynamicProducer::pep503_normalize("A._-B"), "a-b");
    let once = PypiDynamicProducer::pep503_normalize("My_Custom..Pkg");
    assert_eq!(once, "my-custom-pkg");
    assert_eq!(PypiDynamicProducer::pep503_normalize(&once), once);
}

#[test]
fn pypi_dynamic_applicability() {
    assert!(PypiDynamicProducer {}.is_applicable(&probe(&["requirements.txt"], Some("python3"))));
    assert!(PypiDynamicProducer {}.is_applicable(&probe(&["Pipfile"], Some("python"))));
    assert!(!PypiDynamicProducer {}.is_applicable(&probe(&["requirements.txt"], None)));
    assert!(!PypiDynamicProducer {}.is_applicable(&probe(&["Cargo.toml"], Some("python3"))));
}

const NPM_LS: &str = r#"{
  "name": "root-app",
  "version": "1.0.0",
  "dependencies": {
    "a": {"version": "1.0.0", "dependencies": {"b": {"version": "2.0.0"}}},
    "b": {"version": "2.0.0", "dependencies": {"c": {"version": "3.0.0"}}},
    "noversion": {},
    "ws": {"version": "0.1.0", "resolved": "file:../ws", "dependencies": {"b": {"version": "2.0.0"}}}
  }
}"#;

#[test]
fn npm_dynamic_merges_hoisted_packages_and_scopes_workspaces() {
    let deps = NpmDynamicProducer {}
        .detect_dependencies(&output(false, NPM_LS, "npm ERR! peer dep missing"))
        .expect("tree is read");
    assert_eq!(deps.len(), 5);
    let root_scope = "pkg:npm/root-app@1.0.0";
    let purl = |n: &str, v: &str| Dependency::auto_fix_and_validate_purl(&format!("pkg:npm/{}@{}", n, v));
    let b_root = make_instance_id(&purl("b", "2.0.0"), root_scope);
    let c_root = make_instance_id(&purl("c", "3.0.0"), root_scope);
    let ws_purl = purl("ws", "0.1.0");
    let b_ws = make_instance_id(&purl("b", "2.0.0"), &ws_purl);

    let a = find(&deps, "a", "1.0.0");
    assert_eq!(a.len(), 1);
    assert_eq!(a[0].dependencies, vec![b_root.clone()]);

    let bs = find(&deps, "b", "2.0.0");
    assert_eq!(bs.len(), 2);
    let merged = bs.iter().find(|d| d.instance_id == b_root).expect("hoisted b");
    assert_eq!(merged.dependencies, vec![c_root.clone()]);
    assert!(bs.iter().any(|d| d.instance_id == b_ws));

    let ws = find(&deps, "ws", "0.1.0");
    assert_eq!(ws[0].instance_id, make_instance_id(&ws_purl, root_scope));
    assert_eq!(ws[0].dependencies, vec![b_ws]);
    assert!(!deps.iter().any(|d| d.name == "noversion"));
    assert!(deps.iter().all(|d| d.instance_id.contains("?package-id=")));
    for d in &deps {
        for e in &d.dependencies {
            assert!(deps.iter().any(|n| &n.instance_id == e), "edge {} leads to a node", e);
        }
    }
}

#[test]
fn npm_dynamic_defaults_root_scope() {
    let deps = NpmDynamicProducer {}
        .detect_dependencies(&output(true, r#"{"dependencies": {"x": {"version": "1.2.3"}}}"#, ""))
        .expect("tree is read");
    assert_eq!(deps.len(), 1);
    let p = Dependency::auto_fix_and_validate_purl("pkg:npm/x@1.2.3");
    assert_eq!(deps[0].instance_id, make_instance_id(&p, "pkg:npm/npm-workspace-root@0.0.0"));
}

#[test]
fn npm_dynamic_errors_and_applicability() {
    let r = NpmDynamicProducer {}.detect_dependencies(&output(true, "garbage", ""));
    assert!(matches!(r, Err(ProducerError::Parse { .. })));
    assert!(NpmDynamicProducer {}.is_applicable(&probe(&["package.json", "node_modules"], None)));
    assert!(!NpmDynamicProducer {}.is_applicable(&probe(&["package.json"], None)));
}
