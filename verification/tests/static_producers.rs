use sbom_generator::cargo::CargoProducer;
use sbom_generator::ident::{fix_purl, make_instance_id};
use sbom_generator::license_guard::{build_license_node, LicenseChoice};
use sbom_generator::merge::merge_dependencies;
use sbom_generator::model::{Dependency, DependencyBuilder, DependencyType};
use sbom_generator::npm_lock::{NpmLockProducer, PathEntry};
use sbom_generator::producer::{file_salt_of, ProducerError, SbomProducerConfiguration, SourceFile};
use sbom_generator::properties::{enrich_string_with_properties, replace_properties, PropertyMap};

fn config() -> SbomProducerConfiguration {
    SbomProducerConfiguration { use_debug: false, base_path: ".".to_string() }
}

const CARGO_LOCK: &str = r#"version = 3

[[package]]
name = "app"
version = "0.1.0"
dependencies = ["serde", "log 0.4.20"]

[[package]]
name = "serde"
version = "1.0.0"

[[package]]
name = "log"
version = "0.4.20"

[[package]]
name = "tool"
version = "2.0.0"
"#;

#[test]
fn cargo_lock_graph_links_entries_to_packages() {
    let deps = CargoProducer::parse_cargo_lock(CARGO_LOCK, "w/Cargo.lock").expect("lock is read");
    assert_eq!(deps.len(), 4);
    let id = |n: &str, v: &str| make_instance_id(&fix_purl(&format!("pkg:cargo/{}@{}", n, v)), "w/Cargo.lock");
    assert_eq!(deps[0].name, "app");
    assert_eq!(deps[0].instance_id, id("app", "0.1.0"));
    assert_eq!(deps[0].dependencies, vec![id("serde", "1.0.0"), id("log", "0.4.20")]);
    assert_eq!(deps[3].name, "tool");
}

#[test]
fn cargo_lock_errors() {
    assert!(matches!(
        CargoProducer::parse_cargo_lock("[[package", "x"),
        Err(ProducerError::Parse { .. })
    ));
    let unreadable = SourceFile { path: "w/Cargo.lock".to_string(), content: None };
    match (CargoProducer {}).find_dependencies(&vec![unreadable], &config()) {
        Err(ProducerError::Unreadable { path }) => assert_eq!(path, "w/Cargo.lock"),
        _ => panic!("expected an unreadable file"),
    }
    assert_eq!(file_salt_of("a\\b\\Cargo.lock"), "a/b/Cargo.lock");
}

const NPM_LOCK: &str = r#"{
  "name": "web",
  "packages": {
    "": {"name": "web", "dependencies": {"a": "^1"}},
    "node_modules/a": {"version": "1.0.0", "dependencies": {"b": "^2"}},
    "node_modules/b": {"version": "2.0.0"},
    "node_modules/a/node_modules/b": {"version": "2.5.0"}
  }
}"#;

#[test]
fn npm_lock_resolves_the_nearest_install() {
    let f = SourceFile { path: "web/package-lock.json".to_string(), content: Some(NPM_LOCK.to_string()) };
    let deps = (NpmLockProducer {}).find_dependencies(&vec![f], &config()).unwrap();
    assert_eq!(deps.len(), 3);
    let a = deps.iter().find(|d| d.name == "a").unwrap();
    let nested = deps.iter().find(|d| d.version.as_deref() == Some("2.5.0")).unwrap();
    assert_eq!(a.dependencies, vec![nested.instance_id.clone()]);
}

#[test]
fn npm_resolution_walks_up_the_scopes() {
    let index = vec![
        PathEntry { path: "node_modules/a".to_string(), id: "id-a".to_string() },
        PathEntry { path: "node_modules/b/node_modules/a".to_string(), id: "id-ba".to_string() },
    ];
    assert_eq!(NpmLockProducer::resolve_npm_dep("node_modules/b", "a", &index).map(|s| s.as_str()), Some("id-ba"));
    assert_eq!(NpmLockProducer::resolve_npm_dep("node_modules/c", "a", &index).map(|s| s.as_str()), Some("id-a"));
    assert_eq!(NpmLockProducer::resolve_npm_dep("", "a", &index).map(|s| s.as_str()), Some("id-a"));
    assert_eq!(NpmLockProducer::resolve_npm_dep("node_modules/b", "zzz", &index), None);
}

fn node(id: &str, deps: &[&str]) -> Dependency {
    Dependency {
        group: None,
        dep_type: DependencyType::Library,
        name: id.to_string(),
        version: None,
        purl: format!("pkg:npm/{}", id),
        instance_id: id.to_string(),
        dependencies: deps.iter().map(|d| d.to_string()).collect(),
        location: None,
    }
}

#[test]
fn merging_unites_edges_and_sorts_by_identifier() {
    let merged = merge_dependencies(vec![
        node("b", &["x"]),
        node("a", &[]),
        node("b", &["y", "x"]),
    ]);
    assert_eq!(merged.len(), 2);
    assert_eq!(merged[0].instance_id, "a");
    assert_eq!(merged[1].instance_id, "b");
    assert_eq!(merged[1].dependencies, vec!["x".to_string(), "y".to_string()]);
}

#[test]
fn licenses_are_classified() {
    match build_license_node(&Some("Apache-2.0 OR MIT".to_string())).unwrap().remove(0) {
        LicenseChoice::Expression { expression } => assert_eq!(expression, "Apache-2.0 OR MIT"),
        _ => panic!("expected an expression"),
    }
    match build_license_node(&Some(" MIT License ".to_string())).unwrap().remove(0) {
        LicenseChoice::Detail { license } => {
            assert_eq!(license.id.as_deref(), Some("MIT"));
            assert!(license.name.is_none());
        },
        _ => panic!("expected an id"),
    }
    match build_license_node(&Some("Custom Terms".to_string())).unwrap().remove(0) {
        LicenseChoice::Detail { license } => assert_eq!(license.name.as_deref(), Some("Custom Terms")),
        _ => panic!("expected a name"),
    }
    assert!(build_license_node(&Some("unknown".to_string())).is_none());
    assert!(build_license_node(&Some("   ".to_string())).is_none());
    assert!(build_license_node(&None).is_none());
}

#[test]
fn properties_resolve_references() {
    let mut p = PropertyMap::new();
    p.insert("scala.version".to_string(), "2.12".to_string());
    p.insert("akka-scala.version".to_string(), "${scala.version}".to_string());
    p.insert("loop".to_string(), "${loop}x".to_string());
    assert_eq!(enrich_string_with_properties("akka_${akka-scala.version}", &p), "akka_2.12");
    assert_eq!(enrich_string_with_properties("${none}", &p), "${none}");
    let r = replace_properties(&p);
    assert_eq!(r.get("akka-scala.version").map(|s| s.as_str()), Some("2.12"));
    // A self reference stops after five passes.
    assert_eq!(r.get("loop").map(|s| s.as_str()), Some("${loop}xxxxxx"));
    p.insert("scala.version".to_string(), "2.13".to_string());
    assert_eq!(p.get("scala.version").map(|s| s.as_str()), Some("2.13"));
}

#[test]
fn builder_requires_name_and_url() {
    let missing_name = DependencyBuilder::default().purl("pkg:npm/a@1".to_string()).build();
    assert_eq!(missing_name.err(), Some("field 'name' is required but not initialized".to_string()));
    let missing_purl = DependencyBuilder::default().name("a".to_string()).build();
    assert_eq!(missing_purl.err(), Some("field 'purl' is required but not initialized".to_string()));
    let built = DependencyBuilder::default()
        .name("a".to_string())
        .purl("pkg:npm/a@^1.0.0".to_string())
        .build()
        .unwrap();
    assert!(built.instance_id.contains("?package-id="));
    assert_eq!(built.instance_id, Dependency::derive_fallback_id(&built.purl, &None));
    let explicit = DependencyBuilder::default()
        .name("a".to_string())
        .purl("pkg:npm/a@1.0.0".to_string())
        .instance_id("given".to_string())
        .build()
        .unwrap();
    assert_eq!(explicit.instance_id, "given");
}

#[test]
fn instance_ids_are_tagged_hex() {
    let id = make_instance_id("pkg:npm/a@1.0.0", "salt");
    assert!(id.starts_with("pkg:npm/a@1.0.0?package-id="));
    let hex = &id["pkg:npm/a@1.0.0?package-id=".len()..];
    assert_eq!(hex.len(), 16);
    assert!(hex.chars().all(|c| c.is_ascii_hexdigit() && !c.is_ascii_uppercase()));
    assert_ne!(make_instance_id("pkg:npm/a@1.0.0", "other"), id);
    assert_eq!(make_instance_id("pkg:npm/a@1.0.0", "salt"), id);
}

#[test]
fn malformed_urls_are_repaired() {
    assert_eq!(fix_purl("pkg:npm/left-pad@1.3.0"), "pkg:npm/left-pad@1.3.0");
    let repaired = fix_purl("pkg:npm/a@^1.0.0");
    assert!(!repaired.contains('^'));
}

#[test]
fn merging_keeps_the_first_node_and_appends_later_edges() {
    let mut first = node("b", &["x", "x"]);
    first.name = "first".to_string();
    let mut later = node("b", &["x", "z"]);
    later.name = "later".to_string();
    let merged = merge_dependencies(vec![first, node("c", &["b"]), later]);
    assert_eq!(merged.len(), 2);
    assert_eq!(merged[0].name, "first");
    assert_eq!(merged[0].dependencies, vec!["x".to_string(), "x".to_string(), "z".to_string()]);
    assert_eq!(merged[1].instance_id, "c");
}
