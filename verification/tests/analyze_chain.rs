use sbom_generator::analyze::{group_poms_by_dir, run_ecosystem, run_static_chain, StaticKind};
use sbom_generator::maven_cli::MavenCliDriver;
use sbom_generator::producer::{SbomProducerConfiguration, SourceFile};

fn file(path: &str, content: &str) -> SourceFile {
    SourceFile { path: path.to_string(), content: Some(content.to_string()) }
}

fn config() -> SbomProducerConfiguration {
    SbomProducerConfiguration { use_debug: false, base_path: "proj".to_string() }
}

const LOCK: &str = r#"{
  "name": "a",
  "lockfileVersion": 3,
  "packages": {
    "": {"name": "a", "version": "1.0.0"},
    "node_modules/left-pad": {"version": "1.3.0"}
  }
}"#;

const EMPTY_LOCK: &str = r#"{"name": "c", "packages": {"": {"name": "c"}}}"#;

const MANIFEST_B: &str = r#"{"name": "b", "version": "1.0.0", "dependencies": {"x": "^1.0.0"}}"#;

const MANIFEST_C: &str = r#"{"name": "c", "version": "2.0.0", "dependencies": {"y": "~2.1.0"}}"#;

#[test]
fn each_directory_takes_the_first_producer_that_yields() {
    let files = vec![
        file("proj/a/package-lock.json", LOCK),
        file("proj/a/package.json", MANIFEST_B),
        file("proj/b/package.json", MANIFEST_B),
        file("proj/c/package-lock.json", EMPTY_LOCK),
        file("proj/c/package.json", MANIFEST_C),
        file("proj/README.md", "# readme"),
    ];
    let kinds = vec![StaticKind::NpmLock, StaticKind::NpmManifest];
    let deps = run_static_chain(&kinds, &files, &config());
    // a: the lock file's one package; b and c: project node and one leaf each.
    assert_eq!(deps.len(), 5);
    assert_eq!(deps[0].name, "left-pad");
    assert_eq!(deps[1].name, "b");
    assert_eq!(deps[2].name, "x");
    assert_eq!(deps[3].name, "c");
    assert_eq!(deps[4].name, "y");
    assert!(deps.iter().all(|d| d.instance_id.contains("?package-id=")));
    for d in &deps {
        for e in &d.dependencies {
            assert!(deps.iter().any(|n| &n.instance_id == e), "edge {} leads to a node", e);
        }
    }
}

#[test]
fn tool_graph_replaces_the_files() {
    let files = vec![file("proj/b/package.json", MANIFEST_B)];
    let kinds = vec![StaticKind::NpmManifest];
    let tool = MavenCliDriver::parse_ascii_tree("[INFO] g:a:jar:1\n").unwrap();
    let deps = run_ecosystem(Some(tool), &kinds, &files, &config());
    assert_eq!(deps.len(), 1);
    assert_eq!(deps[0].name, "a");
    let deps = run_ecosystem(Some(vec![]), &kinds, &files, &config());
    assert_eq!(deps.len(), 2);
    let deps = run_ecosystem(None, &kinds, &files, &config());
    assert_eq!(deps[0].name, "b");
}

#[test]
fn producers_choose_their_files() {
    assert!(StaticKind::CargoLock.uses("x/Cargo.lock"));
    assert!(!StaticKind::CargoLock.uses("x/cargo.lock"));
    assert!(StaticKind::NpmLock.uses("x/Package-Lock.json"));
    assert!(StaticKind::Requirements.uses("requirements.txt"));
    assert!(!StaticKind::NpmManifest.uses("x/package.json5"));
}

#[test]
fn pom_files_group_by_directory() {
    let files = vec![
        file("proj/a/pom.xml", ""),
        file("proj/b/POM.xml", ""),
        file("proj/a/README.md", ""),
        file("proj/a/sub/pom.xml", ""),
        file("proj/a/pom.xml.bak", ""),
    ];
    let groups = group_poms_by_dir(&files);
    assert_eq!(groups.len(), 3);
    assert_eq!(groups[0].dir, "proj/a");
    assert_eq!(groups[0].files.len(), 1);
    assert_eq!(groups[1].dir, "proj/b");
    assert_eq!(groups[2].dir, "proj/a/sub");
}
