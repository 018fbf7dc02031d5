use sbom_generator::config::CommandOutput;
use sbom_generator::ident::make_instance_id;
use sbom_generator::maven::{
    MavenDependency, MavenDependencyScope, MavenDependencyType, MavenFile, MavenFileParent,
    MavenProducer, MavenProducerContext, MavenProjectInfo,
};
use sbom_generator::maven_cli::MavenCliDriver;
use sbom_generator::model::{Dependency, DependencyType};
use sbom_generator::properties::PropertyMap;

fn dep(group: &str, artifact: &str, version: Option<&str>) -> MavenDependency {
    MavenDependency {
        group_id: group.to_string(),
        artifact_id: artifact.to_string(),
        version: version.map(|v| v.to_string()),
        dep_type: None,
        scope: None,
        location: None,
    }
}

fn props(pairs: &[(&str, &str)]) -> PropertyMap {
    let mut m = PropertyMap::new();
    for (k, v) in pairs {
        m.insert(k.to_string(), v.to_string());
    }
    m
}

fn info(group: &str, artifact: &str, version: &str) -> MavenProjectInfo {
    MavenProjectInfo {
        group_id: Some(group.to_string()),
        artifact_id: artifact.to_string(),
        version: Some(version.to_string()),
    }
}

#[test]
fn scope_and_type_names() {
    assert_eq!(MavenDependencyScope::from_name("test"), Some(MavenDependencyScope::Test));
    assert_eq!(MavenDependencyScope::from_name("import"), Some(MavenDependencyScope::Import));
    assert_eq!(MavenDependencyScope::from_name("provided"), Some(MavenDependencyScope::Provided));
    assert_eq!(MavenDependencyScope::from_name("Test"), None);
    assert_eq!(MavenDependencyType::from_name("pom"), Some(MavenDependencyType::Pom));
    assert_eq!(MavenDependencyType::from_name("test-jar"), Some(MavenDependencyType::TestJar));
    assert_eq!(MavenDependencyType::from_name("zip"), None);
}

#[test]
fn enrich_resolves_nested_references_and_trims() {
    let p = props(&[("v", "1.0"), ("g", "org.${x}"), ("x", "ex")]);
    let d = MavenDependency { scope: Some(MavenDependencyScope::Test), ..dep("${g}", " lib ", Some(" ${v} ")) };
    let e = d.enrich(&p);
    assert_eq!(e.group_id, "org.ex");
    assert_eq!(e.artifact_id, "lib");
    assert_eq!(e.version.as_deref(), Some("1.0"));
    assert_eq!(e.scope, Some(MavenDependencyScope::Test));
    let unresolved = dep("${missing}", "a", None).enrich(&p);
    assert_eq!(unresolved.group_id, "${missing}");
    assert_eq!(unresolved.version, None);
}

#[test]
fn validity_needs_group_and_artifact() {
    assert!(dep("org", "lib", None).is_valid_for_sbom());
    assert!(!dep("  ", "lib", None).is_valid_for_sbom());
    assert!(!dep("org", "", None).is_valid_for_sbom());
}

#[test]
fn isolated_dependency_keeps_resolved_versions_only() {
    let with_version = dep(" org.ex ", " lib ", Some(" 1.2 ")).to_isolated_dependency("sub/pom.xml");
    let purl = Dependency::auto_fix_and_validate_purl("pkg:maven/org.ex/lib@1.2");
    assert_eq!(with_version.purl, purl);
    assert_eq!(with_version.name, "lib");
    assert_eq!(with_version.group.as_deref(), Some("org.ex"));
    assert_eq!(with_version.version.as_deref(), Some("1.2"));
    assert_eq!(with_version.instance_id, make_instance_id(&purl, "sub/pom.xml"));
    assert_eq!(with_version.dep_type, DependencyType::Library);
    assert!(with_version.dependencies.is_empty());

    let unresolved = dep("org.ex", "lib", Some("${lib.version}")).to_isolated_dependency("pom.xml");
    let bare = Dependency::auto_fix_and_validate_purl("pkg:maven/org.ex/lib");
    assert_eq!(unresolved.version, None);
    assert_eq!(unresolved.purl, bare);

    let fallback = dep("org.ex", "lib", None).to_dependency();
    assert_eq!(fallback.instance_id, make_instance_id(&bare, "maven-fallback-pom"));
}

fn parent_file() -> MavenFile {
    MavenFile {
        project_info: info("com.ex", "parent", "1"),
        path: "pom.xml".to_string(),
        properties: props(&[("lib.version", "2.0"), ("shared", "p")]),
        dependency_management: vec![dep("org", "lib", Some("${lib.version}"))],
        dependencies: vec![],
        parent: None,
        parent_path: None,
    }
}

fn child_file(parent_path: Option<&str>) -> MavenFile {
    MavenFile {
        project_info: info("com.ex", "child", "1"),
        path: "sub/pom.xml".to_string(),
        properties: props(&[("shared", "c")]),
        dependency_management: vec![],
        dependencies: vec![dep("org", "lib", None), dep(" ", "x", Some("1"))],
        parent: Some(MavenFileParent {
            relative_path: None,
            group_id: Some("com.ex".to_string()),
            artifact_id: Some("parent".to_string()),
            version: Some("1".to_string()),
        }),
        parent_path: parent_path.map(|p| p.to_string()),
    }
}

#[test]
fn child_inherits_properties_and_management() {
    let mut ctx = MavenProducerContext::new("/w".to_string());
    ctx.add_maven_file(&parent_file());
    let child = child_file(None);
    ctx.add_maven_file(&child);

    let all = child.get_all_properties(&ctx);
    assert_eq!(all.get("lib.version").map(|s| s.as_str()), Some("2.0"));
    assert_eq!(all.get("shared").map(|s| s.as_str()), Some("c"));

    let mgmt = child.get_all_dependencies_from_dependency_management(&ctx);
    assert_eq!(mgmt.len(), 1);
    assert_eq!(mgmt[0].artifact_id, "lib");

    let deps = child.get_dependencies_for_sbom(&ctx);
    assert_eq!(deps.len(), 1);
    assert_eq!(deps[0].version.as_deref(), Some("2.0"));

    let parent = child.get_parent_by_project_info(&ctx).expect("parent is known");
    assert_eq!(parent.project_info.artifact_id, "parent");
}

#[test]
fn parent_path_takes_precedence() {
    let mut ctx = MavenProducerContext::new("/w".to_string());
    ctx.add_maven_file(&parent_file());
    let by_path = child_file(Some("pom.xml"));
    assert_eq!(by_path.get_dependencies_for_sbom(&ctx)[0].version.as_deref(), Some("2.0"));
    let missing = child_file(Some("elsewhere/pom.xml"));
    let deps = missing.get_dependencies_for_sbom(&ctx);
    assert_eq!(deps.len(), 1);
    assert_eq!(deps[0].version, None);
    assert_eq!(ctx.get_maven_file_by_path("pom.xml"), Some(0));
    assert_eq!(ctx.get_maven_file_by_project_info(&info("com.ex", "parent", "1")), Some(0));
    assert_eq!(ctx.get_maven_file_by_project_info(&info("com.ex", "parent", "2")), None);
}

#[test]
fn static_analysis_reports_each_file() {
    let files = vec![parent_file(), child_file(None)];
    let producer = MavenProducer {};
    let deps = producer.find_dependencies_via_static(&files, "/w");
    assert_eq!(deps.len(), 1);
    assert_eq!(deps[0].version.as_deref(), Some("2.0"));
    let purl = Dependency::auto_fix_and_validate_purl("pkg:maven/org/lib@2.0");
    assert_eq!(deps[0].instance_id, make_instance_id(&purl, "maven-fallback-pom"));
}

#[test]
fn tool_graph_wins_when_not_empty() {
    let files = vec![parent_file(), child_file(None)];
    let producer = MavenProducer {};
    let paths = vec!["pom.xml".to_string(), "sub/pom.xml".to_string()];
    let tool = MavenCliDriver::parse_ascii_tree("[INFO] a:b:jar:1\n").unwrap();
    assert_eq!(producer.find_dependencies(&paths, &files, "/w", Some(tool)).len(), 1);
    let from_static = producer.find_dependencies(&paths, &files, "/w", Some(vec![]));
    assert_eq!(from_static[0].name, "lib");
    assert!(producer.find_dependencies(&vec![], &files, "/w", None).is_empty());
    assert!(producer.use_file("a/POM.xml"));
    assert!(!producer.use_file("a/pom.xml.bak"));
}

const TREE: &str = "[INFO] Scanning for projects...\n\
[INFO] Building demo 1.0\n\
[INFO] com.example:demo:jar:1.0\n\
[INFO] +- org.slf4j:slf4j-api:jar:2.0.13:compile\n\
[INFO] |  \\- org.slf4j:slf4j-simple:jar:2.0.13:runtime (version managed from 2.0.0)\n\
[INFO] \\- junit:junit:jar:tests:4.13.2:test\n\
[INFO] BUILD SUCCESS\n";

#[test]
fn maven_tree_is_read_into_a_graph() {
    let deps = MavenCliDriver::parse_ascii_tree(TREE).expect("tree is read");
    assert_eq!(deps.len(), 4);
    let purl = |g: &str, a: &str, v: &str| {
        Dependency::auto_fix_and_validate_purl(&format!("pkg:maven/{}/{}@{}", g, a, v))
    };
    let demo = purl("com.example", "demo", "1.0");
    let api = make_instance_id(&purl("org.slf4j", "slf4j-api", "2.0.13"), &demo);
    let simple = make_instance_id(&purl("org.slf4j", "slf4j-simple", "2.0.13"), &demo);
    let junit = make_instance_id(&purl("junit", "junit", "4.13.2"), &demo);
    assert_eq!(deps[0].name, "demo");
    assert_eq!(deps[0].instance_id, make_instance_id(&demo, &demo));
    assert_eq!(deps[0].dependencies, vec![api.clone(), junit.clone()]);
    assert_eq!(deps[1].instance_id, api);
    assert_eq!(deps[1].dependencies, vec![simple.clone()]);
    assert_eq!(deps[2].instance_id, simple);
    assert_eq!(deps[3].instance_id, junit);
    assert_eq!(deps[3].version.as_deref(), Some("4.13.2"));
    assert_eq!(deps[3].group.as_deref(), Some("junit"));
}

#[test]
fn repeated_tree_lines_add_no_nodes_or_edges() {
    let tree = "[INFO] g:root:jar:1\n[INFO] +- g:x:jar:1:compile\n[INFO] +- g:x:jar:1:compile\n";
    let deps = MavenCliDriver::parse_ascii_tree(tree).unwrap();
    assert_eq!(deps.len(), 2);
    assert_eq!(deps[0].dependencies.len(), 1);
}

#[test]
fn maven_command_results() {
    let failed = CommandOutput { success: false, stdout: String::new(), stderr: "boom".to_string() };
    assert_eq!(MavenCliDriver::generate_dependencies(&failed).err(), Some("boom".to_string()));
    let ok = CommandOutput { success: true, stdout: TREE.to_string(), stderr: String::new() };
    assert_eq!(MavenCliDriver::generate_dependencies(&ok).unwrap().len(), 4);
    assert!(MavenCliDriver::is_available(&Some(ok)));
    assert!(!MavenCliDriver::is_available(&Some(failed)));
    assert!(!MavenCliDriver::is_available(&None));
}

#[test]
fn a_parent_passes_on_its_resolved_properties() {
    let parent = MavenFile {
        properties: props(&[("a", "${b}"), ("b", "p")]),
        dependency_management: vec![],
        ..parent_file()
    };
    let child = MavenFile { properties: props(&[("b", "c")]), ..child_file(None) };
    let mut ctx = MavenProducerContext::new("/w".to_string());
    ctx.add_maven_file(&parent);
    let all = child.get_all_properties(&ctx);
    assert_eq!(all.get("a").map(|s| s.as_str()), Some("p"));
    assert_eq!(all.get("b").map(|s| s.as_str()), Some("c"));
}

fn with_relative_path(rel: Option<&str>) -> MavenFile {
    let mut f = child_file(None);
    f.path = "/work/proj/child/pom.xml".to_string();
    if let Some(p) = f.parent.as_mut() {
        p.relative_path = rel.map(|r| r.to_string());
    }
    f
}

#[test]
fn parent_candidate_joins_the_relative_path_to_the_directory() {
    let f = with_relative_path(Some("../parent"));
    assert_eq!(f.parent_candidate().as_deref(), Some("/work/proj/child/../parent"));
    assert_eq!(with_relative_path(None).parent_candidate(), None);
    assert_eq!(parent_file().parent_candidate(), None);
}

#[test]
fn parent_file_path_is_relative_to_the_root_and_names_a_pom() {
    let dir = with_relative_path(Some("../parent"));
    assert_eq!(
        dir.get_parent_file_path("/work/proj/parent", "/work/proj").as_deref(),
        Some("parent/pom.xml")
    );
    let file = with_relative_path(Some("../parent/pom.xml"));
    assert_eq!(
        file.get_parent_file_path("/work/proj/parent/pom.xml", "/work/proj").as_deref(),
        Some("parent/pom.xml")
    );
    assert_eq!(dir.get_parent_file_path("/elsewhere/parent", "/work/proj"), None);
    assert_eq!(with_relative_path(None).get_parent_file_path("/work/proj/parent", "/work/proj"), None);
}
