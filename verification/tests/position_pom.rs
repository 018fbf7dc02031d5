use sbom_generator::maven::{MavenDependencyScope, MavenDependencyType};
use sbom_generator::pom::{
    dependencies_of_matches, get_parent_information, get_project_info, get_variables,
    maven_file_from_matches, Capture, PomMatches, QueryMatch,
};
use sbom_generator::position::get_position_in_string;

#[test]
fn positions_count_lines_and_clusters_from_one() {
    let text = "ab\ncd";
    let p = get_position_in_string(text, 0).unwrap();
    assert_eq!((p.line, p.col), (1, 1));
    let p = get_position_in_string(text, 2).unwrap();
    assert_eq!((p.line, p.col), (1, 3));
    let p = get_position_in_string(text, 3).unwrap();
    assert_eq!((p.line, p.col), (2, 1));
    let p = get_position_in_string(text, 4).unwrap();
    assert_eq!((p.line, p.col), (2, 2));
    assert!(get_position_in_string(text, 5).is_err());
}

#[test]
fn an_offset_inside_a_cluster_is_the_next_column() {
    let text = "a\u{e9}\nx";
    let p = get_position_in_string(text, 1).unwrap();
    assert_eq!((p.line, p.col), (1, 2));
    let p = get_position_in_string(text, 2).unwrap();
    assert_eq!((p.line, p.col), (1, 3));
    let p = get_position_in_string(text, 4).unwrap();
    assert_eq!((p.line, p.col), (2, 1));
}

fn val(index: u32, content: &str, tag: &str) -> Capture {
    let open = format!("<{}>", tag);
    let start = content.find(&open).expect("tag occurs") + open.len();
    let end = start + content[start..].find('<').expect("tag closes");
    Capture { index, start_byte: start, end_byte: end, text: content[start..end].to_string() }
}

fn cap(index: u32, content: &str, text: &str, from: usize) -> Capture {
    let start = from + content[from..].find(text).expect("text occurs");
    Capture { index, start_byte: start, end_byte: start + text.len(), text: text.to_string() }
}

const DEP: &str = "<dependency><groupId>org</groupId><artifactId>lib</artifactId><version>1.0</version><scope>test</scope></dependency>\n";

fn dependency_match(content: &str) -> QueryMatch {
    let end = content.find('\n').unwrap();
    let block = Capture { index: 0, start_byte: 0, end_byte: end, text: content[..end].to_string() };
    QueryMatch {
        captures: vec![
            block,
            cap(1, content, "dependency", 0),
            cap(3, content, "groupId", 0),
            val(4, content, "groupId"),
            cap(3, content, "artifactId", 0),
            val(4, content, "artifactId"),
            cap(3, content, "version", 0),
            val(4, content, "version"),
            cap(3, content, "scope", 0),
            val(4, content, "scope"),
        ],
    }
}

#[test]
fn dependency_matches_become_located_dependencies() {
    let deps = dependencies_of_matches(&vec![dependency_match(DEP)], 0, 3, false, "pom.xml", DEP)
        .expect("positions exist");
    assert_eq!(deps.len(), 1);
    let d = &deps[0];
    assert_eq!(d.group_id, "org");
    assert_eq!(d.artifact_id, "lib");
    assert_eq!(d.version.as_deref(), Some("1.0"));
    assert_eq!(d.scope, Some(MavenDependencyScope::Test));
    assert_eq!(d.dep_type, None);
    let loc = d.location.as_ref().unwrap();
    assert_eq!(loc.block.file, "pom.xml");
    assert_eq!((loc.block.start.line, loc.block.start.col), (1, 1));
    let name_at = DEP.find(">lib<").unwrap() + 1;
    assert_eq!(loc.name.start.col as usize, name_at + 1);
    assert!(loc.version.is_some());
}

#[test]
fn a_block_ending_at_the_end_of_the_text_has_no_position() {
    let content = DEP.trim_end();
    let mut m = dependency_match(DEP);
    m.captures[0].end_byte = content.len();
    assert!(dependencies_of_matches(&vec![m], 0, 3, false, "pom.xml", content).is_none());
}

#[test]
fn managed_matches_read_types_from_the_fifth_capture() {
    let content = "<dependency><groupId>g</groupId><artifactId>a</artifactId><type>pom</type></dependency>\n";
    let end = content.find('\n').unwrap();
    let mut caps = vec![Capture { index: 0, start_byte: 0, end_byte: end, text: String::new() }];
    for _ in 0..4 {
        caps.push(Capture { index: 9, start_byte: 0, end_byte: 1, text: String::new() });
    }
    caps.push(cap(4, content, "groupId", 0));
    caps.push(val(5, content, "groupId"));
    caps.push(cap(4, content, "artifactId", 0));
    caps.push(val(5, content, "artifactId"));
    caps.push(cap(4, content, "type", 0));
    caps.push(val(5, content, "type"));
    let deps = dependencies_of_matches(&vec![QueryMatch { captures: caps }], 5, 4, true, "p", content).unwrap();
    assert_eq!(deps.len(), 1);
    assert_eq!(deps[0].dep_type, Some(MavenDependencyType::Pom));
    assert_eq!(deps[0].group_id, "g");
}

fn kv(key_at: u32, key: &str, value: &str) -> QueryMatch {
    let mut captures = vec![];
    for i in 0..key_at {
        captures.push(Capture { index: i, start_byte: 0, end_byte: 0, text: String::new() });
    }
    captures.push(Capture { index: key_at, start_byte: 0, end_byte: 0, text: key.to_string() });
    captures.push(Capture { index: key_at + 1, start_byte: 0, end_byte: 0, text: value.to_string() });
    QueryMatch { captures }
}

#[test]
fn project_coordinates_properties_and_parent() {
    let meta = vec![kv(1, "groupId", "com.ex"), kv(1, "artifactId", "app"), kv(1, "version", "1.0-SNAPSHOT")];
    let info = get_project_info(&meta).unwrap();
    assert_eq!(info.group_id.as_deref(), Some("com.ex"));
    assert_eq!(info.artifact_id, "app");
    assert!(get_project_info(&vec![kv(1, "groupId", "g")]).is_none());

    let props = vec![kv(2, "slf4j.version", "2.0.13"), kv(2, "project.version", "override")];
    let vars = get_variables(&meta, &props);
    assert_eq!(vars.get("slf4j.version").map(|s| s.as_str()), Some("2.0.13"));
    assert_eq!(vars.get("project.version").map(|s| s.as_str()), Some("override"));
    let vars = get_variables(&meta, &vec![]);
    assert_eq!(vars.get("project.version").map(|s| s.as_str()), Some("1.0-SNAPSHOT"));

    let parent = get_parent_information(&vec![kv(2, "relativePath", "../pom.xml")]).unwrap();
    assert_eq!(parent.relative_path.as_deref(), Some("../pom.xml"));
    assert!(parent.artifact_id.is_none());
    let full = vec![kv(2, "groupId", "g"), kv(2, "artifactId", "p"), kv(2, "version", "1")];
    let parent = get_parent_information(&full).unwrap();
    assert_eq!(parent.artifact_id.as_deref(), Some("p"));
    assert!(parent.relative_path.is_none());
    assert!(get_parent_information(&vec![kv(2, "groupId", "g")]).is_none());
}

#[test]
fn a_whole_file_from_its_matches() {
    let m = PomMatches {
        metadata: vec![kv(1, "artifactId", "app")],
        properties: vec![],
        dependencies: vec![dependency_match(DEP)],
        management: vec![],
        parent: vec![],
    };
    let f = maven_file_from_matches("pom.xml", DEP, &m, None).unwrap();
    assert_eq!(f.project_info.artifact_id, "app");
    assert_eq!(f.dependencies.len(), 1);
    assert!(f.parent.is_none());
    let no_artifact = PomMatches { metadata: vec![], ..m };
    assert!(maven_file_from_matches("pom.xml", DEP, &no_artifact, None).is_none());
}
