use sbom_generator::npm_manifest::NpmProducer;
use sbom_generator::producer::{SbomProducerConfiguration, SourceFile};
use sbom_generator::pypi::PypiProducer;

const PACKAGE_JSON: &str = r#"{
  "name": "npm-fixture",
  "version": "1.0.0",
  "dependencies": {
    "express": "^4.18.2",
    "lodash": "~4.17.21"
  },
  "devDependencies": {
    "jest": ">=29.0.0",
    "git-dep": "git+https://github.com/example/git-dep.git"
  },
  "peerDependencies": {
    "react": "^18.0.0"
  },
  "optionalDependencies": {
    "fsevents": "~2.3.2"
  }
}
"#;

const REQUIREMENTS_TXT: &str = "# Web framework\n\
Django==4.2.1\n\
numpy==1.24.0  # numerics\n\
requests>=2.31.0\n\
flask\n\
pandas~=2.0.3\n\
urllib3!=2.0.0\n\
celery[redis]>=5.3.0\n\
my_custom-pkg.ext==1.0.0-alpha1\n\
pytest<8.0\n\
pywin32==306; sys_platform == 'win32'\n\
-r other-requirements.txt\n\
--index-url https://pypi.org/simple\n\
./local/package\n\
/abs/path/package\n\
git+https://github.com/example/repo.git\n\
\n";

fn config(base: &str) -> SbomProducerConfiguration {
    SbomProducerConfiguration { use_debug: false, base_path: base.to_string() }
}

#[test]
fn test_npm_producer_find_dependencies_extended() {
    let d = SourceFile {
        path: "resources/npm/package.json".to_string(),
        content: Some(PACKAGE_JSON.to_string()),
    };

    let producer = NpmProducer {};
    let deps = producer
        .find_dependencies(&vec![d], &config("resources/npm"))
        .expect("Failed to parse package.json");

    assert!(deps
        .iter()
        .any(|d| d.name == "react" && d.version.as_deref() == Some("18.0.0")));

    assert!(deps
        .iter()
        .any(|d| d.name == "fsevents" && d.version.as_deref() == Some("2.3.2")));

    assert!(!deps.iter().any(|d| d.name == "git-dep"));

    assert_eq!(deps.len(), 6, "Expected 6 dependencies, found {}", deps.len());
}

#[test]
fn test_pypi_producer_find_dependencies_extended() {
    let d = SourceFile {
        path: "resources/py/requirements.txt".to_string(),
        content: Some(REQUIREMENTS_TXT.to_string()),
    };

    let producer = PypiProducer {};
    let deps = producer
        .find_dependencies(&vec![d], &config("resources/py"))
        .expect("Failed to parse requirements.txt");

    assert!(deps
        .iter()
        .any(|d| d.name == "Django" && d.version.as_deref() == Some("4.2.1")));

    assert!(deps
        .iter()
        .any(|d| d.name == "numpy" && d.version.as_deref() == Some("1.24.0")));

    assert!(deps
        .iter()
        .any(|d| d.name == "my_custom-pkg.ext" && d.version.as_deref() == Some("1.0.0-alpha1")));

    assert_eq!(deps.len(), 11, "Expected 11 dependencies, found {}", deps.len());
}
