use cargo_toml::Manifest;
use dep_cycles::detect::workspace_cycles;
use dep_cycles::emit::clusters;
use dep_cycles::model::{CrateMetadata, DependencyType};

fn parsed(text: &str) -> CrateMetadata {
    let manifest = Manifest::from_str(text).expect("a manifest that parses");
    let name = manifest.package.as_ref().map(|package| package.name.clone()).expect("a package");
    CrateMetadata {
        name,
        dependencies: manifest.dependencies.into_keys().collect(),
        dev_dependencies: manifest.dev_dependencies.into_keys().collect(),
    }
}

#[test]
fn manifests_of_web_core_and_util() {
    let web = parsed(
        "[package]
name = \"web\"
version = \"0.1.0\"

[dependencies]
core = { path = \"../core\" }
serde = \"1\"
",
    );
    let core = parsed(
        "[package]
name = \"core\"
version = \"0.1.0\"

[dependencies]
web = { path = \"../web\" }
",
    );
    let util = parsed(
        "[package]
name = \"util\"
version = \"0.1.0\"
",
    );
    assert_eq!(web.dependencies, vec!["core".to_string(), "serde".to_string()]);
    assert!(util.dependencies.is_empty());

    let cycles = workspace_cycles(vec![web, core, util]);
    assert_eq!(cycles.len(), 1);
    let members: Vec<&str> = cycles[0].0.iter().map(|node| node.name.as_str()).collect();
    assert_eq!(members, vec!["web", "core"]);
}

#[test]
fn a_dev_dependency_in_a_manifest_closes_a_cycle_from_its_package() {
    let app = parsed(
        "[package]
name = \"app\"
version = \"0.1.0\"

[dev-dependencies]
fixtures = { path = \"../fixtures\" }
",
    );
    let fixtures = parsed(
        "[package]
name = \"fixtures\"
version = \"0.1.0\"

[dependencies]
app = { path = \"../app\" }
",
    );
    assert_eq!(app.dev_dependencies, vec!["fixtures".to_string()]);

    let cycles = workspace_cycles(vec![app, fixtures]);
    let members: Vec<Vec<&str>> = cycles
        .iter()
        .map(|cycle| cycle.0.iter().map(|node| node.name.as_str()).collect())
        .collect();
    assert_eq!(members, vec![vec!["app", "fixtures"]]);
    let drawn = clusters(&cycles);
    assert_eq!(drawn.len(), 1);
    assert_eq!(drawn[0].edges.len(), 2);
    assert_eq!(drawn[0].edges[0].from, "app");
    assert_eq!(drawn[0].edges[0].to, "fixtures");
    assert_eq!(drawn[0].edges[0].dep_type, DependencyType::Dev);
    assert_eq!(drawn[0].edges[1].from, "fixtures");
    assert_eq!(drawn[0].edges[1].to, "app");
    assert_eq!(drawn[0].edges[1].dep_type, DependencyType::Regular);
}
