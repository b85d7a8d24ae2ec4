use safeclean::projects::get_cleanable_dirs;
use safeclean::projects::has_sibling;
use safeclean::projects::has_sibling_matching;
use safeclean::projects::str_eq;
use safeclean::projects::str_starts_with;
use safeclean::projects::validate_dotnet;
use safeclean::projects::validate_gradle;
use safeclean::projects::validate_maven;
use safeclean::projects::validate_node;
use safeclean::projects::validate_nextjs;
use safeclean::projects::validate_nuxtjs;
use safeclean::projects::validate_rust;
use safeclean::projects::always_valid;
use safeclean::projects::ProjectType;

fn names(list: &[&str]) -> Vec<String> {
    list.iter().map(|s| s.to_string()).collect()
}

#[test]
fn type_names() {
    assert_eq!(ProjectType::Rust.name(), "Rust");
    assert_eq!(ProjectType::Node.name(), "Node.js");
    assert_eq!(ProjectType::Python.name(), "Python");
    assert_eq!(ProjectType::JavaMaven.name(), "Java (Maven)");
    assert_eq!(ProjectType::Gradle.name(), "Gradle");
    assert_eq!(ProjectType::DotNet.name(), ".NET");
    assert_eq!(ProjectType::NextJs.name(), "Next.js");
    assert_eq!(ProjectType::NuxtJs.name(), "Nuxt.js");
}

#[test]
fn type_order_is_fixed() {
    let all = ProjectType::all();
    assert_eq!(all.len(), 8);
    assert_eq!(all[0], ProjectType::Rust);
    assert_eq!(all[1], ProjectType::Node);
    assert_eq!(all[2], ProjectType::Python);
    assert_eq!(all[3], ProjectType::JavaMaven);
    assert_eq!(all[4], ProjectType::Gradle);
    assert_eq!(all[5], ProjectType::DotNet);
    assert_eq!(all[6], ProjectType::NextJs);
    assert_eq!(all[7], ProjectType::NuxtJs);
}

#[test]
fn string_helpers() {
    assert!(str_eq("target", "target"));
    assert!(!str_eq("target", "targets"));
    assert!(!str_eq("", "a"));
    assert!(str_eq("", ""));
    assert!(str_starts_with("next.config.js", "next.config"));
    assert!(!str_starts_with("next", "next.config"));
    assert!(str_starts_with("abc", ""));
}

#[test]
fn sibling_lookup() {
    let sibs = names(&["Cargo.toml", "src", "target"]);
    assert!(has_sibling(&sibs, "Cargo.toml"));
    assert!(!has_sibling(&sibs, "package.json"));
    assert!(has_sibling_matching(&sibs, "Cargo"));
    assert!(!has_sibling_matching(&sibs, "pom"));
    assert!(!has_sibling(&names(&[]), "Cargo.toml"));
    assert!(!has_sibling_matching(&names(&[]), "x"));
}

#[test]
fn validators_fire_on_their_markers() {
    assert!(validate_rust(&names(&["Cargo.toml"])));
    assert!(!validate_rust(&names(&["pom.xml"])));
    assert!(validate_node(&names(&["package.json", "src"])));
    assert!(!validate_node(&names(&[])));
    assert!(validate_maven(&names(&["pom.xml"])));
    assert!(validate_gradle(&names(&["build.gradle"])));
    assert!(validate_gradle(&names(&["build.gradle.kts"])));
    assert!(!validate_gradle(&names(&["settings.gradle"])));
    assert!(validate_nextjs(&names(&["next.config.mjs"])));
    assert!(!validate_nextjs(&names(&["nuxt.config.js"])));
    assert!(validate_nuxtjs(&names(&["nuxt.config.ts"])));
    assert!(always_valid(&names(&[])));
}

#[test]
fn dotnet_validator_scans_prefixes() {
    assert!(validate_dotnet(&names(&[".csproj"])));
    assert!(validate_dotnet(&names(&[".sln-backup"])));
    assert!(!validate_dotnet(&names(&["app.csproj.bak"])));
    assert!(!validate_dotnet(&names(&["README.md"])));
}

#[test]
fn registry_contents() {
    let rules = get_cleanable_dirs();
    assert_eq!(rules.len(), 16);
    assert_eq!(rules[0].dir_name, "target");
    assert_eq!(rules[0].project_type, ProjectType::Rust);
    assert_eq!(rules[1].dir_name, "node_modules");
    assert_eq!(rules[1].project_type, ProjectType::Node);
    assert_eq!(rules[15].dir_name, ".nuxt");
    assert_eq!(rules[15].project_type, ProjectType::NuxtJs);
    let python: Vec<_> = rules
        .iter()
        .filter(|r| r.project_type == ProjectType::Python)
        .map(|r| r.dir_name)
        .collect();
    assert_eq!(
        python,
        vec![".venv", "venv", "__pycache__", ".pytest_cache", ".mypy_cache", ".ruff_cache", ".tox"]
    );
}
