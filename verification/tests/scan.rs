use safeclean::projects::ProjectType;
use safeclean::scanner::check_entries;
use safeclean::scanner::dir_size;
use safeclean::scanner::scan;
use safeclean::scanner::total_size;
use safeclean::scanner::FsNode;

fn file(name: &str, size: u64) -> FsNode {
    FsNode::File { name: name.to_string(), size }
}

fn dir(name: &str, entries: Vec<FsNode>) -> FsNode {
    FsNode::Dir { name: name.to_string(), entries }
}

fn path_of(p: &[&str]) -> Vec<String> {
    p.iter().map(|s| s.to_string()).collect()
}

const MB: u64 = 1024 * 1024;

#[test]
fn two_projects_sorted_by_size() {
    let root = vec![
        dir(
            "proj-a",
            vec![
                file("Cargo.toml", 100),
                dir(
                    "target",
                    vec![dir("debug", vec![dir("deps", vec![file("a.o", 50 * MB)])])],
                ),
            ],
        ),
        dir(
            "proj-b",
            vec![
                file("package.json", 10),
                dir("node_modules", vec![file("big.js", 200 * MB)]),
            ],
        ),
    ];
    let out = scan(&root, &ProjectType::all());
    assert_eq!(out.len(), 2);
    assert_eq!(out[0].path, path_of(&["proj-b", "node_modules"]));
    assert_eq!(out[0].project_type, ProjectType::Node);
    assert_eq!(out[0].size_bytes, 200 * MB);
    assert_eq!(out[1].path, path_of(&["proj-a", "target"]));
    assert_eq!(out[1].project_type, ProjectType::Rust);
    assert_eq!(out[1].size_bytes, 50 * MB);
}

#[test]
fn unmarked_bin_never_reported() {
    let root = vec![dir("app", vec![dir("bin", vec![file("x.dll", 10)]), file("README.md", 1)])];
    let out = scan(&root, &ProjectType::all());
    assert!(out.is_empty());
}

#[test]
fn marked_bin_reported() {
    let root = vec![dir(
        "app",
        vec![file(".csproj", 1), dir("bin", vec![file("x.dll", 10)])],
    )];
    let out = scan(&root, &ProjectType::all());
    assert_eq!(out.len(), 1);
    assert_eq!(out[0].project_type, ProjectType::DotNet);
    assert_eq!(out[0].path, path_of(&["app", "bin"]));
}

#[test]
fn pruning_skips_nested_matches() {
    let root = vec![dir(
        "p",
        vec![
            file("Cargo.toml", 1),
            dir(
                "target",
                vec![
                    file("package.json", 1),
                    dir("node_modules", vec![file("x.js", 100)]),
                ],
            ),
        ],
    )];
    let out = scan(&root, &ProjectType::all());
    assert_eq!(out.len(), 1);
    assert_eq!(out[0].path, path_of(&["p", "target"]));
    assert_eq!(out[0].size_bytes, 101);
}

#[test]
fn validator_fails_closed() {
    let root = vec![dir("q", vec![dir("target", vec![file("x", 5)])])];
    let out = scan(&root, &ProjectType::all());
    assert!(out.is_empty());
}

#[test]
fn first_matching_rule_wins() {
    let root = vec![dir(
        "dual",
        vec![
            file("Cargo.toml", 1),
            file("pom.xml", 1),
            dir("target", vec![file("out.bin", 9)]),
        ],
    )];
    let out = scan(&root, &ProjectType::all());
    assert_eq!(out.len(), 1);
    assert_eq!(out[0].project_type, ProjectType::Rust);
}

#[test]
fn disabled_categories_are_skipped() {
    let root = vec![dir(
        "p",
        vec![file("Cargo.toml", 1), dir("target", vec![file("a", 7)])],
    )];
    let none = scan(&root, &vec![ProjectType::Node]);
    assert!(none.is_empty());
    let some = scan(&root, &vec![ProjectType::Rust, ProjectType::Node]);
    assert_eq!(some.len(), 1);
}

#[test]
fn empty_category_set_enables_everything() {
    let root = vec![dir(
        "p",
        vec![file("Cargo.toml", 1), dir("target", vec![file("a", 7)])],
    )];
    let out = scan(&root, &vec![]);
    assert_eq!(out.len(), 1);
    assert_eq!(out[0].project_type, ProjectType::Rust);
}

#[test]
fn python_caches_need_no_marker() {
    let root = vec![dir("s", vec![dir("__pycache__", vec![file("a.pyc", 7)])])];
    let out = scan(&root, &ProjectType::all());
    assert_eq!(out.len(), 1);
    assert_eq!(out[0].project_type, ProjectType::Python);
    assert_eq!(out[0].size_bytes, 7);
}

#[test]
fn gradle_accepts_either_script() {
    let root = vec![dir(
        "g",
        vec![file("build.gradle.kts", 2), dir("build", vec![file("cls", 11)])],
    )];
    let out = scan(&root, &ProjectType::all());
    assert_eq!(out.len(), 1);
    assert_eq!(out[0].project_type, ProjectType::Gradle);
}

#[test]
fn output_sorted_descending() {
    let root = vec![
        dir("a", vec![file("Cargo.toml", 1), dir("target", vec![file("x", 30)])]),
        dir("b", vec![file("Cargo.toml", 1), dir("target", vec![file("x", 90)])]),
        dir("c", vec![file("Cargo.toml", 1), dir("target", vec![file("x", 60)])]),
    ];
    let out = scan(&root, &ProjectType::all());
    assert_eq!(out.len(), 3);
    for w in out.windows(2) {
        assert!(w[0].size_bytes >= w[1].size_bytes);
    }
    assert_eq!(out[0].size_bytes, 90);
    assert_eq!(out[2].size_bytes, 30);
}

#[test]
fn subtree_sizes_are_exact_sums() {
    let entries = vec![
        file("a", 3),
        dir("d1", vec![file("b", 4), dir("d2", vec![file("c", 5)])]),
        dir("empty", vec![]),
    ];
    assert_eq!(dir_size(&entries), 12);
    let root = vec![dir(
        "p",
        vec![
            file("Cargo.toml", 1),
            dir("target", vec![file("a", 3), dir("deep", vec![file("b", 4)])]),
        ],
    )];
    let out = scan(&root, &ProjectType::all());
    assert_eq!(out.len(), 1);
    assert_eq!(out[0].size_bytes, 7);
}

#[test]
fn well_formedness_check_spots_duplicate_names() {
    let ok = vec![dir("a", vec![file("x", 1), dir("x2", vec![])]), file("b", 2)];
    assert!(check_entries(&ok));
    let dup_top = vec![file("a", 1), dir("a", vec![])];
    assert!(!check_entries(&dup_top));
    let dup_deep = vec![dir("p", vec![dir("q", vec![file("m", 1), file("m", 2)])])];
    assert!(!check_entries(&dup_deep));
    assert!(check_entries(&vec![]));
}

#[test]
fn empty_root_finds_nothing() {
    let out = scan(&vec![], &ProjectType::all());
    assert!(out.is_empty());
}

#[test]
fn no_entry_nests_inside_another() {
    // several markers at several depths; venv matches with no marker at all
    let root = vec![
        dir(
            "work",
            vec![
                file("Cargo.toml", 1),
                dir("target", vec![dir("venv", vec![file("x", 1000)])]),
                dir("sub", vec![file("package.json", 1), dir("node_modules", vec![file("y", 2)])]),
            ],
        ),
        dir("tools", vec![dir("venv", vec![file("z", 3)])]),
    ];
    let out = scan(&root, &ProjectType::all());
    assert_eq!(out.len(), 3);
    for a in &out {
        for b in &out {
            let strict_ancestor =
                a.path.len() < b.path.len() && b.path[..a.path.len()] == a.path[..];
            assert!(!strict_ancestor);
        }
    }
}

#[test]
fn total_size_sums_entries() {
    let root = vec![
        dir("a", vec![file("Cargo.toml", 1), dir("target", vec![file("x", 30)])]),
        dir("b", vec![file("package.json", 1), dir("node_modules", vec![file("x", 12)])]),
    ];
    let out = scan(&root, &ProjectType::all());
    assert_eq!(total_size(&out), 42);
    assert_eq!(total_size(&[]), 0);
}
