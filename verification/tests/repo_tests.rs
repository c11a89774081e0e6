use fode::language::DetectedLanguage;
use fode::model::{Entity, EntityGraph, EntityKind, RelationKind};
use fode::repo::{
    add_label, build_repo_info, collect_package_labels, index_entity_dirs, parse_repo,
    RepoSnapshot,
};

fn texts(items: &[&str]) -> Vec<String> {
    items.iter().map(|s| s.to_string()).collect()
}

fn packaged(name: &str, package: &str) -> Entity {
    Entity {
        id: format!("f.go::function::{}", name),
        name: name.to_string(),
        kind: EntityKind::Function,
        file: "f.go".to_string(),
        line: 1,
        end_line: 1,
        source: String::new(),
        signature: String::new(),
        package: package.to_string(),
        doc_comment: String::new(),
    }
}

const A_GO: &str = "package a\n\nfunc Foo() {}\n";
const B_GO: &str = "package b\n\nimport \"example.com/m/a\"\n\nfunc Bar() { a.Foo() }\n";

fn two_package_repo() -> RepoSnapshot {
    RepoSnapshot {
        root: "/work/repo".to_string(),
        name: Some("repo".to_string()),
        manifest: Some("module example.com/m\n\ngo 1.22\n".to_string()),
        manifest_path: Some("/work/repo/go.mod".to_string()),
        survey: texts(&[
            "/work/repo",
            "/work/repo/a",
            "/work/repo/a/a.go",
            "/work/repo/b",
            "/work/repo/b/b.go",
            "/work/repo/go.mod",
        ]),
        files: texts(&["/work/repo/a/a.go", "/work/repo/b/b.go", "/work/repo/go.mod"]),
        sources: vec![Some(A_GO.to_string()), Some(B_GO.to_string())],
    }
}

#[test]
fn a_call_through_an_import_links_caller_and_callee_once() {
    let (info, graph) = parse_repo(&two_package_repo()).expect("a graph");
    assert_eq!(graph.entities.len(), 2);
    assert_eq!(graph.entities[0].kind, EntityKind::Function);
    assert_eq!(graph.entities[0].id, "a/a.go::function::Foo");
    assert_eq!(graph.entities[0].package, "a");
    assert_eq!(graph.entities[1].kind, EntityKind::Function);
    assert_eq!(graph.entities[1].id, "b/b.go::function::Bar");
    assert_eq!(graph.entities[1].package, "b");
    assert_eq!(graph.relations.len(), 1);
    assert_eq!(graph.relations[0].from_id, "b/b.go::function::Bar");
    assert_eq!(graph.relations[0].to_id, "a/a.go::function::Foo");
    assert_eq!(graph.relations[0].kind, RelationKind::Calls);
    let reverse = graph
        .relations
        .iter()
        .filter(|r| r.from_id == "a/a.go::function::Foo" && r.to_id == "b/b.go::function::Bar")
        .count();
    assert_eq!(reverse, 0);
    assert_eq!(info.total_entities, 2);
    assert_eq!(info.total_files, 2);
    assert_eq!(info.language, "Go");
    assert_eq!(info.module_name, "example.com/m");
    assert_eq!(info.packages, texts(&["a", "b"]));
}

#[test]
fn the_callee_is_not_found_when_the_import_leads_outside_the_module() {
    let mut repo = two_package_repo();
    repo.manifest = Some("module example.com/other\n".to_string());
    let (_, graph) = parse_repo(&repo).expect("a graph");
    assert_eq!(graph.entities.len(), 2);
    assert!(graph.relations.is_empty());
}

#[test]
fn a_file_that_cannot_be_read_is_skipped() {
    let mut repo = two_package_repo();
    repo.files = texts(&[
        "/work/repo/a/a.go",
        "/work/repo/broken/c.go",
        "/work/repo/b/b.go",
    ]);
    repo.sources = vec![Some(A_GO.to_string()), None, Some(B_GO.to_string())];
    let (info, graph) = parse_repo(&repo).expect("a graph in spite of the broken file");
    assert_eq!(graph.entities.len(), 2);
    assert_eq!(graph.entities[0].id, "a/a.go::function::Foo");
    assert_eq!(graph.entities[1].id, "b/b.go::function::Bar");
    assert_eq!(graph.relations.len(), 1);
    assert_eq!(info.total_entities, 2);
    assert_eq!(info.total_files, 2);
}

#[test]
fn a_file_with_syntax_errors_does_not_stop_the_others() {
    let mut repo = two_package_repo();
    repo.files = texts(&[
        "/work/repo/a/a.go",
        "/work/repo/broken/c.go",
        "/work/repo/b/b.go",
    ]);
    repo.sources = vec![
        Some(A_GO.to_string()),
        Some("package broken\n\nfunc ( {{{ ]]\n".to_string()),
        Some(B_GO.to_string()),
    ];
    let (info, graph) = parse_repo(&repo).expect("a graph in spite of the broken file");
    let ids: Vec<String> = graph.entities.iter().map(|e| e.id.clone()).collect();
    assert!(ids.contains(&"a/a.go::function::Foo".to_string()));
    assert!(ids.contains(&"b/b.go::function::Bar".to_string()));
    assert_eq!(graph.relations.len(), 1);
    assert_eq!(info.total_files, 3);
}

#[test]
fn a_skipped_file_changes_neither_graph_nor_summary() {
    let without = two_package_repo();
    let mut with = two_package_repo();
    with.files = texts(&[
        "/work/repo/a/a.go",
        "/work/repo/broken/c.go",
        "/work/repo/b/b.go",
        "/work/repo/go.mod",
    ]);
    with.sources = vec![Some(A_GO.to_string()), None, Some(B_GO.to_string())];
    let (info, graph) = parse_repo(&without).expect("a graph");
    let (info2, graph2) = parse_repo(&with).expect("a graph");
    assert_eq!(info2.total_files, info.total_files);
    assert_eq!(info2.total_entities, info.total_entities);
    assert_eq!(info2.packages, info.packages);
    assert_eq!(graph2.entities.len(), graph.entities.len());
    for (one, two) in graph.entities.iter().zip(graph2.entities.iter()) {
        assert_eq!(one.id, two.id);
        assert_eq!(one.source, two.source);
        assert_ne!(two.file, "broken/c.go");
    }
    assert_eq!(graph2.relations.len(), graph.relations.len());
}

#[test]
fn the_summary_counts_the_files_that_were_parsed() {
    let mut repo = two_package_repo();
    repo.files = texts(&["/work/repo/a/a.go", "/work/repo/b/b.go", "/work/repo/c/c.go"]);
    repo.sources = vec![None, Some(B_GO.to_string()), Some("package c\n".to_string())];
    let graph = EntityGraph { entities: Vec::new(), relations: Vec::new() };
    let info = build_repo_info(&repo, &DetectedLanguage::Go, &graph);
    assert_eq!(info.total_files, 2);
    let (parsed, _) = parse_repo(&repo).expect("a graph");
    assert_eq!(parsed.total_files, 2);
}

#[test]
fn sources_that_are_missing_at_the_end_count_as_unreadable() {
    let mut repo = two_package_repo();
    repo.sources = vec![Some(A_GO.to_string())];
    let (info, graph) = parse_repo(&repo).expect("a graph");
    assert_eq!(graph.entities.len(), 1);
    assert_eq!(info.total_files, 1);
    assert!(graph.relations.is_empty());
}

#[test]
fn a_repository_without_source_files_has_no_graph() {
    let repo = RepoSnapshot {
        root: "/work/docs".to_string(),
        name: Some("docs".to_string()),
        manifest: None,
        manifest_path: None,
        survey: texts(&["/work/docs/README.md", "/work/docs/LICENSE"]),
        files: texts(&["/work/docs/README.md", "/work/docs/LICENSE"]),
        sources: Vec::new(),
    };
    assert!(parse_repo(&repo).is_none());
}

#[test]
fn a_python_repository_resolves_calls_inside_a_directory() {
    let repo = RepoSnapshot {
        root: "proj".to_string(),
        name: Some("proj".to_string()),
        manifest: None,
        manifest_path: None,
        survey: texts(&["proj/app/m.py", "proj/app/n.py", "proj/lib/m.py"]),
        files: texts(&["proj/app/m.py", "proj/app/n.py", "proj/lib/m.py"]),
        sources: vec![
            Some("def helper():\n    pass\n".to_string()),
            Some("def user():\n    helper()\n".to_string()),
            Some("def helper():\n    pass\n\ndef other():\n    helper()\n".to_string()),
        ],
    };
    let (info, graph) = parse_repo(&repo).expect("a graph");
    let ids: Vec<String> = graph.entities.iter().map(|e| e.id.clone()).collect();
    assert_eq!(
        ids,
        texts(&[
            "app/m.py::function::helper",
            "app/n.py::function::user",
            "lib/m.py::function::helper",
            "lib/m.py::function::other",
        ])
    );
    let edges: Vec<(String, String)> = graph
        .relations
        .iter()
        .map(|r| (r.from_id.clone(), r.to_id.clone()))
        .collect();
    assert_eq!(
        edges,
        vec![
            ("app/n.py::function::user".to_string(), "app/m.py::function::helper".to_string()),
            ("lib/m.py::function::other".to_string(), "lib/m.py::function::helper".to_string()),
        ]
    );
    for relation in &graph.relations {
        assert_ne!(relation.from_id, relation.to_id);
        assert_eq!(relation.kind, RelationKind::Calls);
    }
    assert_eq!(info.language, "Python");
    assert_eq!(info.module_name, "proj");
    assert_eq!(info.packages, texts(&["app", "lib"]));
    assert_eq!(info.total_files, 3);
    assert_eq!(info.total_entities, 4);
}

#[test]
fn the_summary_of_a_go_repository_names_module_and_packages() {
    let repo = two_package_repo();
    let graph = EntityGraph {
        entities: vec![packaged("X", "zeta"), packaged("Y", "alpha"), packaged("Z", "zeta")],
        relations: Vec::new(),
    };
    let info = build_repo_info(&repo, &DetectedLanguage::Go, &graph);
    assert_eq!(info.path, "/work/repo");
    assert_eq!(info.name, "repo");
    assert_eq!(info.language, "Go");
    assert_eq!(info.total_files, 2);
    assert_eq!(info.total_entities, 3);
    assert_eq!(info.packages, texts(&["alpha", "zeta"]));
    assert_eq!(info.module_name, "example.com/m");
    assert_eq!(info.attributes.len(), 3);
    assert_eq!(info.attributes[0].label, "Module");
    assert_eq!(info.attributes[0].value, "example.com/m");
    assert_eq!(info.attributes[0].link, None);
    assert_eq!(info.attributes[1].label, "Packages");
    assert_eq!(info.attributes[1].value, "2");
    assert_eq!(info.attributes[1].link, None);
    assert_eq!(info.attributes[2].label, "go.mod");
    assert_eq!(info.attributes[2].value, "go.mod");
    assert_eq!(info.attributes[2].link, Some("/work/repo/go.mod".to_string()));
}

#[test]
fn the_summary_of_a_go_repository_without_manifest_falls_back_to_its_name() {
    let mut repo = two_package_repo();
    repo.manifest = None;
    repo.manifest_path = None;
    let graph = EntityGraph { entities: Vec::new(), relations: Vec::new() };
    let info = build_repo_info(&repo, &DetectedLanguage::Go, &graph);
    assert_eq!(info.module_name, "repo");
    assert_eq!(info.attributes.len(), 2);
    assert_eq!(info.attributes[0].value, "repo");
    assert_eq!(info.attributes[1].value, "0");
    assert!(info.packages.is_empty());
    repo.name = None;
    let info = build_repo_info(&repo, &DetectedLanguage::Go, &graph);
    assert_eq!(info.name, "unknown");
    assert_eq!(info.module_name, "unknown");
}

#[test]
fn the_summary_of_another_repository_names_language_files_and_packages() {
    let repo = RepoSnapshot {
        root: "/w/tool".to_string(),
        name: Some("tool".to_string()),
        manifest: None,
        manifest_path: None,
        survey: Vec::new(),
        files: texts(&["/w/tool/src/a.rs", "/w/tool/src/b.rs", "/w/tool/target/c.rs", "/w/tool/x.py"]),
        sources: vec![Some(String::new()), None],
    };
    let graph = EntityGraph {
        entities: vec![packaged("X", "src"), packaged("Y", ""), packaged("Z", "src")],
        relations: Vec::new(),
    };
    let info = build_repo_info(&repo, &DetectedLanguage::Rust, &graph);
    assert_eq!(info.language, "Rust");
    assert_eq!(info.name, "tool");
    assert_eq!(info.module_name, "tool");
    assert_eq!(info.total_files, 1);
    assert_eq!(info.total_entities, 3);
    assert_eq!(info.packages, texts(&["", "src"]));
    let lines: Vec<(String, String, Option<String>)> = info
        .attributes
        .iter()
        .map(|a| (a.label.clone(), a.value.clone(), a.link.clone()))
        .collect();
    assert_eq!(
        lines,
        vec![
            ("Language".to_string(), "Rust".to_string(), None),
            ("Files".to_string(), "1".to_string(), None),
            ("Packages".to_string(), "2".to_string(), None),
        ]
    );
    let copy = info.duplicate();
    assert_eq!(copy.packages, info.packages);
    assert_eq!(copy.attributes.len(), 3);
    assert_eq!(copy.path, "/w/tool");
}

#[test]
fn package_labels_are_sorted_and_distinct() {
    let entities = vec![
        packaged("a", "store"),
        packaged("b", "api"),
        packaged("c", "store"),
        packaged("d", "Api"),
        packaged("e", "api"),
        packaged("f", "zoo"),
        packaged("g", "apis"),
    ];
    assert_eq!(
        collect_package_labels(&entities),
        texts(&["Api", "api", "apis", "store", "zoo"])
    );
    let mut labels = texts(&["b", "d"]);
    add_label(&mut labels, "c");
    add_label(&mut labels, "a");
    add_label(&mut labels, "e");
    add_label(&mut labels, "c");
    assert_eq!(labels, texts(&["a", "b", "c", "d", "e"]));
}

#[test]
fn entity_directories_go_by_id_and_the_later_entity_counts() {
    let mut first = packaged("X", "p");
    first.id = "same".to_string();
    first.file = "one/f.go".to_string();
    let mut second = packaged("X", "p");
    second.id = "same".to_string();
    second.file = "two/f.go".to_string();
    let mut third = packaged("Y", "p");
    third.id = "top".to_string();
    third.file = "f.go".to_string();
    let dirs = index_entity_dirs(&vec![first, second, third]);
    assert_eq!(dirs.get("same").cloned(), Some("two".to_string()));
    assert_eq!(dirs.get("top").cloned(), Some("".to_string()));
    assert_eq!(dirs.get("other").cloned(), None);
}
