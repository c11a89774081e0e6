use fode::model::{Entity, EntityGraph, EntityKind, Relation, RelationKind};
use fode::query::{
    find_entity, focus_in_graph, get_all_entities, get_entity_focus, get_entity_source,
    get_repo_info, open_repo, relation_label, score_entity, search_entities, search_graph,
    AppState,
};
use fode::repo::RepoSnapshot;

fn item(file: &str, name: &str, kind: EntityKind) -> Entity {
    Entity {
        id: format!("{}::{}::{}", file, kind.label(), name),
        name: name.to_string(),
        kind,
        file: file.to_string(),
        line: 1,
        end_line: 2,
        source: format!("source of {}", name),
        signature: format!("sig {}", name),
        package: "pkg".to_string(),
        doc_comment: String::new(),
    }
}

fn link(from: &Entity, to: &Entity, kind: RelationKind) -> Relation {
    Relation { from_id: from.id.clone(), to_id: to.id.clone(), kind }
}

fn loaded(graph: EntityGraph) -> AppState {
    AppState { repo_info: None, entity_graph: Some(graph), repo_path: Some("/r".to_string()) }
}

fn small_repo() -> RepoSnapshot {
    RepoSnapshot {
        root: "/work/repo".to_string(),
        name: Some("repo".to_string()),
        manifest: Some("module example.com/m\n".to_string()),
        manifest_path: Some("/work/repo/go.mod".to_string()),
        survey: vec!["/work/repo/a/a.go".to_string()],
        files: vec!["/work/repo/a/a.go".to_string()],
        sources: vec![Some("package a\n\nfunc Foo() {}\n".to_string())],
    }
}

#[test]
fn scores_follow_the_ladder() {
    let mut e = item("a.go", "ParseRepo", EntityKind::Function);
    e.package = "parser".to_string();
    e.signature = "func ParseRepo(path string) error".to_string();
    assert_eq!(score_entity(&e, "parserepo"), 10);
    assert_eq!(score_entity(&e, "parse"), 9);
    assert_eq!(score_entity(&e, "repo"), 7);
    assert_eq!(score_entity(&e, "func"), 3);
    assert_eq!(score_entity(&e, "parser"), 9);
    assert_eq!(score_entity(&e, "arser"), 7);
    assert_eq!(score_entity(&e, "string"), 2);
    assert_eq!(score_entity(&e, "nothing"), 0);
    e.name = "Load".to_string();
    assert_eq!(score_entity(&e, "parser"), 4);
    assert_eq!(score_entity(&e, "unction"), 3);
    assert_eq!(score_entity(&e, "n"), 3);
    assert_eq!(score_entity(&e, ""), 9);
}

#[test]
fn an_exact_name_ranks_above_a_match_in_the_signature() {
    let mut by_signature = item("a.go", "Build", EntityKind::Struct);
    by_signature.signature = "type Build uses Config here".to_string();
    by_signature.name = "Other".to_string();
    let exact = item("b.go", "Config", EntityKind::Struct);
    let graph = EntityGraph { entities: vec![by_signature, exact], relations: Vec::new() };
    let hits = search_graph(&graph, "Config");
    assert_eq!(hits.len(), 2);
    assert_eq!(hits[0].entity.name, "Config");
    assert_eq!(hits[0].score, 10);
    assert_eq!(hits[1].entity.name, "Other");
    assert_eq!(hits[1].score, 2);
}

#[test]
fn search_ignores_letter_case() {
    let graph = EntityGraph {
        entities: vec![item("a.go", "HTTPServer", EntityKind::Struct)],
        relations: Vec::new(),
    };
    assert_eq!(search_graph(&graph, "httpserver")[0].score, 10);
    assert_eq!(search_graph(&graph, "HTTPSERVER")[0].score, 10);
    assert_eq!(search_graph(&graph, "Http")[0].score, 9);
    assert_eq!(search_graph(&graph, "SERVER")[0].score, 7);
}

#[test]
fn search_orders_by_score_and_keeps_graph_order_among_equals() {
    let mut with_package = item("f.go", "Zed", EntityKind::Struct);
    with_package.package = "run".to_string();
    let mut with_signature = item("g.go", "Yak", EntityKind::Struct);
    with_signature.signature = "does run".to_string();
    let graph = EntityGraph {
        entities: vec![
            with_signature,
            item("a.go", "Rerun", EntityKind::Function),
            with_package,
            item("b.go", "Runner", EntityKind::Function),
            item("c.go", "run", EntityKind::Function),
            item("d.go", "RunAll", EntityKind::Function),
            item("e.go", "Unrelated", EntityKind::Struct),
            item("h.go", "RUN", EntityKind::Function),
        ],
        relations: Vec::new(),
    };
    let hits = search_graph(&graph, "run");
    let found: Vec<(String, u8)> = hits.iter().map(|h| (h.entity.name.clone(), h.score)).collect();
    assert_eq!(
        found,
        vec![
            ("run".to_string(), 10),
            ("RUN".to_string(), 10),
            ("Runner".to_string(), 9),
            ("RunAll".to_string(), 9),
            ("Rerun".to_string(), 7),
            ("Zed".to_string(), 4),
            ("Yak".to_string(), 2),
        ]
    );
}

#[test]
fn search_matches_kind_labels() {
    let graph = EntityGraph {
        entities: vec![
            item("a.go", "Alpha", EntityKind::Interface),
            item("b.go", "Beta", EntityKind::Struct),
        ],
        relations: Vec::new(),
    };
    let hits = search_graph(&graph, "interface");
    assert_eq!(hits.len(), 1);
    assert_eq!(hits[0].entity.name, "Alpha");
    assert_eq!(hits[0].score, 3);
}

#[test]
fn search_hands_back_fifty_hits_at_most() {
    let mut entities = Vec::new();
    for i in 0..60 {
        entities.push(item("a.go", &format!("contains_key_{}", i), EntityKind::Function));
    }
    for i in 0..5 {
        entities.push(item("b.go", &format!("key_{}", i), EntityKind::Function));
    }
    entities.push(item("c.go", "key", EntityKind::Function));
    let graph = EntityGraph { entities, relations: Vec::new() };
    let hits = search_graph(&graph, "key");
    assert_eq!(hits.len(), 50);
    assert_eq!(hits[0].entity.name, "key");
    assert_eq!(hits[0].score, 10);
    for i in 0..5 {
        assert_eq!(hits[1 + i].entity.name, format!("key_{}", i));
        assert_eq!(hits[1 + i].score, 9);
    }
    for i in 0..44 {
        assert_eq!(hits[6 + i].entity.name, format!("contains_key_{}", i));
        assert_eq!(hits[6 + i].score, 7);
    }
    assert!(search_graph(&graph, "absent").is_empty());
}

#[test]
fn queries_need_a_loaded_repository() {
    let state = AppState::new();
    assert_eq!(get_repo_info(&state).err(), Some("No repo loaded".to_string()));
    assert_eq!(search_entities("x", &state).err(), Some("No repo loaded".to_string()));
    assert_eq!(get_entity_focus("x", &state).err(), Some("No repo loaded".to_string()));
    assert_eq!(get_all_entities(&state).err(), Some("No repo loaded".to_string()));
    assert_eq!(get_entity_source("x", &state).err(), Some("No repo loaded".to_string()));
}

#[test]
fn opening_a_repository_loads_summary_graph_and_path() {
    let mut state = AppState::new();
    let repo = small_repo();
    let info = open_repo("/work/repo", Some(&repo), &mut state).expect("a summary");
    assert_eq!(info.name, "repo");
    assert_eq!(info.total_entities, 1);
    assert_eq!(state.repo_path, Some("/work/repo".to_string()));
    assert_eq!(get_repo_info(&state).expect("a summary").module_name, "example.com/m");
    let all = get_all_entities(&state).expect("entities");
    assert_eq!(all.len(), 1);
    assert_eq!(all[0].id, "a/a.go::function::Foo");
    assert_eq!(
        get_entity_source("a/a.go::function::Foo", &state),
        Ok("func Foo() {}".to_string())
    );
    assert_eq!(get_entity_source("absent", &state), Err("Entity not found".to_string()));
    let hits = search_entities("foo", &state).expect("hits");
    assert_eq!(hits.len(), 1);
    assert_eq!(hits[0].score, 10);
}

#[test]
fn opening_a_path_that_does_not_exist_fails_and_keeps_the_state() {
    let mut state = AppState::new();
    let repo = small_repo();
    open_repo("/work/repo", Some(&repo), &mut state).expect("a summary");
    let failed = open_repo("/nowhere", None, &mut state);
    assert_eq!(failed.err(), Some("Path does not exist: /nowhere".to_string()));
    assert_eq!(state.repo_path, Some("/work/repo".to_string()));
    assert_eq!(get_all_entities(&state).expect("entities").len(), 1);
}

#[test]
fn opening_a_repository_without_sources_fails_and_keeps_the_state() {
    let mut state = AppState::new();
    let mut repo = small_repo();
    repo.survey = vec!["/work/repo/README.md".to_string()];
    let failed = open_repo("/work/repo", Some(&repo), &mut state);
    assert_eq!(
        failed.err(),
        Some("Failed to parse repository. No supported language files found.".to_string())
    );
    assert!(state.entity_graph.is_none());
    assert!(state.repo_info.is_none());
    assert!(state.repo_path.is_none());
}

#[test]
fn opening_another_repository_replaces_the_first() {
    let mut state = AppState::new();
    open_repo("/work/repo", Some(&small_repo()), &mut state).expect("a summary");
    let mut other = small_repo();
    other.root = "/work/other".to_string();
    other.name = Some("other".to_string());
    other.survey = vec!["/work/other/b/b.go".to_string()];
    other.files = vec!["/work/other/b/b.go".to_string()];
    other.sources = vec![Some("package b\n\nfunc Bar() {}\nfunc Baz() {}\n".to_string())];
    let info = open_repo("/work/other", Some(&other), &mut state).expect("a summary");
    assert_eq!(info.name, "other");
    assert_eq!(state.repo_path, Some("/work/other".to_string()));
    let all = get_all_entities(&state).expect("entities");
    assert_eq!(all.len(), 2);
    assert_eq!(all[0].id, "b/b.go::function::Bar");
}

#[test]
fn relation_labels_read_from_the_target() {
    assert_eq!(relation_label(RelationKind::Calls), "called by");
    assert_eq!(relation_label(RelationKind::References), "referenced by");
    assert_eq!(relation_label(RelationKind::Contains), "contained in");
    assert_eq!(relation_label(RelationKind::Implements), "implemented by");
    assert_eq!(relation_label(RelationKind::Returns), "returned by");
    assert_eq!(relation_label(RelationKind::Accepts), "accepted by");
    assert_eq!(relation_label(RelationKind::CalledBy), "related to");
    assert_eq!(relation_label(RelationKind::ReferencedBy), "related to");
    assert_eq!(relation_label(RelationKind::ContainedBy), "related to");
    assert_eq!(relation_label(RelationKind::ImplementedBy), "related to");
}

#[test]
fn two_references_at_home_and_three_abroad_make_two_entries_and_one_group() {
    let center = item("app/core/run.go", "Run", EntityKind::Function);
    let near_one = item("app/core/a.go", "Near", EntityKind::Function);
    let near_two = item("app/core/b.go", "Close", EntityKind::Struct);
    let far_one = item("app/store/a.go", "Open", EntityKind::Function);
    let far_two = item("app/store/b.go", "(s *Store).Get", EntityKind::Method);
    let far_three = item("app/store/c.go", "Store", EntityKind::Struct);
    let relations = vec![
        link(&center, &near_one, RelationKind::Calls),
        link(&center, &far_one, RelationKind::Calls),
        link(&center, &near_two, RelationKind::References),
        link(&center, &far_two, RelationKind::Calls),
        link(&center, &far_three, RelationKind::References),
    ];
    let graph = EntityGraph {
        entities: vec![
            center.clone(),
            near_one.clone(),
            near_two.clone(),
            far_one,
            far_two,
            far_three,
        ],
        relations,
    };
    let view = focus_in_graph(&graph, &center.id).expect("a view");
    assert_eq!(view.center.id, center.id);
    assert!(view.incoming.is_empty());
    assert_eq!(view.same_pkg.len(), 2);
    assert_eq!(view.same_pkg[0].id, near_one.id);
    assert_eq!(view.same_pkg[0].kind, "function");
    assert_eq!(view.same_pkg[0].signature, "sig Near");
    assert_eq!(view.same_pkg[1].id, near_two.id);
    assert_eq!(view.same_pkg[1].kind, "struct");
    assert_eq!(view.same_module.len(), 1);
    assert_eq!(view.same_module[0].pkg_name, "store");
    assert_eq!(view.same_module[0].pkg_dir, "app/store");
    assert_eq!(view.same_module[0].fn_count, 2);
    assert_eq!(view.same_module[0].type_count, 1);
    assert_eq!(view.same_module[0].fn_count + view.same_module[0].type_count, 3);
    assert!(view.external_deps.is_empty());
}

#[test]
fn groups_come_with_the_largest_first() {
    let center = item("main.go", "main", EntityKind::Function);
    let a = item("small/a.go", "A", EntityKind::Function);
    let b1 = item("big/b.go", "B1", EntityKind::Function);
    let b2 = item("big/b.go", "B2", EntityKind::Struct);
    let b3 = item("big/c.go", "B3", EntityKind::Constant);
    let c1 = item("mid/deep/c.go", "C1", EntityKind::Function);
    let c2 = item("mid/deep/c.go", "C2", EntityKind::Function);
    let d = item("late/d.go", "D", EntityKind::Interface);
    let relations = vec![
        link(&center, &a, RelationKind::Calls),
        link(&center, &b1, RelationKind::Calls),
        link(&center, &c1, RelationKind::Calls),
        link(&center, &b2, RelationKind::References),
        link(&center, &d, RelationKind::References),
        link(&center, &c2, RelationKind::Calls),
        link(&center, &b3, RelationKind::References),
    ];
    let graph = EntityGraph {
        entities: vec![center.clone(), a, b1, b2, b3, c1, c2, d],
        relations,
    };
    let view = focus_in_graph(&graph, &center.id).expect("a view");
    assert!(view.same_pkg.is_empty());
    let groups: Vec<(String, String, usize, usize)> = view
        .same_module
        .iter()
        .map(|g| (g.pkg_name.clone(), g.pkg_dir.clone(), g.fn_count, g.type_count))
        .collect();
    assert_eq!(
        groups,
        vec![
            ("big".to_string(), "big".to_string(), 1, 2),
            ("deep".to_string(), "mid/deep".to_string(), 2, 0),
            ("small".to_string(), "small".to_string(), 1, 0),
            ("late".to_string(), "late".to_string(), 0, 1),
        ]
    );
}

#[test]
fn incoming_references_name_their_source_and_kind() {
    let center = item("p/a.go", "Target", EntityKind::Function);
    let caller = item("p/b.go", "Caller", EntityKind::Function);
    let user = item("q/c.go", "User", EntityKind::Struct);
    let mut ghost = item("q/d.go", "Gone", EntityKind::Function);
    ghost.id = "not-in-graph".to_string();
    let relations = vec![
        link(&caller, &center, RelationKind::Calls),
        link(&ghost, &center, RelationKind::Calls),
        link(&user, &center, RelationKind::References),
        link(&user, &caller, RelationKind::Contains),
        link(&center, &ghost, RelationKind::Calls),
    ];
    let graph = EntityGraph {
        entities: vec![center.clone(), caller.clone(), user.clone()],
        relations,
    };
    let state = loaded(graph);
    let view = get_entity_focus(&center.id, &state).expect("a view");
    assert_eq!(view.incoming.len(), 2);
    assert_eq!(view.incoming[0].entity.id, caller.id);
    assert_eq!(view.incoming[0].relation, "called by");
    assert_eq!(view.incoming[1].entity.id, user.id);
    assert_eq!(view.incoming[1].relation, "referenced by");
    assert!(view.same_pkg.is_empty());
    assert!(view.same_module.is_empty());
    let view = get_entity_focus(&caller.id, &state).expect("a view");
    assert_eq!(view.incoming.len(), 1);
    assert_eq!(view.incoming[0].relation, "contained in");
    assert_eq!(view.same_pkg.len(), 1);
    assert_eq!(view.same_pkg[0].id, center.id);
}

#[test]
fn the_focus_of_an_unknown_entity_is_an_error() {
    let state = loaded(EntityGraph {
        entities: vec![item("a.go", "A", EntityKind::Function)],
        relations: Vec::new(),
    });
    assert_eq!(
        get_entity_focus("a.go::function::B", &state).err(),
        Some("Entity not found: a.go::function::B".to_string())
    );
    assert!(focus_in_graph(state.entity_graph.as_ref().expect("a graph"), "zzz").is_none());
}

#[test]
fn entities_are_found_by_id_the_first_one_first() {
    let mut twin = item("a.go", "A", EntityKind::Function);
    twin.source = "second".to_string();
    let entities = vec![
        item("b.go", "B", EntityKind::Function),
        item("a.go", "A", EntityKind::Function),
        twin,
    ];
    assert_eq!(find_entity(&entities, "a.go::function::A"), Some(1));
    assert_eq!(find_entity(&entities, "b.go::function::B"), Some(0));
    assert_eq!(find_entity(&entities, "c.go::function::C"), None);
    let state = loaded(EntityGraph { entities, relations: Vec::new() });
    assert_eq!(
        get_entity_source("a.go::function::A", &state),
        Ok("source of A".to_string())
    );
}
