use fode::extract::extract_entities_go;
use fode::language::DetectedLanguage;
use fode::model::{Entity, EntityKind, Relation, RelationKind};
use fode::resolve::{extract_references, find_node_at, find_references, match_targets, try_add};
use fode::syntax::parse_file;
use fode::table::{NameIndex, TextMap};

fn entity(file: &str, name: &str, kind: EntityKind) -> Entity {
    Entity {
        id: format!("{}::{}::{}", file, kind.label(), name),
        name: name.to_string(),
        kind,
        file: file.to_string(),
        line: 1,
        end_line: 1,
        source: String::new(),
        signature: String::new(),
        package: String::new(),
        doc_comment: String::new(),
    }
}

fn dirs_of(entities: &[Entity]) -> TextMap {
    let mut dirs = TextMap::new();
    for e in entities {
        dirs.insert(e.id.clone(), fode::paths::file_dir(&e.file));
    }
    dirs
}

fn pairs(relations: &[Relation]) -> Vec<(String, String, RelationKind)> {
    relations
        .iter()
        .map(|r| (r.from_id.clone(), r.to_id.clone(), r.kind))
        .collect()
}

fn edge(from: &str, to: &str, kind: RelationKind) -> (String, String, RelationKind) {
    (from.to_string(), to.to_string(), kind)
}

/// The references of a Go file `file` with the text `source`, resolved
/// against its own entities and `others`.
fn references_in(
    source: &str,
    file: &str,
    others: &[Entity],
    imports: &TextMap,
) -> Vec<(String, String, RelationKind)> {
    let tree = parse_file(source, &DetectedLanguage::Go).expect("a tree");
    let own = extract_entities_go(source, &tree, file, "p");
    let mut all: Vec<Entity> = others.to_vec();
    all.extend(own.iter().cloned());
    let names = NameIndex::build(&all);
    let dirs = dirs_of(&all);
    let caller_dir = fode::paths::file_dir(file);
    let relations = extract_references(source, &tree, &own, &names, &dirs, imports, &caller_dir);
    pairs(&relations)
}

#[test]
fn try_add_drops_loops_and_doubles() {
    let mut relations: Vec<Relation> = Vec::new();
    assert!(try_add("a", "b", RelationKind::Calls, &mut relations));
    assert!(!try_add("a", "a", RelationKind::Calls, &mut relations));
    assert!(!try_add("a", "b", RelationKind::Calls, &mut relations));
    assert!(!try_add("a", "b", RelationKind::References, &mut relations));
    assert!(try_add("b", "a", RelationKind::References, &mut relations));
    assert!(try_add("a", "c", RelationKind::References, &mut relations));
    assert_eq!(
        pairs(&relations),
        vec![
            edge("a", "b", RelationKind::Calls),
            edge("b", "a", RelationKind::References),
            edge("a", "c", RelationKind::References),
        ]
    );
}

#[test]
fn match_targets_goes_by_name_and_directory() {
    let all = vec![
        entity("a/x.go", "Foo", EntityKind::Function),
        entity("b/y.go", "Foo", EntityKind::Function),
        entity("a/z.go", "Foo", EntityKind::Struct),
        entity("a/z.go", "Bar", EntityKind::Function),
    ];
    let names = NameIndex::build(&all);
    let dirs = dirs_of(&all);
    let mut relations: Vec<Relation> = Vec::new();
    match_targets("Foo", "a", "from", RelationKind::Calls, &names, &dirs, &mut relations);
    assert_eq!(
        pairs(&relations),
        vec![
            edge("from", "a/x.go::function::Foo", RelationKind::Calls),
            edge("from", "a/z.go::struct::Foo", RelationKind::Calls),
        ]
    );
    match_targets("Foo", "c", "from", RelationKind::Calls, &names, &dirs, &mut relations);
    match_targets("Baz", "a", "from", RelationKind::Calls, &names, &dirs, &mut relations);
    assert_eq!(relations.len(), 2);
}

#[test]
fn match_targets_skips_entities_without_a_directory_on_record() {
    let all = vec![entity("a/x.go", "Foo", EntityKind::Function)];
    let names = NameIndex::build(&all);
    let dirs = TextMap::new();
    let mut relations: Vec<Relation> = Vec::new();
    match_targets("Foo", "a", "from", RelationKind::Calls, &names, &dirs, &mut relations);
    assert!(relations.is_empty());
}

#[test]
fn no_relation_links_an_entity_to_itself() {
    let source = "package p\n\nfunc Loop() {\n\tLoop()\n}\n\ntype Node struct {\n\tnext *Node\n}\n";
    let found = references_in(source, "p/p.go", &[], &TextMap::new());
    for (from, to, _) in &found {
        assert_ne!(from, to);
    }
    assert_eq!(found, vec![]);
}

#[test]
fn a_pair_is_linked_once_whatever_the_kinds() {
    // Helper is called twice and named once more outside a call.
    let source = "package p\n\nfunc Helper() {}\n\nfunc User() {\n\tHelper()\n\tHelper()\n\tf := Helper\n\t_ = f\n}\n";
    let found = references_in(source, "p/p.go", &[], &TextMap::new());
    assert_eq!(
        found,
        vec![edge(
            "p/p.go::function::User",
            "p/p.go::function::Helper",
            RelationKind::Calls
        )]
    );
}

#[test]
fn the_first_form_found_decides_the_kind() {
    let source = "package p\n\nfunc Helper() {}\n\nfunc User() {\n\tf := Helper\n\tf()\n\tHelper()\n}\n";
    let found = references_in(source, "p/p.go", &[], &TextMap::new());
    assert_eq!(
        found,
        vec![edge(
            "p/p.go::function::User",
            "p/p.go::function::Helper",
            RelationKind::References
        )]
    );
}

#[test]
fn an_unqualified_call_resolves_in_its_own_directory_only() {
    let others = vec![
        entity("other/o.go", "Helper", EntityKind::Function),
        entity("p/q.go", "Helper", EntityKind::Function),
        entity("p/sub/s.go", "Helper", EntityKind::Function),
    ];
    let source = "package p\n\nfunc User() {\n\tHelper()\n}\n";
    let found = references_in(source, "p/p.go", &others, &TextMap::new());
    assert_eq!(
        found,
        vec![edge(
            "p/p.go::function::User",
            "p/q.go::function::Helper",
            RelationKind::Calls
        )]
    );
}

#[test]
fn an_imported_qualifier_takes_precedence_over_the_own_directory() {
    let others = vec![
        entity("internal/x/x.go", "Foo", EntityKind::Function),
        entity("p/q.go", "Foo", EntityKind::Function),
    ];
    let mut imports = TextMap::new();
    imports.insert("pkgname".to_string(), "internal/x".to_string());
    let source = "package p\n\nfunc User() {\n\tpkgname.Foo()\n}\n";
    let found = references_in(source, "p/p.go", &others, &imports);
    assert_eq!(
        found,
        vec![edge(
            "p/p.go::function::User",
            "internal/x/x.go::function::Foo",
            RelationKind::Calls
        )]
    );
}

#[test]
fn a_qualifier_that_is_not_imported_falls_back_to_the_own_directory() {
    let others = vec![
        entity("internal/x/x.go", "Foo", EntityKind::Function),
        entity("p/q.go", "Foo", EntityKind::Function),
    ];
    let source = "package p\n\nfunc User(v T) {\n\tv.Foo()\n}\n";
    let found = references_in(source, "p/p.go", &others, &TextMap::new());
    assert_eq!(
        found,
        vec![edge(
            "p/p.go::function::User",
            "p/q.go::function::Foo",
            RelationKind::Calls
        )]
    );
}

#[test]
fn a_member_access_outside_a_call_is_a_reference() {
    let others = vec![
        entity("internal/x/x.go", "Limit", EntityKind::Constant),
        entity("p/q.go", "Limit", EntityKind::Constant),
    ];
    let mut imports = TextMap::new();
    imports.insert("x".to_string(), "internal/x".to_string());
    let source = "package p\n\nfunc User() int {\n\treturn x.Limit\n}\n";
    let found = references_in(source, "p/p.go", &others, &imports);
    assert_eq!(
        found,
        vec![edge(
            "p/p.go::function::User",
            "internal/x/x.go::const::Limit",
            RelationKind::References
        )]
    );
}

#[test]
fn arguments_of_a_call_are_gone_into_but_not_its_callee() {
    let others = vec![
        entity("p/q.go", "Outer", EntityKind::Function),
        entity("p/q.go", "Inner", EntityKind::Function),
        entity("p/q.go", "value", EntityKind::Variable),
        entity("p/q.go", "recv", EntityKind::Variable),
    ];
    let source = "package p\n\nfunc User() {\n\trecv.Outer(Inner(value))\n}\n";
    let found = references_in(source, "p/p.go", &others, &TextMap::new());
    assert_eq!(
        found,
        vec![
            edge("p/p.go::function::User", "p/q.go::function::Outer", RelationKind::Calls),
            edge("p/p.go::function::User", "p/q.go::function::Inner", RelationKind::Calls),
            edge("p/p.go::function::User", "p/q.go::var::value", RelationKind::References),
        ]
    );
}

#[test]
fn types_named_in_a_signature_are_references() {
    let others = vec![entity("p/q.go", "Config", EntityKind::Struct)];
    let source = "package p\n\nfunc User(c Config) {}\n";
    let found = references_in(source, "p/p.go", &others, &TextMap::new());
    assert_eq!(
        found,
        vec![edge(
            "p/p.go::function::User",
            "p/q.go::struct::Config",
            RelationKind::References
        )]
    );
}

#[test]
fn an_entity_whose_lines_match_no_node_has_no_references() {
    let source = "package p\n\nfunc Helper() {}\n\nfunc User() {\n\tHelper()\n}\n";
    let tree = parse_file(source, &DetectedLanguage::Go).expect("a tree");
    let mut own = extract_entities_go(source, &tree, "p/p.go", "p");
    let names = NameIndex::build(&own);
    let dirs = dirs_of(&own);
    own[1].line = 40;
    own[1].end_line = 41;
    let relations =
        extract_references(source, &tree, &own, &names, &dirs, &TextMap::new(), "p");
    assert!(relations.is_empty());
    assert_eq!(find_node_at(&tree, 40, 41), None);
    assert_eq!(find_node_at(&tree, 1, 8), Some(0));
}

#[test]
fn find_references_starts_from_the_given_node() {
    let source = "package p\n\nfunc Helper() {}\n\nfunc User() {\n\tHelper()\n}\n";
    let tree = parse_file(source, &DetectedLanguage::Go).expect("a tree");
    let own = extract_entities_go(source, &tree, "p/p.go", "p");
    let names = NameIndex::build(&own);
    let dirs = dirs_of(&own);
    let user = find_node_at(&tree, 5, 7).expect("the node of User");
    let mut relations: Vec<Relation> = Vec::new();
    find_references(
        source,
        &tree,
        user,
        "elsewhere",
        "p",
        &TextMap::new(),
        &names,
        &dirs,
        &mut relations,
    );
    assert_eq!(
        pairs(&relations),
        vec![
            edge("elsewhere", "p/p.go::function::User", RelationKind::References),
            edge("elsewhere", "p/p.go::function::Helper", RelationKind::Calls),
        ]
    );
}

#[test]
fn python_calls_resolve_in_the_own_directory() {
    let source = "def helper():\n    pass\n\ndef user():\n    helper()\n";
    let tree = parse_file(source, &DetectedLanguage::Python).expect("a tree");
    let own = fode::extract::extract_entities_generic(
        source,
        &tree,
        "app/m.py",
        &DetectedLanguage::Python,
    );
    let names = NameIndex::build(&own);
    let dirs = dirs_of(&own);
    let relations =
        extract_references(source, &tree, &own, &names, &dirs, &TextMap::new(), "app");
    assert_eq!(
        pairs(&relations),
        vec![edge(
            "app/m.py::function::user",
            "app/m.py::function::helper",
            RelationKind::Calls
        )]
    );
}

#[test]
fn name_index_lists_entities_in_order() {
    let all = vec![
        entity("a.go", "X", EntityKind::Function),
        entity("b.go", "Y", EntityKind::Function),
    ];
    let mut names = NameIndex::build(&all);
    assert_eq!(names.len(), 2);
    assert_eq!(names.entry(0).name, "X");
    assert_eq!(names.entry(1).id, "b.go::function::Y");
    names.add("Z".to_string(), "id-z".to_string());
    assert_eq!(names.len(), 3);
    assert_eq!(names.entry(2).id, "id-z");
    assert_eq!(NameIndex::new().len(), 0);
}
