//! Entities declared in one source file, read off its syntax tree.

use crate::language::DetectedLanguage;
use crate::model::{lemma_views_push, views, Entity, EntityKind, EntityView};
use crate::paths::{parent_dir_name, parent_name};
use crate::syntax::{
    child_by_field, child_indices, first_of_kind, lemma_children_in_range, node_text,
    prev_sibling, slice_text_checked, try_text_between, NodeView, SyntaxTree,
};
use crate::text::{first_line, str_eq, text_first_line};
use vstd::prelude::*;
use vstd::string::StringExecFns;

verus! {

broadcast use vstd::string::group_string_axioms;

/// The id of the entity of kind `kind` that `file` declares under `name`:
/// the file, the kind's label and the name, with `::` between them.
pub open spec fn entity_id(file: Seq<char>, name: Seq<char>, kind: EntityKind) -> Seq<char> {
    file + "::"@ + kind.label_text() + "::"@ + name
}

/// Ids tell entities apart: two entities whose names hold no colon have
/// the same id only if they agree in file, kind and name.
pub proof fn lemma_entity_ids_differ(
    file: Seq<char>,
    name: Seq<char>,
    kind: EntityKind,
    other_file: Seq<char>,
    other_name: Seq<char>,
    other_kind: EntityKind,
)
    requires
        !name.contains(':'),
        !other_name.contains(':'),
        entity_id(file, name, kind) == entity_id(other_file, other_name, other_kind),
    ensures
        file == other_file,
        name == other_name,
        kind == other_kind,
{
    reveal_strlit("::");
    let colon = seq![':'];
    assert("::"@ =~= colon + colon);
    let head = file + colon + colon + kind.label_text();
    let other_head = other_file + colon + colon + other_kind.label_text();
    assert(entity_id(file, name, kind) =~= (head + colon) + colon + name);
    assert(entity_id(other_file, other_name, other_kind) =~= (other_head + colon) + colon
        + other_name);
    crate::text::lemma_last_pos_joined(head + colon, ':', name);
    crate::text::lemma_last_pos_joined(other_head + colon, ':', other_name);
    assert(head + colon == other_head + colon);
    assert(head =~= (head + colon).drop_last());
    assert(other_head =~= (other_head + colon).drop_last());
    crate::model::lemma_labels(kind, other_kind);
    crate::model::lemma_labels(other_kind, kind);
    crate::text::lemma_last_pos_joined(file + colon, ':', kind.label_text());
    crate::text::lemma_last_pos_joined(other_file + colon, ':', other_kind.label_text());
    assert(file + colon == other_file + colon);
    assert(file =~= (file + colon).drop_last());
    assert(other_file =~= (other_file + colon).drop_last());
}

/// The id of the entity of kind `kind` that `file` declares under `name`.
pub fn make_entity_id(file: &str, name: &str, kind: &EntityKind) -> (id: String)
    ensures
        id@ == entity_id(file@, name@, *kind),
{
    let mut id = String::from_str(file);
    id.append("::");
    id.append(kind.label());
    id.append("::");
    id.append(name);
    id
}

/// The comment siblings that stand directly before node `i`, the nearest
/// first.
pub open spec fn comment_siblings(nodes: Seq<NodeView>, i: int) -> Seq<usize>
    decreases i,
{
    match prev_sibling(nodes, i) {
        Some(p) => if p < i && p < nodes.len() && nodes[p as int].kind == "comment"@ {
            seq![p] + comment_siblings(nodes, p as int)
        } else {
            Seq::empty()
        },
        None => Seq::empty(),
    }
}

/// The texts of the nodes `run`, the last of them first, one per line.
pub open spec fn comment_text(source: Seq<char>, nodes: Seq<NodeView>, run: Seq<usize>) -> Seq<
    char,
>
    decreases run.len(),
{
    if run.len() == 0 {
        Seq::empty()
    } else if run.len() == 1 {
        node_text(source, nodes[run[0] as int])
    } else {
        comment_text(source, nodes, run.drop_first()) + "\n"@ + node_text(
            source,
            nodes[run[0] as int],
        )
    }
}

/// The comments that stand directly before node `i`, in source order, one
/// per line.
pub open spec fn doc_comment(source: Seq<char>, nodes: Seq<NodeView>, i: int) -> Seq<char> {
    comment_text(source, nodes, comment_siblings(nodes, i))
}

/// The comments that stand directly before `node`, in source order.
pub fn get_doc_comment(source: &str, tree: &SyntaxTree, node: usize) -> (out: String)
    ensures
        out@ == doc_comment(source@, tree@, node as int),
{
    let mut run: Vec<usize> = Vec::new();
    let mut cur: usize = node;
    loop
        invariant
            cur <= node,
            comment_siblings(tree@, node as int) == run@ + comment_siblings(tree@, cur as int),
            forall|k: int| 0 <= k < run.len() ==> (#[trigger] run@[k]) < tree@.len(),
        ensures
            comment_siblings(tree@, node as int) == run@,
            forall|k: int| 0 <= k < run.len() ==> (#[trigger] run@[k]) < tree@.len(),
        decreases cur,
    {
        match tree.prev_sibling(cur) {
            Some(p) => {
                if tree.kind_is(p, "comment") {
                    assert(run@.push(p) + comment_siblings(tree@, p as int) =~= run@ + (seq![p]
                        + comment_siblings(tree@, p as int)));
                    run.push(p);
                    cur = p;
                } else {
                    assert(run@ + Seq::<usize>::empty() =~= run@);
                    break ;
                }
            },
            None => {
                assert(run@ + Seq::<usize>::empty() =~= run@);
                break ;
            },
        }
    }
    let mut out = String::new();
    let mut k: usize = run.len();
    assert(run@.skip(k as int) =~= Seq::<usize>::empty());
    while k > 0
        invariant
            k <= run.len(),
            out@ == comment_text(source@, tree@, run@.skip(k as int)),
            forall|n: int| 0 <= n < run.len() ==> (#[trigger] run@[n]) < tree@.len(),
        decreases k,
    {
        k -= 1;
        let text = tree.text_of(source, run[k]);
        assert(run@.skip(k as int).drop_first() =~= run@.skip(k + 1));
        assert(run@.skip(k as int)[0] == run@[k as int]);
        if k + 1 < run.len() {
            out.append("\n");
            out.append(text.as_str());
        } else {
            assert(out@ =~= Seq::<char>::empty());
            out = text;
        }
    }
    assert(run@.skip(0) =~= run@);
    out
}

/// The entity that the node `span` declares under `name`, documented by the
/// comments before the node `decl`.
pub open spec fn declared(
    source: Seq<char>,
    nodes: Seq<NodeView>,
    span: int,
    decl: int,
    name: Seq<char>,
    kind: EntityKind,
    file: Seq<char>,
    package: Seq<char>,
    signature: Seq<char>,
) -> EntityView {
    EntityView {
        id: entity_id(file, name, kind),
        name,
        kind,
        file,
        line: nodes[span].start_row + 1,
        end_line: nodes[span].end_row + 1,
        source: node_text(source, nodes[span]),
        signature,
        package,
        doc_comment: doc_comment(source, nodes, decl),
    }
}

/// Builds the entity that the node `span` declares under `name`.
fn declare(
    source: &str,
    tree: &SyntaxTree,
    span: usize,
    decl: usize,
    name: String,
    kind: EntityKind,
    file: &str,
    package: &str,
    signature: Option<String>,
) -> (out: Entity)
    requires
        span < tree@.len(),
    ensures
        out@ == declared(
            source@,
            tree@,
            span as int,
            decl as int,
            name@,
            kind,
            file@,
            package@,
            match signature {
                Some(s) => s@,
                None => first_line(node_text(source@, tree@[span as int])),
            },
        ),
{
    let text = tree.text_of(source, span);
    let signature = match signature {
        Some(s) => s,
        None => text_first_line(text.as_str()),
    };
    Entity {
        id: make_entity_id(file, name.as_str(), &kind),
        name,
        kind,
        file: String::from_str(file),
        line: tree.start_line(span),
        end_line: tree.end_line(span),
        source: text,
        signature,
        package: String::from_str(package),
        doc_comment: get_doc_comment(source, tree, decl),
    }
}

/// Appends `entity` to `out`.
fn keep(out: &mut Vec<Entity>, entity: Entity)
    ensures
        views(final(out)@) == views(old(out)@).push(entity@),
{
    proof {
        lemma_views_push(out@, entity);
    }
    out.push(entity);
}

/// The name under which a method is shown: the receiver clause as written, a
/// dot, and the method's own name; the name alone where no receiver is
/// written.
pub open spec fn method_display_name(receiver: Seq<char>, name: Seq<char>) -> Seq<char> {
    if receiver.len() == 0 {
        name
    } else {
        receiver + "."@ + name
    }
}

/// The placeholder signature of a type declared under `name`.
pub open spec fn type_signature(name: Seq<char>) -> Seq<char> {
    "type "@ + name + " ..."@
}

/// The kind of a declared type, read off the kind of the node that spells
/// the type out.
pub open spec fn go_type_kind(nodes: Seq<NodeView>, spec_node: int) -> EntityKind {
    match child_by_field(nodes, spec_node, "type"@) {
        Some(t) => if nodes[t as int].kind == "struct_type"@ {
            EntityKind::Struct
        } else if nodes[t as int].kind == "interface_type"@ {
            EntityKind::Interface
        } else {
            EntityKind::TypeAlias
        },
        None => EntityKind::TypeAlias,
    }
}

/// What the function declaration at `c` declares.
pub open spec fn go_function(
    source: Seq<char>,
    nodes: Seq<NodeView>,
    c: int,
    file: Seq<char>,
    package: Seq<char>,
) -> Seq<EntityView> {
    match child_by_field(nodes, c, "name"@) {
        Some(n) => seq![
            declared(
                source,
                nodes,
                c,
                c,
                node_text(source, nodes[n as int]),
                EntityKind::Function,
                file,
                package,
                first_line(node_text(source, nodes[c])),
            ),
        ],
        None => Seq::empty(),
    }
}

/// The receiver clause of the method declaration at `c`, as written; empty
/// where there is none.
pub open spec fn go_receiver(source: Seq<char>, nodes: Seq<NodeView>, c: int) -> Seq<char> {
    match child_by_field(nodes, c, "receiver"@) {
        Some(r) => node_text(source, nodes[r as int]),
        None => Seq::empty(),
    }
}

/// What the method declaration at `c` declares.
pub open spec fn go_method(
    source: Seq<char>,
    nodes: Seq<NodeView>,
    c: int,
    file: Seq<char>,
    package: Seq<char>,
) -> Seq<EntityView> {
    match child_by_field(nodes, c, "name"@) {
        Some(n) => seq![
            declared(
                source,
                nodes,
                c,
                c,
                method_display_name(
                    go_receiver(source, nodes, c),
                    node_text(source, nodes[n as int]),
                ),
                EntityKind::Method,
                file,
                package,
                first_line(node_text(source, nodes[c])),
            ),
        ],
        None => Seq::empty(),
    }
}

/// What the child `s` of the type declaration at `c` declares: a type
/// where `s` defines one or gives another name to one.
pub open spec fn go_type_spec(
    source: Seq<char>,
    nodes: Seq<NodeView>,
    c: int,
    s: int,
    file: Seq<char>,
    package: Seq<char>,
) -> Seq<EntityView> {
    if 0 <= s < nodes.len() && (nodes[s].kind == "type_spec"@ || nodes[s].kind == "type_alias"@) {
        match child_by_field(nodes, s, "name"@) {
            Some(n) => seq![
                declared(
                    source,
                    nodes,
                    c,
                    c,
                    node_text(source, nodes[n as int]),
                    go_type_kind(nodes, s),
                    file,
                    package,
                    type_signature(node_text(source, nodes[n as int])),
                ),
            ],
            None => Seq::empty(),
        }
    } else {
        Seq::empty()
    }
}

/// What the child `s` of the constant or variable declaration at `c`
/// declares: an entity of kind `kind` that spans `s` alone.
pub open spec fn go_value_spec(
    source: Seq<char>,
    nodes: Seq<NodeView>,
    c: int,
    s: int,
    kind: EntityKind,
    file: Seq<char>,
    package: Seq<char>,
) -> Seq<EntityView> {
    if 0 <= s < nodes.len() && (nodes[s].kind == "const_spec"@ || nodes[s].kind == "var_spec"@) {
        match child_by_field(nodes, s, "name"@) {
            Some(n) => seq![
                declared(
                    source,
                    nodes,
                    s,
                    c,
                    node_text(source, nodes[n as int]),
                    kind,
                    file,
                    package,
                    first_line(node_text(source, nodes[s])),
                ),
            ],
            None => Seq::empty(),
        }
    } else {
        Seq::empty()
    }
}

/// What the children `specs` of the type declaration at `c` declare.
pub open spec fn go_type_specs(
    source: Seq<char>,
    nodes: Seq<NodeView>,
    c: int,
    specs: Seq<usize>,
    file: Seq<char>,
    package: Seq<char>,
) -> Seq<EntityView>
    decreases specs.len(),
{
    if specs.len() == 0 {
        Seq::empty()
    } else {
        go_type_specs(source, nodes, c, specs.drop_last(), file, package) + go_type_spec(
            source,
            nodes,
            c,
            specs.last() as int,
            file,
            package,
        )
    }
}

/// What the children `specs` of the constant or variable declaration at `c`
/// declare.
pub open spec fn go_value_specs(
    source: Seq<char>,
    nodes: Seq<NodeView>,
    c: int,
    specs: Seq<usize>,
    kind: EntityKind,
    file: Seq<char>,
    package: Seq<char>,
) -> Seq<EntityView>
    decreases specs.len(),
{
    if specs.len() == 0 {
        Seq::empty()
    } else {
        go_value_specs(source, nodes, c, specs.drop_last(), kind, file, package) + go_value_spec(
            source,
            nodes,
            c,
            specs.last() as int,
            kind,
            file,
            package,
        )
    }
}

/// What the child `s` of the constant or variable declaration at `c`
/// declares: what its specs declare where `s` is a parenthesised list of
/// specs, else what `s` itself declares.
pub open spec fn go_value_child(
    source: Seq<char>,
    nodes: Seq<NodeView>,
    c: int,
    s: int,
    kind: EntityKind,
    file: Seq<char>,
    package: Seq<char>,
) -> Seq<EntityView> {
    if 0 <= s < nodes.len() && nodes[s].kind == "var_spec_list"@ {
        go_value_specs(source, nodes, c, child_indices(nodes, s), kind, file, package)
    } else {
        go_value_spec(source, nodes, c, s, kind, file, package)
    }
}

/// What the children `kids` of the constant or variable declaration at `c`
/// declare, in order.
pub open spec fn go_value_children(
    source: Seq<char>,
    nodes: Seq<NodeView>,
    c: int,
    kids: Seq<usize>,
    kind: EntityKind,
    file: Seq<char>,
    package: Seq<char>,
) -> Seq<EntityView>
    decreases kids.len(),
{
    if kids.len() == 0 {
        Seq::empty()
    } else {
        go_value_children(source, nodes, c, kids.drop_last(), kind, file, package)
            + go_value_child(source, nodes, c, kids.last() as int, kind, file, package)
    }
}

/// What the top-level node `c` of a Go file declares.
pub open spec fn go_declaration(
    source: Seq<char>,
    nodes: Seq<NodeView>,
    c: int,
    file: Seq<char>,
    package: Seq<char>,
) -> Seq<EntityView> {
    if !(0 <= c < nodes.len()) {
        Seq::empty()
    } else if nodes[c].kind == "function_declaration"@ {
        go_function(source, nodes, c, file, package)
    } else if nodes[c].kind == "method_declaration"@ {
        go_method(source, nodes, c, file, package)
    } else if nodes[c].kind == "type_declaration"@ {
        go_type_specs(source, nodes, c, child_indices(nodes, c), file, package)
    } else if nodes[c].kind == "const_declaration"@ {
        go_value_children(
            source,
            nodes,
            c,
            child_indices(nodes, c),
            EntityKind::Constant,
            file,
            package,
        )
    } else if nodes[c].kind == "var_declaration"@ {
        go_value_children(
            source,
            nodes,
            c,
            child_indices(nodes, c),
            EntityKind::Variable,
            file,
            package,
        )
    } else {
        Seq::empty()
    }
}

/// What the top-level nodes `kids` of a Go file declare, in order.
pub open spec fn go_declarations(
    source: Seq<char>,
    nodes: Seq<NodeView>,
    kids: Seq<usize>,
    file: Seq<char>,
    package: Seq<char>,
) -> Seq<EntityView>
    decreases kids.len(),
{
    if kids.len() == 0 {
        Seq::empty()
    } else {
        go_declarations(source, nodes, kids.drop_last(), file, package) + go_declaration(
            source,
            nodes,
            kids.last() as int,
            file,
            package,
        )
    }
}

/// The entities that a Go file declares at its top level: functions,
/// methods, types, constants and variables, in source order.
pub open spec fn go_entities(
    source: Seq<char>,
    nodes: Seq<NodeView>,
    file: Seq<char>,
    package: Seq<char>,
) -> Seq<EntityView> {
    go_declarations(source, nodes, child_indices(nodes, 0), file, package)
}

/// Appends what the function or method declaration at `c` declares.
fn extract_go_callable(
    source: &str,
    tree: &SyntaxTree,
    c: usize,
    is_method: bool,
    file: &str,
    package: &str,
    out: &mut Vec<Entity>,
)
    requires
        c < tree@.len(),
    ensures
        views(final(out)@) == views(old(out)@) + (if is_method {
            go_method(source@, tree@, c as int, file@, package@)
        } else {
            go_function(source@, tree@, c as int, file@, package@)
        }),
{
    match tree.child_by_field(c, "name") {
        Some(n) => {
            let name = tree.text_of(source, n);
            if is_method {
                let receiver = match tree.child_by_field(c, "receiver") {
                    Some(r) => tree.text_of(source, r),
                    None => String::new(),
                };
                let display = if receiver.as_str().unicode_len() == 0 {
                    name
                } else {
                    let mut d = receiver;
                    d.append(".");
                    d.append(name.as_str());
                    d
                };
                let entity = declare(
                    source,
                    tree,
                    c,
                    c,
                    display,
                    EntityKind::Method,
                    file,
                    package,
                    None,
                );
                keep(out, entity);
            } else {
                let entity = declare(
                    source,
                    tree,
                    c,
                    c,
                    name,
                    EntityKind::Function,
                    file,
                    package,
                    None,
                );
                keep(out, entity);
            }
            assert(views(old(out)@).push(out@.last()@) =~= views(old(out)@) + seq![out@.last()@]);
        },
        None => {
            assert(views(out@) + Seq::<EntityView>::empty() =~= views(out@));
        },
    }
}

/// The kind of the type that the type spec at `s` declares.
fn extract_go_type_kind(tree: &SyntaxTree, s: usize) -> (kind: EntityKind)
    ensures
        kind == go_type_kind(tree@, s as int),
{
    match tree.child_by_field(s, "type") {
        Some(t) => {
            if tree.kind_is(t, "struct_type") {
                EntityKind::Struct
            } else if tree.kind_is(t, "interface_type") {
                EntityKind::Interface
            } else {
                EntityKind::TypeAlias
            }
        },
        None => EntityKind::TypeAlias,
    }
}

/// Appends what the spec `s` of the constant or variable declaration at
/// `c` declares.
fn extract_go_value_spec(
    source: &str,
    tree: &SyntaxTree,
    c: usize,
    s: usize,
    kind: EntityKind,
    file: &str,
    package: &str,
    out: &mut Vec<Entity>,
)
    requires
        s < tree@.len(),
    ensures
        views(final(out)@) == views(old(out)@) + go_value_spec(
            source@,
            tree@,
            c as int,
            s as int,
            kind,
            file@,
            package@,
        ),
{
    let ghost sofar = views(out@);
    let ghost step = go_value_spec(source@, tree@, c as int, s as int, kind, file@, package@);
    if tree.kind_is(s, "const_spec") || tree.kind_is(s, "var_spec") {
        match tree.child_by_field(s, "name") {
            Some(n) => {
                let name = tree.text_of(source, n);
                let entity = declare(source, tree, s, c, name, kind, file, package, None);
                keep(out, entity);
            },
            None => {},
        }
    }
    assert(views(out@) =~= sofar + step);
}

/// Appends what the child `s` of the type declaration at `c` declares.
fn extract_go_type_spec(
    source: &str,
    tree: &SyntaxTree,
    c: usize,
    s: usize,
    file: &str,
    package: &str,
    out: &mut Vec<Entity>,
)
    requires
        c < tree@.len(),
        s < tree@.len(),
    ensures
        views(final(out)@) == views(old(out)@) + go_type_spec(
            source@,
            tree@,
            c as int,
            s as int,
            file@,
            package@,
        ),
{
    let ghost sofar = views(out@);
    let ghost step = go_type_spec(source@, tree@, c as int, s as int, file@, package@);
    if tree.kind_is(s, "type_spec") || tree.kind_is(s, "type_alias") {
        match tree.child_by_field(s, "name") {
            Some(n) => {
                let name = tree.text_of(source, n);
                let kind = extract_go_type_kind(tree, s);
                let mut signature = String::from_str("type ");
                signature.append(name.as_str());
                signature.append(" ...");
                let entity = declare(source, tree, c, c, name, kind, file, package, Some(signature));
                keep(out, entity);
            },
            None => {},
        }
    }
    assert(views(out@) =~= sofar + step);
}

/// Appends what the children of the node `list` declare as specs of the
/// declaration at `c`; `value_kind` is absent for a type declaration.
fn extract_go_specs(
    source: &str,
    tree: &SyntaxTree,
    c: usize,
    list: usize,
    value_kind: Option<EntityKind>,
    file: &str,
    package: &str,
    out: &mut Vec<Entity>,
)
    requires
        c < tree@.len(),
        list < tree@.len(),
    ensures
        views(final(out)@) == views(old(out)@) + (match value_kind {
            Some(kind) => go_value_specs(
                source@,
                tree@,
                c as int,
                child_indices(tree@, list as int),
                kind,
                file@,
                package@,
            ),
            None => go_type_specs(
                source@,
                tree@,
                c as int,
                child_indices(tree@, list as int),
                file@,
                package@,
            ),
        }),
{
    let specs = tree.children(list);
    proof {
        lemma_children_in_range(tree@, list as int);
    }
    let ghost before = views(out@);
    let mut k: usize = 0;
    assert(views(out@) + Seq::<EntityView>::empty() =~= views(out@));
    while k < specs.len()
        invariant
            k <= specs.len(),
            c < tree@.len(),
            forall|n: int| 0 <= n < specs.len() ==> (#[trigger] specs@[n]) < tree@.len(),
            views(out@) == before + (match value_kind {
                Some(kind) => go_value_specs(
                    source@,
                    tree@,
                    c as int,
                    specs@.take(k as int),
                    kind,
                    file@,
                    package@,
                ),
                None => go_type_specs(
                    source@,
                    tree@,
                    c as int,
                    specs@.take(k as int),
                    file@,
                    package@,
                ),
            }),
        decreases specs.len() - k,
    {
        let s = specs[k];
        let ghost sofar = views(out@);
        assert(specs@.take(k + 1).drop_last() =~= specs@.take(k as int));
        assert(specs@.take(k + 1).last() == s);
        match value_kind {
            Some(kind) => {
                extract_go_value_spec(source, tree, c, s, kind, file, package, out);
            },
            None => {
                extract_go_type_spec(source, tree, c, s, file, package, out);
            },
        }
        assert(views(out@) =~= before + (match value_kind {
            Some(kind) => go_value_specs(
                source@,
                tree@,
                c as int,
                specs@.take(k + 1),
                kind,
                file@,
                package@,
            ),
            None => go_type_specs(source@, tree@, c as int, specs@.take(k + 1), file@, package@),
        }));
        k += 1;
    }
    assert(specs@.take(k as int) =~= specs@);
}

/// Appends what the children of the constant or variable declaration at
/// `c` declare: single specs, and the specs of parenthesised lists.
fn extract_go_values(
    source: &str,
    tree: &SyntaxTree,
    c: usize,
    kind: EntityKind,
    file: &str,
    package: &str,
    out: &mut Vec<Entity>,
)
    requires
        c < tree@.len(),
    ensures
        views(final(out)@) == views(old(out)@) + go_value_children(
            source@,
            tree@,
            c as int,
            child_indices(tree@, c as int),
            kind,
            file@,
            package@,
        ),
{
    let kids = tree.children(c);
    proof {
        lemma_children_in_range(tree@, c as int);
    }
    let ghost before = views(out@);
    let mut k: usize = 0;
    assert(views(out@) + Seq::<EntityView>::empty() =~= views(out@));
    while k < kids.len()
        invariant
            k <= kids.len(),
            c < tree@.len(),
            forall|n: int| 0 <= n < kids.len() ==> (#[trigger] kids@[n]) < tree@.len(),
            views(out@) == before + go_value_children(
                source@,
                tree@,
                c as int,
                kids@.take(k as int),
                kind,
                file@,
                package@,
            ),
        decreases kids.len() - k,
    {
        let s = kids[k];
        assert(kids@.take(k + 1).drop_last() =~= kids@.take(k as int));
        assert(kids@.take(k + 1).last() == s);
        if tree.kind_is(s, "var_spec_list") {
            extract_go_specs(source, tree, c, s, Some(kind), file, package, out);
        } else {
            extract_go_value_spec(source, tree, c, s, kind, file, package, out);
        }
        assert(views(out@) =~= before + go_value_children(
            source@,
            tree@,
            c as int,
            kids@.take(k + 1),
            kind,
            file@,
            package@,
        ));
        k += 1;
    }
    assert(kids@.take(k as int) =~= kids@);
}

/// Appends what the top-level node `c` of a Go file declares.
fn extract_go_declaration(
    source: &str,
    tree: &SyntaxTree,
    c: usize,
    file: &str,
    package: &str,
    out: &mut Vec<Entity>,
)
    requires
        c < tree@.len(),
    ensures
        views(final(out)@) == views(old(out)@) + go_declaration(
            source@,
            tree@,
            c as int,
            file@,
            package@,
        ),
{
    if tree.kind_is(c, "function_declaration") {
        extract_go_callable(source, tree, c, false, file, package, out);
    } else if tree.kind_is(c, "method_declaration") {
        extract_go_callable(source, tree, c, true, file, package, out);
    } else if tree.kind_is(c, "type_declaration") {
        extract_go_specs(source, tree, c, c, None, file, package, out);
    } else if tree.kind_is(c, "const_declaration") {
        extract_go_values(source, tree, c, EntityKind::Constant, file, package, out);
    } else if tree.kind_is(c, "var_declaration") {
        extract_go_values(source, tree, c, EntityKind::Variable, file, package, out);
    } else {
        assert(views(out@) + Seq::<EntityView>::empty() =~= views(out@));
    }
}

/// The entities that a Go file declares at its top level, in source order.
pub fn extract_entities_go(source: &str, tree: &SyntaxTree, file_path: &str, package: &str) -> (out:
    Vec<Entity>)
    ensures
        views(out@) == go_entities(source@, tree@, file_path@, package@),
{
    let mut out: Vec<Entity> = Vec::new();
    let kids = tree.children(0);
    proof {
        lemma_children_in_range(tree@, 0);
    }
    let mut k: usize = 0;
    assert(views(out@) =~= Seq::<EntityView>::empty());
    while k < kids.len()
        invariant
            k <= kids.len(),
            kids@ == child_indices(tree@, 0),
            forall|n: int| 0 <= n < kids.len() ==> (#[trigger] kids@[n]) < tree@.len(),
            views(out@) == go_declarations(
                source@,
                tree@,
                kids@.take(k as int),
                file_path@,
                package@,
            ),
        decreases kids.len() - k,
    {
        assert(kids@.take(k + 1).drop_last() =~= kids@.take(k as int));
        assert(kids@.take(k + 1).last() == kids@[k as int]);
        extract_go_declaration(source, tree, kids[k], file_path, package, &mut out);
        k += 1;
    }
    assert(kids@.take(k as int) =~= kids@);
    out
}

/// The kind of entity that a node of kind `kind` declares in a file of
/// `language`, for the languages that are read by node kind alone.
pub open spec fn generic_kind(language: DetectedLanguage, kind: Seq<char>) -> Option<EntityKind> {
    match language {
        DetectedLanguage::Go => None,
        DetectedLanguage::Rust => if kind == "function_item"@ {
            Some(EntityKind::Function)
        } else if kind == "struct_item"@ {
            Some(EntityKind::Struct)
        } else if kind == "enum_item"@ {
            Some(EntityKind::Enum)
        } else if kind == "trait_item"@ {
            Some(EntityKind::Trait)
        } else if kind == "type_item"@ {
            Some(EntityKind::TypeAlias)
        } else if kind == "const_item"@ {
            Some(EntityKind::Constant)
        } else if kind == "static_item"@ {
            Some(EntityKind::Variable)
        } else if kind == "mod_item"@ {
            Some(EntityKind::Module)
        } else {
            None
        },
        DetectedLanguage::Python => if kind == "function_definition"@ {
            Some(EntityKind::Function)
        } else if kind == "class_definition"@ {
            Some(EntityKind::Class)
        } else {
            None
        },
        DetectedLanguage::JavaScript => if kind == "function_declaration"@ {
            Some(EntityKind::Function)
        } else if kind == "class_declaration"@ {
            Some(EntityKind::Class)
        } else if kind == "lexical_declaration"@ {
            Some(EntityKind::Variable)
        } else if kind == "variable_declaration"@ {
            Some(EntityKind::Variable)
        } else {
            None
        },
    }
}

/// The kind of entity that a node of kind `kind` declares in a file of
/// `language`.
pub fn kind_for_node(language: &DetectedLanguage, kind: &str) -> (out: Option<EntityKind>)
    ensures
        out == generic_kind(*language, kind@),
{
    match language {
        DetectedLanguage::Go => None,
        DetectedLanguage::Rust => {
            if str_eq(kind, "function_item") {
                Some(EntityKind::Function)
            } else if str_eq(kind, "struct_item") {
                Some(EntityKind::Struct)
            } else if str_eq(kind, "enum_item") {
                Some(EntityKind::Enum)
            } else if str_eq(kind, "trait_item") {
                Some(EntityKind::Trait)
            } else if str_eq(kind, "type_item") {
                Some(EntityKind::TypeAlias)
            } else if str_eq(kind, "const_item") {
                Some(EntityKind::Constant)
            } else if str_eq(kind, "static_item") {
                Some(EntityKind::Variable)
            } else if str_eq(kind, "mod_item") {
                Some(EntityKind::Module)
            } else {
                None
            }
        },
        DetectedLanguage::Python => {
            if str_eq(kind, "function_definition") {
                Some(EntityKind::Function)
            } else if str_eq(kind, "class_definition") {
                Some(EntityKind::Class)
            } else {
                None
            }
        },
        DetectedLanguage::JavaScript => {
            if str_eq(kind, "function_declaration") {
                Some(EntityKind::Function)
            } else if str_eq(kind, "class_declaration") {
                Some(EntityKind::Class)
            } else if str_eq(kind, "lexical_declaration") {
                Some(EntityKind::Variable)
            } else if str_eq(kind, "variable_declaration") {
                Some(EntityKind::Variable)
            } else {
                None
            }
        },
    }
}

/// What node `i` declares in a file read by node kind: an entity where the
/// kind of the node stands for one and the node has a name other than the
/// placeholder for a missing one.
pub open spec fn generic_entity(
    source: Seq<char>,
    nodes: Seq<NodeView>,
    i: int,
    file: Seq<char>,
    package: Seq<char>,
    language: DetectedLanguage,
) -> Seq<EntityView> {
    match generic_kind(language, nodes[i].kind) {
        Some(kind) => match child_by_field(nodes, i, "name"@) {
            Some(n) => if node_text(source, nodes[n as int]) == "<anonymous>"@ {
                Seq::empty()
            } else {
                seq![
                    declared(
                        source,
                        nodes,
                        i,
                        i,
                        node_text(source, nodes[n as int]),
                        kind,
                        file,
                        package,
                        first_line(node_text(source, nodes[i])),
                    ),
                ]
            },
            None => Seq::empty(),
        },
        None => Seq::empty(),
    }
}

/// What the first `n` nodes declare, in pre-order.
pub open spec fn generic_entities_upto(
    source: Seq<char>,
    nodes: Seq<NodeView>,
    n: int,
    file: Seq<char>,
    package: Seq<char>,
    language: DetectedLanguage,
) -> Seq<EntityView>
    decreases n,
{
    if n <= 0 {
        Seq::empty()
    } else {
        generic_entities_upto(source, nodes, n - 1, file, package, language) + generic_entity(
            source,
            nodes,
            n - 1,
            file,
            package,
            language,
        )
    }
}

/// The entities that a file declares anywhere in its tree, nested ones too,
/// in pre-order. Their package is the name of the directory that holds the
/// file.
pub open spec fn generic_entities(
    source: Seq<char>,
    nodes: Seq<NodeView>,
    file: Seq<char>,
    language: DetectedLanguage,
) -> Seq<EntityView> {
    generic_entities_upto(source, nodes, nodes.len() as int, file, parent_name(file), language)
}

/// The entities that a file declares anywhere in its tree, in pre-order.
pub fn extract_entities_generic(
    source: &str,
    tree: &SyntaxTree,
    file_path: &str,
    lang: &DetectedLanguage,
) -> (out: Vec<Entity>)
    ensures
        views(out@) == generic_entities(source@, tree@, file_path@, *lang),
{
    let package = parent_dir_name(file_path);
    let mut out: Vec<Entity> = Vec::new();
    let n = tree.len();
    let mut i: usize = 0;
    assert(views(out@) =~= Seq::<EntityView>::empty());
    while i < n
        invariant
            i <= n,
            n == tree@.len(),
            package@ == parent_name(file_path@),
            views(out@) == generic_entities_upto(
                source@,
                tree@,
                i as int,
                file_path@,
                package@,
                *lang,
            ),
        decreases n - i,
    {
        let ghost sofar = views(out@);
        let ghost step = generic_entity(source@, tree@, i as int, file_path@, package@, *lang);
        match kind_for_node(lang, tree.node(i).kind.as_str()) {
            Some(kind) => {
                match tree.child_by_field(i, "name") {
                    Some(name_node) => {
                        let name = tree.text_of(source, name_node);
                        if !str_eq(name.as_str(), "<anonymous>") {
                            let entity = declare(
                                source,
                                tree,
                                i,
                                i,
                                name,
                                kind,
                                file_path,
                                package.as_str(),
                                None,
                            );
                            keep(&mut out, entity);
                        }
                    },
                    None => {},
                }
            },
            None => {},
        }
        assert(views(out@) =~= sofar + step);
        i += 1;
    }
    out
}

/// The node that names the package: the first package identifier under a
/// package clause among `kids`.
pub open spec fn package_node(nodes: Seq<NodeView>, kids: Seq<usize>) -> Option<usize>
    decreases kids.len(),
{
    if kids.len() == 0 {
        None
    } else {
        let c = kids[0];
        let found = first_of_kind(nodes, child_indices(nodes, c as int), "package_identifier"@);
        if c < nodes.len() && nodes[c as int].kind == "package_clause"@ && found is Some {
            found
        } else {
            package_node(nodes, kids.drop_first())
        }
    }
}

/// The package that a Go file declares itself part of; `main` where it
/// names none or the name cannot be read.
pub open spec fn go_package(source: Seq<char>, nodes: Seq<NodeView>) -> Seq<char> {
    match package_node(nodes, child_indices(nodes, 0)) {
        Some(n) => match slice_text_checked(
            source,
            nodes[n as int].start_byte as int,
            nodes[n as int].end_byte as int,
        ) {
            Some(name) => name,
            None => "main"@,
        },
        None => "main"@,
    }
}

/// The package that a Go file declares itself part of.
pub fn get_go_package(source: &str, tree: &SyntaxTree) -> (out: String)
    ensures
        out@ == go_package(source@, tree@),
{
    let kids = tree.children(0);
    let mut k: usize = 0;
    assert(kids@.skip(0) =~= kids@);
    while k < kids.len()
        invariant
            k <= kids.len(),
            package_node(tree@, child_indices(tree@, 0)) == package_node(
                tree@,
                kids@.skip(k as int),
            ),
        decreases kids.len() - k,
    {
        let c = kids[k];
        assert(kids@.skip(k as int)[0] == c);
        assert(kids@.skip(k as int).drop_first() =~= kids@.skip(k + 1));
        let inner = tree.children(c);
        let found = tree.find_kind(&inner, "package_identifier");
        if c < tree.len() && tree.kind_is(c, "package_clause") {
            match found {
                Some(n) => {
                    let node = tree.node(n);
                    return match try_text_between(source, node.start_byte, node.end_byte) {
                        Some(name) => name,
                        None => String::from_str("main"),
                    };
                },
                None => {},
            }
        }
        k += 1;
    }
    String::from_str("main")
}

/// Whether each of `entities` lies in the file `file` and bears the id
/// made of its file, kind and name.
pub open spec fn ids_built(entities: Seq<EntityView>, file: Seq<char>) -> bool {
    forall|k: int|
        0 <= k < entities.len() ==> (#[trigger] entities[k]).file == file && entities[k].id
            == entity_id(file, entities[k].name, entities[k].kind)
}

/// What holds of the entities of two lists holds of the two joined.
pub proof fn lemma_ids_built_add(a: Seq<EntityView>, b: Seq<EntityView>, file: Seq<char>)
    requires
        ids_built(a, file),
        ids_built(b, file),
    ensures
        ids_built(a + b, file),
{
    assert forall|k: int| 0 <= k < (a + b).len() implies (#[trigger] (a + b)[k]).file == file && (a
        + b)[k].id == entity_id(file, (a + b)[k].name, (a + b)[k].kind) by {
        if k < a.len() {
            assert((a + b)[k] == a[k]);
        } else {
            assert((a + b)[k] == b[k - a.len()]);
        }
    }
}

/// The specs of a type declaration declare entities of the file, each with
/// the id made of its file, kind and name.
pub proof fn lemma_go_type_specs_ids(
    source: Seq<char>,
    nodes: Seq<NodeView>,
    c: int,
    specs: Seq<usize>,
    file: Seq<char>,
    package: Seq<char>,
)
    ensures
        ids_built(go_type_specs(source, nodes, c, specs, file, package), file),
    decreases specs.len(),
{
    if specs.len() > 0 {
        lemma_go_type_specs_ids(source, nodes, c, specs.drop_last(), file, package);
        lemma_ids_built_add(
            go_type_specs(source, nodes, c, specs.drop_last(), file, package),
            go_type_spec(source, nodes, c, specs.last() as int, file, package),
            file,
        );
    }
}

/// The specs of a constant or variable declaration declare entities of the
/// file, each with the id made of its file, kind and name.
pub proof fn lemma_go_value_specs_ids(
    source: Seq<char>,
    nodes: Seq<NodeView>,
    c: int,
    specs: Seq<usize>,
    kind: EntityKind,
    file: Seq<char>,
    package: Seq<char>,
)
    ensures
        ids_built(go_value_specs(source, nodes, c, specs, kind, file, package), file),
    decreases specs.len(),
{
    if specs.len() > 0 {
        lemma_go_value_specs_ids(source, nodes, c, specs.drop_last(), kind, file, package);
        lemma_ids_built_add(
            go_value_specs(source, nodes, c, specs.drop_last(), kind, file, package),
            go_value_spec(source, nodes, c, specs.last() as int, kind, file, package),
            file,
        );
    }
}

/// The children of a constant or variable declaration declare entities of
/// the file, each with the id made of its file, kind and name.
pub proof fn lemma_go_value_children_ids(
    source: Seq<char>,
    nodes: Seq<NodeView>,
    c: int,
    kids: Seq<usize>,
    kind: EntityKind,
    file: Seq<char>,
    package: Seq<char>,
)
    ensures
        ids_built(go_value_children(source, nodes, c, kids, kind, file, package), file),
    decreases kids.len(),
{
    if kids.len() > 0 {
        let s = kids.last() as int;
        lemma_go_value_children_ids(source, nodes, c, kids.drop_last(), kind, file, package);
        lemma_go_value_specs_ids(source, nodes, c, child_indices(nodes, s), kind, file, package);
        lemma_ids_built_add(
            go_value_children(source, nodes, c, kids.drop_last(), kind, file, package),
            go_value_child(source, nodes, c, s, kind, file, package),
            file,
        );
    }
}

/// The top-level nodes of a Go file declare entities of the file, each
/// with the id made of its file, kind and name.
pub proof fn lemma_go_declarations_ids(
    source: Seq<char>,
    nodes: Seq<NodeView>,
    kids: Seq<usize>,
    file: Seq<char>,
    package: Seq<char>,
)
    ensures
        ids_built(go_declarations(source, nodes, kids, file, package), file),
    decreases kids.len(),
{
    if kids.len() > 0 {
        let c = kids.last() as int;
        lemma_go_declarations_ids(source, nodes, kids.drop_last(), file, package);
        lemma_go_type_specs_ids(source, nodes, c, child_indices(nodes, c), file, package);
        lemma_go_value_children_ids(
            source,
            nodes,
            c,
            child_indices(nodes, c),
            EntityKind::Constant,
            file,
            package,
        );
        lemma_go_value_children_ids(
            source,
            nodes,
            c,
            child_indices(nodes, c),
            EntityKind::Variable,
            file,
            package,
        );
        lemma_ids_built_add(
            go_declarations(source, nodes, kids.drop_last(), file, package),
            go_declaration(source, nodes, c, file, package),
            file,
        );
    }
}

/// The nodes of a file read by node kind declare entities of the file,
/// each with the id made of its file, kind and name.
pub proof fn lemma_generic_entities_ids(
    source: Seq<char>,
    nodes: Seq<NodeView>,
    n: int,
    file: Seq<char>,
    package: Seq<char>,
    language: DetectedLanguage,
)
    ensures
        ids_built(generic_entities_upto(source, nodes, n, file, package, language), file),
    decreases n,
{
    if n > 0 {
        lemma_generic_entities_ids(source, nodes, n - 1, file, package, language);
        lemma_ids_built_add(
            generic_entities_upto(source, nodes, n - 1, file, package, language),
            generic_entity(source, nodes, n - 1, file, package, language),
            file,
        );
    }
}

} // verus!
