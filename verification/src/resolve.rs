//! References between entities, resolved by name and directory.
//!
//! A reference is an identifier, a member access or a call inside the span of
//! an entity. It is resolved without types: a qualifier that the file imports
//! stands for the imported directory, and anything else is looked for in the
//! directory of the file itself.

use crate::model::{lemma_views_push, views, Entity, EntityView, Relation, RelationKind, RelationView};
use crate::syntax::{
    child_by_field, child_indices, lemma_children_in_range, node_text, slice_text_checked,
    try_text_between, NodeView, SyntaxTree,
};
use crate::table::{lookup, NameEntryView, NameIndex, TextMap};
use crate::text::{after_last, before_last, last_pos, split_at_last, str_eq};
use vstd::prelude::*;

verus! {

broadcast use vstd::string::group_string_axioms;

/// What references are resolved against.
pub struct Scope {
    /// The text of the file.
    pub source: Seq<char>,
    /// The directory of the file.
    pub caller_dir: Seq<char>,
    /// The directories that the file imports, by the name it gives them.
    pub imports: Map<Seq<char>, Seq<char>>,
    /// The names and ids of all entities of the repository.
    pub names: Seq<NameEntryView>,
    /// The directory of each entity, by id.
    pub dirs: Map<Seq<char>, Seq<char>>,
}

/// The ids of the entities called `name` that lie in the directory `dir`, in
/// the order of the index.
pub open spec fn targets(
    names: Seq<NameEntryView>,
    dirs: Map<Seq<char>, Seq<char>>,
    name: Seq<char>,
    dir: Seq<char>,
) -> Seq<Seq<char>>
    decreases names.len(),
{
    if names.len() == 0 {
        Seq::empty()
    } else {
        let before = targets(names.drop_last(), dirs, name, dir);
        let entry = names.last();
        if entry.name == name && lookup(dirs, entry.id) == Some(dir) {
            before.push(entry.id)
        } else {
            before
        }
    }
}

/// The targets of `qualifier.name`: the entities called `name` in the
/// directory that `qualifier` is imported from; where the file imports
/// nothing under `qualifier`, those in the file's own directory.
pub open spec fn qualified_targets(scope: Scope, qualifier: Seq<char>, name: Seq<char>) -> Seq<
    Seq<char>,
> {
    if scope.imports.contains_key(qualifier) {
        targets(scope.names, scope.dirs, name, scope.imports[qualifier])
    } else {
        targets(scope.names, scope.dirs, name, scope.caller_dir)
    }
}

/// The targets of a call whose callee is written `callee`: split at its last
/// dot into qualifier and name if it has one, else looked for under its own
/// name in the file's directory.
pub open spec fn call_targets(scope: Scope, callee: Seq<char>) -> Seq<Seq<char>> {
    if last_pos(callee, '.') >= 0 {
        qualified_targets(scope, before_last(callee, '.'), after_last(callee, '.'))
    } else {
        targets(scope.names, scope.dirs, callee, scope.caller_dir)
    }
}

/// Whether `edges` holds an edge from `from` to `to`, of whatever kind.
pub open spec fn has_pair(edges: Seq<RelationView>, from: Seq<char>, to: Seq<char>) -> bool {
    exists|i: int| 0 <= i < edges.len() && (#[trigger] edges[i]).from_id == from && edges[i].to_id == to
}

/// `edges` with the edge from `from` to `to` added, unless it would be a
/// loop or the two are linked already.
pub open spec fn add_edge(
    edges: Seq<RelationView>,
    from: Seq<char>,
    to: Seq<char>,
    kind: RelationKind,
) -> Seq<RelationView> {
    if from == to || has_pair(edges, from, to) {
        edges
    } else {
        edges.push(RelationView { from_id: from, to_id: to, kind })
    }
}

/// `edges` with an edge from `from` to each of `to`, added one after the other.
pub open spec fn add_edges(
    edges: Seq<RelationView>,
    from: Seq<char>,
    to: Seq<Seq<char>>,
    kind: RelationKind,
) -> Seq<RelationView>
    decreases to.len(),
{
    if to.len() == 0 {
        edges
    } else {
        add_edge(add_edges(edges, from, to.drop_last(), kind), from, to.last(), kind)
    }
}

/// No edge is a loop, and no two edges link the same pair in the same
/// direction.
pub open spec fn edges_ok(edges: Seq<RelationView>) -> bool {
    &&& forall|i: int| 0 <= i < edges.len() ==> (#[trigger] edges[i]).from_id != edges[i].to_id
    &&& forall|i: int, j: int|
        0 <= i < j < edges.len() ==> !((#[trigger] edges[i]).from_id == (#[trigger] edges[j]).from_id
            && edges[i].to_id == edges[j].to_id)
}

/// Adding an edge keeps what is there, in place, and keeps the edges in order.
pub proof fn lemma_add_edge(
    edges: Seq<RelationView>,
    from: Seq<char>,
    to: Seq<char>,
    kind: RelationKind,
)
    ensures
        edges.is_prefix_of(add_edge(edges, from, to, kind)),
        edges_ok(edges) ==> edges_ok(add_edge(edges, from, to, kind)),
{
    let after = add_edge(edges, from, to, kind);
    if edges_ok(edges) && after != edges {
        assert forall|i: int, j: int| 0 <= i < j < after.len() implies !((#[trigger] after[i]).from_id
            == (#[trigger] after[j]).from_id && after[i].to_id == after[j].to_id) by {
            if j == edges.len() {
                assert(after[i] == edges[i]);
            } else {
                assert(after[i] == edges[i] && after[j] == edges[j]);
            }
        }
        assert forall|i: int| 0 <= i < after.len() implies (#[trigger] after[i]).from_id
            != after[i].to_id by {
            if i < edges.len() {
                assert(after[i] == edges[i]);
            }
        }
    }
}

/// An edge that is there stays there when edges are added after it.
pub proof fn lemma_has_pair_kept(
    edges: Seq<RelationView>,
    more: Seq<RelationView>,
    from: Seq<char>,
    to: Seq<char>,
)
    requires
        edges.is_prefix_of(more),
        has_pair(edges, from, to),
    ensures
        has_pair(more, from, to),
{
    let i = choose|i: int| 0 <= i < edges.len() && (#[trigger] edges[i]).from_id == from && edges[i].to_id == to;
    assert(more[i] == edges[i]);
}

/// Adding edges keeps what is there, in place, and keeps the edges in order.
/// Each edge that is new leads from `from` to one of `to` and is of kind
/// `kind`; and afterwards `from` is linked to each of `to` other than
/// itself.
pub proof fn lemma_add_edges(
    edges: Seq<RelationView>,
    from: Seq<char>,
    to: Seq<Seq<char>>,
    kind: RelationKind,
)
    ensures
        edges.is_prefix_of(add_edges(edges, from, to, kind)),
        edges_ok(edges) ==> edges_ok(add_edges(edges, from, to, kind)),
        forall|j: int|
            edges.len() <= j < add_edges(edges, from, to, kind).len() ==> {
                let edge = #[trigger] add_edges(edges, from, to, kind)[j];
                edge.from_id == from && edge.kind == kind && to.contains(edge.to_id)
            },
        forall|w: int|
            0 <= w < to.len() && (#[trigger] to[w]) != from ==> has_pair(
                add_edges(edges, from, to, kind),
                from,
                to[w],
            ),
    decreases to.len(),
{
    if to.len() > 0 {
        let before = add_edges(edges, from, to.drop_last(), kind);
        let after = add_edges(edges, from, to, kind);
        lemma_add_edges(edges, from, to.drop_last(), kind);
        lemma_add_edge(before, from, to.last(), kind);
        assert forall|j: int| edges.len() <= j < after.len() implies {
            let edge = #[trigger] after[j];
            edge.from_id == from && edge.kind == kind && to.contains(edge.to_id)
        } by {
            if j < before.len() {
                assert(after[j] == before[j]);
                let t = before[j].to_id;
                assert(to.drop_last().contains(t));
                let w = choose|w: int| 0 <= w < to.drop_last().len() && to.drop_last()[w] == t;
                assert(to[w] == t);
            } else {
                assert(to[to.len() - 1] == after[j].to_id);
            }
        }
        assert forall|w: int| 0 <= w < to.len() && (#[trigger] to[w]) != from implies has_pair(
            after,
            from,
            to[w],
        ) by {
            if w < to.len() - 1 {
                assert(to.drop_last()[w] == to[w]);
                lemma_has_pair_kept(before, after, from, to[w]);
            } else if has_pair(before, from, to[w]) {
                lemma_has_pair_kept(before, after, from, to[w]);
            } else {
                assert(after[after.len() - 1].from_id == from);
                assert(after[after.len() - 1].to_id == to[w]);
            }
        }
    }
}

/// What `targets` lists is exactly the ids of the entities called `name`
/// whose directory is `dir`.
pub proof fn lemma_targets(
    names: Seq<NameEntryView>,
    dirs: Map<Seq<char>, Seq<char>>,
    name: Seq<char>,
    dir: Seq<char>,
)
    ensures
        forall|k: int|
            0 <= k < targets(names, dirs, name, dir).len() ==> {
                let id = #[trigger] targets(names, dirs, name, dir)[k];
                &&& lookup(dirs, id) == Some(dir)
                &&& exists|e: int| 0 <= e < names.len() && (#[trigger] names[e]).name == name && names[e].id == id
            },
        forall|e: int|
            0 <= e < names.len() && (#[trigger] names[e]).name == name && lookup(dirs, names[e].id)
                == Some(dir) ==> targets(names, dirs, name, dir).contains(names[e].id),
    decreases names.len(),
{
    if names.len() > 0 {
        let rest = names.drop_last();
        let before = targets(rest, dirs, name, dir);
        let all = targets(names, dirs, name, dir);
        lemma_targets(rest, dirs, name, dir);
        assert forall|k: int| 0 <= k < all.len() implies {
            let id = #[trigger] all[k];
            &&& lookup(dirs, id) == Some(dir)
            &&& exists|e: int| 0 <= e < names.len() && (#[trigger] names[e]).name == name && names[e].id == id
        } by {
            if k < before.len() {
                assert(all[k] == before[k]);
                let e = choose|e: int| 0 <= e < rest.len() && (#[trigger] rest[e]).name == name && rest[e].id == before[k];
                assert(names[e] == rest[e]);
            } else {
                assert(names[names.len() - 1].id == all[k]);
            }
        }
        assert forall|e: int|
            0 <= e < names.len() && (#[trigger] names[e]).name == name && lookup(dirs, names[e].id)
                == Some(dir) implies all.contains(names[e].id) by {
            if e < rest.len() {
                assert(rest[e] == names[e]);
                assert(before.contains(rest[e].id));
                let k = choose|k: int| 0 <= k < before.len() && before[k] == rest[e].id;
                assert(all[k] == before[k]);
            } else {
                assert(all[all.len() - 1] == names[e].id);
            }
        }
    }
}

/// A call without a qualifier resolves in the caller's own directory only:
/// each target is an entity of that name whose directory is the caller's.
pub proof fn lemma_unqualified_call_stays_in_directory(scope: Scope, callee: Seq<char>)
    requires
        last_pos(callee, '.') < 0,
    ensures
        call_targets(scope, callee) == targets(scope.names, scope.dirs, callee, scope.caller_dir),
        forall|k: int|
            0 <= k < call_targets(scope, callee).len() ==> lookup(
                scope.dirs,
                #[trigger] call_targets(scope, callee)[k],
            ) == Some(scope.caller_dir),
{
    lemma_targets(scope.names, scope.dirs, callee, scope.caller_dir);
}

/// An imported qualifier takes precedence: a call `qualifier.name` resolves
/// to the entities called `name` in the directory that `qualifier` is
/// imported from, all of them and no others. Same-named entities of the
/// caller's own directory are no targets, unless that is the imported
/// directory.
pub proof fn lemma_import_precedence(scope: Scope, qualifier: Seq<char>, name: Seq<char>)
    requires
        scope.imports.contains_key(qualifier),
        !name.contains('.'),
    ensures
        call_targets(scope, qualifier + seq!['.'] + name) == targets(
            scope.names,
            scope.dirs,
            name,
            scope.imports[qualifier],
        ),
        forall|k: int|
            0 <= k < call_targets(scope, qualifier + seq!['.'] + name).len() ==> lookup(
                scope.dirs,
                #[trigger] call_targets(scope, qualifier + seq!['.'] + name)[k],
            ) == Some(scope.imports[qualifier]),
        forall|e: int|
            0 <= e < scope.names.len() && (#[trigger] scope.names[e]).name == name && lookup(
                scope.dirs,
                scope.names[e].id,
            ) == Some(scope.imports[qualifier]) ==> call_targets(
                scope,
                qualifier + seq!['.'] + name,
            ).contains(scope.names[e].id),
        forall|k: int|
            0 <= k < call_targets(scope, qualifier + seq!['.'] + name).len()
                && scope.imports[qualifier] != scope.caller_dir ==> lookup(
                scope.dirs,
                #[trigger] call_targets(scope, qualifier + seq!['.'] + name)[k],
            ) != Some(scope.caller_dir),
{
    crate::text::lemma_last_pos_joined(qualifier, '.', name);
    lemma_targets(scope.names, scope.dirs, name, scope.imports[qualifier]);
}

/// A call through an import links the caller to the imported directory
/// and to nothing else: where the callee of the call at node `i` is
/// written `qualifier.name` and the file imports a directory under
/// `qualifier`, each edge that the call adds is a `Calls` edge from the
/// caller to an entity of that directory, and the caller is then linked to
/// every entity called `name` in that directory other than itself. No edge
/// that it adds leads into the caller's own directory, unless that is the
/// imported one.
pub proof fn lemma_call_through_import(
    scope: Scope,
    from: Seq<char>,
    nodes: Seq<NodeView>,
    i: int,
    edges: Seq<RelationView>,
    qualifier: Seq<char>,
    name: Seq<char>,
)
    requires
        child_by_field(nodes, i, "function"@) matches Some(f) && node_text(
            scope.source,
            nodes[f as int],
        ) == qualifier + seq!['.'] + name,
        !name.contains('.'),
        scope.imports.contains_key(qualifier),
    ensures
        edges.is_prefix_of(call_edges(scope, from, nodes, i, edges)),
        forall|j: int|
            edges.len() <= j < call_edges(scope, from, nodes, i, edges).len() ==> {
                let edge = #[trigger] call_edges(scope, from, nodes, i, edges)[j];
                &&& edge.from_id == from
                &&& edge.kind == RelationKind::Calls
                &&& lookup(scope.dirs, edge.to_id) == Some(scope.imports[qualifier])
                &&& scope.imports[qualifier] != scope.caller_dir ==> lookup(scope.dirs, edge.to_id)
                    != Some(scope.caller_dir)
            },
        forall|e: int|
            0 <= e < scope.names.len() && (#[trigger] scope.names[e]).name == name && lookup(
                scope.dirs,
                scope.names[e].id,
            ) == Some(scope.imports[qualifier]) && scope.names[e].id != from ==> has_pair(
                call_edges(scope, from, nodes, i, edges),
                from,
                scope.names[e].id,
            ),
{
    let callee = qualifier + seq!['.'] + name;
    let found = call_targets(scope, callee);
    let after = call_edges(scope, from, nodes, i, edges);
    lemma_import_precedence(scope, qualifier, name);
    lemma_add_edges(edges, from, found, RelationKind::Calls);
    assert forall|j: int| edges.len() <= j < after.len() implies {
        let edge = #[trigger] after[j];
        &&& edge.from_id == from
        &&& edge.kind == RelationKind::Calls
        &&& lookup(scope.dirs, edge.to_id) == Some(scope.imports[qualifier])
        &&& scope.imports[qualifier] != scope.caller_dir ==> lookup(scope.dirs, edge.to_id) != Some(
            scope.caller_dir,
        )
    } by {
        let t = after[j].to_id;
        assert(found.contains(t));
        let w = choose|w: int| 0 <= w < found.len() && found[w] == t;
        assert(lookup(scope.dirs, found[w]) == Some(scope.imports[qualifier]));
    }
    assert forall|e: int|
        0 <= e < scope.names.len() && (#[trigger] scope.names[e]).name == name && lookup(
            scope.dirs,
            scope.names[e].id,
        ) == Some(scope.imports[qualifier]) && scope.names[e].id != from implies has_pair(
        after,
        from,
        scope.names[e].id,
    ) by {
        assert(found.contains(scope.names[e].id));
        let w = choose|w: int| 0 <= w < found.len() && found[w] == scope.names[e].id;
        assert(found[w] != from);
    }
}

/// Whether a node of this kind is a call.
pub open spec fn is_call_kind(kind: Seq<char>) -> bool {
    kind == "call_expression"@ || kind == "call"@
}

/// Whether a node of this kind is a qualified access outside a call.
pub open spec fn is_member_kind(kind: Seq<char>) -> bool {
    kind == "selector_expression"@ || kind == "qualified_type"@
}

/// Whether a node of this kind is a bare identifier.
pub open spec fn is_identifier_kind(kind: Seq<char>) -> bool {
    kind == "type_identifier"@ || kind == "identifier"@
}

/// The edges that the call at node `i` adds for its callee.
pub open spec fn call_edges(
    scope: Scope,
    from: Seq<char>,
    nodes: Seq<NodeView>,
    i: int,
    edges: Seq<RelationView>,
) -> Seq<RelationView> {
    match child_by_field(nodes, i, "function"@) {
        Some(f) => add_edges(
            edges,
            from,
            call_targets(scope, node_text(scope.source, nodes[f as int])),
            RelationKind::Calls,
        ),
        None => edges,
    }
}

/// The qualifier of the member access at node `i`: the text of its first
/// child, where it has one whose text can be read.
pub open spec fn member_qualifier(source: Seq<char>, nodes: Seq<NodeView>, i: int) -> Option<
    Seq<char>,
> {
    let kids = child_indices(nodes, i);
    if kids.len() > 0 && kids[0] < nodes.len() {
        slice_text_checked(
            source,
            nodes[kids[0] as int].start_byte as int,
            nodes[kids[0] as int].end_byte as int,
        )
    } else {
        None
    }
}

/// The member that the access at node `i` names: the text of its `field`
/// child, where it has one whose text can be read.
pub open spec fn member_name(source: Seq<char>, nodes: Seq<NodeView>, i: int) -> Option<Seq<char>> {
    match child_by_field(nodes, i, "field"@) {
        Some(f) => if f < nodes.len() {
            slice_text_checked(
                source,
                nodes[f as int].start_byte as int,
                nodes[f as int].end_byte as int,
            )
        } else {
            None
        },
        None => None,
    }
}

/// The edges that the member access at node `i` adds.
pub open spec fn member_edges(
    scope: Scope,
    from: Seq<char>,
    nodes: Seq<NodeView>,
    i: int,
    edges: Seq<RelationView>,
) -> Seq<RelationView> {
    match (member_qualifier(scope.source, nodes, i), member_name(scope.source, nodes, i)) {
        (Some(qualifier), Some(name)) => add_edges(
            edges,
            from,
            qualified_targets(scope, qualifier, name),
            RelationKind::References,
        ),
        _ => edges,
    }
}

/// The edges that the identifier at node `i` adds.
pub open spec fn identifier_edges(
    scope: Scope,
    from: Seq<char>,
    nodes: Seq<NodeView>,
    i: int,
    edges: Seq<RelationView>,
) -> Seq<RelationView> {
    add_edges(
        edges,
        from,
        targets(scope.names, scope.dirs, node_text(scope.source, nodes[i]), scope.caller_dir),
        RelationKind::References,
    )
}

/// Whether the child `c` of a call is passed over: the callee itself, and
/// any member access that stands directly under the call.
pub open spec fn passed_over(nodes: Seq<NodeView>, callee: Option<usize>, c: usize) -> bool {
    callee == Some(c) || nodes[c as int].kind == "selector_expression"@
}

/// The edges after the subtree of node `i` has been gone through, starting
/// from `edges`.
///
/// A call adds `Calls` edges for its callee and goes on into its other
/// children. A member access outside a call adds `References` edges and is
/// not gone into. An identifier adds `References` edges; every other node
/// adds nothing of its own, and both are gone into.
pub open spec fn walk_node(
    scope: Scope,
    from: Seq<char>,
    nodes: Seq<NodeView>,
    i: int,
    edges: Seq<RelationView>,
) -> Seq<RelationView>
    decreases nodes.len() - i, 1int, 0int,
{
    if !(0 <= i < nodes.len()) {
        edges
    } else if is_call_kind(nodes[i].kind) {
        walk_children(
            scope,
            from,
            nodes,
            i,
            child_indices(nodes, i),
            true,
            call_edges(scope, from, nodes, i, edges),
        )
    } else if is_member_kind(nodes[i].kind) {
        member_edges(scope, from, nodes, i, edges)
    } else {
        let own = if is_identifier_kind(nodes[i].kind) {
            identifier_edges(scope, from, nodes, i, edges)
        } else {
            edges
        };
        walk_children(scope, from, nodes, i, child_indices(nodes, i), false, own)
    }
}

/// The edges after the children `kids` of node `parent` have been gone
/// through in order, starting from `edges`. Under a call (`in_call`) the
/// children that are passed over are left out.
pub open spec fn walk_children(
    scope: Scope,
    from: Seq<char>,
    nodes: Seq<NodeView>,
    parent: int,
    kids: Seq<usize>,
    in_call: bool,
    edges: Seq<RelationView>,
) -> Seq<RelationView>
    decreases nodes.len() - parent, 0int, kids.len(),
{
    if kids.len() == 0 {
        edges
    } else {
        let before = walk_children(scope, from, nodes, parent, kids.drop_last(), in_call, edges);
        let c = kids.last();
        if parent < c < nodes.len() && !(in_call && passed_over(
            nodes,
            child_by_field(nodes, parent, "function"@),
            c,
        )) {
            walk_node(scope, from, nodes, c as int, before)
        } else {
            before
        }
    }
}

/// The first node at or after `start` that spans the lines `line` to
/// `end_line`, both counted from 1.
pub open spec fn node_spanning(nodes: Seq<NodeView>, line: nat, end_line: nat, start: int) -> Option<
    usize,
>
    decreases nodes.len() - start,
{
    if start < 0 || start >= nodes.len() {
        None
    } else if nodes[start].start_row + 1 == line && nodes[start].end_row + 1 == end_line {
        Some(start as usize)
    } else {
        node_spanning(nodes, line, end_line, start + 1)
    }
}

/// The edges after the references of `entity` have been added to `edges`:
/// those found in the first node, in pre-order, that spans the entity's
/// lines. An entity for which there is no such node adds nothing.
pub open spec fn entity_edges(
    scope: Scope,
    nodes: Seq<NodeView>,
    entity: EntityView,
    edges: Seq<RelationView>,
) -> Seq<RelationView> {
    match node_spanning(nodes, entity.line, entity.end_line, 0) {
        Some(i) => walk_node(scope, entity.id, nodes, i as int, edges),
        None => edges,
    }
}

/// The edges after the references of each of `entities` have been added to
/// `edges`, one entity after the other.
pub open spec fn entities_edges(
    scope: Scope,
    nodes: Seq<NodeView>,
    entities: Seq<EntityView>,
    edges: Seq<RelationView>,
) -> Seq<RelationView>
    decreases entities.len(),
{
    if entities.len() == 0 {
        edges
    } else {
        entity_edges(
            scope,
            nodes,
            entities.last(),
            entities_edges(scope, nodes, entities.drop_last(), edges),
        )
    }
}

/// The references of the entities of one file: the edges that come of going
/// through the entities in order, starting from none.
pub open spec fn file_references(
    scope: Scope,
    nodes: Seq<NodeView>,
    entities: Seq<EntityView>,
) -> Seq<RelationView> {
    entities_edges(scope, nodes, entities, Seq::empty())
}

/// Whether `relations` holds an edge from `from_id` to `to_id`. The edges
/// are searched in order: a set of pairs of texts is beyond what vstd
/// specifies of hash sets.
fn linked(relations: &Vec<Relation>, from_id: &str, to_id: &str) -> (yes: bool)
    ensures
        yes == has_pair(views(relations@), from_id@, to_id@),
{
    let mut i: usize = 0;
    while i < relations.len()
        invariant
            i <= relations.len(),
            forall|k: int|
                0 <= k < i ==> !((#[trigger] views(relations@)[k]).from_id == from_id@ && views(
                    relations@,
                )[k].to_id == to_id@),
        decreases relations.len() - i,
    {
        if str_eq(relations[i].from_id.as_str(), from_id) && str_eq(
            relations[i].to_id.as_str(),
            to_id,
        ) {
            assert(views(relations@)[i as int].from_id == from_id@);
            return true;
        }
        i += 1;
    }
    false
}

/// Adds the edge from `from_id` to `to_id`, unless it would be a loop or
/// the two are linked already; says whether it was added.
pub fn try_add(from_id: &str, to_id: &str, kind: RelationKind, relations: &mut Vec<Relation>) -> (added:
    bool)
    ensures
        views(final(relations)@) == add_edge(views(old(relations)@), from_id@, to_id@, kind),
        added == (from_id@ != to_id@ && !has_pair(views(old(relations)@), from_id@, to_id@)),
{
    if str_eq(from_id, to_id) {
        return false;
    }
    if linked(relations, from_id, to_id) {
        return false;
    }
    let relation = Relation {
        from_id: from_id.to_owned(),
        to_id: to_id.to_owned(),
        kind,
    };
    proof {
        lemma_views_push(relations@, relation);
    }
    relations.push(relation);
    true
}

/// Adds an edge from `from_id` to each entity called `name` that lies in
/// the directory `expected_dir`.
pub fn match_targets(
    name: &str,
    expected_dir: &str,
    from_id: &str,
    kind: RelationKind,
    names: &NameIndex,
    dirs: &TextMap,
    relations: &mut Vec<Relation>,
)
    ensures
        views(final(relations)@) == add_edges(
            views(old(relations)@),
            from_id@,
            targets(names@, dirs@, name@, expected_dir@),
            kind,
        ),
{
    let n = names.len();
    let mut i: usize = 0;
    assert(names@.take(0) =~= Seq::<NameEntryView>::empty());
    while i < n
        invariant
            i <= n,
            n == names@.len(),
            views(relations@) == add_edges(
                views(old(relations)@),
                from_id@,
                targets(names@.take(i as int), dirs@, name@, expected_dir@),
                kind,
            ),
        decreases n - i,
    {
        let entry = names.entry(i);
        assert(names@.take(i + 1).drop_last() =~= names@.take(i as int));
        assert(names@.take(i + 1).last() == names@[i as int]);
        let ghost before = targets(names@.take(i as int), dirs@, name@, expected_dir@);
        if str_eq(entry.name.as_str(), name) {
            let hit = match dirs.get(entry.id.as_str()) {
                Some(dir) => str_eq(dir.as_str(), expected_dir),
                None => false,
            };
            if hit {
                assert(before.push(entry.id@).drop_last() =~= before);
                try_add(from_id, entry.id.as_str(), kind, relations);
            }
        }
        i += 1;
    }
    assert(names@.take(i as int) =~= names@);
}

/// Adds the edges for `qualifier.name`.
fn add_qualified(
    qualifier: &str,
    name: &str,
    kind: RelationKind,
    from_id: &str,
    source: Ghost<Seq<char>>,
    caller_pkg_dir: &str,
    file_import_dirs: &TextMap,
    names: &NameIndex,
    dirs: &TextMap,
    relations: &mut Vec<Relation>,
)
    ensures
        views(final(relations)@) == add_edges(
            views(old(relations)@),
            from_id@,
            qualified_targets(
                Scope {
                    source: source@,
                    caller_dir: caller_pkg_dir@,
                    imports: file_import_dirs@,
                    names: names@,
                    dirs: dirs@,
                },
                qualifier@,
                name@,
            ),
            kind,
        ),
{
    match file_import_dirs.get(qualifier) {
        Some(dir) => {
            match_targets(name, dir.as_str(), from_id, kind, names, dirs, relations);
        },
        None => {
            match_targets(name, caller_pkg_dir, from_id, kind, names, dirs, relations);
        },
    }
}

/// Goes through the subtree of `node` and adds an edge from `from_id` for
/// each reference that resolves.
pub fn find_references(
    source: &str,
    tree: &SyntaxTree,
    node: usize,
    from_id: &str,
    caller_pkg_dir: &str,
    file_import_dirs: &TextMap,
    names: &NameIndex,
    dirs: &TextMap,
    relations: &mut Vec<Relation>,
)
    requires
        node < tree@.len(),
    ensures
        views(final(relations)@) == walk_node(
            Scope {
                source: source@,
                caller_dir: caller_pkg_dir@,
                imports: file_import_dirs@,
                names: names@,
                dirs: dirs@,
            },
            from_id@,
            tree@,
            node as int,
            views(old(relations)@),
        ),
    decreases tree@.len() - node, 1int,
{
    let ghost scope = Scope {
        source: source@,
        caller_dir: caller_pkg_dir@,
        imports: file_import_dirs@,
        names: names@,
        dirs: dirs@,
    };
    if tree.kind_is(node, "call_expression") || tree.kind_is(node, "call") {
        match tree.child_by_field(node, "function") {
            Some(f) => {
                let callee = tree.text_of(source, f);
                match split_at_last(callee.as_str(), '.') {
                    Some((qualifier, name)) => {
                        add_qualified(
                            qualifier.as_str(),
                            name.as_str(),
                            RelationKind::Calls,
                            from_id,
                            Ghost(source@),
                            caller_pkg_dir,
                            file_import_dirs,
                            names,
                            dirs,
                            relations,
                        );
                    },
                    None => {
                        match_targets(
                            callee.as_str(),
                            caller_pkg_dir,
                            from_id,
                            RelationKind::Calls,
                            names,
                            dirs,
                            relations,
                        );
                    },
                }
            },
            None => {},
        }
        assert(views(relations@) == call_edges(
            scope,
            from_id@,
            tree@,
            node as int,
            views(old(relations)@),
        ));
        find_in_children(
            source,
            tree,
            node,
            true,
            from_id,
            caller_pkg_dir,
            file_import_dirs,
            names,
            dirs,
            relations,
        );
    } else if tree.kind_is(node, "selector_expression") || tree.kind_is(node, "qualified_type") {
        let kids = tree.children(node);
        proof {
            lemma_children_in_range(tree@, node as int);
        }
        let qualifier = if kids.len() > 0 {
            let first = tree.node(kids[0]);
            try_text_between(source, first.start_byte, first.end_byte)
        } else {
            None
        };
        let name = match tree.child_by_field(node, "field") {
            Some(f) => {
                let field = tree.node(f);
                try_text_between(source, field.start_byte, field.end_byte)
            },
            None => None,
        };
        match (qualifier, name) {
            (Some(q), Some(n)) => {
                add_qualified(
                    q.as_str(),
                    n.as_str(),
                    RelationKind::References,
                    from_id,
                    Ghost(source@),
                    caller_pkg_dir,
                    file_import_dirs,
                    names,
                    dirs,
                    relations,
                );
            },
            _ => {},
        }
    } else {
        if tree.kind_is(node, "type_identifier") || tree.kind_is(node, "identifier") {
            let name = tree.text_of(source, node);
            match_targets(
                name.as_str(),
                caller_pkg_dir,
                from_id,
                RelationKind::References,
                names,
                dirs,
                relations,
            );
        }
        find_in_children(
            source,
            tree,
            node,
            false,
            from_id,
            caller_pkg_dir,
            file_import_dirs,
            names,
            dirs,
            relations,
        );
    }
}

/// Goes through the children of `parent` in order; under a call, those that
/// are passed over are left out.
fn find_in_children(
    source: &str,
    tree: &SyntaxTree,
    parent: usize,
    in_call: bool,
    from_id: &str,
    caller_pkg_dir: &str,
    file_import_dirs: &TextMap,
    names: &NameIndex,
    dirs: &TextMap,
    relations: &mut Vec<Relation>,
)
    requires
        parent < tree@.len(),
    ensures
        views(final(relations)@) == walk_children(
            Scope {
                source: source@,
                caller_dir: caller_pkg_dir@,
                imports: file_import_dirs@,
                names: names@,
                dirs: dirs@,
            },
            from_id@,
            tree@,
            parent as int,
            child_indices(tree@, parent as int),
            in_call,
            views(old(relations)@),
        ),
    decreases tree@.len() - parent, 0int,
{
    let ghost scope = Scope {
        source: source@,
        caller_dir: caller_pkg_dir@,
        imports: file_import_dirs@,
        names: names@,
        dirs: dirs@,
    };
    let kids = tree.children(parent);
    let callee = if in_call {
        tree.child_by_field(parent, "function")
    } else {
        None
    };
    proof {
        lemma_children_in_range(tree@, parent as int);
    }
    let mut k: usize = 0;
    assert(kids@.take(0) =~= Seq::<usize>::empty());
    while k < kids.len()
        invariant
            k <= kids.len(),
            parent < tree@.len(),
            kids@ == child_indices(tree@, parent as int),
            in_call ==> callee == child_by_field(tree@, parent as int, "function"@),
            forall|n: int| 0 <= n < kids.len() ==> parent < (#[trigger] kids@[n]) < tree@.len(),
            scope == (Scope {
                source: source@,
                caller_dir: caller_pkg_dir@,
                imports: file_import_dirs@,
                names: names@,
                dirs: dirs@,
            }),
            views(relations@) == walk_children(
                scope,
                from_id@,
                tree@,
                parent as int,
                kids@.take(k as int),
                in_call,
                views(old(relations)@),
            ),
        decreases kids.len() - k,
    {
        let c = kids[k];
        assert(kids@.take(k + 1).drop_last() =~= kids@.take(k as int));
        assert(kids@.take(k + 1).last() == c);
        let skip = in_call && (callee == Some(c) || tree.kind_is(c, "selector_expression"));
        if !skip {
            find_references(
                source,
                tree,
                c,
                from_id,
                caller_pkg_dir,
                file_import_dirs,
                names,
                dirs,
                relations,
            );
        }
        k += 1;
    }
    assert(kids@.take(k as int) =~= kids@);
}

/// The first node of `tree`, in pre-order, that spans the lines `line` to
/// `end_line`.
pub fn find_node_at(tree: &SyntaxTree, line: usize, end_line: usize) -> (found: Option<usize>)
    ensures
        found == node_spanning(tree@, line as nat, end_line as nat, 0),
        found matches Some(i) ==> i < tree@.len(),
{
    let n = tree.len();
    let mut i: usize = 0;
    while i < n
        invariant
            i <= n,
            n == tree@.len(),
            node_spanning(tree@, line as nat, end_line as nat, 0) == node_spanning(
                tree@,
                line as nat,
                end_line as nat,
                i as int,
            ),
        decreases n - i,
    {
        if tree.start_line(i) == line && tree.end_line(i) == end_line {
            return Some(i);
        }
        i += 1;
    }
    None
}

/// Going through a subtree keeps the edges that were there, in place, and
/// keeps them free of loops and doubles.
pub proof fn lemma_walk_node(
    scope: Scope,
    from: Seq<char>,
    nodes: Seq<NodeView>,
    i: int,
    edges: Seq<RelationView>,
)
    ensures
        edges.is_prefix_of(walk_node(scope, from, nodes, i, edges)),
        edges_ok(edges) ==> edges_ok(walk_node(scope, from, nodes, i, edges)),
        forall|j: int|
            edges.len() <= j < walk_node(scope, from, nodes, i, edges).len() ==> (#[trigger] walk_node(
                scope,
                from,
                nodes,
                i,
                edges,
            )[j]).from_id == from,
    decreases nodes.len() - i, 1int, 0int,
{
    let after = walk_node(scope, from, nodes, i, edges);
    if !(0 <= i < nodes.len()) {
    } else if is_call_kind(nodes[i].kind) {
        let own = call_edges(scope, from, nodes, i, edges);
        match child_by_field(nodes, i, "function"@) {
            Some(f) => {
                lemma_add_edges(
                    edges,
                    from,
                    call_targets(scope, node_text(scope.source, nodes[f as int])),
                    RelationKind::Calls,
                );
            },
            None => {},
        }
        lemma_walk_children(scope, from, nodes, i, child_indices(nodes, i), true, own);
        assert forall|j: int| edges.len() <= j < after.len() implies (#[trigger] after[j]).from_id
            == from by {
            if j < own.len() {
                assert(after[j] == own[j]);
            }
        }
    } else if is_member_kind(nodes[i].kind) {
        match (member_qualifier(scope.source, nodes, i), member_name(scope.source, nodes, i)) {
            (Some(qualifier), Some(name)) => {
                lemma_add_edges(
                    edges,
                    from,
                    qualified_targets(scope, qualifier, name),
                    RelationKind::References,
                );
            },
            _ => {},
        }
    } else {
        let own = if is_identifier_kind(nodes[i].kind) {
            identifier_edges(scope, from, nodes, i, edges)
        } else {
            edges
        };
        lemma_add_edges(
            edges,
            from,
            targets(scope.names, scope.dirs, node_text(scope.source, nodes[i]), scope.caller_dir),
            RelationKind::References,
        );
        lemma_walk_children(scope, from, nodes, i, child_indices(nodes, i), false, own);
        assert forall|j: int| edges.len() <= j < after.len() implies (#[trigger] after[j]).from_id
            == from by {
            if j < own.len() {
                assert(after[j] == own[j]);
            }
        }
    }
}

/// Going through children keeps the edges that were there, in place, and
/// keeps them free of loops and doubles.
pub proof fn lemma_walk_children(
    scope: Scope,
    from: Seq<char>,
    nodes: Seq<NodeView>,
    parent: int,
    kids: Seq<usize>,
    in_call: bool,
    edges: Seq<RelationView>,
)
    ensures
        edges.is_prefix_of(walk_children(scope, from, nodes, parent, kids, in_call, edges)),
        edges_ok(edges) ==> edges_ok(
            walk_children(scope, from, nodes, parent, kids, in_call, edges),
        ),
        forall|j: int|
            edges.len() <= j < walk_children(
                scope,
                from,
                nodes,
                parent,
                kids,
                in_call,
                edges,
            ).len() ==> (#[trigger] walk_children(
                scope,
                from,
                nodes,
                parent,
                kids,
                in_call,
                edges,
            )[j]).from_id == from,
    decreases nodes.len() - parent, 0int, kids.len(),
{
    if kids.len() > 0 {
        let before = walk_children(scope, from, nodes, parent, kids.drop_last(), in_call, edges);
        let after = walk_children(scope, from, nodes, parent, kids, in_call, edges);
        lemma_walk_children(scope, from, nodes, parent, kids.drop_last(), in_call, edges);
        let c = kids.last();
        if parent < c < nodes.len() {
            lemma_walk_node(scope, from, nodes, c as int, before);
        }
        assert forall|j: int| edges.len() <= j < after.len() implies (#[trigger] after[j]).from_id
            == from by {
            if j < before.len() {
                assert(after[j] == before[j]);
            }
        }
    }
}

/// Whether `edge` leads from one of `entities`.
pub open spec fn leads_from_one_of(edge: RelationView, entities: Seq<EntityView>) -> bool {
    exists|e: int| 0 <= e < entities.len() && (#[trigger] entities[e]).id == edge.from_id
}

/// Adding the references of entities keeps the edges that were there, in
/// place, and keeps them free of loops and doubles. Each edge that is new
/// leads from one of the entities.
pub proof fn lemma_entities_edges(
    scope: Scope,
    nodes: Seq<NodeView>,
    entities: Seq<EntityView>,
    edges: Seq<RelationView>,
)
    ensures
        edges.is_prefix_of(entities_edges(scope, nodes, entities, edges)),
        edges_ok(edges) ==> edges_ok(entities_edges(scope, nodes, entities, edges)),
        forall|j: int|
            edges.len() <= j < entities_edges(scope, nodes, entities, edges).len() ==> leads_from_one_of(
                #[trigger] entities_edges(scope, nodes, entities, edges)[j],
                entities,
            ),
    decreases entities.len(),
{
    if entities.len() > 0 {
        let rest = entities.drop_last();
        let before = entities_edges(scope, nodes, rest, edges);
        let after = entities_edges(scope, nodes, entities, edges);
        lemma_entities_edges(scope, nodes, rest, edges);
        match node_spanning(nodes, entities.last().line, entities.last().end_line, 0) {
            Some(i) => {
                lemma_walk_node(scope, entities.last().id, nodes, i as int, before);
            },
            None => {},
        }
        assert forall|j: int| edges.len() <= j < after.len() implies leads_from_one_of(
            #[trigger] after[j],
            entities,
        ) by {
            if j < before.len() {
                assert(after[j] == before[j]);
                let e = choose|e: int| 0 <= e < rest.len() && (#[trigger] rest[e]).id == before[j].from_id;
                assert(entities[e] == rest[e]);
            } else {
                assert(entities[entities.len() - 1].id == after[j].from_id);
            }
        }
    }
}

/// No reference of a file links an entity to itself, and no two link the
/// same pair of entities in the same direction, whatever their kinds. Each
/// leads from an entity of the file.
pub proof fn lemma_file_references_ok(scope: Scope, nodes: Seq<NodeView>, entities: Seq<EntityView>)
    ensures
        edges_ok(file_references(scope, nodes, entities)),
        forall|j: int|
            0 <= j < file_references(scope, nodes, entities).len() ==> leads_from_one_of(
                #[trigger] file_references(scope, nodes, entities)[j],
                entities,
            ),
{
    lemma_entities_edges(scope, nodes, entities, Seq::empty());
}

/// The references of the entities of one file.
///
/// `file_entities` are the entities that the file declares, `tree` its
/// syntax tree and `source` its text. `all_entity_names` and `entity_dirs`
/// cover the whole repository: the ids of all entities by name, and the
/// directory of each by id. `file_import_dirs` gives the directory for each
/// name under which the file imports one, and `caller_pkg_dir` is the
/// directory of the file itself.
pub fn extract_references(
    source: &str,
    tree: &SyntaxTree,
    file_entities: &[Entity],
    all_entity_names: &NameIndex,
    entity_dirs: &TextMap,
    file_import_dirs: &TextMap,
    caller_pkg_dir: &str,
) -> (relations: Vec<Relation>)
    ensures
        views(relations@) == file_references(
            Scope {
                source: source@,
                caller_dir: caller_pkg_dir@,
                imports: file_import_dirs@,
                names: all_entity_names@,
                dirs: entity_dirs@,
            },
            tree@,
            views(file_entities@),
        ),
        edges_ok(views(relations@)),
{
    let ghost scope = Scope {
        source: source@,
        caller_dir: caller_pkg_dir@,
        imports: file_import_dirs@,
        names: all_entity_names@,
        dirs: entity_dirs@,
    };
    let mut relations: Vec<Relation> = Vec::new();
    let mut k: usize = 0;
    assert(views(relations@) =~= Seq::<RelationView>::empty());
    assert(views(file_entities@).take(0) =~= Seq::<EntityView>::empty());
    while k < file_entities.len()
        invariant
            k <= file_entities.len(),
            scope == (Scope {
                source: source@,
                caller_dir: caller_pkg_dir@,
                imports: file_import_dirs@,
                names: all_entity_names@,
                dirs: entity_dirs@,
            }),
            views(relations@) == entities_edges(
                scope,
                tree@,
                views(file_entities@).take(k as int),
                Seq::empty(),
            ),
        decreases file_entities.len() - k,
    {
        let entity = &file_entities[k];
        assert(views(file_entities@).take(k + 1).drop_last() =~= views(file_entities@).take(
            k as int,
        ));
        assert(views(file_entities@).take(k + 1).last() == entity@);
        match find_node_at(tree, entity.line, entity.end_line) {
            Some(node) => {
                find_references(
                    source,
                    tree,
                    node,
                    entity.id.as_str(),
                    caller_pkg_dir,
                    file_import_dirs,
                    all_entity_names,
                    entity_dirs,
                    &mut relations,
                );
            },
            None => {},
        }
        k += 1;
    }
    assert(views(file_entities@).take(k as int) =~= views(file_entities@));
    proof {
        lemma_file_references_ok(scope, tree@, views(file_entities@));
    }
    relations
}

} // verus!
