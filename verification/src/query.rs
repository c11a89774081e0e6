//! Queries over a loaded repository: search, the focus view of one entity,
//! and plain look-ups.

use crate::model::{
    duplicate_entities, lemma_views_push, views, Entity, EntityGraph, EntityKind, EntityView,
    GraphView, RelationKind, RelationView,
};
use crate::paths::{dir_of, file_dir, last_segment};
use crate::repo::{optional_text, parse_repo, parsed_repo, RepoInfo, RepoInfoView, RepoSnapshot, SnapshotView};
use crate::text::{
    contains_text, lowercase, str_eq, text_after_last, text_contains, text_starts_with,
    to_lowercase,
};
use vstd::prelude::*;
use vstd::string::StringExecFns;

verus! {

broadcast use vstd::string::group_string_axioms;

/// The repository that is loaded, if one is.
#[derive(Debug)]
pub struct AppState {
    pub repo_info: Option<RepoInfo>,
    pub entity_graph: Option<EntityGraph>,
    pub repo_path: Option<String>,
}

/// The mathematical content of an [`AppState`].
pub struct AppStateView {
    pub repo_info: Option<RepoInfoView>,
    pub entity_graph: Option<GraphView>,
    pub repo_path: Option<Seq<char>>,
}

impl View for AppState {
    type V = AppStateView;

    open spec fn view(&self) -> AppStateView {
        AppStateView {
            repo_info: match self.repo_info {
                Some(info) => Some(info@),
                None => None,
            },
            entity_graph: match self.entity_graph {
                Some(graph) => Some(graph@),
                None => None,
            },
            repo_path: optional_text(self.repo_path),
        }
    }
}

impl AppState {
    /// The state in which no repository is loaded.
    pub fn new() -> (out: AppState)
        ensures
            out@ == (AppStateView { repo_info: None, entity_graph: None, repo_path: None }),
    {
        AppState { repo_info: None, entity_graph: None, repo_path: None }
    }
}

/// What a failed operation reports.
pub open spec fn path_missing_message(path: Seq<char>) -> Seq<char> {
    "Path does not exist: "@ + path
}

/// What loading the repository at `path` leaves behind and hands back:
/// the state with the summary, the graph and the path of the repository,
/// and the summary; or the state as it was, and the reason for the
/// failure. `repo` is what was found at `path`, if the path exists.
pub open spec fn opened(path: Seq<char>, repo: Option<SnapshotView>, before: AppStateView) -> (
    AppStateView,
    Result<RepoInfoView, Seq<char>>,
) {
    match repo {
        None => (before, Err(path_missing_message(path))),
        Some(found) => match parsed_repo(found) {
            None => (
                before,
                Err("Failed to parse repository. No supported language files found."@),
            ),
            Some((info, graph)) => (
                AppStateView {
                    repo_info: Some(info),
                    entity_graph: Some(graph),
                    repo_path: Some(path),
                },
                Ok(info),
            ),
        },
    }
}

/// The view of a result that holds a summary or a message.
pub open spec fn info_result(result: Result<RepoInfo, String>) -> Result<RepoInfoView, Seq<char>> {
    match result {
        Ok(info) => Ok(info@),
        Err(message) => Err(message@),
    }
}

/// Loads the repository at `path` in place of the one that was loaded.
/// `repo` is what was found at `path`, absent if there is no such path.
pub fn open_repo(path: &str, repo: Option<&RepoSnapshot>, state: &mut AppState) -> (out: Result<
    RepoInfo,
    String,
>)
    ensures
        (final(state)@, info_result(out)) == opened(
            path@,
            match repo {
                Some(found) => Some(found@),
                None => None,
            },
            old(state)@,
        ),
{
    match repo {
        None => {
            let mut message = String::from_str("Path does not exist: ");
            message.append(path);
            Err(message)
        },
        Some(found) => match parse_repo(found) {
            None => Err(
                String::from_str("Failed to parse repository. No supported language files found."),
            ),
            Some((info, graph)) => {
                let summary = info.duplicate();
                state.repo_info = Some(info);
                state.entity_graph = Some(graph);
                state.repo_path = Some(String::from_str(path));
                Ok(summary)
            },
        },
    }
}

/// The summary of the loaded repository.
pub fn get_repo_info(state: &AppState) -> (out: Result<RepoInfo, String>)
    ensures
        info_result(out) == match state@.repo_info {
            Some(info) => Ok::<RepoInfoView, Seq<char>>(info),
            None => Err("No repo loaded"@),
        },
{
    match &state.repo_info {
        Some(info) => Ok(info.duplicate()),
        None => Err(String::from_str("No repo loaded")),
    }
}

/// All entities of the loaded repository.
pub fn get_all_entities(state: &AppState) -> (out: Result<Vec<Entity>, String>)
    ensures
        match out {
            Ok(entities) => state@.entity_graph matches Some(graph) && views(entities@)
                == graph.entities,
            Err(message) => state@.entity_graph is None && message@ == "No repo loaded"@,
        },
{
    match &state.entity_graph {
        Some(graph) => Ok(duplicate_entities(&graph.entities)),
        None => Err(String::from_str("No repo loaded")),
    }
}

/// The first of `entities`, at or after `start`, with the id `id`.
pub open spec fn entity_with_id(entities: Seq<EntityView>, id: Seq<char>, start: int) -> Option<
    int,
>
    decreases entities.len() - start,
{
    if start < 0 || start >= entities.len() {
        None
    } else if entities[start].id == id {
        Some(start)
    } else {
        entity_with_id(entities, id, start + 1)
    }
}

/// The position of the first entity with the id `id`.
pub fn find_entity(entities: &Vec<Entity>, id: &str) -> (found: Option<usize>)
    ensures
        match found {
            Some(i) => entity_with_id(views(entities@), id@, 0) == Some(i as int) && i
                < entities.len(),
            None => entity_with_id(views(entities@), id@, 0) is None,
        },
{
    let mut i: usize = 0;
    while i < entities.len()
        invariant
            i <= entities.len(),
            entity_with_id(views(entities@), id@, 0) == entity_with_id(
                views(entities@),
                id@,
                i as int,
            ),
        decreases entities.len() - i,
    {
        assert(views(entities@)[i as int] == entities@[i as int]@);
        if str_eq(entities[i].id.as_str(), id) {
            return Some(i);
        }
        i += 1;
    }
    None
}

/// The source text of the entity with the id `entity_id`.
pub fn get_entity_source(entity_id: &str, state: &AppState) -> (out: Result<String, String>)
    ensures
        match state@.entity_graph {
            None => out matches Err(message) && message@ == "No repo loaded"@,
            Some(graph) => match entity_with_id(graph.entities, entity_id@, 0) {
                Some(i) => out matches Ok(source) && source@ == graph.entities[i].source,
                None => out matches Err(message) && message@ == "Entity not found"@,
            },
        },
{
    match &state.entity_graph {
        None => Err(String::from_str("No repo loaded")),
        Some(graph) => match find_entity(&graph.entities, entity_id) {
            Some(i) => {
                assert(views(graph.entities@)[i as int] == graph.entities@[i as int]@);
                Ok(graph.entities[i].source.clone())
            },
            None => Err(String::from_str("Entity not found")),
        },
    }
}

/// One entity that a search found, with how well it matches.
#[derive(Debug)]
pub struct SearchResult {
    pub entity: Entity,
    /// The score in tenths: 10 for an exact match of the name, down to 2
    /// for a match in the signature alone.
    pub score: u8,
}

/// The mathematical content of a [`SearchResult`].
pub struct SearchResultView {
    pub entity: EntityView,
    pub score: nat,
}

impl View for SearchResult {
    type V = SearchResultView;

    open spec fn view(&self) -> SearchResultView {
        SearchResultView { entity: self.entity@, score: self.score as nat }
    }
}

/// How well `entity` matches the lower-case query `query`, in tenths, by
/// the first of these that holds, letter case aside: the name is the query
/// (10), begins with it (9), contains it (7); the kind's label contains it
/// (3); the package contains it (4); the signature contains it (2). An
/// entity that matches in none of these ways scores 0.
pub open spec fn score_against(entity: EntityView, query: Seq<char>) -> nat {
    let name = lowercase(entity.name);
    if name == query {
        10
    } else if query.is_prefix_of(name) {
        9
    } else if contains_text(name, query) {
        7
    } else if contains_text(lowercase(entity.kind.label_text()), query) {
        3
    } else if contains_text(lowercase(entity.package), query) {
        4
    } else if contains_text(lowercase(entity.signature), query) {
        2
    } else {
        0
    }
}

/// How well `entity` matches `query`, in tenths.
pub open spec fn match_score(entity: EntityView, query: Seq<char>) -> nat {
    score_against(entity, lowercase(query))
}

/// How well `entity` matches the lower-case query `query`, in tenths.
pub fn score_entity(entity: &Entity, query: &str) -> (score: u8)
    ensures
        score == score_against(entity@, query@),
{
    let name = to_lowercase(entity.name.as_str());
    if str_eq(name.as_str(), query) {
        10
    } else if text_starts_with(name.as_str(), query) {
        9
    } else if text_contains(name.as_str(), query) {
        7
    } else if text_contains(to_lowercase(entity.kind.label()).as_str(), query) {
        3
    } else if text_contains(to_lowercase(entity.package.as_str()).as_str(), query) {
        4
    } else if text_contains(to_lowercase(entity.signature.as_str()).as_str(), query) {
        2
    } else {
        0
    }
}

/// Those of `entities` that match `query` with the score `score`, in order.
pub open spec fn hits_scoring(entities: Seq<EntityView>, query: Seq<char>, score: nat) -> Seq<
    SearchResultView,
>
    decreases entities.len(),
{
    if entities.len() == 0 {
        Seq::empty()
    } else if match_score(entities.last(), query) == score {
        hits_scoring(entities.drop_last(), query, score).push(
            SearchResultView { entity: entities.last(), score },
        )
    } else {
        hits_scoring(entities.drop_last(), query, score)
    }
}

/// All of `entities` that match `query`, the best matches first; among
/// equally good ones, in the order of `entities`.
pub open spec fn ranked_hits(entities: Seq<EntityView>, query: Seq<char>) -> Seq<SearchResultView> {
    hits_scoring(entities, query, 10) + hits_scoring(entities, query, 9) + hits_scoring(
        entities,
        query,
        7,
    ) + hits_scoring(entities, query, 4) + hits_scoring(entities, query, 3) + hits_scoring(
        entities,
        query,
        2,
    )
}

/// The first fifty of `hits`.
pub open spec fn first_fifty(hits: Seq<SearchResultView>) -> Seq<SearchResultView> {
    if hits.len() <= 50 {
        hits
    } else {
        hits.take(50)
    }
}

/// What a search for `query` among `entities` finds: the fifty best
/// matches, the best first.
pub open spec fn search_hits(entities: Seq<EntityView>, query: Seq<char>) -> Seq<SearchResultView> {
    first_fifty(ranked_hits(entities, query))
}

/// Each hit with a given score is an entity of the graph that matches the
/// query with just that score.
pub proof fn lemma_hits_scoring(entities: Seq<EntityView>, query: Seq<char>, score: nat)
    ensures
        forall|k: int|
            0 <= k < hits_scoring(entities, query, score).len() ==> {
                let hit = #[trigger] hits_scoring(entities, query, score)[k];
                hit.score == score && match_score(hit.entity, query) == score && entities.contains(
                    hit.entity,
                )
            },
    decreases entities.len(),
{
    if entities.len() > 0 {
        let rest = entities.drop_last();
        lemma_hits_scoring(rest, query, score);
        let all = hits_scoring(entities, query, score);
        let before = hits_scoring(rest, query, score);
        assert forall|k: int| 0 <= k < all.len() implies {
            let hit = #[trigger] all[k];
            hit.score == score && match_score(hit.entity, query) == score && entities.contains(
                hit.entity,
            )
        } by {
            if k < before.len() {
                assert(all[k] == before[k]);
                let e = choose|e: int| 0 <= e < rest.len() && rest[e] == before[k].entity;
                assert(entities[e] == rest[e]);
            } else {
                assert(entities[entities.len() - 1] == all[k].entity);
            }
        }
    }
}

/// The hits of a search come with the better matches first: no hit scores
/// higher than one before it. Each hit is an entity of the graph, with the
/// score with which it matches the query, which is not 0.
pub proof fn lemma_search_is_ranked(entities: Seq<EntityView>, query: Seq<char>)
    ensures
        forall|i: int, j: int|
            0 <= i < j < search_hits(entities, query).len() ==> (#[trigger] search_hits(
                entities,
                query,
            )[i]).score >= (#[trigger] search_hits(entities, query)[j]).score,
        forall|k: int|
            0 <= k < search_hits(entities, query).len() ==> {
                let hit = #[trigger] search_hits(entities, query)[k];
                hit.score == match_score(hit.entity, query) && hit.score > 0 && entities.contains(
                    hit.entity,
                )
            },
        search_hits(entities, query).len() <= 50,
{
    lemma_hits_scoring(entities, query, 10);
    lemma_hits_scoring(entities, query, 9);
    lemma_hits_scoring(entities, query, 7);
    lemma_hits_scoring(entities, query, 4);
    lemma_hits_scoring(entities, query, 3);
    lemma_hits_scoring(entities, query, 2);
    let ranked = ranked_hits(entities, query);
    let hits = search_hits(entities, query);
    assert forall|k: int| 0 <= k < hits.len() implies hits[k] == ranked[k] by {}
}

/// A search for the exact name of an entity puts that entity before every
/// entity that matches by its signature alone.
pub proof fn lemma_exact_name_ranks_first(
    entities: Seq<EntityView>,
    query: Seq<char>,
    i: int,
    j: int,
)
    requires
        0 <= i < search_hits(entities, query).len(),
        0 <= j < search_hits(entities, query).len(),
        search_hits(entities, query)[i].entity.name == query,
        search_hits(entities, query)[j].score == 2,
    ensures
        search_hits(entities, query)[i].score == 10,
        i < j,
{
    lemma_search_is_ranked(entities, query);
}

/// Adds to `out` those of `entities` whose score is `level`, as long as
/// `out` holds fewer than fifty.
fn add_hits(
    entities: &Vec<Entity>,
    scores: &Vec<u8>,
    query: Ghost<Seq<char>>,
    level: u8,
    out: &mut Vec<SearchResult>,
    found: Ghost<Seq<SearchResultView>>,
)
    requires
        scores.len() == entities.len(),
        forall|k: int|
            0 <= k < entities.len() ==> (#[trigger] scores@[k]) == match_score(
                views(entities@)[k],
                query@,
            ),
        views(old(out)@) == first_fifty(found@),
    ensures
        views(final(out)@) == first_fifty(
            found@ + hits_scoring(views(entities@), query@, level as nat),
        ),
{
    let ghost all = views(entities@);
    let mut i: usize = 0;
    assert(all.take(0) =~= Seq::<EntityView>::empty());
    assert(found@ + Seq::<SearchResultView>::empty() =~= found@);
    while i < entities.len()
        invariant
            i <= entities.len(),
            all == views(entities@),
            scores.len() == entities.len(),
            forall|k: int|
                0 <= k < entities.len() ==> (#[trigger] scores@[k]) == match_score(all[k], query@),
            views(out@) == first_fifty(
                found@ + hits_scoring(all.take(i as int), query@, level as nat),
            ),
        decreases entities.len() - i,
    {
        let ghost before = found@ + hits_scoring(all.take(i as int), query@, level as nat);
        assert(all.take(i + 1).drop_last() =~= all.take(i as int));
        assert(all.take(i + 1).last() == entities@[i as int]@);
        if scores[i] == level {
            let ghost hit = SearchResultView { entity: entities@[i as int]@, score: level as nat };
            assert(found@ + hits_scoring(all.take(i + 1), query@, level as nat) =~= before.push(
                hit,
            ));
            if out.len() < 50 {
                let result = SearchResult { entity: entities[i].duplicate(), score: level };
                proof {
                    lemma_views_push(out@, result);
                }
                out.push(result);
                assert(views(out@) =~= first_fifty(before.push(hit)));
            } else {
                assert(first_fifty(before.push(hit)) =~= first_fifty(before));
            }
        }
        i += 1;
    }
    assert(all.take(i as int) =~= all);
}

/// The fifty entities of `graph` that match `query` best, the best first.
pub fn search_graph(graph: &EntityGraph, query: &str) -> (out: Vec<SearchResult>)
    ensures
        views(out@) == search_hits(graph@.entities, query@),
{
    let lower = to_lowercase(query);
    let mut scores: Vec<u8> = Vec::new();
    let mut i: usize = 0;
    while i < graph.entities.len()
        invariant
            i <= graph.entities.len(),
            scores.len() == i,
            lower@ == lowercase(query@),
            forall|k: int|
                0 <= k < i ==> (#[trigger] scores@[k]) == match_score(
                    views(graph.entities@)[k],
                    query@,
                ),
        decreases graph.entities.len() - i,
    {
        scores.push(score_entity(&graph.entities[i], lower.as_str()));
        i += 1;
    }
    let mut out: Vec<SearchResult> = Vec::new();
    let ghost all = views(graph.entities@);
    let ghost q = query@;
    assert(views(out@) =~= first_fifty(Seq::empty()));
    add_hits(&graph.entities, &scores, Ghost(q), 10, &mut out, Ghost(Seq::empty()));
    assert(Seq::<SearchResultView>::empty() + hits_scoring(all, q, 10) =~= hits_scoring(all, q, 10));
    add_hits(&graph.entities, &scores, Ghost(q), 9, &mut out, Ghost(hits_scoring(all, q, 10)));
    add_hits(
        &graph.entities,
        &scores,
        Ghost(q),
        7,
        &mut out,
        Ghost(hits_scoring(all, q, 10) + hits_scoring(all, q, 9)),
    );
    add_hits(
        &graph.entities,
        &scores,
        Ghost(q),
        4,
        &mut out,
        Ghost(hits_scoring(all, q, 10) + hits_scoring(all, q, 9) + hits_scoring(all, q, 7)),
    );
    add_hits(
        &graph.entities,
        &scores,
        Ghost(q),
        3,
        &mut out,
        Ghost(
            hits_scoring(all, q, 10) + hits_scoring(all, q, 9) + hits_scoring(all, q, 7)
                + hits_scoring(all, q, 4),
        ),
    );
    add_hits(
        &graph.entities,
        &scores,
        Ghost(q),
        2,
        &mut out,
        Ghost(
            hits_scoring(all, q, 10) + hits_scoring(all, q, 9) + hits_scoring(all, q, 7)
                + hits_scoring(all, q, 4) + hits_scoring(all, q, 3),
        ),
    );
    out
}

/// The fifty entities of the loaded repository that match `query` best.
pub fn search_entities(query: &str, state: &AppState) -> (out: Result<Vec<SearchResult>, String>)
    ensures
        match out {
            Ok(hits) => state@.entity_graph matches Some(graph) && views(hits@) == search_hits(
                graph.entities,
                query@,
            ),
            Err(message) => state@.entity_graph is None && message@ == "No repo loaded"@,
        },
{
    match &state.entity_graph {
        Some(graph) => Ok(search_graph(graph, query)),
        None => Err(String::from_str("No repo loaded")),
    }
}

/// An entity that refers to the one in focus, and how.
#[derive(Debug)]
pub struct IncomingRef {
    pub entity: Entity,
    pub relation: String,
}

/// The mathematical content of an [`IncomingRef`].
pub struct IncomingRefView {
    pub entity: EntityView,
    pub relation: Seq<char>,
}

impl View for IncomingRef {
    type V = IncomingRefView;

    open spec fn view(&self) -> IncomingRefView {
        IncomingRefView { entity: self.entity@, relation: self.relation@ }
    }
}

/// An entity of the same directory that the one in focus refers to.
#[derive(Debug)]
pub struct SamePkgEntry {
    pub id: String,
    pub kind: String,
    pub signature: String,
}

/// The mathematical content of a [`SamePkgEntry`].
pub struct SamePkgEntryView {
    pub id: Seq<char>,
    pub kind: Seq<char>,
    pub signature: Seq<char>,
}

impl View for SamePkgEntry {
    type V = SamePkgEntryView;

    open spec fn view(&self) -> SamePkgEntryView {
        SamePkgEntryView { id: self.id@, kind: self.kind@, signature: self.signature@ }
    }
}

/// What the entity in focus refers to in one other directory: how many
/// functions and methods, and how many entities of other kinds.
#[derive(Debug)]
pub struct ModulePkgGroup {
    /// The last segment of the directory.
    pub pkg_name: String,
    pub pkg_dir: String,
    pub fn_count: usize,
    pub type_count: usize,
}

/// The mathematical content of a [`ModulePkgGroup`].
pub struct ModulePkgGroupView {
    pub pkg_name: Seq<char>,
    pub pkg_dir: Seq<char>,
    pub fn_count: nat,
    pub type_count: nat,
}

impl View for ModulePkgGroup {
    type V = ModulePkgGroupView;

    open spec fn view(&self) -> ModulePkgGroupView {
        ModulePkgGroupView {
            pkg_name: self.pkg_name@,
            pkg_dir: self.pkg_dir@,
            fn_count: self.fn_count as nat,
            type_count: self.type_count as nat,
        }
    }
}

/// The neighbourhood of one entity.
#[derive(Debug)]
pub struct FocusView {
    pub center: Entity,
    /// The entities that refer to the one in focus.
    pub incoming: Vec<IncomingRef>,
    /// What it refers to in its own directory, one by one.
    pub same_pkg: Vec<SamePkgEntry>,
    /// What it refers to in other directories, by directory.
    pub same_module: Vec<ModulePkgGroup>,
    /// Dependencies from outside the repository. None are recorded when a
    /// repository is loaded, so this is always empty.
    pub external_deps: Vec<String>,
}

/// The mathematical content of a [`FocusView`].
pub struct FocusContent {
    pub center: EntityView,
    pub incoming: Seq<IncomingRefView>,
    pub same_pkg: Seq<SamePkgEntryView>,
    pub same_module: Seq<ModulePkgGroupView>,
    pub external_deps: Seq<Seq<char>>,
}

impl View for FocusView {
    type V = FocusContent;

    open spec fn view(&self) -> FocusContent {
        FocusContent {
            center: self.center@,
            incoming: views(self.incoming@),
            same_pkg: views(self.same_pkg@),
            same_module: views(self.same_module@),
            external_deps: views(self.external_deps@),
        }
    }
}

/// How an edge of kind `kind` reads from the side of its target.
pub open spec fn incoming_label(kind: RelationKind) -> Seq<char> {
    match kind {
        RelationKind::Calls => "called by"@,
        RelationKind::References => "referenced by"@,
        RelationKind::Contains => "contained in"@,
        RelationKind::Implements => "implemented by"@,
        RelationKind::Returns => "returned by"@,
        RelationKind::Accepts => "accepted by"@,
        _ => "related to"@,
    }
}

/// How an edge of kind `kind` reads from the side of its target.
pub fn relation_label(kind: RelationKind) -> (out: &'static str)
    ensures
        out@ == incoming_label(kind),
{
    match kind {
        RelationKind::Calls => "called by",
        RelationKind::References => "referenced by",
        RelationKind::Contains => "contained in",
        RelationKind::Implements => "implemented by",
        RelationKind::Returns => "returned by",
        RelationKind::Accepts => "accepted by",
        _ => "related to",
    }
}

/// What the edge `relation` adds to the incoming side of the entity `id`:
/// its source, if it leads to `id` and its source is an entity of the
/// graph.
pub open spec fn incoming_of(entities: Seq<EntityView>, relation: RelationView, id: Seq<char>) -> Seq<
    IncomingRefView,
> {
    if relation.to_id == id {
        match entity_with_id(entities, relation.from_id, 0) {
            Some(i) => seq![
                IncomingRefView { entity: entities[i], relation: incoming_label(relation.kind) },
            ],
            None => Seq::empty(),
        }
    } else {
        Seq::empty()
    }
}

/// The incoming side of the entity `id`: for each edge that leads to it, in
/// order, the source of the edge.
pub open spec fn incoming_refs(
    entities: Seq<EntityView>,
    relations: Seq<RelationView>,
    id: Seq<char>,
) -> Seq<IncomingRefView>
    decreases relations.len(),
{
    if relations.len() == 0 {
        Seq::empty()
    } else {
        incoming_refs(entities, relations.drop_last(), id) + incoming_of(
            entities,
            relations.last(),
            id,
        )
    }
}

/// What the edge `relation` adds to the outgoing side of the entity `id`:
/// its target, if it leads from `id` and its target is an entity of the
/// graph.
pub open spec fn outgoing_of(entities: Seq<EntityView>, relation: RelationView, id: Seq<char>) -> Seq<
    EntityView,
> {
    if relation.from_id == id {
        match entity_with_id(entities, relation.to_id, 0) {
            Some(i) => seq![entities[i]],
            None => Seq::empty(),
        }
    } else {
        Seq::empty()
    }
}

/// The outgoing side of the entity `id`: for each edge that leads from it,
/// in order, the target of the edge.
pub open spec fn outgoing_targets(
    entities: Seq<EntityView>,
    relations: Seq<RelationView>,
    id: Seq<char>,
) -> Seq<EntityView>
    decreases relations.len(),
{
    if relations.len() == 0 {
        Seq::empty()
    } else {
        outgoing_targets(entities, relations.drop_last(), id) + outgoing_of(
            entities,
            relations.last(),
            id,
        )
    }
}

/// The entry for a target in the directory of the entity in focus.
pub open spec fn same_pkg_entry(target: EntityView) -> SamePkgEntryView {
    SamePkgEntryView {
        id: target.id,
        kind: target.kind.label_text(),
        signature: target.signature,
    }
}

/// The entries for those of `targets` that lie in the directory `dir`.
pub open spec fn same_pkg_entries(targets: Seq<EntityView>, dir: Seq<char>) -> Seq<SamePkgEntryView>
    decreases targets.len(),
{
    if targets.len() == 0 {
        Seq::empty()
    } else if dir_of(targets.last().file) == dir {
        same_pkg_entries(targets.drop_last(), dir).push(same_pkg_entry(targets.last()))
    } else {
        same_pkg_entries(targets.drop_last(), dir)
    }
}

/// `group` with one more target counted, callable or not.
pub open spec fn counted(group: ModulePkgGroupView, callable: bool) -> ModulePkgGroupView {
    if callable {
        ModulePkgGroupView { fn_count: group.fn_count + 1, ..group }
    } else {
        ModulePkgGroupView { type_count: group.type_count + 1, ..group }
    }
}

/// The group of the directory `dir` with nothing counted yet.
pub open spec fn empty_group(dir: Seq<char>) -> ModulePkgGroupView {
    ModulePkgGroupView { pkg_name: last_segment(dir), pkg_dir: dir, fn_count: 0, type_count: 0 }
}

/// `groups` with one more target counted in the group of the directory
/// `dir`, which is added at the end if it is not there.
pub open spec fn tally(groups: Seq<ModulePkgGroupView>, dir: Seq<char>, callable: bool) -> Seq<
    ModulePkgGroupView,
>
    decreases groups.len(),
{
    if groups.len() == 0 {
        seq![counted(empty_group(dir), callable)]
    } else if groups[0].pkg_dir == dir {
        seq![counted(groups[0], callable)] + groups.drop_first()
    } else {
        seq![groups[0]] + tally(groups.drop_first(), dir, callable)
    }
}

/// The groups of those of `targets` that lie outside the directory `dir`,
/// in the order in which their directories first occur.
pub open spec fn cross_groups(targets: Seq<EntityView>, dir: Seq<char>) -> Seq<ModulePkgGroupView>
    decreases targets.len(),
{
    if targets.len() == 0 {
        Seq::empty()
    } else if dir_of(targets.last().file) == dir {
        cross_groups(targets.drop_last(), dir)
    } else {
        tally(
            cross_groups(targets.drop_last(), dir),
            dir_of(targets.last().file),
            targets.last().kind.is_callable(),
        )
    }
}

/// How many targets a group counts.
pub open spec fn group_total(group: ModulePkgGroupView) -> nat {
    group.fn_count + group.type_count
}

/// `sorted` with `group` put before the first group that counts fewer
/// targets.
pub open spec fn place_group(sorted: Seq<ModulePkgGroupView>, group: ModulePkgGroupView) -> Seq<
    ModulePkgGroupView,
>
    decreases sorted.len(),
{
    if sorted.len() == 0 {
        seq![group]
    } else if group_total(sorted[0]) < group_total(group) {
        seq![group] + sorted
    } else {
        seq![sorted[0]] + place_group(sorted.drop_first(), group)
    }
}

/// `groups` with the groups that count most targets first; groups that
/// count the same stay in their order.
pub open spec fn sort_groups(groups: Seq<ModulePkgGroupView>) -> Seq<ModulePkgGroupView>
    decreases groups.len(),
{
    if groups.len() == 0 {
        Seq::empty()
    } else {
        place_group(sort_groups(groups.drop_last()), groups.last())
    }
}

/// The focus view of the entity `center` in the graph `graph`.
pub open spec fn focus_on(graph: GraphView, center: EntityView, id: Seq<char>) -> FocusContent {
    let targets = outgoing_targets(graph.entities, graph.relations, id);
    let dir = dir_of(center.file);
    FocusContent {
        center,
        incoming: incoming_refs(graph.entities, graph.relations, id),
        same_pkg: same_pkg_entries(targets, dir),
        same_module: sort_groups(cross_groups(targets, dir)),
        external_deps: Seq::empty(),
    }
}

/// The focus view of the entity with the id `id`: the first entity of the
/// graph with that id, what refers to it, and what it refers to, in its own
/// directory one by one and in other directories by directory.
pub open spec fn focus_view(graph: GraphView, id: Seq<char>) -> Option<FocusContent> {
    match entity_with_id(graph.entities, id, 0) {
        Some(i) => Some(focus_on(graph, graph.entities[i], id)),
        None => None,
    }
}

/// No group counts more targets than there are.
pub open spec fn totals_within(groups: Seq<ModulePkgGroupView>, bound: nat) -> bool {
    forall|k: int| 0 <= k < groups.len() ==> group_total(#[trigger] groups[k]) <= bound
}

/// Counting one more target raises no total by more than one.
pub proof fn lemma_tally_totals(
    groups: Seq<ModulePkgGroupView>,
    dir: Seq<char>,
    callable: bool,
    bound: nat,
)
    requires
        totals_within(groups, bound),
    ensures
        totals_within(tally(groups, dir, callable), bound + 1),
    decreases groups.len(),
{
    let after = tally(groups, dir, callable);
    if groups.len() == 0 {
    } else if groups[0].pkg_dir == dir {
        assert forall|k: int| 0 <= k < after.len() implies group_total(#[trigger] after[k]) <= bound
            + 1 by {
            if k > 0 {
                assert(after[k] == groups[k]);
            } else {
                assert(group_total(groups[0]) <= bound);
            }
        }
    } else {
        let rest = groups.drop_first();
        assert forall|k: int| 0 <= k < rest.len() implies group_total(#[trigger] rest[k])
            <= bound by {
            assert(rest[k] == groups[k + 1]);
        }
        lemma_tally_totals(rest, dir, callable, bound);
        let tail = tally(rest, dir, callable);
        assert forall|k: int| 0 <= k < after.len() implies group_total(#[trigger] after[k]) <= bound
            + 1 by {
            if k > 0 {
                assert(after[k] == tail[k - 1]);
            } else {
                assert(group_total(groups[0]) <= bound);
            }
        }
    }
}

/// Counts one more target in the group of the directory `dir`.
fn tally_target(groups: &mut Vec<ModulePkgGroup>, dir: String, callable: bool, bound: Ghost<nat>)
    requires
        totals_within(views(old(groups)@), bound@),
        bound@ < usize::MAX,
    ensures
        views(final(groups)@) == tally(views(old(groups)@), dir@, callable),
        totals_within(views(final(groups)@), bound@ + 1),
{
    let ghost before = views(groups@);
    proof {
        lemma_tally_totals(before, dir@, callable, bound@);
    }
    let mut i: usize = 0;
    assert(before.skip(0) =~= before);
    assert(before.take(0) + tally(before, dir@, callable) =~= tally(before, dir@, callable));
    while i < groups.len()
        invariant
            i <= groups.len(),
            before == views(groups@),
            before == views(old(groups)@),
            totals_within(before, bound@),
            bound@ < usize::MAX,
            tally(before, dir@, callable) == before.take(i as int) + tally(
                before.skip(i as int),
                dir@,
                callable,
            ),
        decreases groups.len() - i,
    {
        let ghost rest = before.skip(i as int);
        assert(rest[0] == groups@[i as int]@);
        if str_eq(groups[i].pkg_dir.as_str(), dir.as_str()) {
            assert(group_total(before[i as int]) <= bound@);
            let old_group = groups.remove(i);
            let new_group = if callable {
                ModulePkgGroup {
                    pkg_name: old_group.pkg_name,
                    pkg_dir: old_group.pkg_dir,
                    fn_count: old_group.fn_count + 1,
                    type_count: old_group.type_count,
                }
            } else {
                ModulePkgGroup {
                    pkg_name: old_group.pkg_name,
                    pkg_dir: old_group.pkg_dir,
                    fn_count: old_group.fn_count,
                    type_count: old_group.type_count + 1,
                }
            };
            groups.insert(i, new_group);
            assert(views(groups@) =~= before.take(i as int) + (seq![counted(rest[0], callable)]
                + rest.drop_first()));
            return ;
        }
        assert(rest.drop_first() =~= before.skip(i + 1));
        assert(before.take(i as int) + (seq![rest[0]] + tally(rest.drop_first(), dir@, callable))
            =~= before.take(i + 1) + tally(before.skip(i + 1), dir@, callable));
        i += 1;
    }
    assert(before.take(i as int) =~= before);
    let name = text_after_last(dir.as_str(), '/');
    let group = if callable {
        ModulePkgGroup { pkg_name: name, pkg_dir: dir, fn_count: 1, type_count: 0 }
    } else {
        ModulePkgGroup { pkg_name: name, pkg_dir: dir, fn_count: 0, type_count: 1 }
    };
    groups.push(group);
    assert(views(groups@) =~= before + seq![counted(empty_group(dir@), callable)]);
}

/// Puts `group` before the first of `sorted` that counts fewer targets.
fn place(sorted: &mut Vec<ModulePkgGroup>, group: ModulePkgGroup)
    requires
        totals_within(views(old(sorted)@), usize::MAX as nat),
        group_total(group@) <= usize::MAX,
    ensures
        views(final(sorted)@) == place_group(views(old(sorted)@), group@),
        totals_within(views(final(sorted)@), usize::MAX as nat),
{
    let ghost before = views(sorted@);
    let total = group.fn_count + group.type_count;
    let mut i: usize = 0;
    assert(before.skip(0) =~= before);
    assert(before.take(0) + place_group(before, group@) =~= place_group(before, group@));
    while i < sorted.len()
        invariant
            i <= sorted.len(),
            before == views(sorted@),
            before == views(old(sorted)@),
            total == group_total(group@),
            totals_within(before, usize::MAX as nat),
            place_group(before, group@) == before.take(i as int) + place_group(
                before.skip(i as int),
                group@,
            ),
        ensures
            i <= sorted.len(),
            before == views(sorted@),
            before == views(old(sorted)@),
            totals_within(before, usize::MAX as nat),
            place_group(before, group@) == before.take(i as int) + (seq![group@] + before.skip(
                i as int,
            )),
        decreases sorted.len() - i,
    {
        let ghost rest = before.skip(i as int);
        assert(rest[0] == sorted@[i as int]@);
        assert(group_total(before[i as int]) <= usize::MAX);
        if sorted[i].fn_count + sorted[i].type_count < total {
            break ;
        }
        assert(rest.drop_first() =~= before.skip(i + 1));
        assert(before.take(i as int) + (seq![rest[0]] + place_group(rest.drop_first(), group@))
            =~= before.take(i + 1) + place_group(before.skip(i + 1), group@));
        i += 1;
    }
    let ghost rest = before.skip(i as int);
    let ghost placed = group@;
    sorted.insert(i, group);
    assert(views(sorted@) =~= before.take(i as int) + (seq![placed] + rest));
    assert forall|k: int| 0 <= k < sorted.len() implies group_total(
        #[trigger] views(sorted@)[k],
    ) <= usize::MAX by {
        if k < i {
            assert(views(sorted@)[k] == before[k]);
        } else if k > i {
            assert(views(sorted@)[k] == before[k - 1]);
        }
    }
}

/// The groups `groups`, those that count most targets first.
fn sort_by_total(groups: &Vec<ModulePkgGroup>) -> (sorted: Vec<ModulePkgGroup>)
    requires
        totals_within(views(groups@), usize::MAX as nat),
    ensures
        views(sorted@) == sort_groups(views(groups@)),
{
    let ghost all = views(groups@);
    let mut sorted: Vec<ModulePkgGroup> = Vec::new();
    let mut i: usize = 0;
    assert(all.take(0) =~= Seq::<ModulePkgGroupView>::empty());
    assert(views(sorted@) =~= Seq::<ModulePkgGroupView>::empty());
    while i < groups.len()
        invariant
            i <= groups.len(),
            all == views(groups@),
            views(sorted@) == sort_groups(all.take(i as int)),
            totals_within(all, usize::MAX as nat),
            totals_within(views(sorted@), usize::MAX as nat),
        decreases groups.len() - i,
    {
        assert(all.take(i + 1).drop_last() =~= all.take(i as int));
        assert(all.take(i + 1).last() == groups@[i as int]@);
        assert(group_total(all[i as int]) <= usize::MAX);
        let group = ModulePkgGroup {
            pkg_name: groups[i].pkg_name.clone(),
            pkg_dir: groups[i].pkg_dir.clone(),
            fn_count: groups[i].fn_count,
            type_count: groups[i].type_count,
        };
        place(&mut sorted, group);
        i += 1;
    }
    assert(all.take(i as int) =~= all);
    sorted
}

/// The focus view of the entity with the id `entity_id` in `graph`.
pub fn focus_in_graph(graph: &EntityGraph, entity_id: &str) -> (out: Option<FocusView>)
    ensures
        match out {
            Some(view) => focus_view(graph@, entity_id@) == Some(view@),
            None => focus_view(graph@, entity_id@) is None,
        },
{
    let center = match find_entity(&graph.entities, entity_id) {
        Some(i) => {
            assert(views(graph.entities@)[i as int] == graph.entities@[i as int]@);
            graph.entities[i].duplicate()
        },
        None => {
            return None;
        },
    };
    let center_dir = file_dir(center.file.as_str());
    let ghost entities = views(graph.entities@);
    let ghost relations = views(graph.relations@);
    let mut incoming: Vec<IncomingRef> = Vec::new();
    let mut same_pkg: Vec<SamePkgEntry> = Vec::new();
    let mut groups: Vec<ModulePkgGroup> = Vec::new();
    let mut i: usize = 0;
    assert(relations.take(0) =~= Seq::<RelationView>::empty());
    assert(views(incoming@) =~= Seq::<IncomingRefView>::empty());
    assert(views(same_pkg@) =~= Seq::<SamePkgEntryView>::empty());
    assert(views(groups@) =~= Seq::<ModulePkgGroupView>::empty());
    while i < graph.relations.len()
        invariant
            i <= graph.relations.len(),
            entities == views(graph.entities@),
            relations == views(graph.relations@),
            center_dir@ == dir_of(center@.file),
            views(incoming@) == incoming_refs(entities, relations.take(i as int), entity_id@),
            views(same_pkg@) == same_pkg_entries(
                outgoing_targets(entities, relations.take(i as int), entity_id@),
                center_dir@,
            ),
            views(groups@) == cross_groups(
                outgoing_targets(entities, relations.take(i as int), entity_id@),
                center_dir@,
            ),
            totals_within(views(groups@), i as nat),
        decreases graph.relations.len() - i,
    {
        let relation = &graph.relations[i];
        let ghost seen = relations.take(i as int);
        let ghost targets = outgoing_targets(entities, seen, entity_id@);
        assert(relations.take(i + 1).drop_last() =~= seen);
        assert(relations.take(i + 1).last() == relation@);
        let ghost step = outgoing_of(entities, relation@, entity_id@);
        let ghost bound = i as nat;
        if str_eq(relation.from_id.as_str(), entity_id) {
            match find_entity(&graph.entities, relation.to_id.as_str()) {
                Some(t) => {
                    let target = &graph.entities[t];
                    assert(entities[t as int] == target@);
                    assert((targets + step).drop_last() =~= targets);
                    assert((targets + step).last() == target@);
                    let target_dir = file_dir(target.file.as_str());
                    if str_eq(target_dir.as_str(), center_dir.as_str()) {
                        let entry = SamePkgEntry {
                            id: target.id.clone(),
                            kind: String::from_str(target.kind.label()),
                            signature: target.signature.clone(),
                        };
                        proof {
                            lemma_views_push(same_pkg@, entry);
                        }
                        same_pkg.push(entry);
                    } else {
                        let callable = match target.kind {
                            EntityKind::Function => true,
                            EntityKind::Method => true,
                            _ => false,
                        };
                        tally_target(&mut groups, target_dir, callable, Ghost(bound));
                    }
                },
                None => {
                    assert(targets + step =~= targets);
                },
            }
        } else {
            assert(targets + step =~= targets);
        }
        assert(totals_within(views(groups@), (i + 1) as nat)) by {
            assert forall|k: int| 0 <= k < groups.len() implies group_total(
                #[trigger] views(groups@)[k],
            ) <= i + 1 by {}
        }
        if str_eq(relation.to_id.as_str(), entity_id) {
            match find_entity(&graph.entities, relation.from_id.as_str()) {
                Some(s) => {
                    assert(entities[s as int] == graph.entities@[s as int]@);
                    let source = IncomingRef {
                        entity: graph.entities[s].duplicate(),
                        relation: String::from_str(relation_label(relation.kind)),
                    };
                    proof {
                        lemma_views_push(incoming@, source);
                    }
                    incoming.push(source);
                    assert(views(incoming@) =~= incoming_refs(entities, seen, entity_id@)
                        + incoming_of(entities, relation@, entity_id@));
                },
                None => {
                    assert(views(incoming@) =~= incoming_refs(entities, seen, entity_id@)
                        + incoming_of(entities, relation@, entity_id@));
                },
            }
        } else {
            assert(views(incoming@) =~= incoming_refs(entities, seen, entity_id@) + incoming_of(
                entities,
                relation@,
                entity_id@,
            ));
        }
        i += 1;
    }
    assert(relations.take(i as int) =~= relations);
    assert(totals_within(views(groups@), usize::MAX as nat)) by {
        assert forall|k: int| 0 <= k < groups.len() implies group_total(
            #[trigger] views(groups@)[k],
        ) <= usize::MAX by {}
    }
    let same_module = sort_by_total(&groups);
    let external_deps: Vec<String> = Vec::new();
    assert(views(external_deps@) =~= Seq::<Seq<char>>::empty());
    Some(FocusView { center, incoming, same_pkg, same_module, external_deps })
}

/// What is reported of an entity that is not in the graph.
pub open spec fn entity_missing_message(id: Seq<char>) -> Seq<char> {
    "Entity not found: "@ + id
}

/// The focus view of the entity with the id `entity_id` in the loaded
/// repository.
pub fn get_entity_focus(entity_id: &str, state: &AppState) -> (out: Result<FocusView, String>)
    ensures
        match state@.entity_graph {
            None => out matches Err(message) && message@ == "No repo loaded"@,
            Some(graph) => match focus_view(graph, entity_id@) {
                Some(content) => out matches Ok(view) && view@ == content,
                None => out matches Err(message) && message@ == entity_missing_message(
                    entity_id@,
                ),
            },
        },
{
    match &state.entity_graph {
        None => Err(String::from_str("No repo loaded")),
        Some(graph) => match focus_in_graph(graph, entity_id) {
            Some(view) => Ok(view),
            None => {
                let mut message = String::from_str("Entity not found: ");
                message.append(entity_id);
                Err(message)
            },
        },
    }
}

/// How many of `targets` lie in the directory `dir`.
pub open spec fn count_in(targets: Seq<EntityView>, dir: Seq<char>) -> nat
    decreases targets.len(),
{
    if targets.len() == 0 {
        0
    } else {
        count_in(targets.drop_last(), dir) + if dir_of(targets.last().file) == dir {
            1nat
        } else {
            0nat
        }
    }
}

/// Whether one of `groups` is the group of the directory `dir`.
pub open spec fn has_group(groups: Seq<ModulePkgGroupView>, dir: Seq<char>) -> bool {
    exists|k: int| 0 <= k < groups.len() && (#[trigger] groups[k]).pkg_dir == dir
}

/// Whether no two of `groups` are groups of the same directory.
pub open spec fn dirs_distinct(groups: Seq<ModulePkgGroupView>) -> bool {
    forall|a: int, b: int|
        0 <= a < b < groups.len() ==> (#[trigger] groups[a]).pkg_dir != (#[trigger] groups[b]).pkg_dir
}

/// Counting a target in the directory `dir` raises the total of the group
/// of `dir` by one and leaves the other groups as they were; where `dir`
/// has no group yet, a group with that one target is added at the end.
pub proof fn lemma_tally(groups: Seq<ModulePkgGroupView>, dir: Seq<char>, callable: bool)
    requires
        dirs_distinct(groups),
    ensures
        dirs_distinct(tally(groups, dir, callable)),
        has_group(tally(groups, dir, callable), dir),
        has_group(groups, dir) ==> tally(groups, dir, callable).len() == groups.len(),
        !has_group(groups, dir) ==> tally(groups, dir, callable) == groups.push(
            counted(empty_group(dir), callable),
        ),
        forall|k: int|
            0 <= k < groups.len() ==> {
                let after = #[trigger] tally(groups, dir, callable)[k];
                &&& k < tally(groups, dir, callable).len()
                &&& after.pkg_dir == groups[k].pkg_dir
                &&& after.pkg_name == groups[k].pkg_name
                &&& group_total(after) == group_total(groups[k]) + if groups[k].pkg_dir == dir {
                    1nat
                } else {
                    0nat
                }
            },
    decreases groups.len(),
{
    let after = tally(groups, dir, callable);
    if groups.len() == 0 {
        assert(after[0].pkg_dir == dir);
        assert(after =~= groups.push(counted(empty_group(dir), callable)));
    } else if groups[0].pkg_dir == dir {
        assert(after[0].pkg_dir == dir);
        assert(after.len() == groups.len());
        assert forall|k: int| 0 <= k < groups.len() implies {
            let g = #[trigger] after[k];
            &&& k < after.len()
            &&& g.pkg_dir == groups[k].pkg_dir
            &&& g.pkg_name == groups[k].pkg_name
            &&& group_total(g) == group_total(groups[k]) + if groups[k].pkg_dir == dir {
                1nat
            } else {
                0nat
            }
        } by {
            if k > 0 {
                assert(after[k] == groups[k]);
                assert(groups[0].pkg_dir != groups[k].pkg_dir);
            }
        }
        assert forall|a: int, b: int| 0 <= a < b < after.len() implies (#[trigger] after[a]).pkg_dir
            != (#[trigger] after[b]).pkg_dir by {
            assert(after[b] == groups[b]);
            assert(after[a].pkg_dir == groups[a].pkg_dir);
        }
    } else {
        let rest = groups.drop_first();
        let tail = tally(rest, dir, callable);
        assert forall|a: int, b: int| 0 <= a < b < rest.len() implies (#[trigger] rest[a]).pkg_dir
            != (#[trigger] rest[b]).pkg_dir by {
            assert(rest[a] == groups[a + 1] && rest[b] == groups[b + 1]);
        }
        lemma_tally(rest, dir, callable);
        assert(has_group(after, dir)) by {
            let k = choose|k: int| 0 <= k < tail.len() && (#[trigger] tail[k]).pkg_dir == dir;
            assert(after[k + 1] == tail[k]);
        }
        if has_group(groups, dir) {
            let k = choose|k: int| 0 <= k < groups.len() && (#[trigger] groups[k]).pkg_dir == dir;
            assert(rest[k - 1] == groups[k]);
            assert(has_group(rest, dir));
        } else {
            if has_group(rest, dir) {
                let k = choose|k: int| 0 <= k < rest.len() && (#[trigger] rest[k]).pkg_dir == dir;
                assert(groups[k + 1] == rest[k]);
            }
            assert(after =~= groups.push(counted(empty_group(dir), callable)));
        }
        assert forall|k: int| 0 <= k < groups.len() implies {
            let g = #[trigger] after[k];
            &&& k < after.len()
            &&& g.pkg_dir == groups[k].pkg_dir
            &&& g.pkg_name == groups[k].pkg_name
            &&& group_total(g) == group_total(groups[k]) + if groups[k].pkg_dir == dir {
                1nat
            } else {
                0nat
            }
        } by {
            if k > 0 {
                assert(rest[k - 1] == groups[k]);
                assert(after[k] == tail[k - 1]);
            }
        }
        assert forall|a: int, b: int| 0 <= a < b < after.len() implies (#[trigger] after[a]).pkg_dir
            != (#[trigger] after[b]).pkg_dir by {
            if a == 0 {
                assert(after[b] == tail[b - 1]);
                if b - 1 < rest.len() {
                    assert(tail[b - 1].pkg_dir == rest[b - 1].pkg_dir);
                    assert(rest[b - 1] == groups[b]);
                } else {
                    assert(tail[b - 1].pkg_dir == dir);
                }
            } else {
                assert(after[a] == tail[a - 1] && after[b] == tail[b - 1]);
            }
        }
    }
}

/// The groups of a focus view, before they are sorted: one for each
/// directory other than `dir` in which a target lies, and no two for the
/// same directory. Each bears the last segment of its directory as its
/// name and counts the targets that lie in its directory.
pub proof fn lemma_cross_groups(targets: Seq<EntityView>, dir: Seq<char>)
    ensures
        dirs_distinct(cross_groups(targets, dir)),
        forall|k: int|
            0 <= k < cross_groups(targets, dir).len() ==> {
                let group = #[trigger] cross_groups(targets, dir)[k];
                &&& group.pkg_dir != dir
                &&& group.pkg_name == last_segment(group.pkg_dir)
                &&& group_total(group) == count_in(targets, group.pkg_dir)
                &&& group_total(group) > 0
            },
        forall|other: Seq<char>|
            other != dir && count_in(targets, other) > 0 ==> #[trigger] has_group(
                cross_groups(targets, dir),
                other,
            ),
    decreases targets.len(),
{
    if targets.len() > 0 {
        let rest = targets.drop_last();
        let before = cross_groups(rest, dir);
        let after = cross_groups(targets, dir);
        let here = dir_of(targets.last().file);
        lemma_cross_groups(rest, dir);
        if here != dir {
            lemma_tally(before, here, targets.last().kind.is_callable());
            assert forall|k: int| 0 <= k < after.len() implies {
                let group = #[trigger] after[k];
                &&& group.pkg_dir != dir
                &&& group.pkg_name == last_segment(group.pkg_dir)
                &&& group_total(group) == count_in(targets, group.pkg_dir)
                &&& group_total(group) > 0
            } by {
                if k < before.len() {
                    assert(after[k].pkg_dir == before[k].pkg_dir);
                } else {
                    assert(!has_group(before, here));
                    assert(after[k] == counted(
                        empty_group(here),
                        targets.last().kind.is_callable(),
                    ));
                    if count_in(rest, here) > 0 {
                        assert(has_group(before, here));
                    }
                }
            }
            assert forall|other: Seq<char>| other != dir && count_in(targets, other) > 0 implies #[trigger] has_group(
                after,
                other,
            ) by {
                if other != here {
                    assert(has_group(before, other));
                    let k = choose|k: int| 0 <= k < before.len() && (#[trigger] before[k]).pkg_dir == other;
                    assert(after[k].pkg_dir == before[k].pkg_dir);
                }
            }
        } else {
            assert forall|k: int| 0 <= k < after.len() implies {
                let group = #[trigger] after[k];
                &&& group.pkg_dir != dir
                &&& group.pkg_name == last_segment(group.pkg_dir)
                &&& group_total(group) == count_in(targets, group.pkg_dir)
                &&& group_total(group) > 0
            } by {
                assert(after[k] == before[k]);
            }
            assert forall|other: Seq<char>| other != dir && count_in(targets, other) > 0 implies #[trigger] has_group(
                after,
                other,
            ) by {
                assert(has_group(before, other));
            }
        }
    }
}

/// The entries of a focus view for the directory of the entity in focus:
/// one for each target that lies there.
pub proof fn lemma_same_pkg_entries(targets: Seq<EntityView>, dir: Seq<char>)
    ensures
        same_pkg_entries(targets, dir).len() == count_in(targets, dir),
    decreases targets.len(),
{
    if targets.len() > 0 {
        lemma_same_pkg_entries(targets.drop_last(), dir);
    }
}

/// Whether no group counts more targets than one before it.
pub open spec fn groups_sorted(groups: Seq<ModulePkgGroupView>) -> bool {
    forall|i: int|
        0 <= i < groups.len() - 1 ==> group_total(#[trigger] groups[i]) >= group_total(groups[i + 1])
}

/// Putting a group in its place keeps the groups sorted, and adds that
/// group to them and nothing else.
pub proof fn lemma_place_group(sorted: Seq<ModulePkgGroupView>, group: ModulePkgGroupView)
    requires
        groups_sorted(sorted),
    ensures
        groups_sorted(place_group(sorted, group)),
        place_group(sorted, group).len() == sorted.len() + 1,
        place_group(sorted, group).to_multiset() == sorted.to_multiset().insert(group),
        sorted.len() > 0 ==> place_group(sorted, group)[0] == sorted[0] || (place_group(
            sorted,
            group,
        )[0] == group && group_total(group) > group_total(sorted[0])),
    decreases sorted.len(),
{
    broadcast use vstd::seq_lib::group_to_multiset_ensures;

    let after = place_group(sorted, group);
    if sorted.len() == 0 {
        assert(after =~= sorted.push(group));
    } else if group_total(sorted[0]) < group_total(group) {
        assert forall|i: int| 0 <= i < after.len() - 1 implies group_total(#[trigger] after[i])
            >= group_total(after[i + 1]) by {
            if i > 0 {
                assert(after[i] == sorted[i - 1]);
                assert(after[i + 1] == sorted[i]);
            }
        }
        assert(after =~= sorted.insert(0, group));
        vstd::seq_lib::to_multiset_insert(sorted, 0, group);
    } else {
        let rest = sorted.drop_first();
        let tail = place_group(rest, group);
        assert forall|i: int| 0 <= i < rest.len() - 1 implies group_total(#[trigger] rest[i])
            >= group_total(rest[i + 1]) by {
            assert(rest[i] == sorted[i + 1]);
            assert(rest[i + 1] == sorted[i + 2]);
        }
        lemma_place_group(rest, group);
        assert forall|i: int| 0 <= i < after.len() - 1 implies group_total(#[trigger] after[i])
            >= group_total(after[i + 1]) by {
            if i == 0 {
                assert(after[1] == tail[0]);
                if rest.len() > 0 && tail[0] == rest[0] {
                    assert(rest[0] == sorted[1]);
                }
            } else {
                assert(after[i] == tail[i - 1]);
                assert(after[i + 1] == tail[i]);
            }
        }
        assert(after =~= tail.insert(0, sorted[0]));
        assert(sorted =~= rest.insert(0, sorted[0]));
        vstd::seq_lib::to_multiset_insert(tail, 0, sorted[0]);
        vstd::seq_lib::to_multiset_insert(rest, 0, sorted[0]);
        assert(after.to_multiset() =~= sorted.to_multiset().insert(group));
    }
}

/// Sorting keeps every group, each as often as it was there, and puts the
/// groups that count most targets first.
pub proof fn lemma_sort_groups(groups: Seq<ModulePkgGroupView>)
    ensures
        groups_sorted(sort_groups(groups)),
        sort_groups(groups).len() == groups.len(),
        sort_groups(groups).to_multiset() == groups.to_multiset(),
    decreases groups.len(),
{
    broadcast use vstd::seq_lib::group_to_multiset_ensures;

    if groups.len() > 0 {
        let rest = groups.drop_last();
        lemma_sort_groups(rest);
        lemma_place_group(sort_groups(rest), groups.last());
        assert(groups =~= rest.push(groups.last()));
    } else {
        assert(groups =~= Seq::empty());
    }
}

} // verus!
