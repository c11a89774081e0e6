//! Syntax trees as flat pre-order listings.
//!
//! A tree is held as the list of its nodes in pre-order, each with its depth
//! below the root. The subtree of a node is the run of deeper nodes that
//! follows it, so children, siblings and subtrees are found by index alone.

use crate::language::DetectedLanguage;
use crate::model::views;
use vstd::prelude::*;
use vstd::slice::slice_subrange;
use vstd::string::StringExecFns;
use vstd::string::StringSliceAdditionalSpecFns;
use vstd::utf8::{decode_utf8, encode_utf8, valid_utf8};

verus! {

broadcast use vstd::string::group_string_axioms;

/// One node of a syntax tree.
#[derive(Debug, Clone)]
pub struct SyntaxNode {
    /// The grammar's name for this sort of node.
    pub kind: String,
    /// The field of the parent under which this node hangs, if it has one.
    pub field: Option<String>,
    /// How far below the root the node lies; the root has depth 0.
    pub depth: usize,
    pub start_byte: usize,
    pub end_byte: usize,
    /// Row of the first character, counted from 0.
    pub start_row: usize,
    /// Row of the last character, counted from 0.
    pub end_row: usize,
}

/// The mathematical content of a [`SyntaxNode`].
pub struct NodeView {
    pub kind: Seq<char>,
    pub field: Option<Seq<char>>,
    pub depth: nat,
    pub start_byte: nat,
    pub end_byte: nat,
    pub start_row: nat,
    pub end_row: nat,
}

impl View for SyntaxNode {
    type V = NodeView;

    open spec fn view(&self) -> NodeView {
        NodeView {
            kind: self.kind@,
            field: match self.field {
                Some(f) => Some(f@),
                None => None,
            },
            depth: self.depth as nat,
            start_byte: self.start_byte as nat,
            end_byte: self.end_byte as nat,
            start_row: self.start_row as nat,
            end_row: self.end_row as nat,
        }
    }
}

/// Whether every row of `nodes` leaves room for a line number one above it.
pub open spec fn rows_fit(nodes: Seq<NodeView>) -> bool {
    forall|i: int|
        0 <= i < nodes.len() ==> (#[trigger] nodes[i]).start_row < usize::MAX && nodes[i].end_row
            < usize::MAX
}

/// The first index at or after `j` whose node is no deeper than `depth`; the
/// length of `nodes` if there is none.
pub open spec fn run_end(nodes: Seq<NodeView>, depth: nat, j: int) -> int
    decreases nodes.len() - j,
{
    if j < 0 || j >= nodes.len() {
        nodes.len() as int
    } else if nodes[j].depth <= depth {
        j
    } else {
        run_end(nodes, depth, j + 1)
    }
}

/// One past the last node of the subtree rooted at `i`.
pub open spec fn subtree_end(nodes: Seq<NodeView>, i: int) -> int {
    run_end(nodes, nodes[i].depth, i + 1)
}

/// `run_end` stays between its start and the end of the listing.
pub proof fn lemma_run_end_bounds(nodes: Seq<NodeView>, depth: nat, j: int)
    requires
        0 <= j <= nodes.len(),
    ensures
        j <= run_end(nodes, depth, j) <= nodes.len(),
        run_end(nodes, depth, j) < nodes.len() ==> nodes[run_end(nodes, depth, j)].depth <= depth,
    decreases nodes.len() - j,
{
    if j < nodes.len() && nodes[j].depth > depth {
        lemma_run_end_bounds(nodes, depth, j + 1);
    }
}

/// A subtree ends after its root and within the listing.
pub proof fn lemma_subtree_end_bounds(nodes: Seq<NodeView>, i: int)
    requires
        0 <= i < nodes.len(),
    ensures
        i < subtree_end(nodes, i) <= nodes.len(),
{
    lemma_run_end_bounds(nodes, nodes[i].depth, i + 1);
}

/// Every node strictly inside a run is deeper than the run's bound.
pub proof fn lemma_run_is_deeper(nodes: Seq<NodeView>, depth: nat, j: int, k: int)
    requires
        0 <= j <= k < run_end(nodes, depth, j),
        j <= nodes.len(),
    ensures
        k < nodes.len(),
        nodes[k].depth > depth,
        run_end(nodes, depth, k) == run_end(nodes, depth, j),
    decreases k - j,
{
    lemma_run_end_bounds(nodes, depth, j);
    if j < k {
        lemma_run_is_deeper(nodes, depth, j + 1, k);
    }
}

/// The subtree of a node inside another subtree ends within that subtree.
pub proof fn lemma_subtree_nested(nodes: Seq<NodeView>, i: int, c: int)
    requires
        0 <= i < c < subtree_end(nodes, i),
        i < nodes.len(),
    ensures
        c < subtree_end(nodes, c) <= subtree_end(nodes, i),
{
    let end = subtree_end(nodes, i);
    lemma_run_end_bounds(nodes, nodes[i].depth, i + 1);
    lemma_run_is_deeper(nodes, nodes[i].depth, i + 1, c);
    lemma_subtree_end_bounds(nodes, c);
    lemma_run_stops_early(nodes, nodes[c].depth, c + 1, end);
}

/// A run stops at the latest where a node no deeper than its bound stands.
pub proof fn lemma_run_stops_early(nodes: Seq<NodeView>, depth: nat, j: int, stop: int)
    requires
        0 <= j <= stop <= nodes.len(),
        stop < nodes.len() ==> nodes[stop].depth <= depth,
    ensures
        run_end(nodes, depth, j) <= stop,
    decreases stop - j,
{
    if j < stop && nodes[j].depth > depth {
        lemma_run_stops_early(nodes, depth, j + 1, stop);
    }
}

/// The sibling `c` and the siblings after it, up to `end`.
pub open spec fn siblings_from(nodes: Seq<NodeView>, c: int, end: int) -> Seq<usize>
    decreases end - c,
{
    if 0 <= c < end <= nodes.len() <= usize::MAX {
        let next = subtree_end(nodes, c);
        if c < next <= end {
            seq![c as usize] + siblings_from(nodes, next, end)
        } else {
            seq![c as usize]
        }
    } else {
        Seq::empty()
    }
}

/// The children of node `i`, in order; none when `i` is no node.
pub open spec fn child_indices(nodes: Seq<NodeView>, i: int) -> Seq<usize> {
    if 0 <= i < nodes.len() {
        siblings_from(nodes, i + 1, subtree_end(nodes, i))
    } else {
        Seq::empty()
    }
}

/// Each sibling listed lies between the start and the end of the run.
pub proof fn lemma_siblings_in_range(nodes: Seq<NodeView>, c: int, end: int)
    ensures
        forall|k: int|
            0 <= k < siblings_from(nodes, c, end).len() ==> c <= (#[trigger] siblings_from(
                nodes,
                c,
                end,
            )[k]) < end,
    decreases end - c,
{
    if 0 <= c < end <= nodes.len() <= usize::MAX {
        let next = subtree_end(nodes, c);
        if c < next <= end {
            let rest = siblings_from(nodes, next, end);
            lemma_siblings_in_range(nodes, next, end);
            let all = siblings_from(nodes, c, end);
            assert forall|k: int| 0 <= k < all.len() implies c <= (#[trigger] all[k]) < end by {
                if k > 0 {
                    assert(all[k] == rest[k - 1]);
                }
            }
        }
    }
}

/// Each child of `i` lies inside the subtree of `i`, after `i` itself.
pub proof fn lemma_children_in_range(nodes: Seq<NodeView>, i: int)
    ensures
        forall|k: int|
            0 <= k < child_indices(nodes, i).len() ==> i < (#[trigger] child_indices(nodes, i)[k])
                < subtree_end(nodes, i) && child_indices(nodes, i)[k] < nodes.len(),
{
    if 0 <= i < nodes.len() {
        lemma_subtree_end_bounds(nodes, i);
        lemma_siblings_in_range(nodes, i + 1, subtree_end(nodes, i));
    }
}

/// The first of `kids` that hangs under the field `name`.
pub open spec fn first_with_field(nodes: Seq<NodeView>, kids: Seq<usize>, name: Seq<char>) -> Option<
    usize,
>
    decreases kids.len(),
{
    if kids.len() == 0 {
        None
    } else if kids[0] < nodes.len() && nodes[kids[0] as int].field == Some(name) {
        Some(kids[0])
    } else {
        first_with_field(nodes, kids.drop_first(), name)
    }
}

/// The first of `kids` that is of the kind `kind`.
pub open spec fn first_of_kind(nodes: Seq<NodeView>, kids: Seq<usize>, kind: Seq<char>) -> Option<
    usize,
>
    decreases kids.len(),
{
    if kids.len() == 0 {
        None
    } else if kids[0] < nodes.len() && nodes[kids[0] as int].kind == kind {
        Some(kids[0])
    } else {
        first_of_kind(nodes, kids.drop_first(), kind)
    }
}

/// The first child of `i` that hangs under the field `name`.
pub open spec fn child_by_field(nodes: Seq<NodeView>, i: int, name: Seq<char>) -> Option<usize> {
    first_with_field(nodes, child_indices(nodes, i), name)
}

/// Scanning back from `j`: the nearest node of depth `depth` with nothing
/// shallower in between.
pub open spec fn prev_at_depth(nodes: Seq<NodeView>, depth: nat, j: int) -> Option<usize>
    decreases j + 1,
{
    if j < 0 || j >= nodes.len() {
        None
    } else if nodes[j].depth > depth {
        prev_at_depth(nodes, depth, j - 1)
    } else if nodes[j].depth == depth {
        Some(j as usize)
    } else {
        None
    }
}

/// The sibling just before node `i`, if it has one.
pub open spec fn prev_sibling(nodes: Seq<NodeView>, i: int) -> Option<usize> {
    if 0 <= i < nodes.len() {
        prev_at_depth(nodes, nodes[i].depth, i - 1)
    } else {
        None
    }
}

/// The text that the bytes `start..end` of `source` spell, if the range lies
/// in the source and holds whole characters.
pub open spec fn slice_text_checked(source: Seq<char>, start: int, end: int) -> Option<Seq<char>> {
    let bytes = encode_utf8(source);
    if 0 <= start <= end <= bytes.len() && valid_utf8(bytes.subrange(start, end)) {
        Some(decode_utf8(bytes.subrange(start, end)))
    } else {
        None
    }
}

/// The text that the bytes `start..end` of `source` spell; empty when the
/// range does not lie in the source or does not hold whole characters.
pub open spec fn slice_text(source: Seq<char>, start: int, end: int) -> Seq<char> {
    match slice_text_checked(source, start, end) {
        Some(text) => text,
        None => Seq::empty(),
    }
}

/// The source text that a node spans.
pub open spec fn node_text(source: Seq<char>, node: NodeView) -> Seq<char> {
    slice_text(source, node.start_byte as int, node.end_byte as int)
}

/// Decodes `bytes` as UTF-8. Stands for `core::str::from_utf8`: the result is
/// there exactly when the bytes are valid UTF-8, and then spells what they
/// decode to.
#[verifier::external_body]
fn text_from_utf8(bytes: &[u8]) -> (out: Option<&str>)
    ensures
        out is Some <==> valid_utf8(bytes@),
        out matches Some(s) ==> s@ == decode_utf8(bytes@),
{
    core::str::from_utf8(bytes).ok()
}

/// The text that the bytes `start..end` of `source` spell, if the range lies
/// in the source and holds whole characters.
pub fn try_text_between(source: &str, start: usize, end: usize) -> (out: Option<String>)
    ensures
        match out {
            Some(text) => slice_text_checked(source@, start as int, end as int) == Some(text@),
            None => slice_text_checked(source@, start as int, end as int) is None,
        },
{
    let bytes = source.as_bytes();
    if start <= end && end <= bytes.len() {
        match text_from_utf8(slice_subrange(bytes, start, end)) {
            Some(s) => Some(String::from_str(s)),
            None => None,
        }
    } else {
        None
    }
}

/// The text that the bytes `start..end` of `source` spell; empty when the
/// range does not lie in the source or does not hold whole characters.
pub fn text_between(source: &str, start: usize, end: usize) -> (out: String)
    ensures
        out@ == slice_text(source@, start as int, end as int),
{
    match try_text_between(source, start, end) {
        Some(text) => text,
        None => String::new(),
    }
}

/// A parsed document, as the parser hands it out.
#[verifier::external_type_specification]
#[verifier::external_body]
pub struct ExTree(tree_sitter::Tree);

/// The nodes of a parsed document in pre-order, the root first, each with
/// its depth below the root.
pub uninterp spec fn tree_nodes(tree: tree_sitter::Tree) -> Seq<NodeView>;

/// What the parser makes of `source` under the grammar of `language`: the
/// nodes of the document in pre-order, or nothing where it gives no document.
pub uninterp spec fn syntax_of(source: Seq<char>, language: DetectedLanguage) -> Option<
    Seq<NodeView>,
>;

/// Parses `source` with a fresh parser set to the grammar of `language`.
/// Stands for `tree_sitter::Parser::parse` after `Parser::set_language`: the
/// outcome depends on the text and the grammar alone, and `syntax_of` names
/// it. Nothing is claimed about when a document comes back.
#[verifier::external_body]
fn ts_parse(source: &str, language: &DetectedLanguage) -> (out: Option<tree_sitter::Tree>)
    ensures
        match out {
            Some(tree) => syntax_of(source@, *language) == Some(tree_nodes(tree)),
            None => syntax_of(source@, *language) is None,
        },
{
    let mut parser = tree_sitter::Parser::new();
    parser.set_language(&language.tree_sitter_language()).ok()?;
    parser.parse(source, None)
}

/// The number of nodes in a parsed document. Stands for
/// `tree_sitter::Node::descendant_count` on the root, which counts the root
/// and everything below it.
#[verifier::external_body]
fn ts_len(tree: &tree_sitter::Tree) -> (n: usize)
    ensures
        n == tree_nodes(*tree).len(),
{
    tree.root_node().descendant_count()
}

/// The node at pre-order position `index` of a parsed document. Stands for
/// `tree_sitter::TreeCursor::goto_descendant` from the root, and reads the
/// node's kind, field, depth, byte range and rows there.
#[verifier::external_body]
fn ts_node(tree: &tree_sitter::Tree, index: usize) -> (out: SyntaxNode)
    requires
        index < tree_nodes(*tree).len(),
    ensures
        out@ == tree_nodes(*tree)[index as int],
{
    let mut cursor = tree.walk();
    cursor.goto_descendant(index);
    let node = cursor.node();
    SyntaxNode {
        kind: node.kind().to_string(),
        field: cursor.field_name().map(str::to_string),
        depth: cursor.depth() as usize,
        start_byte: node.start_byte(),
        end_byte: node.end_byte(),
        start_row: node.start_position().row,
        end_row: node.end_position().row,
    }
}

/// The tree that parsing gives, kept only if its rows leave room for line
/// numbers.
pub open spec fn parsed_tree(source: Seq<char>, language: DetectedLanguage) -> Option<
    Seq<NodeView>,
> {
    match syntax_of(source, language) {
        Some(nodes) => if rows_fit(nodes) {
            Some(nodes)
        } else {
            None
        },
        None => None,
    }
}

/// Parses `source` under the grammar of `language` and lists the nodes of
/// the document in pre-order.
pub fn parse_file(source: &str, language: &DetectedLanguage) -> (out: Option<SyntaxTree>)
    ensures
        match out {
            Some(tree) => parsed_tree(source@, *language) == Some(tree@),
            None => parsed_tree(source@, *language) is None,
        },
{
    match ts_parse(source, language) {
        None => None,
        Some(tree) => {
            let n = ts_len(&tree);
            let mut nodes: Vec<SyntaxNode> = Vec::new();
            let mut i: usize = 0;
            while i < n
                invariant
                    i <= n,
                    n == tree_nodes(tree).len(),
                    views(nodes@) == tree_nodes(tree).take(i as int),
                decreases n - i,
            {
                let node = ts_node(&tree, i);
                proof {
                    crate::model::lemma_views_push(nodes@, node);
                    assert(tree_nodes(tree).take(i + 1) =~= tree_nodes(tree).take(i as int).push(
                        tree_nodes(tree)[i as int],
                    ));
                }
                nodes.push(node);
                i += 1;
            }
            assert(tree_nodes(tree).take(i as int) =~= tree_nodes(tree));
            SyntaxTree::from_nodes(nodes)
        },
    }
}

/// A syntax tree: its nodes in pre-order, each with its depth.
#[derive(Debug)]
pub struct SyntaxTree {
    nodes: Vec<SyntaxNode>,
}

impl View for SyntaxTree {
    type V = Seq<NodeView>;

    closed spec fn view(&self) -> Seq<NodeView> {
        views(self.nodes@)
    }
}

impl SyntaxTree {
    #[verifier::type_invariant]
    spec fn rows_leave_room(&self) -> bool {
        rows_fit(views(self.nodes@))
    }

    /// The tree with the given nodes, unless a row is too large to be
    /// turned into a line number.
    pub fn from_nodes(nodes: Vec<SyntaxNode>) -> (out: Option<SyntaxTree>)
        ensures
            out is Some <==> rows_fit(views(nodes@)),
            out matches Some(tree) ==> tree@ == views(nodes@),
    {
        let mut i: usize = 0;
        while i < nodes.len()
            invariant
                i <= nodes.len(),
                rows_fit(views(nodes@).take(i as int)),
            decreases nodes.len() - i,
        {
            if nodes[i].start_row == usize::MAX || nodes[i].end_row == usize::MAX {
                assert(!(views(nodes@)[i as int].start_row < usize::MAX && views(nodes@)[i as int].end_row < usize::MAX));
                return None;
            }
            assert forall|k: int| 0 <= k < i + 1 implies (#[trigger] views(nodes@).take(i + 1)[k]).start_row
                < usize::MAX && views(nodes@).take(i + 1)[k].end_row < usize::MAX by {
                if k < i {
                    assert(views(nodes@).take(i as int)[k] == views(nodes@).take(i + 1)[k]);
                }
            }
            i += 1;
        }
        assert(views(nodes@).take(i as int) =~= views(nodes@));
        Some(SyntaxTree { nodes })
    }

    /// The number of nodes.
    pub fn len(&self) -> (n: usize)
        ensures
            n == self@.len(),
    {
        self.nodes.len()
    }

    /// The node at index `i`.
    pub fn node(&self, i: usize) -> (node: &SyntaxNode)
        requires
            i < self@.len(),
        ensures
            node@ == self@[i as int],
    {
        &self.nodes[i]
    }

    /// One past the last node of the subtree rooted at `i`.
    pub fn subtree_end(&self, i: usize) -> (end: usize)
        requires
            i < self@.len(),
        ensures
            end == subtree_end(self@, i as int),
    {
        let n = self.nodes.len();
        assert(self@.len() == n);
        let depth = self.nodes[i].depth;
        let mut j: usize = i + 1;
        while j < self.nodes.len() && self.nodes[j].depth > depth
            invariant
                i < j <= self.nodes.len(),
                depth == self@[i as int].depth,
                self@ == views(self.nodes@),
                subtree_end(self@, i as int) == run_end(self@, depth as nat, j as int),
            decreases self.nodes.len() - j,
        {
            j += 1;
        }
        j
    }

    /// The children of node `i`, in order.
    pub fn children(&self, i: usize) -> (kids: Vec<usize>)
        ensures
            kids@ == child_indices(self@, i as int),
    {
        let mut kids: Vec<usize> = Vec::new();
        if i >= self.nodes.len() {
            return kids;
        }
        let n = self.nodes.len();
        assert(self@.len() == n);
        let end = self.subtree_end(i);
        proof {
            lemma_subtree_end_bounds(self@, i as int);
        }
        let mut c: usize = i + 1;
        while c < end
            invariant
                i < c <= end <= self@.len() <= usize::MAX,
                end == subtree_end(self@, i as int),
                child_indices(self@, i as int) == kids@ + siblings_from(self@, c as int, end as int),
            decreases end - c,
        {
            let next = self.subtree_end(c);
            proof {
                lemma_subtree_nested(self@, i as int, c as int);
                assert(kids@.push(c) + siblings_from(self@, next as int, end as int) =~= kids@ + (
                seq![c] + siblings_from(self@, next as int, end as int)));
            }
            kids.push(c);
            c = next;
        }
        assert(kids@ + Seq::<usize>::empty() =~= kids@);
        kids
    }

    /// The first child of node `i` that hangs under the field `name`.
    pub fn child_by_field(&self, i: usize, name: &str) -> (found: Option<usize>)
        ensures
            found == child_by_field(self@, i as int, name@),
            found matches Some(c) ==> c < self@.len(),
    {
        let kids = self.children(i);
        proof {
            lemma_children_in_range(self@, i as int);
        }
        let mut k: usize = 0;
        assert(kids@.skip(0) =~= kids@);
        while k < kids.len()
            invariant
                k <= kids.len(),
                kids@ == child_indices(self@, i as int),
                self@ == views(self.nodes@),
                forall|n: int| 0 <= n < kids.len() ==> (#[trigger] kids@[n]) < self@.len(),
                child_by_field(self@, i as int, name@) == first_with_field(
                    self@,
                    kids@.skip(k as int),
                    name@,
                ),
            decreases kids.len() - k,
        {
            let c = kids[k];
            assert(kids@.skip(k as int)[0] == c);
            assert(kids@.skip(k as int).drop_first() =~= kids@.skip(k + 1));
            let hit = match &self.nodes[c].field {
                Some(f) => crate::text::str_eq(f.as_str(), name),
                None => false,
            };
            if hit {
                return Some(c);
            }
            k += 1;
        }
        None
    }

    /// The sibling just before node `i`, if it has one.
    pub fn prev_sibling(&self, i: usize) -> (found: Option<usize>)
        ensures
            found == prev_sibling(self@, i as int),
            found matches Some(p) ==> p < i && p < self@.len(),
    {
        if i >= self.nodes.len() {
            return None;
        }
        let depth = self.nodes[i].depth;
        let mut j: usize = i;
        while j > 0
            invariant
                j <= i < self.nodes.len(),
                depth == self@[i as int].depth,
                self@ == views(self.nodes@),
                prev_sibling(self@, i as int) == prev_at_depth(self@, depth as nat, j - 1),
            decreases j,
        {
            let d = self.nodes[j - 1].depth;
            if d == depth {
                return Some(j - 1);
            }
            if d < depth {
                return None;
            }
            j -= 1;
        }
        None
    }

    /// The source text that node `i` spans.
    pub fn text_of(&self, source: &str, i: usize) -> (out: String)
        requires
            i < self@.len(),
        ensures
            out@ == node_text(source@, self@[i as int]),
    {
        text_between(source, self.nodes[i].start_byte, self.nodes[i].end_byte)
    }

    /// The first of the nodes `among` that is of the kind `kind`.
    pub fn find_kind(&self, among: &Vec<usize>, kind: &str) -> (found: Option<usize>)
        ensures
            found == first_of_kind(self@, among@, kind@),
            found matches Some(c) ==> c < self@.len(),
    {
        let mut k: usize = 0;
        assert(among@.skip(0) =~= among@);
        while k < among.len()
            invariant
                k <= among.len(),
                self@ == views(self.nodes@),
                first_of_kind(self@, among@, kind@) == first_of_kind(
                    self@,
                    among@.skip(k as int),
                    kind@,
                ),
            decreases among.len() - k,
        {
            let c = among[k];
            assert(among@.skip(k as int)[0] == c);
            assert(among@.skip(k as int).drop_first() =~= among@.skip(k + 1));
            if c < self.nodes.len() && crate::text::str_eq(self.nodes[c].kind.as_str(), kind) {
                return Some(c);
            }
            k += 1;
        }
        None
    }

    /// The line on which node `i` starts, counted from 1.
    pub fn start_line(&self, i: usize) -> (line: usize)
        requires
            i < self@.len(),
        ensures
            line == self@[i as int].start_row + 1,
    {
        proof {
            use_type_invariant(self);
        }
        self.nodes[i].start_row + 1
    }

    /// The line on which node `i` ends, counted from 1.
    pub fn end_line(&self, i: usize) -> (line: usize)
        requires
            i < self@.len(),
        ensures
            line == self@[i as int].end_row + 1,
    {
        proof {
            use_type_invariant(self);
        }
        self.nodes[i].end_row + 1
    }

    /// Whether node `i` is of the kind `kind`.
    pub fn kind_is(&self, i: usize, kind: &str) -> (yes: bool)
        requires
            i < self@.len(),
        ensures
            yes == (self@[i as int].kind == kind@),
    {
        crate::text::str_eq(self.nodes[i].kind.as_str(), kind)
    }
}

} // verus!
