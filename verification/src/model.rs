//! The entity graph: declared program elements and the edges between them.

use vstd::prelude::*;

verus! {

/// What sort of program element an entity is.
#[derive(Debug, Clone, Copy, PartialEq, Eq, Hash, Structural)]
pub enum EntityKind {
    Function,
    Method,
    Struct,
    Interface,
    TypeAlias,
    Constant,
    Variable,
    Import,
    Package,
    Class,
    Enum,
    Trait,
    Module,
}

impl EntityKind {
    /// The label of a kind, as a character sequence.
    pub open spec fn label_text(self) -> Seq<char> {
        match self {
            EntityKind::Function => "function"@,
            EntityKind::Method => "method"@,
            EntityKind::Struct => "struct"@,
            EntityKind::Interface => "interface"@,
            EntityKind::TypeAlias => "type"@,
            EntityKind::Constant => "const"@,
            EntityKind::Variable => "var"@,
            EntityKind::Import => "import"@,
            EntityKind::Package => "package"@,
            EntityKind::Class => "class"@,
            EntityKind::Enum => "enum"@,
            EntityKind::Trait => "trait"@,
            EntityKind::Module => "module"@,
        }
    }

    /// Whether the kind counts as callable code when references are tallied.
    pub open spec fn is_callable(self) -> bool {
        self == EntityKind::Function || self == EntityKind::Method
    }

    /// The short lower-case label shown for this kind.
    pub fn label(&self) -> (out: &'static str)
        ensures
            out@ == self.label_text(),
    {
        match self {
            EntityKind::Function => "function",
            EntityKind::Method => "method",
            EntityKind::Struct => "struct",
            EntityKind::Interface => "interface",
            EntityKind::TypeAlias => "type",
            EntityKind::Constant => "const",
            EntityKind::Variable => "var",
            EntityKind::Import => "import",
            EntityKind::Package => "package",
            EntityKind::Class => "class",
            EntityKind::Enum => "enum",
            EntityKind::Trait => "trait",
            EntityKind::Module => "module",
        }
    }
}

/// No label of a kind holds a colon, and no two kinds share a label.
pub proof fn lemma_labels(a: EntityKind, b: EntityKind)
    ensures
        !a.label_text().contains(':'),
        a.label_text() == b.label_text() ==> a == b,
{
    reveal_strlit("function");
    reveal_strlit("method");
    reveal_strlit("struct");
    reveal_strlit("interface");
    reveal_strlit("type");
    reveal_strlit("const");
    reveal_strlit("var");
    reveal_strlit("import");
    reveal_strlit("package");
    reveal_strlit("class");
    reveal_strlit("enum");
    reveal_strlit("trait");
    reveal_strlit("module");
    let x = a.label_text();
    let y = b.label_text();
    if x == y {
        assert(x.len() == y.len());
        assert(x[0] == y[0]);
        assert(x[1] == y[1]);
        assert(x[2] == y[2]);
    }
    if x.contains(':') {
        let i = choose|i: int| 0 <= i < x.len() && x[i] == ':';
        assert(x[i] == ':');
    }
}

/// One declared program element.
#[derive(Debug, Clone)]
pub struct Entity {
    pub id: String,
    pub name: String,
    pub kind: EntityKind,
    pub file: String,
    pub line: usize,
    pub end_line: usize,
    pub source: String,
    pub signature: String,
    pub package: String,
    pub doc_comment: String,
}

/// The mathematical content of an [`Entity`].
pub struct EntityView {
    pub id: Seq<char>,
    pub name: Seq<char>,
    pub kind: EntityKind,
    pub file: Seq<char>,
    pub line: nat,
    pub end_line: nat,
    pub source: Seq<char>,
    pub signature: Seq<char>,
    pub package: Seq<char>,
    pub doc_comment: Seq<char>,
}

impl View for Entity {
    type V = EntityView;

    open spec fn view(&self) -> EntityView {
        EntityView {
            id: self.id@,
            name: self.name@,
            kind: self.kind,
            file: self.file@,
            line: self.line as nat,
            end_line: self.end_line as nat,
            source: self.source@,
            signature: self.signature@,
            package: self.package@,
            doc_comment: self.doc_comment@,
        }
    }
}

impl Entity {
    /// A copy with the same content.
    pub fn duplicate(&self) -> (out: Entity)
        ensures
            out@ == self@,
    {
        Entity {
            id: self.id.clone(),
            name: self.name.clone(),
            kind: self.kind,
            file: self.file.clone(),
            line: self.line,
            end_line: self.end_line,
            source: self.source.clone(),
            signature: self.signature.clone(),
            package: self.package.clone(),
            doc_comment: self.doc_comment.clone(),
        }
    }
}

/// What an edge between two entities says.
#[derive(Debug, Clone, Copy, PartialEq, Eq, Hash, Structural)]
pub enum RelationKind {
    Calls,
    CalledBy,
    References,
    ReferencedBy,
    Contains,
    ContainedBy,
    Implements,
    ImplementedBy,
    Returns,
    Accepts,
}

/// A directed edge from one entity to another.
#[derive(Debug, Clone)]
pub struct Relation {
    pub from_id: String,
    pub to_id: String,
    pub kind: RelationKind,
}

/// The mathematical content of a [`Relation`].
pub struct RelationView {
    pub from_id: Seq<char>,
    pub to_id: Seq<char>,
    pub kind: RelationKind,
}

impl View for Relation {
    type V = RelationView;

    open spec fn view(&self) -> RelationView {
        RelationView { from_id: self.from_id@, to_id: self.to_id@, kind: self.kind }
    }
}

/// All entities and relations of one loaded repository.
#[derive(Debug, Clone)]
pub struct EntityGraph {
    pub entities: Vec<Entity>,
    pub relations: Vec<Relation>,
}

/// The mathematical content of an [`EntityGraph`].
pub struct GraphView {
    pub entities: Seq<EntityView>,
    pub relations: Seq<RelationView>,
}

impl View for EntityGraph {
    type V = GraphView;

    open spec fn view(&self) -> GraphView {
        GraphView { entities: views(self.entities@), relations: views(self.relations@) }
    }
}

/// The views of the items of `s`, in order.
pub open spec fn views<T: View>(s: Seq<T>) -> Seq<T::V> {
    Seq::new(s.len(), |i: int| s[i]@)
}

/// Pushing an item pushes its view.
pub proof fn lemma_views_push<T: View>(s: Seq<T>, x: T)
    ensures
        views(s.push(x)) == views(s).push(x@),
{
    assert(views(s.push(x)) =~= views(s).push(x@));
}

/// A copy of `items` with the same content.
pub fn duplicate_entities(items: &Vec<Entity>) -> (out: Vec<Entity>)
    ensures
        views(out@) == views(items@),
{
    let mut out: Vec<Entity> = Vec::new();
    let mut i: usize = 0;
    while i < items.len()
        invariant
            i <= items.len(),
            views(out@) == views(items@.take(i as int)),
        decreases items.len() - i,
    {
        let e = items[i].duplicate();
        proof {
            lemma_views_push(out@, e);
            assert(items@.take(i + 1) =~= items@.take(i as int).push(items@[i as int]));
            lemma_views_push(items@.take(i as int), items@[i as int]);
        }
        out.push(e);
        i += 1;
    }
    assert(items@.take(i as int) =~= items@);
    out
}

} // verus!
