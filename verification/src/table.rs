//! Small lookup tables keyed by text.
//!
//! Both tables keep their entries in the order in which they came, and are
//! read by going through them. They are lists and not hash maps because
//! vstd specifies a hash map only for keys whose hashing it models, which
//! are the integers; of a map keyed by text nothing could be proved, not
//! even that a key just inserted is there.

use crate::model::{views, Entity, EntityView};
use crate::text::str_eq;
use vstd::prelude::*;

verus! {

broadcast use vstd::string::group_string_axioms;

/// One step in the life of a [`TextMap`]: a key set to a value, or removed.
#[derive(Debug, Clone)]
pub struct Binding {
    pub key: String,
    pub value: Option<String>,
}

/// The mathematical content of a [`Binding`].
pub struct BindingView {
    pub key: Seq<char>,
    pub value: Option<Seq<char>>,
}

impl View for Binding {
    type V = BindingView;

    open spec fn view(&self) -> BindingView {
        BindingView {
            key: self.key@,
            value: match self.value {
                Some(v) => Some(v@),
                None => None,
            },
        }
    }
}

/// The map that a sequence of bindings leaves behind: each key with the value
/// that it was last set to, unless it was removed after that.
pub open spec fn replay(log: Seq<BindingView>) -> Map<Seq<char>, Seq<char>>
    decreases log.len(),
{
    if log.len() == 0 {
        Map::empty()
    } else {
        let before = replay(log.drop_last());
        match log.last().value {
            Some(v) => before.insert(log.last().key, v),
            None => before.remove(log.last().key),
        }
    }
}

/// What `map` holds under `key`, if anything.
pub open spec fn lookup(map: Map<Seq<char>, Seq<char>>, key: Seq<char>) -> Option<Seq<char>> {
    if map.contains_key(key) {
        Some(map[key])
    } else {
        None
    }
}

/// A map from text to text.
#[derive(Debug)]
pub struct TextMap {
    log: Vec<Binding>,
}

impl View for TextMap {
    type V = Map<Seq<char>, Seq<char>>;

    closed spec fn view(&self) -> Map<Seq<char>, Seq<char>> {
        replay(views(self.log@))
    }
}

impl TextMap {
    /// The empty map.
    pub fn new() -> (out: TextMap)
        ensures
            out@ == Map::<Seq<char>, Seq<char>>::empty(),
    {
        let out = TextMap { log: Vec::new() };
        assert(views(out.log@) =~= Seq::<BindingView>::empty());
        out
    }

    /// Sets `key` to `value`, in place of what it was set to before.
    pub fn insert(&mut self, key: String, value: String)
        ensures
            final(self)@ == old(self)@.insert(key@, value@),
    {
        let binding = Binding { key, value: Some(value) };
        proof {
            crate::model::lemma_views_push(self.log@, binding);
            assert(views(self.log@).push(binding@).drop_last() =~= views(self.log@));
        }
        self.log.push(binding);
    }

    /// Removes `key`, if it is there.
    pub fn remove(&mut self, key: String)
        ensures
            final(self)@ == old(self)@.remove(key@),
    {
        let binding = Binding { key, value: None };
        proof {
            crate::model::lemma_views_push(self.log@, binding);
            assert(views(self.log@).push(binding@).drop_last() =~= views(self.log@));
        }
        self.log.push(binding);
    }

    /// What the map holds under `key`.
    pub fn get(&self, key: &str) -> (out: Option<&String>)
        ensures
            match out {
                Some(value) => lookup(self@, key@) == Some(value@),
                None => lookup(self@, key@) is None,
            },
    {
        let ghost full = views(self.log@);
        let mut j: usize = self.log.len();
        assert(full.take(j as int) =~= full);
        while j > 0
            invariant
                j <= self.log.len(),
                full == views(self.log@),
                lookup(replay(full), key@) == lookup(replay(full.take(j as int)), key@),
            decreases j,
        {
            assert(full.take(j as int).drop_last() =~= full.take(j - 1));
            assert(full.take(j as int).last() == self.log@[j - 1]@);
            if str_eq(self.log[j - 1].key.as_str(), key) {
                return match &self.log[j - 1].value {
                    Some(v) => Some(v),
                    None => None,
                };
            }
            j -= 1;
        }
        None
    }

    /// Whether the map holds anything under `key`.
    pub fn contains_key(&self, key: &str) -> (yes: bool)
        ensures
            yes == self@.contains_key(key@),
    {
        self.get(key).is_some()
    }

    /// The number of steps on record.
    pub fn steps(&self) -> (n: usize)
        ensures
            n == self.log_view().len(),
    {
        self.log.len()
    }

    /// The step at position `i`.
    pub fn step(&self, i: usize) -> (binding: &Binding)
        requires
            i < self.log_view().len(),
        ensures
            binding@ == self.log_view()[i as int],
    {
        &self.log[i]
    }

    /// The steps that made the map, in order.
    pub closed spec fn log_view(&self) -> Seq<BindingView> {
        views(self.log@)
    }

    /// The map is what its steps leave behind.
    pub proof fn lemma_view_is_replay(&self)
        ensures
            self@ == replay(self.log_view()),
    {
    }
}

/// One entry of a [`NameIndex`]: an entity's name and its id.
#[derive(Debug, Clone)]
pub struct NameEntry {
    pub name: String,
    pub id: String,
}

/// The mathematical content of a [`NameEntry`].
pub struct NameEntryView {
    pub name: Seq<char>,
    pub id: Seq<char>,
}

impl View for NameEntry {
    type V = NameEntryView;

    open spec fn view(&self) -> NameEntryView {
        NameEntryView { name: self.name@, id: self.id@ }
    }
}

/// The names and ids of `entities`, in order.
pub open spec fn names_of(entities: Seq<EntityView>) -> Seq<NameEntryView> {
    Seq::new(entities.len(), |i: int| NameEntryView { name: entities[i].name, id: entities[i].id })
}

/// The ids of all entities of a repository, listed by name in the order in
/// which the entities were found.
#[derive(Debug)]
pub struct NameIndex {
    entries: Vec<NameEntry>,
}

impl View for NameIndex {
    type V = Seq<NameEntryView>;

    closed spec fn view(&self) -> Seq<NameEntryView> {
        views(self.entries@)
    }
}

impl NameIndex {
    /// The index of no entities.
    pub fn new() -> (out: NameIndex)
        ensures
            out@ == Seq::<NameEntryView>::empty(),
    {
        let out = NameIndex { entries: Vec::new() };
        assert(views(out.entries@) =~= Seq::<NameEntryView>::empty());
        out
    }

    /// Lists `id` under `name`, after what is listed already.
    pub fn add(&mut self, name: String, id: String)
        ensures
            final(self)@ == old(self)@.push(NameEntryView { name: name@, id: id@ }),
    {
        let entry = NameEntry { name, id };
        proof {
            crate::model::lemma_views_push(self.entries@, entry);
        }
        self.entries.push(entry);
    }

    /// The index of `entities`.
    pub fn build(entities: &Vec<Entity>) -> (out: NameIndex)
        ensures
            out@ == names_of(views(entities@)),
    {
        let mut out = NameIndex::new();
        let mut i: usize = 0;
        while i < entities.len()
            invariant
                i <= entities.len(),
                out@ == names_of(views(entities@)).take(i as int),
            decreases entities.len() - i,
        {
            out.add(entities[i].name.clone(), entities[i].id.clone());
            assert(out@ =~= names_of(views(entities@)).take(i + 1));
            i += 1;
        }
        assert(names_of(views(entities@)).take(i as int) =~= names_of(views(entities@)));
        out
    }

    /// The number of entries.
    pub fn len(&self) -> (n: usize)
        ensures
            n == self@.len(),
    {
        self.entries.len()
    }

    /// The entry at position `i`.
    pub fn entry(&self, i: usize) -> (entry: &NameEntry)
        requires
            i < self@.len(),
        ensures
            entry@ == self@[i as int],
    {
        &self.entries[i]
    }
}

} // verus!
