//! The executable data types a parse produces: the sprite table of an
//! actor, the actor record, and the pool of all declared actors. Each is
//! viewed as its mathematical counterpart from [`crate::model`], and the
//! tables keep their keys pairwise distinct.

use crate::assoc::assoc_map;
use crate::assoc::distinct_keys;
use crate::assoc::lemma_assoc_map_contains;
use crate::assoc::lemma_assoc_map_index;
use crate::assoc::lemma_assoc_map_len;
use crate::assoc::lemma_assoc_map_push;
use crate::assoc::lemma_assoc_map_update;
use crate::model::ActorSpec;
use crate::model::default_actor;
use crate::text::str_eq;
use vstd::prelude::*;

verus! {

/// The sprite table of an actor: a mapping from sprite label to image
/// path.
#[derive(Debug, PartialEq, Eq)]
pub struct SpriteMap {
    pub(crate) entries: Vec<(String, String)>,
}

impl View for SpriteMap {
    type V = Map<Seq<char>, Seq<char>>;

    closed spec fn view(&self) -> Map<Seq<char>, Seq<char>> {
        assoc_map(self.kvs())
    }
}

impl SpriteMap {
    /// The stored pairs, as character sequences.
    pub(crate) open spec fn kvs(&self) -> Seq<(Seq<char>, Seq<char>)> {
        self.entries@.map_values(|e: (String, String)| (e.0@, e.1@))
    }

    /// The labels stored are pairwise distinct.
    pub closed spec fn wf(&self) -> bool {
        distinct_keys(self.kvs())
    }

    /// A well-formed table has pairwise-distinct labels and denotes the
    /// map its pairs spell out.
    pub(crate) proof fn lemma_repr(&self)
        requires
            self.wf(),
        ensures
            distinct_keys(self.kvs()),
            self@ == assoc_map(self.kvs()),
    {
    }

    /// An empty sprite table.
    pub fn new() -> (r: SpriteMap)
        ensures
            r@ == Map::<Seq<char>, Seq<char>>::empty(),
            r.wf(),
    {
        let r = SpriteMap { entries: Vec::new() };
        proof {
            assert(r.kvs() =~= Seq::<(Seq<char>, Seq<char>)>::empty());
        }
        r
    }

    /// How many sprites the table holds.
    pub fn len(&self) -> (n: usize)
        requires
            self.wf(),
        ensures
            n == self@.dom().len(),
    {
        proof {
            lemma_assoc_map_len(self.kvs());
        }
        self.entries.len()
    }

    /// The position of the entry labelled `key`, if any.
    fn find_index(&self, key: &str) -> (r: Option<usize>)
        ensures
            match r {
                Some(i) => i < self.entries@.len() && self.entries@[i as int].0@ == key@,
                None => forall|i: int| 0 <= i < self.entries@.len() ==> self.entries@[i].0@ != key@,
            },
    {
        let mut i: usize = 0;
        while i < self.entries.len()
            invariant
                i <= self.entries@.len(),
                forall|j: int| 0 <= j < i ==> self.entries@[j].0@ != key@,
            decreases self.entries@.len() - i,
        {
            if str_eq(self.entries[i].0.as_str(), key) {
                return Some(i);
            }
            i += 1;
        }
        None
    }

    /// Whether a sprite is stored under `key`.
    pub fn contains_key(&self, key: &str) -> (r: bool)
        ensures
            r == self@.contains_key(key@),
    {
        proof {
            lemma_assoc_map_contains(self.kvs(), key@);
        }
        match self.find_index(key) {
            Some(i) => {
                proof {
                    assert(self.kvs()[i as int].0 == key@);
                }
                true
            },
            None => {
                proof {
                    assert forall|j: int| 0 <= j < self.kvs().len() implies self.kvs()[j].0
                        != key@ by {
                        assert(self.kvs()[j].0 == self.entries@[j].0@);
                    }
                }
                false
            },
        }
    }

    /// The path stored under `key`, if any.
    pub fn get(&self, key: &str) -> (r: Option<&String>)
        requires
            self.wf(),
        ensures
            match r {
                Some(v) => self@.contains_key(key@) && v@ == self@[key@],
                None => !self@.contains_key(key@),
            },
    {
        match self.find_index(key) {
            Some(i) => {
                proof {
                    lemma_assoc_map_index(self.kvs(), i as int);
                }
                Some(&self.entries[i].1)
            },
            None => {
                proof {
                    lemma_assoc_map_contains(self.kvs(), key@);
                }
                None
            },
        }
    }

    /// Store a sprite; a repeated label silently overwrites the earlier
    /// path.
    pub fn insert(&mut self, key: String, value: String)
        requires
            old(self).wf(),
        ensures
            final(self).wf(),
            final(self)@ == old(self)@.insert(key@, value@),
    {
        let ghost old_kvs = self.kvs();
        match self.find_index(key.as_str()) {
            Some(i) => {
                self.entries[i] = (key, value);
                proof {
                    assert(self.kvs() =~= old_kvs.update(i as int, (old_kvs[i as int].0, value@)));
                    lemma_assoc_map_update(old_kvs, i as int, value@);
                }
            },
            None => {
                self.entries.push((key, value));
                proof {
                    assert(self.kvs() =~= old_kvs.push((key@, value@)));
                    lemma_assoc_map_push(old_kvs, key@, value@);
                    assert(distinct_keys(self.kvs()));
                }
            },
        }
    }
}

/// An actor record: its scalar `name` and its sprite table.
///
/// The `name` holds the assigned value trimmed but otherwise verbatim,
/// surrounding quotes included; only sprite paths are unquoted when a
/// map literal is decoded.
#[derive(Debug, PartialEq, Eq)]
pub struct Actor {
    pub name: String,
    pub sprites: SpriteMap,
}

impl View for Actor {
    type V = ActorSpec;

    open spec fn view(&self) -> ActorSpec {
        ActorSpec { name: self.name@, sprites: self.sprites@ }
    }
}

impl Actor {
    /// The record keeps its sprite labels distinct.
    pub open spec fn wf(&self) -> bool {
        self.sprites.wf()
    }
}

impl Default for Actor {
    /// A freshly declared actor: empty name, no sprites.
    fn default() -> (r: Actor)
        ensures
            r@ == default_actor(),
            r.wf(),
    {
        Actor { name: String::new(), sprites: SpriteMap::new() }
    }
}

/// The pool of declared actors: a mapping from actor id to record.
#[derive(Debug, PartialEq, Eq)]
pub struct ActorPool {
    pub(crate) entries: Vec<(String, Actor)>,
}

impl View for ActorPool {
    type V = Map<Seq<char>, ActorSpec>;

    closed spec fn view(&self) -> Map<Seq<char>, ActorSpec> {
        assoc_map(self.kvs())
    }
}

impl ActorPool {
    /// The stored pairs, as id and record views.
    pub(crate) open spec fn kvs(&self) -> Seq<(Seq<char>, ActorSpec)> {
        self.entries@.map_values(|e: (String, Actor)| (e.0@, e.1@))
    }

    /// Ids are pairwise distinct and every record is well formed.
    pub closed spec fn wf(&self) -> bool {
        &&& distinct_keys(self.kvs())
        &&& forall|i: int| 0 <= i < self.entries@.len() ==> (#[trigger] self.entries@[i].1).wf()
    }

    /// An empty pool.
    pub fn new() -> (r: ActorPool)
        ensures
            r@ == Map::<Seq<char>, ActorSpec>::empty(),
            r.wf(),
    {
        let r = ActorPool { entries: Vec::new() };
        proof {
            assert(r.kvs() =~= Seq::<(Seq<char>, ActorSpec)>::empty());
        }
        r
    }

    /// How many actors are declared.
    pub fn len(&self) -> (n: usize)
        requires
            self.wf(),
        ensures
            n == self@.dom().len(),
    {
        proof {
            lemma_assoc_map_len(self.kvs());
        }
        self.entries.len()
    }

    /// The position of the actor with this id, if any.
    fn find_index(&self, id: &str) -> (r: Option<usize>)
        ensures
            match r {
                Some(i) => i < self.entries@.len() && self.entries@[i as int].0@ == id@,
                None => forall|j: int| 0 <= j < self.entries@.len() ==> self.entries@[j].0@ != id@,
            },
    {
        let mut i: usize = 0;
        while i < self.entries.len()
            invariant
                i <= self.entries@.len(),
                forall|j: int| 0 <= j < i ==> self.entries@[j].0@ != id@,
            decreases self.entries@.len() - i,
        {
            if str_eq(self.entries[i].0.as_str(), id) {
                return Some(i);
            }
            i += 1;
        }
        None
    }

    /// Whether an actor with this id is declared.
    pub fn contains_key(&self, id: &str) -> (r: bool)
        ensures
            r == self@.contains_key(id@),
    {
        proof {
            lemma_assoc_map_contains(self.kvs(), id@);
        }
        match self.find_index(id) {
            Some(i) => {
                proof {
                    assert(self.kvs()[i as int].0 == id@);
                }
                true
            },
            None => {
                proof {
                    assert forall|j: int| 0 <= j < self.kvs().len() implies self.kvs()[j].0
                        != id@ by {
                        assert(self.kvs()[j].0 == self.entries@[j].0@);
                    }
                }
                false
            },
        }
    }

    /// The record of the actor with this id, if any.
    pub fn get(&self, id: &str) -> (r: Option<&Actor>)
        requires
            self.wf(),
        ensures
            match r {
                Some(a) => self@.contains_key(id@) && a@ == self@[id@] && a.wf(),
                None => !self@.contains_key(id@),
            },
    {
        match self.find_index(id) {
            Some(i) => {
                proof {
                    lemma_assoc_map_index(self.kvs(), i as int);
                }
                Some(&self.entries[i].1)
            },
            None => {
                proof {
                    lemma_assoc_map_contains(self.kvs(), id@);
                }
                None
            },
        }
    }

    /// Add an actor under an id the pool does not yet hold.
    pub(crate) fn push_new(&mut self, id: String, actor: Actor)
        requires
            old(self).wf(),
            actor.wf(),
            !old(self)@.contains_key(id@),
        ensures
            final(self).wf(),
            final(self)@ == old(self)@.insert(id@, actor@),
    {
        let ghost old_kvs = self.kvs();
        proof {
            lemma_assoc_map_contains(old_kvs, id@);
        }
        self.entries.push((id, actor));
        proof {
            assert(self.kvs() =~= old_kvs.push((id@, actor@)));
            lemma_assoc_map_push(old_kvs, id@, actor@);
            assert(distinct_keys(self.kvs()));
        }
    }
}

/// The typed parse errors, each carrying the offending text where there
/// is one.
#[derive(Debug, PartialEq, Eq)]
pub enum ParseError {
    /// A line opening with `[` that does not close with `]`.
    MalformedHeader,
    /// A header for an actor id that the pool already holds.
    DuplicateActor(String),
    /// A property line without an `=` separator.
    MissingAssignment,
    /// A property name holding a space character.
    InvalidPropertyName(String),
    /// A property name other than `name` or `sprites`.
    UnknownProperty(String),
    /// A map literal whose first entry is not `init:...`.
    MissingInitKey,
    /// A map entry without a colon, or whose value is too short to carry
    /// a surrounding quote pair.
    MalformedMapEntry(String),
    /// A property line before any header line.
    NoCurrentActor,
}

impl View for ParseError {
    type V = crate::model::ErrorSpec;

    open spec fn view(&self) -> crate::model::ErrorSpec {
        match self {
            ParseError::MalformedHeader => crate::model::ErrorSpec::MalformedHeader,
            ParseError::DuplicateActor(id) => crate::model::ErrorSpec::DuplicateActor(id@),
            ParseError::MissingAssignment => crate::model::ErrorSpec::MissingAssignment,
            ParseError::InvalidPropertyName(n) => crate::model::ErrorSpec::InvalidPropertyName(n@),
            ParseError::UnknownProperty(n) => crate::model::ErrorSpec::UnknownProperty(n@),
            ParseError::MissingInitKey => crate::model::ErrorSpec::MissingInitKey,
            ParseError::MalformedMapEntry(t) => crate::model::ErrorSpec::MalformedMapEntry(t@),
            ParseError::NoCurrentActor => crate::model::ErrorSpec::NoCurrentActor,
        }
    }
}

} // verus!
