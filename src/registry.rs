//! The registry of connections: one per language scope, each with an id that
//! no other connection of the registry has.
use vstd::prelude::*;
use crate::assoc::{
    assoc_map, has_key, keys_unique, lemma_assoc_absent, lemma_assoc_at, lemma_assoc_empty,
    lemma_assoc_push,
};
use crate::{Error, Result};

verus! {

/// What the registry found for a language scope.
#[derive(Clone, Copy, Debug, PartialEq, Eq, Structural)]
pub enum Lookup {
    /// A connection is registered under the scope, with this id.
    Existing(usize),
    /// No connection is registered; this id is reserved for the one to start.
    Start(usize),
}

/// The connections, keyed by language scope. `C` is the handle of a running
/// connection.
pub struct Registry<C> {
    inner: Vec<(String, usize, C)>,
    counter: usize,
}

spec fn entries<C>(s: Seq<(String, usize, C)>) -> Seq<(Seq<char>, (usize, C))> {
    s.map_values(|e: (String, usize, C)| (e.0@, (e.1, e.2)))
}

impl<C> View for Registry<C> {
    type V = Map<Seq<char>, (usize, C)>;

    closed spec fn view(&self) -> Map<Seq<char>, (usize, C)> {
        assoc_map(entries(self.inner@))
    }
}

impl<C> Registry<C> {
    /// Some scope holds connection `c`.
    pub open spec fn holds_client(&self, c: C) -> bool {
        exists|s: Seq<char>| #[trigger] self@.contains_key(s) && self@[s].1 == c
    }

    /// The id the next started connection will get.
    pub closed spec fn next_id_spec(&self) -> usize {
        self.counter
    }

    /// Scopes are distinct; ids are distinct and below the next id.
    pub closed spec fn wf(&self) -> bool {
        &&& keys_unique(entries(self.inner@))
        &&& forall|i: int, j: int|
            0 <= i < self.inner@.len() && 0 <= j < self.inner@.len() && #[trigger] self.inner@[i].1
                == #[trigger] self.inner@[j].1 ==> i == j
        &&& forall|i: int| 0 <= i < self.inner@.len() ==> #[trigger] self.inner@[i].1 < self.counter
    }

    pub fn new() -> (r: Registry<C>)
        ensures
            r.wf(),
            r@ == Map::<Seq<char>, (usize, C)>::empty(),
            r.next_id_spec() == 0,
    {
        let r = Registry { inner: Vec::new(), counter: 0 };
        proof {
            lemma_assoc_empty(entries(r.inner@));
        }
        r
    }

    pub fn next_id(&self) -> (r: usize)
        ensures
            r == self.next_id_spec(),
    {
        self.counter
    }

    proof fn lemma_entry_at(&self, i: int)
        requires
            self.wf(),
            0 <= i < self.inner@.len(),
        ensures
            self@.contains_key(self.inner@[i].0@),
            self@[self.inner@[i].0@] == (self.inner@[i].1, self.inner@[i].2),
    {
        lemma_assoc_at(entries(self.inner@), i);
    }

    /// Every registered connection sits at some index.
    proof fn lemma_entry_of(&self, s: Seq<char>) -> (i: int)
        requires
            self.wf(),
            self@.contains_key(s),
        ensures
            0 <= i < self.inner@.len(),
            self.inner@[i].0@ == s,
            self@[s] == (self.inner@[i].1, self.inner@[i].2),
    {
        let es = entries(self.inner@);
        assert(has_key(es, s));
        let i = choose|i: int| 0 <= i < es.len() && es[i].0 == s;
        self.lemma_entry_at(i);
        i
    }

    /// The connection with id `id`, if one is registered.
    pub fn get_by_id(&self, id: usize) -> (r: Option<&C>)
        requires
            self.wf(),
        ensures
            match r {
                Some(c) => exists|s: Seq<char>| self@.contains_key(s) && self@[s] == (id, *c),
                None => forall|s: Seq<char>| self@.contains_key(s) ==> self@[s].0 != id,
            },
    {
        let mut i: usize = 0;
        while i < self.inner.len()
            invariant
                i <= self.inner@.len(),
                self.wf(),
                forall|j: int| 0 <= j < i ==> self.inner@[j].1 != id,
            decreases self.inner@.len() - i,
        {
            if self.inner[i].1 == id {
                proof {
                    self.lemma_entry_at(i as int);
                }
                return Some(&self.inner[i].2);
            }
            i = i + 1;
        }
        proof {
            assert forall|s: Seq<char>| self@.contains_key(s) implies self@[s].0 != id by {
                let j = self.lemma_entry_of(s);
            }
        }
        None
    }

    fn find_scope(&self, scope: &String) -> (r: Option<usize>)
        ensures
            match r {
                Some(i) => i < self.inner@.len() && self.inner@[i as int].0@ == scope@,
                None => forall|i: int| 0 <= i < self.inner@.len() ==> self.inner@[i].0@ != scope@,
            },
    {
        let mut i: usize = 0;
        while i < self.inner.len()
            invariant
                i <= self.inner@.len(),
                forall|j: int| 0 <= j < i ==> self.inner@[j].0@ != scope@,
            decreases self.inner@.len() - i,
        {
            if self.inner[i].0 == *scope {
                return Some(i);
            }
            i = i + 1;
        }
        None
    }

    /// Looks up the connection for a language scope. Without a configured
    /// server the answer is `LspNotDefined`. A registered connection is
    /// reported with its id; otherwise a fresh id is reserved for the
    /// connection the caller starts and then registers.
    pub fn get(&mut self, scope: &String, has_server: bool) -> (r: Result<Lookup>)
        requires
            old(self).wf(),
            old(self).next_id_spec() < usize::MAX,
        ensures
            final(self).wf(),
            final(self)@ == old(self)@,
            !has_server ==> r is Err && r->Err_0 is LspNotDefined && final(self).next_id_spec() == old(
                self,
            ).next_id_spec(),
            has_server && old(self)@.contains_key(scope@) ==> r == Ok::<Lookup, Error>(
                Lookup::Existing(old(self)@[scope@].0),
            ) && final(self).next_id_spec() == old(self).next_id_spec(),
            has_server && !old(self)@.contains_key(scope@) ==> r == Ok::<Lookup, Error>(
                Lookup::Start(old(self).next_id_spec()),
            ) && final(self).next_id_spec() == old(self).next_id_spec() + 1,
    {
        if !has_server {
            return Err(Error::LspNotDefined);
        }
        match self.find_scope(scope) {
            Some(i) => {
                proof {
                    self.lemma_entry_at(i as int);
                }
                Ok(Lookup::Existing(self.inner[i].1))
            },
            None => {
                proof {
                    lemma_assoc_absent(entries(self.inner@), scope@);
                }
                let id = self.counter;
                self.counter = self.counter + 1;
                Ok(Lookup::Start(id))
            },
        }
    }

    /// Registers a started connection under its scope and its reserved id.
    pub fn register(&mut self, scope: String, id: usize, client: C)
        requires
            old(self).wf(),
            !old(self)@.contains_key(scope@),
            id < old(self).next_id_spec(),
            forall|s: Seq<char>| old(self)@.contains_key(s) ==> old(self)@[s].0 != id,
        ensures
            final(self).wf(),
            final(self)@ == old(self)@.insert(scope@, (id, client)),
            final(self).next_id_spec() == old(self).next_id_spec(),
    {
        let ghost before = self.inner@;
        let ghost key = scope@;
        proof {
            assert forall|j: int| 0 <= j < before.len() implies before[j].1 != id by {
                self.lemma_entry_at(j);
            }
            assert(!has_key(entries(before), key)) by {
                if has_key(entries(before), key) {
                    let j = choose|j: int| 0 <= j < entries(before).len() && entries(before)[j].0 == key;
                    self.lemma_entry_at(j);
                }
            }
        }
        self.inner.push((scope, id, client));
        proof {
            assert(entries(self.inner@) =~= entries(before).push((key, (id, client))));
            lemma_assoc_push(entries(before), key, (id, client));
        }
    }

    /// All registered connections.
    pub fn iter_clients(&self) -> (r: Vec<&C>)
        requires
            self.wf(),
        ensures
            forall|s: Seq<char>| #[trigger] self@.contains_key(s) ==> exists|i: int|
                0 <= i < r@.len() && r@[i] == self@[s].1,
            forall|i: int| 0 <= i < r@.len() ==> self.holds_client(*#[trigger] r@[i]),
    {
        let mut r: Vec<&C> = Vec::new();
        let mut i: usize = 0;
        while i < self.inner.len()
            invariant
                i <= self.inner@.len(),
                self.wf(),
                r@.len() == i,
                forall|j: int| 0 <= j < i ==> r@[j] == self.inner@[j].2,
            decreases self.inner@.len() - i,
        {
            r.push(&self.inner[i].2);
            i = i + 1;
        }
        proof {
            assert forall|s: Seq<char>| #[trigger] self@.contains_key(s) implies exists|k: int|
                0 <= k < r@.len() && r@[k] == self@[s].1 by {
                let j = self.lemma_entry_of(s);
                assert(r@[j] == self@[s].1);
            }
            assert forall|k: int| 0 <= k < r@.len() implies self.holds_client(*#[trigger] r@[k]) by {
                self.lemma_entry_at(k);
                let s = self.inner@[k].0@;
                assert(r@[k] == self.inner@[k].2);
                assert(self@[s].1 == self.inner@[k].2);
                assert(self@.contains_key(s) && self@[s].1 == r@[k]);
            }
        }
        r
    }
}

} // verus!
