//! Lists of texts that are kept under a key.

use vstd::prelude::*;

use crate::text::{same_text, texts};

verus! {

/// A list with its key.
pub struct KeyedList {
    pub key: String,
    pub items: Vec<String>,
}

/// Lists under keys, each key with one list.
pub struct KeyedLists {
    pub lists: Vec<KeyedList>,
}

/// The list at position `i` is the one of the key.
pub open spec fn is_at(lists: Seq<KeyedList>, key: Seq<char>, i: int) -> bool {
    0 <= i < lists.len() && lists[i].key@ == key
}

impl View for KeyedLists {
    type V = Map<Seq<char>, Seq<Seq<char>>>;

    open spec fn view(&self) -> Map<Seq<char>, Seq<Seq<char>>> {
        let lists = self.lists@;
        Map::new(
            |key: Seq<char>| exists|i: int| is_at(lists, key, i),
            |key: Seq<char>| texts(lists[choose|i: int| is_at(lists, key, i)].items@),
        )
    }
}

impl KeyedLists {
    /// No two lists have the same key.
    pub open spec fn well_formed(&self) -> bool {
        forall|i: int, j: int|
            0 <= i < j < self.lists@.len() ==> (#[trigger] self.lists@[i]).key@ != (
            #[trigger] self.lists@[j]).key@
    }

    proof fn lemma_at(&self, key: Seq<char>, i: int)
        requires
            self.well_formed(),
            is_at(self.lists@, key, i),
        ensures
            self@.contains_key(key),
            self@[key] == texts(self.lists@[i].items@),
    {
        let k = choose|k: int| is_at(self.lists@, key, k);
        assert(is_at(self.lists@, key, k));
        assert(k == i);
    }

    /// No lists at all.
    pub fn new() -> (r: KeyedLists)
        ensures
            r.well_formed(),
            r@ == Map::<Seq<char>, Seq<Seq<char>>>::empty(),
    {
        let r = KeyedLists { lists: Vec::new() };
        proof {
            assert(r@ =~= Map::empty());
        }
        r
    }

    /// The position of the list of the key, or the number of lists if there is none.
    fn position(&self, key: &str) -> (r: usize)
        requires
            self.well_formed(),
        ensures
            r <= self.lists@.len(),
            r < self.lists@.len() ==> is_at(self.lists@, key@, r as int) && self@.contains_key(key@)
                && self@[key@] == texts(self.lists@[r as int].items@),
            r == self.lists@.len() ==> !self@.contains_key(key@),
    {
        for i in 0..self.lists.len()
            invariant
                self.well_formed(),
                forall|j: int| 0 <= j < i ==> (#[trigger] self.lists@[j]).key@ != key@,
        {
            if same_text(self.lists[i].key.as_str(), key) {
                proof {
                    assert(is_at(self.lists@, key@, i as int));
                    self.lemma_at(key@, i as int);
                }
                return i;
            }
        }
        self.lists.len()
    }

    /// Whether there is a list under the key.
    pub fn contains_key(&self, key: &str) -> (r: bool)
        requires
            self.well_formed(),
        ensures
            r == self@.contains_key(key@),
    {
        self.position(key) < self.lists.len()
    }

    /// The list under the key.
    pub fn get(&self, key: &str) -> (r: Option<&Vec<String>>)
        requires
            self.well_formed(),
        ensures
            match r {
                Some(items) => self@.contains_key(key@) && self@[key@] == texts(items@),
                None => !self@.contains_key(key@),
            },
    {
        let i = self.position(key);
        if i < self.lists.len() {
            Some(&self.lists[i].items)
        } else {
            None
        }
    }

    /// Take away the list under the key.
    pub fn remove(&mut self, key: &str)
        requires
            old(self).well_formed(),
        ensures
            final(self).well_formed(),
            final(self)@ == old(self)@.remove(key@),
    {
        let ghost before = *self;
        let at = self.position(key);
        if at < self.lists.len() {
            let _ = self.lists.remove(at);
            proof {
                let now = self.lists@;
                let was = before.lists@;
                assert forall|i: int, j: int| 0 <= i < j < now.len() implies (
                #[trigger] now[i]).key@ != (#[trigger] now[j]).key@ by {
                    let a = if i < at {
                        i
                    } else {
                        i + 1
                    };
                    let b = if j < at {
                        j
                    } else {
                        j + 1
                    };
                    assert(was[a].key@ != was[b].key@);
                }
                assert forall|k: Seq<char>| #[trigger]
                    self@.contains_key(k) == before@.remove(key@).contains_key(k) && (
                    self@.contains_key(k) ==> self@[k] == before@[k]) by {
                    if self@.contains_key(k) {
                        let i = choose|i: int| is_at(now, k, i);
                        let a = if i < at {
                            i
                        } else {
                            i + 1
                        };
                        assert(is_at(was, k, a));
                        before.lemma_at(k, a);
                        self.lemma_at(k, i);
                        if k == key@ {
                            assert(was[a].key@ == was[at as int].key@);
                        }
                    }
                    if before@.contains_key(k) && k != key@ {
                        let i = choose|i: int| is_at(was, k, i);
                        let a = if i < at {
                            i
                        } else {
                            i - 1
                        };
                        assert(is_at(now, k, a));
                    }
                }
                assert(self@ =~= before@.remove(key@));
            }
        } else {
            proof {
                assert(self@ =~= before@.remove(key@));
            }
        }
    }

    /// Keep a list under the key, in place of the one that was there.
    pub fn insert(&mut self, key: String, items: Vec<String>)
        requires
            old(self).well_formed(),
        ensures
            final(self).well_formed(),
            final(self)@ == old(self)@.insert(key@, texts(items@)),
    {
        let ghost before = *self;
        let ghost name = key@;
        let ghost value = texts(items@);
        self.remove(key.as_str());
        let ghost middle = *self;
        self.lists.push(KeyedList { key, items });
        proof {
            let now = self.lists@;
            let was = middle.lists@;
            assert forall|i: int, j: int| 0 <= i < j < now.len() implies (#[trigger] now[i]).key@ != (
            #[trigger] now[j]).key@ by {
                if j == was.len() {
                    assert(now[i] == was[i]);
                    if was[i].key@ == name {
                        assert(is_at(was, name, i));
                        assert(middle@.contains_key(name));
                    }
                } else {
                    assert(was[i].key@ != was[j].key@);
                }
            }
            assert forall|k: Seq<char>| #[trigger]
                self@.contains_key(k) == before@.insert(name, value).contains_key(k) && (
                self@.contains_key(k) ==> self@[k] == before@.insert(name, value)[k]) by {
                if k == name {
                    assert(is_at(now, k, was.len() as int));
                    self.lemma_at(k, was.len() as int);
                } else {
                    if self@.contains_key(k) {
                        let i = choose|i: int| is_at(now, k, i);
                        assert(is_at(was, k, i));
                        middle.lemma_at(k, i);
                        self.lemma_at(k, i);
                    }
                    if before@.contains_key(k) {
                        assert(middle@.contains_key(k));
                        let i = choose|i: int| is_at(was, k, i);
                        assert(is_at(now, k, i));
                    }
                }
            }
            assert(self@ =~= before@.insert(name, value));
        }
    }
}

} // verus!
