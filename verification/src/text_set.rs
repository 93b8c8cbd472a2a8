//! Sets of texts.

use vstd::hash_set::StringHashSet;
use vstd::prelude::*;

use crate::text::texts;

verus! {

/// A set of texts that remembers the order in which they came.
pub struct TextSet {
    items: Vec<String>,
    index: StringHashSet,
}

impl View for TextSet {
    type V = Set<Seq<char>>;

    closed spec fn view(&self) -> Set<Seq<char>> {
        self.index@
    }
}

impl TextSet {
    /// The texts in the order in which they came.
    pub closed spec fn order(&self) -> Seq<Seq<char>> {
        texts(self.items@)
    }

    /// The list holds each text of the set once, and nothing else.
    pub open spec fn well_formed(&self) -> bool {
        &&& self.order().no_duplicates()
        &&& self.order().to_set() == self@
    }

    /// The empty set.
    pub fn new() -> (r: TextSet)
        ensures
            r.well_formed(),
            r@ == Set::<Seq<char>>::empty(),
            r.order() == Seq::<Seq<char>>::empty(),
    {
        let r = TextSet { items: Vec::new(), index: StringHashSet::new() };
        proof {
            assert(r.order() =~= Seq::empty());
            assert(r.order().to_set() =~= r@);
        }
        r
    }

    /// Add a text.
    pub fn insert(&mut self, text: &str)
        requires
            old(self).well_formed(),
        ensures
            final(self).well_formed(),
            final(self)@ == old(self)@.insert(text@),
            final(self).order() == if old(self)@.contains(text@) {
                old(self).order()
            } else {
                old(self).order().push(text@)
            },
    {
        if !self.index.contains(text) {
            let ghost before = self.order();
            self.items.push(text.to_owned());
            self.index.insert(text.to_owned());
            proof {
                let after = self.order();
                assert(after =~= before.push(text@));
                assert(!before.to_set().contains(text@));
                assert(!before.contains(text@));
                assert forall|s: Seq<char>| after.to_set().contains(s) == self@.contains(s) by {
                    if before.contains(s) {
                        let i = choose|i: int| 0 <= i < before.len() && before[i] == s;
                        assert(after[i] == s);
                        assert(before.to_set().contains(s));
                    }
                    if before.to_set().contains(s) {
                        assert(before.contains(s));
                    }
                    if s == text@ {
                        assert(after[before.len() as int] == s);
                    }
                }
                assert(after.to_set() =~= self@);
            }
        } else {
            proof {
                assert(self@.insert(text@) =~= self@);
            }
        }
    }

    /// Whether the text is in the set.
    pub fn contains(&self, text: &str) -> (r: bool)
        ensures
            r == self@.contains(text@),
    {
        self.index.contains(text)
    }

    /// The number of texts.
    pub fn len(&self) -> (r: usize)
        ensures
            r == self.order().len(),
    {
        self.items.len()
    }

    /// The text that came at the given place.
    pub fn nth(&self, i: usize) -> (r: &str)
        requires
            i < self.order().len(),
        ensures
            r@ == self.order()[i as int],
    {
        self.items[i].as_str()
    }
}

/// The set of the texts of a list.
pub fn set_of(list: &Vec<String>) -> (r: TextSet)
    ensures
        r.well_formed(),
        r@ == texts(list@).to_set(),
{
    let mut r = TextSet::new();
    proof {
        assert(r@ =~= texts(list@).take(0).to_set());
    }
    for i in 0..list.len()
        invariant
            r.well_formed(),
            r@ == texts(list@).take(i as int).to_set(),
    {
        r.insert(list[i].as_str());
        proof {
            let front = texts(list@).take(i as int);
            let more = texts(list@).take(i + 1);
            assert(more =~= front.push(list@[i as int]@));
            lemma_push_to_set(front, list@[i as int]@);
        }
    }
    proof {
        assert(texts(list@).take(list@.len() as int) =~= texts(list@));
    }
    r
}

/// The set of a list with one more text has that text more.
pub proof fn lemma_push_to_set(list: Seq<Seq<char>>, s: Seq<char>)
    ensures
        list.push(s).to_set() == list.to_set().insert(s),
{
    let more = list.push(s);
    assert forall|t: Seq<char>| more.to_set().contains(t) == list.to_set().insert(s).contains(
        t,
    ) by {
        if list.contains(t) {
            let i = choose|i: int| 0 <= i < list.len() && list[i] == t;
            assert(more[i] == t);
        }
        if t == s {
            assert(more[list.len() as int] == t);
        }
        if more.contains(t) && t != s {
            let i = choose|i: int| 0 <= i < more.len() && more[i] == t;
            assert(list[i] == t);
        }
    }
    assert(more.to_set() =~= list.to_set().insert(s));
}

} // verus!
