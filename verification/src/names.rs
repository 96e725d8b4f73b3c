//! Sets of names.
use vstd::prelude::*;

use crate::text::{same_text, texts};

verus! {

/// A set of names. No name is held twice.
#[derive(Debug)]
pub struct NameSet {
    items: Vec<String>,
}

impl View for NameSet {
    type V = Set<Seq<char>>;

    closed spec fn view(&self) -> Set<Seq<char>> {
        texts(self.items@).to_set()
    }
}

impl NameSet {
    /// No name is held twice.
    #[verifier::type_invariant]
    pub closed spec fn well_formed(self) -> bool {
        texts(self.items@).no_duplicates()
    }

    /// The empty set.
    pub fn new() -> (r: NameSet)
        ensures
            r@ == Set::<Seq<char>>::empty(),
    {
        let items: Vec<String> = Vec::new();
        assert(texts(items@) =~= Seq::empty());
        let r = NameSet { items };
        assert(r@ =~= Set::<Seq<char>>::empty());
        r
    }

    /// The set of the names on a list.
    pub fn from_list(names: &Vec<String>) -> (r: NameSet)
        ensures
            r@ == texts(names@).to_set(),
    {
        let mut set = NameSet::new();
        let mut i: usize = 0;
        assert(texts(names@).take(0).to_set() =~= Set::<Seq<char>>::empty());
        while i < names.len()
            invariant
                i <= names@.len(),
                set@ == texts(names@).take(i as int).to_set(),
            decreases names@.len() - i,
        {
            let _ = set.insert(names[i].as_str());
            proof {
                let all = texts(names@);
                assert(all.take(i + 1) =~= all.take(i as int).push(all[i as int]));
                lemma_push_to_set(all.take(i as int), all[i as int]);
            }
            i = i + 1;
        }
        assert(texts(names@).take(i as int) =~= texts(names@));
        set
    }

    /// Whether the name is in the set.
    pub fn contains(&self, name: &str) -> (r: bool)
        ensures
            r == self@.contains(name@),
    {
        let mut i: usize = 0;
        while i < self.items.len()
            invariant
                i <= self.items@.len(),
                forall|j: int| 0 <= j < i ==> texts(self.items@)[j] != name@,
            decreases self.items@.len() - i,
        {
            if same_text(self.items[i].as_str(), name) {
                assert(texts(self.items@)[i as int] == name@);
                return true;
            }
            i = i + 1;
        }
        false
    }

    /// Puts the name into the set; says whether it was not there before.
    pub fn insert(&mut self, name: &str) -> (r: bool)
        ensures
            r == !old(self)@.contains(name@),
            final(self)@ == old(self)@.insert(name@),
    {
        proof {
            use_type_invariant(&*self);
        }
        if self.contains(name) {
            assert(self@ =~= self@.insert(name@));
            return false;
        }
        let ghost before = texts(self.items@);
        let mut items: Vec<String> = Vec::new();
        std::mem::swap(&mut items, &mut self.items);
        items.push(name.to_owned());
        proof {
            assert(texts(items@) =~= before.push(name@));
            assert(!before.contains(name@)) by {
                if before.contains(name@) {
                    assert(before.to_set().contains(name@));
                }
            }
            lemma_push_to_set(before, name@);
            assert(texts(items@).no_duplicates());
        }
        self.items = items;
        true
    }

    /// Takes the name out of the set.
    pub fn remove(&mut self, name: &str)
        ensures
            final(self)@ == old(self)@.remove(name@),
    {
        let ghost before = texts(self.items@);
        proof {
            use_type_invariant(&*self);
        }
        let mut kept: NameSet = NameSet::new();
        let mut i: usize = 0;
        assert(before.take(0).to_set().remove(name@) =~= Set::<Seq<char>>::empty());
        while i < self.items.len()
            invariant
                before == texts(self.items@),
                i <= self.items@.len(),
                kept@ == before.take(i as int).to_set().remove(name@),
            decreases self.items@.len() - i,
        {
            proof {
                assert(before.take(i + 1) =~= before.take(i as int).push(before[i as int]));
                lemma_push_to_set(before.take(i as int), before[i as int]);
            }
            if !same_text(self.items[i].as_str(), name) {
                let _ = kept.insert(self.items[i].as_str());
                assert(kept@ =~= before.take(i + 1).to_set().remove(name@));
            } else {
                assert(kept@ =~= before.take(i + 1).to_set().remove(name@));
            }
            i = i + 1;
        }
        assert(before.take(i as int) =~= before);
        *self = kept;
    }

    /// Whether every name of this set is in the other.
    pub fn is_subset(&self, other: &NameSet) -> (r: bool)
        ensures
            r == self@.subset_of(other@),
    {
        let ghost all = texts(self.items@);
        let mut i: usize = 0;
        while i < self.items.len()
            invariant
                all == texts(self.items@),
                i <= self.items@.len(),
                forall|j: int| 0 <= j < i ==> other@.contains(#[trigger] all[j]),
            decreases self.items@.len() - i,
        {
            if !other.contains(self.items[i].as_str()) {
                assert(all[i as int] == self.items@[i as int]@);
                assert(self@.contains(all[i as int]));
                return false;
            }
            i = i + 1;
        }
        true
    }

    /// Puts every name of the other set into this one.
    pub fn extend(&mut self, other: &NameSet)
        ensures
            final(self)@ == old(self)@.union(other@),
    {
        let ghost all = texts(other.items@);
        let ghost start = self@;
        let mut i: usize = 0;
        assert(start.union(all.take(0).to_set()) =~= start);
        while i < other.items.len()
            invariant
                all == texts(other.items@),
                i <= other.items@.len(),
                self@ == start.union(all.take(i as int).to_set()),
            decreases other.items@.len() - i,
        {
            let _ = self.insert(other.items[i].as_str());
            proof {
                assert(all.take(i + 1) =~= all.take(i as int).push(all[i as int]));
                lemma_push_to_set(all.take(i as int), all[i as int]);
                assert(self@ =~= start.union(all.take(i + 1).to_set()));
            }
            i = i + 1;
        }
        assert(all.take(i as int) =~= all);
    }

    /// A set with the same names.
    pub fn duplicate(&self) -> (r: NameSet)
        ensures
            r@ == self@,
    {
        NameSet::from_list(&self.items)
    }

    /// The names of the set, each once.
    pub fn to_list(&self) -> (r: Vec<String>)
        ensures
            texts(r@).to_set() == self@,
            texts(r@).no_duplicates(),
    {
        proof {
            use_type_invariant(self);
        }
        let r = self.items.clone();
        assert(texts(r@) =~= texts(self.items@));
        r
    }

    /// How many names the set holds.
    pub fn len(&self) -> (r: usize)
        ensures
            r == self@.len(),
    {
        proof {
            use_type_invariant(self);
            texts(self.items@).unique_seq_to_set();
        }
        self.items.len()
    }
}

/// A list with one more name holds that name and those it held before.
pub proof fn lemma_push_to_set(s: Seq<Seq<char>>, x: Seq<char>)
    ensures
        s.push(x).to_set() == s.to_set().insert(x),
{
    assert forall|y: Seq<char>| s.push(x).to_set().contains(y) == s.to_set().insert(x).contains(y) by {
        if s.to_set().contains(y) {
            let i = choose|i: int| 0 <= i < s.len() && s[i] == y;
            assert(s.push(x)[i] == y);
        }
        if y == x {
            assert(s.push(x)[s.len() as int] == x);
        }
        if s.push(x).contains(y) && y != x {
            let i = choose|i: int| 0 <= i < s.len() + 1 && s.push(x)[i] == y;
            assert(s[i] == y);
        }
    }
    assert(s.push(x).to_set() =~= s.to_set().insert(x));
}

} // verus!
