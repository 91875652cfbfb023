//! A set of strings that keeps the order in which they were first inserted.

use vstd::prelude::*;
use crate::text::{clone_strings, distinct, str_eq, views};

verus! {

/// A set of strings. No string occurs twice; the strings keep their order.
#[derive(Debug)]
pub struct StrSet {
    items: Vec<String>,
}

impl View for StrSet {
    type V = Seq<Seq<char>>;

    closed spec fn view(&self) -> Seq<Seq<char>> {
        views(self.items@)
    }
}

impl StrSet {
    /// No string occurs twice.
    #[verifier::type_invariant]
    pub open spec fn wf(&self) -> bool {
        self@.no_duplicates()
    }

    pub fn new() -> (s: StrSet)
        ensures
            s@ == Seq::<Seq<char>>::empty(),
    {
        let s = StrSet { items: Vec::new() };
        assert(s@ =~= Seq::<Seq<char>>::empty());
        s
    }

    pub fn len(&self) -> (n: usize)
        ensures
            n == self@.len(),
            self.wf(),
    {
        proof {
            use_type_invariant(self);
        }
        self.items.len()
    }

    /// The string at position `i`.
    pub fn get(&self, i: usize) -> (s: &String)
        requires
            i < self@.len(),
        ensures
            s@ == self@[i as int],
    {
        &self.items[i]
    }

    pub fn contains(&self, item: &str) -> (r: bool)
        ensures
            r == self@.contains(item@),
    {
        let mut i: usize = 0;
        while i < self.items.len()
            invariant
                i <= self.items.len(),
                forall|j: int| 0 <= j < i ==> self@[j] != item@,
            decreases self.items.len() - i,
        {
            if str_eq(self.items[i].as_str(), item) {
                assert(self@[i as int] == item@);
                return true;
            }
            i += 1;
        }
        false
    }

    /// Adds a string behind the others unless the set holds it; says whether
    /// it was added.
    pub fn insert(&mut self, item: String) -> (added: bool)
        ensures
            final(self).wf(),
            added == !old(self)@.contains(item@),
            final(self)@ == if added {
                old(self)@.push(item@)
            } else {
                old(self)@
            },
    {
        proof {
            use_type_invariant(&*self);
        }
        if self.contains(item.as_str()) {
            false
        } else {
            let ghost before = *self;
            let mut items: Vec<String> = Vec::new();
            std::mem::swap(&mut self.items, &mut items);
            items.push(item);
            proof {
                let after = StrSet { items };
                assert(after@ =~= before@.push(item@));
            }
            std::mem::swap(&mut self.items, &mut items);
            true
        }
    }

    /// The set of the strings of `v`, in the order of their first occurrence.
    pub fn from_vec(v: Vec<String>) -> (s: StrSet)
        ensures
            s@ == distinct(views(v@)),
    {
        let mut s = StrSet::new();
        let mut i: usize = 0;
        assert(views(v@).take(0) =~= Seq::<Seq<char>>::empty());
        while i < v.len()
            invariant
                i <= v.len(),
                s@ == distinct(views(v@).take(i as int)),
            decreases v.len() - i,
        {
            proof {
                let step = views(v@).take(i + 1);
                assert(step.drop_last() =~= views(v@).take(i as int));
                assert(step.last() == v[i as int]@);
            }
            s.insert(v[i].clone());
            i += 1;
        }
        assert(views(v@).take(v.len() as int) =~= views(v@));
        s
    }
}

impl Clone for StrSet {
    fn clone(&self) -> (r: StrSet)
        ensures
            r@ == self@,
    {
        proof {
            use_type_invariant(self);
        }
        StrSet { items: clone_strings(&self.items) }
    }
}

} // verus!
