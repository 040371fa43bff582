//! Small sets, and equality by meaning.
use vstd::prelude::*;

use crate::dict::{sorted, sorted_properties, Dict};
use crate::text::{same, Text};

verus! {

/// Values that can be compared by what they mean.
pub trait Same: DeepView + Sized {
    fn same(&self, other: &Self) -> (result: bool)
        ensures
            result == (self.deep_view() == other.deep_view()),
    ;
}

impl Same for String {
    fn same(&self, other: &Self) -> (result: bool) {
        same(self.as_str(), other.as_str())
    }
}

impl Same for usize {
    fn same(&self, other: &Self) -> (result: bool) {
        *self == *other
    }
}

impl Same for bool {
    fn same(&self, other: &Self) -> (result: bool) {
        *self == *other
    }
}

impl<T: Same> Same for Option<T> {
    fn same(&self, other: &Self) -> (result: bool) {
        match (self, other) {
            (Some(a), Some(b)) => a.same(b),
            (None, None) => true,
            _ => false,
        }
    }
}

impl<A: Same, B: Same> Same for (A, B) {
    fn same(&self, other: &Self) -> (result: bool) {
        self.0.same(&other.0) && self.1.same(&other.1)
    }
}

impl<T: Same> Same for Vec<T> {
    fn same(&self, other: &Self) -> (result: bool) {
        if self.len() != other.len() {
            assert(self.deep_view().len() != other.deep_view().len());
            return false;
        }
        let mut i: usize = 0;
        while i < self.len()
            invariant
                i <= self.len(),
                self.len() == other.len(),
                forall|j: int| 0 <= j < i ==> #[trigger] self.deep_view()[j] == other.deep_view()[j],
            decreases self.len() - i,
        {
            if !self[i].same(&other[i]) {
                assert(self.deep_view()[i as int] != other.deep_view()[i as int]);
                return false;
            }
            i += 1;
        }
        assert(self.deep_view() =~= other.deep_view());
        true
    }
}

impl<V: Same> Same for Dict<V> {
    fn same(&self, other: &Self) -> (result: bool) {
        let n: usize = self.len();
        let m: usize = other.len();
        proof {
            sorted_properties(self@.dom());
            sorted_properties(other@.dom());
        }
        if n != m {
            return false;
        }
        let ghost (a, b) = (sorted(self@.dom()), sorted(other@.dom()));
        let mut i: usize = 0;
        while i < n
            invariant
                i <= n,
                n == a.len(),
                n == b.len(),
                a == sorted(self@.dom()),
                b == sorted(other@.dom()),
                forall|j: int| 0 <= j < i ==> #[trigger] a[j] == b[j] && self@[a[j]] == other@[a[j]],
            decreases n - i,
        {
            if !self.key(i).same(other.key(i)) || !self.value(i).same(other.value(i)) {
                assert(self@ != other@);
                return false;
            }
            i += 1;
        }
        proof {
            assert(a =~= b);
            assert(self@.dom() =~= other@.dom()) by {
                assert forall|x: Text| self@.dom().contains(x) == other@.dom().contains(x) by {
                    assert(a.contains(x) == self@.dom().contains(x));
                    assert(b.contains(x) == other@.dom().contains(x));
                }
            }
            assert forall|x: Text| self@.contains_key(x) implies self@[x] == other@[x] by {
                assert(a.contains(x));
                assert(a[a.index_of(x)] == x);
            }
            assert(self@ =~= other@);
        }
        true
    }
}

/// A set of few members.
pub struct Bag<T: DeepView> {
    members: Vec<T>,
}

impl<T: DeepView> View for Bag<T> {
    type V = Set<T::V>;

    closed spec fn view(&self) -> Set<T::V> {
        self.members.deep_view().to_set()
    }
}

impl<T: DeepView> Bag<T> {
    #[verifier::type_invariant]
    spec fn well_formed(&self) -> bool {
        self.members.deep_view().no_duplicates()
    }
}

impl<T: Same> Bag<T> {
    pub fn new() -> (result: Self)
        ensures
            result@ == Set::<T::V>::empty(),
    {
        let result = Bag { members: Vec::new() };
        assert(result@ =~= Set::<T::V>::empty());
        result
    }

    fn place(&self, member: &T) -> (result: Option<usize>)
        ensures
            match result {
                Some(i) => i < self.members@.len() && self.members.deep_view()[i as int] == member.deep_view(),
                None => !self@.contains(member.deep_view()),
            },
    {
        let mut i: usize = self.members.len();
        while i > 0
            invariant
                i <= self.members.len(),
                forall|j: int| i <= j < self.members@.len() ==> #[trigger] self.members.deep_view()[j] != member.deep_view(),
            decreases i,
        {
            if self.members[i - 1].same(member) {
                return Some(i - 1);
            }
            i -= 1;
        }
        None
    }

    pub fn contains(&self, member: &T) -> (result: bool)
        ensures
            result == self@.contains(member.deep_view()),
    {
        let found = self.place(member);
        proof {
            if let Some(i) = found {
                assert(self.members.deep_view().contains(self.members.deep_view()[i as int]));
            }
        }
        found.is_some()
    }

    /// Adds `member`, and tells whether it was missing before.
    pub fn insert(&mut self, member: T) -> (result: bool)
        ensures
            final(self)@ == old(self)@.insert(member.deep_view()),
            result == !old(self)@.contains(member.deep_view()),
            final(self)@.finite(),
    {
        proof {
            use_type_invariant(&*self);
        }
        if self.contains(&member) {
            assert(self@.insert(member.deep_view()) =~= self@);
            return false;
        }
        let ghost before = self.members.deep_view();
        let ghost meaning = member.deep_view();
        let mut members: Vec<T> = Vec::new();
        core::mem::swap(&mut self.members, &mut members);
        members.push(member);
        assert(members.deep_view() =~= before.push(meaning));
        assert(members.deep_view().no_duplicates()) by {
            assert(!before.contains(meaning));
        }
        self.members = members;
        proof {
            let after = self.members.deep_view();
            assert forall|x: T::V| after.to_set().contains(x) == before.to_set().insert(meaning).contains(x) by {
                if before.contains(x) {
                    assert(after[before.index_of(x)] == x);
                }
                if x == meaning {
                    assert(after.last() == x);
                }
            }
            assert(after.to_set() =~= before.to_set().insert(meaning));
        }
        true
    }

    /// Takes `member` out.
    pub fn remove(&mut self, member: &T)
        ensures
            final(self)@ == old(self)@.remove(member.deep_view()),
    {
        proof {
            use_type_invariant(&*self);
        }
        match self.place(member) {
            Some(i) => {
                let ghost before = self.members.deep_view();
                let mut members: Vec<T> = Vec::new();
                core::mem::swap(&mut self.members, &mut members);
                let _ = members.remove(i);
                assert(members.deep_view() =~= before.remove(i as int));
                assert(members.deep_view().no_duplicates());
                self.members = members;
                proof {
                    let after = self.members.deep_view();
                    let gone = member.deep_view();
                    assert forall|x: T::V| after.to_set().contains(x) == before.to_set().remove(gone).contains(x) by {
                        if after.contains(x) {
                            let k = after.index_of(x);
                            let j = if k < i {
                                k
                            } else {
                                k + 1
                            };
                            assert(before[j] == x);
                        }
                        if before.contains(x) && x != gone {
                            let j = before.index_of(x);
                            let k = if j < i {
                                j
                            } else {
                                j - 1
                            };
                            assert(after[k] == x);
                        }
                    }
                    assert(after.to_set() =~= before.to_set().remove(gone));
                }
            },
            None => {
                assert(self@.remove(member.deep_view()) =~= self@);
            },
        }
    }
}

} // verus!
