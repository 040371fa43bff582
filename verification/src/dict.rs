//! Maps and sets of strings that are walked in the order of their keys.
use vstd::prelude::*;

use crate::text::{less, same, text_less, text_less_irreflexive, text_less_total, text_less_transitive, Text};

verus! {

/// Values of which a second one can be made that means the same.
pub trait Duplicate: DeepView + Sized {
    fn duplicate(&self) -> (result: Self)
        ensures
            result.deep_view() == self.deep_view(),
    ;
}

impl Duplicate for String {
    fn duplicate(&self) -> (result: Self) {
        self.clone()
    }
}

impl Duplicate for bool {
    fn duplicate(&self) -> (result: Self) {
        *self
    }
}

impl<T: Duplicate> Duplicate for Option<T> {
    fn duplicate(&self) -> (result: Self) {
        match self {
            Some(value) => Some(value.duplicate()),
            None => None,
        }
    }
}

impl<A: Duplicate, B: Duplicate> Duplicate for (A, B) {
    fn duplicate(&self) -> (result: Self) {
        (self.0.duplicate(), self.1.duplicate())
    }
}

impl<T: Duplicate> Duplicate for Vec<T> {
    fn duplicate(&self) -> (result: Self) {
        let mut result: Vec<T> = Vec::new();
        let mut i: usize = 0;
        while i < self.len()
            invariant
                i <= self.len(),
                result.deep_view() == self.deep_view().take(i as int),
            decreases self.len() - i,
        {
            let ghost before = result.deep_view();
            result.push(self[i].duplicate());
            assert(result.deep_view() =~= before.push(self.deep_view()[i as int]));
            i += 1;
            assert(result.deep_view() =~= self.deep_view().take(i as int));
        }
        assert(self.deep_view().take(i as int) =~= self.deep_view());
        result
    }
}

/// Each of `names` comes before all that follow it.
pub open spec fn ascending(names: Seq<Text>) -> bool {
    forall|i: int, j: int| 0 <= i < j < names.len() ==> text_less(#[trigger] names[i], #[trigger] names[j])
}

/// The members of a finite set of names, in order.
pub open spec fn sorted(names: Set<Text>) -> Seq<Text> {
    choose|s: Seq<Text>| ascending(s) && s.to_set() == names
}

/// Two ascending sequences with the same members are the same sequence.
pub proof fn ascending_is_unique(s: Seq<Text>, t: Seq<Text>)
    requires
        ascending(s),
        ascending(t),
        s.to_set() == t.to_set(),
    ensures
        s == t,
    decreases s.len(),
{
    if s.len() == 0 {
        if t.len() > 0 {
            assert(t.to_set().contains(t[0]));
            assert(s.to_set().contains(t[0]));
        }
        assert(s =~= t);
    } else {
        assert(s.to_set().contains(s[0]));
        assert(t.to_set().contains(s[0]));
        let j = t.index_of(s[0]);
        assert(t.to_set().contains(t[0]));
        assert(s.to_set().contains(t[0]));
        let i = s.index_of(t[0]);
        if i > 0 {
            text_less_total(s[0], s[i]);
            assert(text_less(s[0], s[i]));
            if j > 0 {
                assert(text_less(t[0], t[j]));
            }
            assert(false);
        }
        let (s1, t1) = (s.drop_first(), t.drop_first());
        assert forall|x: Text| s1.to_set().contains(x) == t1.to_set().contains(x) by {
            text_less_irreflexive(s[0]);
            if s1.contains(x) {
                let k = s1.index_of(x);
                assert(s[k + 1] == x && text_less(s[0], x));
                assert(s.to_set().contains(x));
                assert(t.to_set().contains(x));
                let m = t.index_of(x);
                assert(t1[m - 1] == x);
            }
            if t1.contains(x) {
                let k = t1.index_of(x);
                assert(t[k + 1] == x && text_less(t[0], x));
                assert(t.to_set().contains(x));
                assert(s.to_set().contains(x));
                let m = s.index_of(x);
                assert(s1[m - 1] == x);
            }
        }
        assert(s1.to_set() =~= t1.to_set());
        assert(ascending(s1)) by {
            assert forall|a: int, b: int| 0 <= a < b < s1.len() implies text_less(#[trigger] s1[a], #[trigger] s1[b]) by {
                assert(text_less(s[a + 1], s[b + 1]));
            }
        }
        assert(ascending(t1)) by {
            assert forall|a: int, b: int| 0 <= a < b < t1.len() implies text_less(#[trigger] t1[a], #[trigger] t1[b]) by {
                assert(text_less(t[a + 1], t[b + 1]));
            }
        }
        ascending_is_unique(s1, t1);
        assert(s =~= seq![s[0]] + s1);
        assert(t =~= seq![t[0]] + t1);
    }
}

/// An ascending sequence is what `sorted` makes of its members.
pub proof fn ascending_is_sorted(s: Seq<Text>)
    requires
        ascending(s),
    ensures
        sorted(s.to_set()) == s,
{
    let t = sorted(s.to_set());
    assert(ascending(s) && s.to_set() == s.to_set());
    ascending_is_unique(s, t);
}

/// No name stands twice in an ascending sequence.
pub proof fn ascending_no_duplicates(s: Seq<Text>)
    requires
        ascending(s),
    ensures
        s.no_duplicates(),
{
    assert forall|i: int, j: int| 0 <= i < s.len() && 0 <= j < s.len() && i != j implies s[i] != s[j] by {
        if i < j {
            assert(text_less(s[i], s[j]));
        } else {
            assert(text_less(s[j], s[i]));
        }
        text_less_irreflexive(s[i]);
    }
}

/// Where `key` goes in an ascending sequence: behind all that come before it.
pub proof fn insert_keeps_ascending(s: Seq<Text>, at: int, key: Text)
    requires
        ascending(s),
        0 <= at <= s.len(),
        forall|i: int| 0 <= i < at ==> text_less(#[trigger] s[i], key),
        at < s.len() ==> !text_less(s[at], key) && s[at] != key,
    ensures
        ascending(s.insert(at, key)),
        s.insert(at, key).to_set() == s.to_set().insert(key),
{
    let t = s.insert(at, key);
    assert forall|i: int, j: int| 0 <= i < j < t.len() implies text_less(#[trigger] t[i], #[trigger] t[j]) by {
        if i < at && j > at {
            assert(text_less(s[i], s[j - 1]));
        } else if i == at {
            assert(t[j] == s[j - 1]);
            text_less_total(s[at], key);
            if j - 1 > at {
                assert(text_less(s[at], s[j - 1]));
                text_less_transitive(key, s[at], s[j - 1]);
            }
        } else if i > at {
            assert(text_less(s[i - 1], s[j - 1]));
        } else if j < at {
            assert(text_less(s[i], s[j]));
        }
    }
    assert forall|x: Text| t.to_set().contains(x) == s.to_set().insert(key).contains(x) by {
        if t.contains(x) {
            let k = t.index_of(x);
            if k < at {
                assert(s[k] == x);
            } else if k > at {
                assert(s[k - 1] == x);
            }
        }
        if x == key {
            assert(t[at] == key);
        } else if s.contains(x) {
            let k = s.index_of(x);
            if k < at {
                assert(t[k] == x);
            } else {
                assert(t[k + 1] == x);
            }
        }
    }
    assert(t.to_set() =~= s.to_set().insert(key));
}

proof fn insert_at(s: Seq<Text>, key: Text) -> (at: int)
    requires
        ascending(s),
        !s.contains(key),
    ensures
        0 <= at <= s.len(),
        forall|i: int| 0 <= i < at ==> text_less(#[trigger] s[i], key),
        at < s.len() ==> !text_less(s[at], key) && s[at] != key,
    decreases s.len(),
{
    if s.len() == 0 {
        0
    } else {
        let t = s.drop_last();
        assert forall|x: Text| t.contains(x) implies s.contains(x) by {
            assert(s[t.index_of(x)] == x);
        }
        let last = s.len() - 1;
        if text_less(s[last], key) {
            assert forall|i: int| 0 <= i < s.len() implies text_less(#[trigger] s[i], key) by {
                if i < last {
                    text_less_transitive(s[i], s[last], key);
                }
            }
            s.len() as int
        } else {
            assert(s.contains(s[last]));
            let at = insert_at(t, key);
            assert(at < t.len() ==> s[at] == t[at]);
            assert forall|i: int| 0 <= i < at implies text_less(#[trigger] s[i], key) by {
                assert(s[i] == t[i]);
            }
            at
        }
    }
}

/// Every finite set of names can be put in order.
pub proof fn sorted_properties(names: Set<Text>)
    requires
        names.finite(),
    ensures
        ascending(sorted(names)),
        sorted(names).to_set() == names,
        sorted(names).no_duplicates(),
        sorted(names).len() == names.len(),
        forall|x: Text| #[trigger] sorted(names).contains(x) == names.contains(x),
    decreases names.len(),
{
    if names.len() == 0 {
        let s = Seq::<Text>::empty();
        assert(s.to_set() =~= names);
        assert(ascending(s));
    } else {
        let x = names.choose();
        let rest = names.remove(x);
        sorted_properties(rest);
        let s = sorted(rest);
        assert(!s.contains(x));
        let at = insert_at(s, x);
        insert_keeps_ascending(s, at, x);
        assert(rest.insert(x) =~= names);
        assert(s.insert(at, x).to_set() == names);
    }
    let s = sorted(names);
    ascending_no_duplicates(s);
    s.unique_seq_to_set();
    assert forall|x: Text| #[trigger] s.contains(x) == names.contains(x) by {
        assert(s.to_set().contains(x) == s.contains(x));
    }
}

/// A map from strings, kept in the order of its keys.
#[derive(Debug, PartialEq, Eq)]
pub struct Dict<V> {
    entries: Vec<(String, V)>,
}

impl<V: DeepView> View for Dict<V> {
    type V = Map<Text, V::V>;

    closed spec fn view(&self) -> Map<Text, V::V> {
        Map::new(
            |key: Text| self.key_seq().contains(key),
            |key: Text| self.entries@[self.key_seq().index_of(key)].1.deep_view(),
        )
    }
}

impl<V: DeepView> DeepView for Dict<V> {
    type V = Map<Text, V::V>;

    open spec fn deep_view(&self) -> Map<Text, V::V> {
        self@
    }
}

impl<V> Dict<V> {
    spec fn key_seq(&self) -> Seq<Text> {
        self.entries@.map_values(|entry: (String, V)| entry.0@)
    }

    #[verifier::type_invariant]
    spec fn in_order(&self) -> bool {
        ascending(self.key_seq())
    }
}

impl<V: DeepView> Dict<V> {
    proof fn entry(&self, i: int)
        requires
            self.in_order(),
            0 <= i < self.entries@.len(),
        ensures
            self@.contains_key(self.entries@[i].0@),
            self@[self.entries@[i].0@] == self.entries@[i].1.deep_view(),
    {
        let keys = self.key_seq();
        assert(keys[i] == self.entries@[i].0@);
        ascending_no_duplicates(keys);
        assert(keys.contains(keys[i]));
    }

    proof fn whole(&self)
        requires
            self.in_order(),
        ensures
            sorted(self@.dom()) == self.key_seq(),
            self@.dom() == self.key_seq().to_set(),
            self@.dom().finite(),
            self@.dom().len() == self.entries@.len(),
    {
        let keys = self.key_seq();
        assert(self@.dom() =~= keys.to_set());
        ascending_is_sorted(keys);
        ascending_no_duplicates(keys);
        keys.unique_seq_to_set();
    }

    pub fn new() -> (result: Self)
        ensures
            result@ == Map::<Text, V::V>::empty(),
    {
        let result = Dict { entries: Vec::new() };
        assert(result@ =~= Map::<Text, V::V>::empty());
        result
    }

    pub fn len(&self) -> (result: usize)
        ensures
            self@.dom().finite(),
            result == sorted(self@.dom()).len(),
            result == self@.dom().len(),
    {
        proof {
            use_type_invariant(self);
            self.whole();
        }
        self.entries.len()
    }

    pub fn is_empty(&self) -> (result: bool)
        ensures
            result == (self@ == Map::<Text, V::V>::empty()),
    {
        proof {
            use_type_invariant(self);
            self.whole();
            if self.entries@.len() > 0 {
                self.entry(0);
            } else {
                assert(self@ =~= Map::<Text, V::V>::empty());
            }
        }
        self.entries.len() == 0
    }

    /// The key that comes at place `i`.
    pub fn key(&self, i: usize) -> (result: &String)
        requires
            i < sorted(self@.dom()).len(),
        ensures
            result@ == sorted(self@.dom())[i as int],
            self@.contains_key(result@),
    {
        proof {
            use_type_invariant(self);
            self.whole();
            self.entry(i as int);
        }
        &self.entries[i].0
    }

    /// The value of the key that comes at place `i`.
    pub fn value(&self, i: usize) -> (result: &V)
        requires
            i < sorted(self@.dom()).len(),
        ensures
            self@.contains_key(sorted(self@.dom())[i as int]),
            result.deep_view() == self@[sorted(self@.dom())[i as int]],
    {
        proof {
            use_type_invariant(self);
            self.whole();
            self.entry(i as int);
        }
        &self.entries[i].1
    }

    /// The first place whose key does not come before `key`.
    fn search(&self, key: &str) -> (result: usize)
        ensures
            result <= self.entries@.len(),
            forall|i: int| 0 <= i < result ==> text_less(#[trigger] self.key_seq()[i], key@),
            result < self.entries@.len() ==> !text_less(self.key_seq()[result as int], key@),
    {
        proof {
            use_type_invariant(self);
        }
        let mut low: usize = 0;
        let mut high: usize = self.entries.len();
        while low < high
            invariant
                low <= high <= self.entries@.len(),
                ascending(self.key_seq()),
                forall|i: int| 0 <= i < low ==> text_less(#[trigger] self.key_seq()[i], key@),
                high < self.entries@.len() ==> !text_less(self.key_seq()[high as int], key@),
            decreases high - low,
        {
            let middle: usize = low + (high - low) / 2;
            assert(self.key_seq()[middle as int] == self.entries@[middle as int].0@);
            if less(self.entries[middle].0.as_str(), key) {
                assert forall|i: int| 0 <= i < middle + 1 implies text_less(#[trigger] self.key_seq()[i], key@) by {
                    if i < middle {
                        text_less_transitive(self.key_seq()[i], self.key_seq()[middle as int], key@);
                    }
                }
                low = middle + 1;
            } else {
                high = middle;
            }
        }
        low
    }

    /// The place at which `key` stands.
    pub fn find(&self, key: &str) -> (result: Option<usize>)
        ensures
            match result {
                Some(i) => i < sorted(self@.dom()).len() && sorted(self@.dom())[i as int] == key@
                    && self@.contains_key(key@),
                None => !self@.contains_key(key@),
            },
    {
        let at: usize = self.search(key);
        proof {
            use_type_invariant(self);
            self.whole();
        }
        if at < self.entries.len() && same(self.entries[at].0.as_str(), key) {
            proof {
                self.entry(at as int);
            }
            Some(at)
        } else {
            proof {
                self.absent(at as int, key@);
            }
            None
        }
    }

    proof fn absent(&self, at: int, key: Text)
        requires
            self.in_order(),
            0 <= at <= self.entries@.len(),
            forall|i: int| 0 <= i < at ==> text_less(#[trigger] self.key_seq()[i], key),
            at < self.entries@.len() ==> !text_less(self.key_seq()[at], key) && self.key_seq()[at] != key,
        ensures
            !self@.contains_key(key),
    {
        let keys = self.key_seq();
        if keys.contains(key) {
            let i = keys.index_of(key);
            text_less_irreflexive(key);
            if i > at {
                assert(text_less(keys[at], keys[i]));
            }
        }
    }

    pub fn get(&self, key: &str) -> (result: Option<&V>)
        ensures
            match result {
                Some(value) => self@.contains_key(key@) && value.deep_view() == self@[key@],
                None => !self@.contains_key(key@),
            },
    {
        match self.find(key) {
            Some(i) => Some(self.value(i)),
            None => None,
        }
    }

    pub fn contains_key(&self, key: &str) -> (result: bool)
        ensures
            result == self@.contains_key(key@),
    {
        self.find(key).is_some()
    }

    pub fn insert(&mut self, key: String, value: V)
        ensures
            final(self)@ == old(self)@.insert(key@, value.deep_view()),
    {
        let ghost before = *self;
        proof {
            use_type_invariant(&*self);
        }
        let at: usize = self.search(key.as_str());
        let ghost keys = self.key_seq();
        if at < self.entries.len() && same(self.entries[at].0.as_str(), key.as_str()) {
            let ghost pair = (key, value);
            assert(before.entries@.update(at as int, pair).map_values(|entry: (String, V)| entry.0@) =~= keys);
            let mut entries: Vec<(String, V)> = Vec::new();
            core::mem::swap(&mut self.entries, &mut entries);
            entries[at] = (key, value);
            self.entries = entries;
            assert(self.key_seq() =~= keys);
            proof {
                ascending_no_duplicates(keys);
                assert(keys[at as int] == key@);
                assert(keys.contains(key@));
                assert(self@ =~= before@.insert(key@, value.deep_view()));
            }
        } else {
            proof {
                insert_keeps_ascending(keys, at as int, key@);
                before.absent(at as int, key@);
                assert(before.entries@.insert(at as int, (key, value)).map_values(|entry: (String, V)| entry.0@)
                    =~= keys.insert(at as int, key@));
            }
            let ghost text = key@;
            let ghost meaning = value.deep_view();
            let mut entries: Vec<(String, V)> = Vec::new();
            core::mem::swap(&mut self.entries, &mut entries);
            entries.insert(at, (key, value));
            self.entries = entries;
            proof {
                let after = *self;
                assert(after.key_seq() =~= keys.insert(at as int, text));
                after.entry(at as int);
                assert forall|k: Text| before@.contains_key(k) implies after@.contains_key(k) && after@[k] == before@[k] by {
                    let i = keys.index_of(k);
                    before.entry(i);
                    if i < at {
                        after.entry(i);
                    } else {
                        after.entry(i + 1);
                    }
                }
                assert forall|k: Text| after@.contains_key(k) implies before@.contains_key(k) || k == text by {
                    let i = after.key_seq().index_of(k);
                    if i < at {
                        assert(keys[i] == k);
                    } else if i > at {
                        assert(keys[i - 1] == k);
                    }
                }
                assert(after@ =~= before@.insert(text, meaning));
            }
        }
    }

    /// Takes `key` out, and gives what it held.
    pub fn remove(&mut self, key: &str) -> (result: Option<V>)
        ensures
            final(self)@ == old(self)@.remove(key@),
            match result {
                Some(value) => old(self)@.contains_key(key@) && value.deep_view() == old(self)@[key@],
                None => !old(self)@.contains_key(key@),
            },
    {
        let ghost before = *self;
        proof {
            use_type_invariant(&*self);
        }
        match self.find(key) {
            Some(at) => {
                proof {
                    before.whole();
                    before.entry(at as int);
                    assert(before.entries@.remove(at as int).map_values(|entry: (String, V)| entry.0@)
                        =~= before.key_seq().remove(at as int));
                    let (old_keys, new_keys) = (before.key_seq(), before.key_seq().remove(at as int));
                    assert forall|i: int, j: int| 0 <= i < j < new_keys.len() implies text_less(
                        #[trigger] new_keys[i],
                        #[trigger] new_keys[j],
                    ) by {
                        let a = if i < at { i } else { i + 1 };
                        let b = if j < at { j } else { j + 1 };
                        assert(text_less(old_keys[a], old_keys[b]));
                    }
                }
                let mut entries: Vec<(String, V)> = Vec::new();
                core::mem::swap(&mut self.entries, &mut entries);
                let (_, value) = entries.remove(at);
                self.entries = entries;
                proof {
                    let after = *self;
                    let keys = before.key_seq();
                    ascending_no_duplicates(keys);
                    assert(after.key_seq() =~= keys.remove(at as int));
                    assert forall|k: Text| #[trigger] before@.contains_key(k) && k != key@ implies after@.contains_key(k)
                        && after@[k] == before@[k] by {
                        let i = keys.index_of(k);
                        before.entry(i);
                        if i < at {
                            after.entry(i);
                        } else {
                            after.entry(i - 1);
                        }
                    }
                    assert forall|k: Text| after@.contains_key(k) implies before@.contains_key(k) && k != key@ by {
                        let i = after.key_seq().index_of(k);
                        if i < at {
                            assert(keys[i] == k);
                        } else {
                            assert(keys[i + 1] == k);
                        }
                    }
                    let expected = before@.remove(key@);
                    assert forall|k: Text| after@.dom().contains(k) == #[trigger] expected.dom().contains(k) by {
                        assert(after@.contains_key(k) ==> before@.contains_key(k) && k != key@);
                        assert(before@.contains_key(k) && k != key@ ==> after@.contains_key(k));
                    }
                    assert(after@.dom() =~= expected.dom());
                    assert(after@ =~= expected);
                }
                Some(value)
            },
            None => {
                assert(self@ =~= before@.remove(key@));
                None
            },
        }
    }
}

impl<V: Duplicate> Dict<V> {
    /// The entries whose keys are not in `other`.
    pub fn without<W: DeepView>(&self, other: &Dict<W>) -> (result: Dict<V>)
        ensures
            result@ == self@.remove_keys(other@.dom()),
    {
        let mut result: Dict<V> = Dict::new();
        let n: usize = self.len();
        let ghost keys = sorted(self@.dom());
        proof {
            sorted_properties(self@.dom());
        }
        let mut i: usize = 0;
        while i < n
            invariant
                n == keys.len(),
                keys == sorted(self@.dom()),
                i <= n,
                forall|x: Text| #[trigger] keys.contains(x) == self@.dom().contains(x),
                result@ == self@.remove_keys(other@.dom()).restrict(keys.take(i as int).to_set()),
            decreases n - i,
        {
            proof {
                taken_one_more(keys, i as int);
            }
            if !other.contains_key(self.key(i).as_str()) {
                result.insert(self.key(i).clone(), self.value(i).duplicate());
            }
            assert(result@ =~= self@.remove_keys(other@.dom()).restrict(keys.take(i + 1).to_set()));
            i += 1;
        }
        proof {
            assert(keys.take(i as int) =~= keys);
            assert(result@ =~= self@.remove_keys(other@.dom())) by {
                assert forall|k: Text| self@.contains_key(k) implies keys.to_set().contains(k) by {
                    assert(keys.contains(k));
                }
            }
        }
        result
    }
}

impl<V: Duplicate> Dict<V> {
    /// Takes over the entries of `other`, in place of those with the same keys.
    pub fn extend(&mut self, other: &Dict<V>)
        ensures
            final(self)@ == old(self)@.union_prefer_right(other@),
    {
        let ghost before = self@;
        let n: usize = other.len();
        let ghost keys = sorted(other@.dom());
        proof {
            sorted_properties(other@.dom());
            assert(self@ =~= before.union_prefer_right(other@.restrict(keys.take(0).to_set())));
        }
        let mut i: usize = 0;
        while i < n
            invariant
                n == keys.len(),
                keys == sorted(other@.dom()),
                i <= n,
                self@ == before.union_prefer_right(other@.restrict(keys.take(i as int).to_set())),
            decreases n - i,
        {
            self.insert(other.key(i).clone(), other.value(i).duplicate());
            proof {
                taken_one_more(keys, i as int);
                assert(self@ =~= before.union_prefer_right(other@.restrict(keys.take(i + 1).to_set())));
            }
            i += 1;
        }
        proof {
            assert(keys.take(i as int) =~= keys);
            assert(other@.restrict(keys.to_set()) =~= other@);
        }
    }
}

impl<V: Duplicate> Duplicate for Dict<V> {
    fn duplicate(&self) -> (result: Self) {
        let mut result: Dict<V> = Dict::new();
        let n: usize = self.len();
        let ghost keys = sorted(self@.dom());
        proof {
            sorted_properties(self@.dom());
        }
        let mut i: usize = 0;
        while i < n
            invariant
                n == keys.len(),
                keys == sorted(self@.dom()),
                i <= n,
                keys.no_duplicates(),
                forall|x: Text| #[trigger] keys.contains(x) == self@.dom().contains(x),
                result@ == self@.restrict(keys.take(i as int).to_set()),
            decreases n - i,
        {
            result.insert(self.key(i).clone(), self.value(i).duplicate());
            proof {
                taken_one_more(keys, i as int);
                assert(result@ =~= self@.restrict(keys.take(i + 1).to_set()));
            }
            i += 1;
        }
        proof {
            assert(keys.take(i as int) =~= keys);
            assert(result@ =~= self@) by {
                assert forall|k: Text| self@.contains_key(k) implies keys.to_set().contains(k) by {
                    assert(keys.contains(k));
                }
            }
        }
        result
    }
}

/// The members of a prefix grow by the next name.
pub proof fn taken_one_more(names: Seq<Text>, i: int)
    requires
        0 <= i < names.len(),
    ensures
        names.take(i + 1).to_set() == names.take(i).to_set().insert(names[i]),
        names.no_duplicates() ==> !names.take(i).to_set().contains(names[i]),
        names.contains(names[i]),
{
    let (a, b) = (names.take(i + 1), names.take(i));
    assert forall|x: Text| a.to_set().contains(x) == b.to_set().insert(names[i]).contains(x) by {
        if a.contains(x) {
            let k = a.index_of(x);
            if k < i {
                assert(b[k] == x);
            }
        }
        if b.contains(x) {
            assert(a[b.index_of(x)] == x);
        }
        if x == names[i] {
            assert(a[i] == x);
        }
    }
    assert(a.to_set() =~= b.to_set().insert(names[i]));
}

/// A set of strings, kept in order.
#[derive(Debug, PartialEq, Eq)]
pub struct Names {
    members: Dict<bool>,
}

impl View for Names {
    type V = Set<Text>;

    closed spec fn view(&self) -> Set<Text> {
        self.members@.dom()
    }
}

impl DeepView for Names {
    type V = Set<Text>;

    open spec fn deep_view(&self) -> Set<Text> {
        self@
    }
}

impl Names {
    pub fn new() -> (result: Self)
        ensures
            result@ == Set::<Text>::empty(),
    {
        let result = Names { members: Dict::new() };
        assert(result@ =~= Set::<Text>::empty());
        result
    }

    pub fn len(&self) -> (result: usize)
        ensures
            self@.finite(),
            result == sorted(self@).len(),
            result == self@.len(),
    {
        self.members.len()
    }

    pub fn is_empty(&self) -> (result: bool)
        ensures
            result == (self@ == Set::<Text>::empty()),
    {
        let n: usize = self.members.len();
        proof {
            if n == 0 {
                assert(self@ =~= Set::<Text>::empty());
            }
        }
        n == 0
    }

    /// The name that comes at place `i`.
    pub fn at(&self, i: usize) -> (result: &String)
        requires
            i < sorted(self@).len(),
        ensures
            result@ == sorted(self@)[i as int],
            self@.contains(result@),
    {
        self.members.key(i)
    }

    pub fn contains(&self, name: &str) -> (result: bool)
        ensures
            result == self@.contains(name@),
    {
        self.members.contains_key(name)
    }

    /// The names, in order.
    pub fn to_vec(&self) -> (result: Vec<String>)
        ensures
            result.deep_view() == sorted(self@),
    {
        let mut result: Vec<String> = Vec::new();
        let n: usize = self.len();
        let mut i: usize = 0;
        while i < n
            invariant
                i <= n,
                n == sorted(self@).len(),
                result.deep_view() == sorted(self@).take(i as int),
            decreases n - i,
        {
            let ghost before = result.deep_view();
            result.push(self.at(i).clone());
            assert(result.deep_view() =~= before.push(sorted(self@)[i as int]));
            i += 1;
            assert(result.deep_view() =~= sorted(self@).take(i as int));
        }
        assert(result.deep_view() =~= sorted(self@));
        result
    }

    /// Adds `name`, and tells whether it was missing before.
    pub fn insert(&mut self, name: String) -> (result: bool)
        ensures
            final(self)@ == old(self)@.insert(name@),
            result == !old(self)@.contains(name@),
    {
        let new = !self.members.contains_key(name.as_str());
        let ghost before = self@;
        self.members.insert(name, true);
        assert(self@ =~= before.insert(name@));
        new
    }

    /// Takes `name` out, and tells whether it was there.
    pub fn remove(&mut self, name: &str) -> (result: bool)
        ensures
            final(self)@ == old(self)@.remove(name@),
            result == old(self)@.contains(name@),
    {
        let ghost before = self@;
        let had = self.members.remove(name).is_some();
        assert(self@ =~= before.remove(name@));
        had
    }
}

impl Duplicate for Names {
    fn duplicate(&self) -> (result: Self) {
        Names { members: self.members.duplicate() }
    }
}

} // verus!
