//! Which version of a package is picked for a range or a tag.
use vstd::prelude::*;

use crate::dict::{sorted, sorted_properties, taken_one_more, Duplicate};
use crate::error::Error;
use crate::registry::{Packument, PackumentView};
use crate::text::{cat3, cat5, same, text_less, text_less_irreflexive, text_less_total, Text};
use crate::time::{parse_time, parsed_time, Timestamp};
use crate::version::{
    bare, check_range, in_range, parsed_version, range_fault, satisfies, version_less, version_less_irreflexive,
    version_less_total, version_less_transitive, version_text, Version, VersionView,
};

verus! {

/// A set of versions without build metadata.
pub struct Versions {
    list: Vec<Version>,
}

impl View for Versions {
    type V = Set<VersionView>;

    closed spec fn view(&self) -> Set<VersionView> {
        self.list.deep_view().to_set()
    }
}

impl DeepView for Versions {
    type V = Set<VersionView>;

    open spec fn deep_view(&self) -> Set<VersionView> {
        self@
    }
}

/// No version of the set has build metadata.
pub open spec fn all_bare(versions: Set<VersionView>) -> bool {
    forall|v: VersionView| #[trigger] versions.contains(v) ==> bare(v) == v
}

/// The highest version of the set that `accept` accepts.
pub open spec fn is_highest_of(versions: Set<VersionView>, accept: spec_fn(VersionView) -> bool, v: VersionView) -> bool {
    &&& versions.contains(v)
    &&& accept(v)
    &&& forall|other: VersionView| #[trigger] versions.contains(other) && accept(other) ==> !version_less(v, other)
}

pub open spec fn highest_of(versions: Set<VersionView>, accept: spec_fn(VersionView) -> bool) -> Option<VersionView> {
    if exists|v: VersionView| is_highest_of(versions, accept, v) {
        Some(choose|v: VersionView| is_highest_of(versions, accept, v))
    } else {
        None
    }
}

proof fn highest_of_is(versions: Set<VersionView>, accept: spec_fn(VersionView) -> bool, v: VersionView)
    requires
        all_bare(versions),
        is_highest_of(versions, accept, v),
    ensures
        highest_of(versions, accept) == Some(v),
{
    let other = choose|w: VersionView| is_highest_of(versions, accept, w);
    version_less_total(v, other);
    assert(bare(v) == v && bare(other) == other);
}

impl Versions {
    #[verifier::type_invariant]
    spec fn well_formed(&self) -> bool {
        forall|i: int| 0 <= i < self.list.deep_view().len() ==> bare(#[trigger] self.list.deep_view()[i])
            == self.list.deep_view()[i]
    }

    pub fn new() -> (result: Self)
        ensures
            result@ == Set::<VersionView>::empty(),
    {
        let result = Versions { list: Vec::new() };
        assert(result@ =~= Set::<VersionView>::empty());
        result
    }

    proof fn are_bare(&self)
        requires
            self.well_formed(),
        ensures
            all_bare(self@),
    {
        assert forall|v: VersionView| #[trigger] self@.contains(v) implies bare(v) == v by {
            let i = self.list.deep_view().index_of(v);
            assert(self.list.deep_view()[i] == v);
        }
    }

    pub fn contains(&self, v: &Version) -> (result: bool)
        requires
            bare(v@) == v@,
        ensures
            result == self@.contains(v@),
    {
        proof {
            use_type_invariant(self);
        }
        let mut i: usize = 0;
        while i < self.list.len()
            invariant
                i <= self.list.len(),
                bare(v@) == v@,
                self.well_formed(),
                forall|j: int| 0 <= j < i ==> #[trigger] self.list.deep_view()[j] != v@,
            decreases self.list.len() - i,
        {
            proof {
                version_less_total(self.list@[i as int]@, v@);
                version_less_irreflexive(v@);
                assert(self.list.deep_view()[i as int] == self.list@[i as int]@);
            }
            if !self.list[i].precedes(v) && !v.precedes(&self.list[i]) {
                assert(self.list.deep_view()[i as int] == v@);
                return true;
            }
            i += 1;
        }
        false
    }

    pub fn insert(&mut self, v: Version)
        requires
            bare(v@) == v@,
        ensures
            final(self)@ == old(self)@.insert(v@),
    {
        if self.contains(&v) {
            assert(self@.insert(v@) =~= self@);
            return;
        }
        proof {
            use_type_invariant(&*self);
        }
        let ghost before = self.list.deep_view();
        let ghost meaning = v@;
        let mut list: Vec<Version> = Vec::new();
        core::mem::swap(&mut self.list, &mut list);
        list.push(v);
        assert(list.deep_view() =~= before.push(meaning));
        self.list = list;
        proof {
            let after = self.list.deep_view();
            assert forall|x: VersionView| after.to_set().contains(x) == before.to_set().insert(meaning).contains(x) by {
                if before.contains(x) {
                    assert(after[before.index_of(x)] == x);
                }
                if x == meaning {
                    assert(after.last() == x);
                }
            }
            assert(after.to_set() =~= before.to_set().insert(meaning));
        }
    }

    /// The highest version in the range `range`.
    pub fn highest_in(&self, range: &str) -> (result: Option<Version>)
        ensures
            result.deep_view() == highest_of(self@, |v: VersionView| in_range(range@, v)),
            result is Some ==> bare(result->0@) == result->0@,
    {
        proof {
            use_type_invariant(self);
            self.are_bare();
        }
        let ghost accept = |v: VersionView| in_range(range@, v);
        let ghost all = self.list.deep_view();
        let mut best: Option<usize> = None;
        let mut i: usize = 0;
        while i < self.list.len()
            invariant
                i <= self.list.len(),
                accept == (|v: VersionView| in_range(range@, v)),
                all == self.list.deep_view(),
                match best {
                    Some(b) => b < i && accept(all[b as int]) && forall|j: int|
                        0 <= j < i && accept(#[trigger] all[j]) ==> !version_less(all[b as int], all[j]),
                    None => forall|j: int| 0 <= j < i ==> !accept(#[trigger] all[j]),
                },
            decreases self.list.len() - i,
        {
            let ghost old_best = best;
            if satisfies(range, &self.list[i]) {
                let better = match best {
                    Some(b) => self.list[b].precedes(&self.list[i]),
                    None => true,
                };
                proof {
                    version_less_irreflexive(all[i as int]);
                    assert forall|j: int| better && 0 <= j < i && accept(#[trigger] all[j]) implies !version_less(
                        all[i as int],
                        all[j],
                    ) by {
                        if version_less(all[i as int], all[j]) {
                            version_less_transitive(all[old_best->0 as int], all[i as int], all[j]);
                        }
                    }
                }
                if better {
                    best = Some(i);
                }
            }
            i += 1;
        }
        match best {
            Some(b) => {
                proof {
                    let v = all[b as int];
                    assert(all.contains(v));
                    assert forall|other: VersionView| #[trigger] self@.contains(other) && accept(other) implies !version_less(
                        v,
                        other,
                    ) by {
                        assert(all[all.index_of(other)] == other);
                    }
                    assert(is_highest_of(self@, accept, v));
                    highest_of_is(self@, accept, v);
                }
                Some(self.list[b].duplicate())
            },
            None => {
                assert forall|v: VersionView| !is_highest_of(self@, accept, v) by {
                    if self@.contains(v) {
                        assert(all[all.index_of(v)] == v);
                    }
                }
                None
            },
        }
    }
}

impl Duplicate for Versions {
    fn duplicate(&self) -> (result: Self) {
        proof {
            use_type_invariant(self);
        }
        let list = self.list.duplicate();
        Versions { list }
    }
}

/// `raw` is how version `v` is written among `raws`. Where it is written in several ways, the last
/// one counts.
pub open spec fn is_release(raws: Set<Text>, v: VersionView, raw: Text) -> bool {
    &&& raws.contains(raw)
    &&& parsed_version(raw) is Some
    &&& bare(parsed_version(raw)->0) == v
    &&& forall|other: Text| #[trigger] raws.contains(other) && parsed_version(other) is Some && bare(
        parsed_version(other)->0,
    ) == v ==> !text_less(raw, other)
}

/// `v`, written `raw`, is the highest version that `accept` accepts.
pub open spec fn is_highest(raws: Set<Text>, accept: spec_fn(VersionView, Text) -> bool, v: VersionView, raw: Text) -> bool {
    &&& is_release(raws, v, raw)
    &&& accept(v, raw)
    &&& forall|w: VersionView, other: Text| #[trigger] is_release(raws, w, other) && accept(w, other) ==> !version_less(v, w)
}

/// The highest version that `accept` accepts, and how it is written.
pub open spec fn highest(raws: Set<Text>, accept: spec_fn(VersionView, Text) -> bool) -> Option<(VersionView, Text)> {
    if exists|v: VersionView, raw: Text| is_highest(raws, accept, v, raw) {
        Some(choose|pair: (VersionView, Text)| is_highest(raws, accept, pair.0, pair.1))
    } else {
        None
    }
}

/// A version is written in one way that counts, and only one version is the highest.
pub proof fn highest_is(raws: Set<Text>, accept: spec_fn(VersionView, Text) -> bool, v: VersionView, raw: Text)
    requires
        is_highest(raws, accept, v, raw),
    ensures
        highest(raws, accept) == Some((v, raw)),
{
    let pair = (v, raw);
    assert(is_highest(raws, accept, pair.0, pair.1));
    let (w, other) = choose|pair: (VersionView, Text)| is_highest(raws, accept, pair.0, pair.1);
    version_less_total(v, w);
    assert(is_release(raws, w, other));
    assert(bare(v) == v && bare(w) == w);
    text_less_total(raw, other);
}

/// Whatever `highest` gives is a release that was accepted, and there is none only where nothing is.
pub proof fn highest_properties(raws: Set<Text>, accept: spec_fn(VersionView, Text) -> bool)
    ensures
        match highest(raws, accept) {
            Some((v, raw)) => is_highest(raws, accept, v, raw),
            None => forall|v: VersionView, raw: Text| !is_highest(raws, accept, v, raw),
        },
{
    if exists|v: VersionView, raw: Text| is_highest(raws, accept, v, raw) {
        let (v, raw) = choose|v: VersionView, raw: Text| is_highest(raws, accept, v, raw);
        highest_is(raws, accept, v, raw);
    }
}

/// `list` holds the releases among `raws`, the highest last.
pub open spec fn is_release_list(raws: Set<Text>, list: Seq<(VersionView, Text)>) -> bool {
    &&& is_ascending(list)
    &&& forall|i: int| 0 <= i < list.len() ==> is_release(raws, (#[trigger] list[i]).0, list[i].1)
    &&& forall|v: VersionView, raw: Text| #[trigger] is_release(raws, v, raw) ==> list.contains((v, raw))
}

proof fn unreadable_added(raws: Set<Text>, list: Seq<(VersionView, Text)>, raw: Text)
    requires
        is_release_list(raws, list),
        parsed_version(raw) is None,
    ensures
        is_release_list(raws.insert(raw), list),
{
    let more = raws.insert(raw);
    assert forall|v: VersionView, r: Text| is_release(raws, v, r) == #[trigger] is_release(more, v, r) by {
        if is_release(more, v, r) {
            assert forall|other: Text| #[trigger] raws.contains(other) && parsed_version(other) is Some && bare(
                parsed_version(other)->0,
            ) == v implies !text_less(r, other) by {
                assert(more.contains(other));
            }
        }
    }
}

proof fn readable_added(raws: Set<Text>, list: Seq<(VersionView, Text)>, raw: Text, v: VersionView, at: int)
    requires
        is_release_list(raws, list),
        parsed_version(raw) is Some,
        bare(parsed_version(raw)->0) == v,
        forall|other: Text| #[trigger] raws.contains(other) ==> text_less(other, raw),
        0 <= at <= list.len(),
        forall|i: int| 0 <= i < at ==> version_less((#[trigger] list[i]).0, v),
        at < list.len() ==> !version_less(list[at].0, v),
    ensures
        at < list.len() && list[at].0 == v ==> is_release_list(raws.insert(raw), list.update(at, (v, raw))),
        !(at < list.len() && list[at].0 == v) ==> is_release_list(raws.insert(raw), list.insert(at, (v, raw))),
{
    let more = raws.insert(raw);
    text_less_irreflexive(raw);
    assert(is_release(more, v, raw)) by {
        assert forall|other: Text| #[trigger] more.contains(other) && parsed_version(other) is Some && bare(
            parsed_version(other)->0,
        ) == v implies !text_less(raw, other) by {
            if other != raw {
                assert(raws.contains(other));
                text_less_total(raw, other);
            }
        }
    }
    assert forall|w: VersionView, r: Text| w != v implies is_release(raws, w, r) == #[trigger] is_release(more, w, r) by {
        if is_release(more, w, r) {
            assert forall|other: Text| #[trigger] raws.contains(other) && parsed_version(other) is Some && bare(
                parsed_version(other)->0,
            ) == w implies !text_less(r, other) by {
                assert(more.contains(other));
            }
        }
    }
    assert forall|r: Text| #[trigger] is_release(more, v, r) implies r == raw by {
        if r != raw {
            assert(raws.contains(r));
            assert(more.contains(raw));
        }
    }
    if at < list.len() && list[at].0 == v {
        let new = list.update(at, (v, raw));
        assert forall|i: int, j: int| 0 <= i < j < new.len() implies version_less(
            (#[trigger] new[i]).0,
            (#[trigger] new[j]).0,
        ) by {
            assert(version_less(list[i].0, list[j].0));
        }
        assert forall|i: int| 0 <= i < new.len() implies is_release(more, (#[trigger] new[i]).0, new[i].1) by {
            if i != at {
                assert(is_release(raws, list[i].0, list[i].1));
                version_less_irreflexive(v);
                if i < at {
                    assert(version_less(list[i].0, list[at].0));
                } else {
                    assert(version_less(list[at].0, list[i].0));
                }
            }
        }
        assert forall|w: VersionView, r: Text| #[trigger] is_release(more, w, r) implies new.contains((w, r)) by {
            if w == v {
                assert(new[at] == (w, r));
            } else {
                assert(is_release(raws, w, r));
                let k = list.index_of((w, r));
                assert(new[k] == (w, r));
            }
        }
    } else {
        let new = list.insert(at, (v, raw));
        if at < list.len() {
            version_less_total(v, list[at].0);
            assert(is_release(raws, list[at].0, list[at].1));
            assert(bare(list[at].0) == list[at].0);
        }
        assert forall|i: int, j: int| 0 <= i < j < new.len() implies version_less(
            (#[trigger] new[i]).0,
            (#[trigger] new[j]).0,
        ) by {
            if j < at {
                assert(version_less(list[i].0, list[j].0));
            } else if i < at && j > at {
                assert(version_less(list[i].0, list[j - 1].0));
            } else if i == at {
                if j - 1 > at {
                    assert(version_less(list[at].0, list[j - 1].0));
                    version_less_transitive(v, list[at].0, list[j - 1].0);
                }
            } else if i > at {
                assert(version_less(list[i - 1].0, list[j - 1].0));
            }
        }
        assert forall|i: int| 0 <= i < list.len() implies (#[trigger] list[i]).0 != v by {
            version_less_irreflexive(v);
            if i > at {
                assert(version_less(list[at].0, list[i].0));
                version_less_transitive(v, list[at].0, list[i].0);
            }
        }
        assert forall|i: int| 0 <= i < new.len() implies is_release(more, (#[trigger] new[i]).0, new[i].1) by {
            if i < at {
                assert(is_release(raws, list[i].0, list[i].1));
            } else if i > at {
                assert(is_release(raws, list[i - 1].0, list[i - 1].1));
            }
        }
        assert forall|w: VersionView, r: Text| #[trigger] is_release(more, w, r) implies new.contains((w, r)) by {
            if w == v {
                assert(new[at] == (w, r));
            } else {
                assert(is_release(raws, w, r));
                let k = list.index_of((w, r));
                if k < at {
                    assert(new[k] == (w, r));
                } else {
                    assert(new[k + 1] == (w, r));
                }
            }
        }
    }
}

/// The first place in `list` whose version does not precede `v`.
fn place_of(list: &Vec<(Version, String)>, v: &Version) -> (result: usize)
    requires
        is_ascending(list.deep_view()),
    ensures
        result <= list@.len(),
        forall|i: int| 0 <= i < result ==> version_less((#[trigger] list.deep_view()[i]).0, v@),
        result < list@.len() ==> !version_less(list.deep_view()[result as int].0, v@),
{
    let ghost all = list.deep_view();
    let mut low: usize = 0;
    let mut high: usize = list.len();
    while low < high
        invariant
            all == list.deep_view(),
            low <= high <= list@.len(),
            forall|i: int, j: int|
                0 <= i < j < all.len() ==> version_less((#[trigger] all[i]).0, (#[trigger] all[j]).0),
            forall|i: int| 0 <= i < low ==> version_less((#[trigger] all[i]).0, v@),
            high < list@.len() ==> !version_less(all[high as int].0, v@),
        decreases high - low,
    {
        let middle: usize = low + (high - low) / 2;
        assert(all[middle as int].0 == list@[middle as int].0@);
        if list[middle].0.precedes(v) {
            assert forall|i: int| 0 <= i < middle + 1 implies version_less((#[trigger] all[i]).0, v@) by {
                if i < middle {
                    version_less_transitive(all[i].0, all[middle as int].0, v@);
                }
            }
            low = middle + 1;
        } else {
            high = middle;
        }
    }
    low
}

/// `list` is in order, and no version stands in it twice.
pub open spec fn is_ascending(list: Seq<(VersionView, Text)>) -> bool {
    forall|i: int, j: int| 0 <= i < j < list.len() ==> version_less((#[trigger] list[i]).0, (#[trigger] list[j]).0)
}

/// How many versions at the beginning of `list` precede `v`.
pub open spec fn release_place(list: Seq<(VersionView, Text)>, v: VersionView) -> int
    decreases list.len(),
{
    if list.len() == 0 || !version_less(list[0].0, v) {
        0
    } else {
        1 + release_place(list.skip(1), v)
    }
}

/// `list` with version `v`, written `raw`, in its place, where another way to write it may stand.
pub open spec fn with_release(list: Seq<(VersionView, Text)>, v: VersionView, raw: Text) -> Seq<(VersionView, Text)> {
    let at = release_place(list, v);
    if at < list.len() && !version_less(v, list[at].0) {
        list.update(at, (v, raw))
    } else {
        list.insert(at, (v, raw))
    }
}

proof fn release_place_is(list: Seq<(VersionView, Text)>, v: VersionView, at: int)
    requires
        0 <= at <= list.len(),
        forall|i: int| 0 <= i < at ==> version_less((#[trigger] list[i]).0, v),
        at < list.len() ==> !version_less(list[at].0, v),
    ensures
        release_place(list, v) == at,
    decreases list.len(),
{
    if at > 0 {
        let rest = list.skip(1);
        assert(version_less(list[0].0, v));
        assert forall|i: int| 0 <= i < at - 1 implies version_less((#[trigger] rest[i]).0, v) by {
            assert(rest[i] == list[i + 1]);
        }
        release_place_is(rest, v, at - 1);
    }
}

proof fn release_place_bounds(list: Seq<(VersionView, Text)>, v: VersionView)
    ensures
        0 <= release_place(list, v) <= list.len(),
        forall|i: int| 0 <= i < release_place(list, v) ==> version_less((#[trigger] list[i]).0, v),
        release_place(list, v) < list.len() ==> !version_less(list[release_place(list, v)].0, v),
    decreases list.len(),
{
    if list.len() > 0 && version_less(list[0].0, v) {
        let rest = list.skip(1);
        release_place_bounds(rest, v);
        assert forall|i: int| 0 <= i < release_place(list, v) implies version_less((#[trigger] list[i]).0, v) by {
            if i > 0 {
                assert(list[i] == rest[i - 1]);
            }
        }
    }
}

proof fn release_added(raws: Set<Text>, list: Seq<(VersionView, Text)>, raw: Text, v: VersionView)
    requires
        is_release_list(raws, list),
        parsed_version(raw) is Some,
        bare(parsed_version(raw)->0) == v,
        forall|other: Text| #[trigger] raws.contains(other) ==> text_less(other, raw),
    ensures
        is_release_list(raws.insert(raw), with_release(list, v, raw)),
{
    let at = release_place(list, v);
    release_place_bounds(list, v);
    readable_added(raws, list, raw, v, at);
    if at < list.len() {
        version_less_total(list[at].0, v);
        assert(is_release(raws, list[at].0, list[at].1));
        version_less_irreflexive(v);
    }
}

/// Puts version `version`, written `raw`, in its place in `list`, where another way to write it may
/// stand.
pub fn add_release(list: &mut Vec<(Version, String)>, version: Version, raw: String)
    requires
        is_ascending(old(list).deep_view()),
    ensures
        final(list).deep_view() == with_release(old(list).deep_view(), version@, raw@),
{
    let ghost before = list.deep_view();
    let ghost pair = (version@, raw@);
    let at: usize = place_of(list, &version);
    proof {
        release_place_is(before, version@, at as int);
        if at < list@.len() {
            assert(list@[at as int].0@ == before[at as int].0);
        }
    }
    if at < list.len() && !version.precedes(&list[at].0) {
        list[at] = (version, raw);
        assert(list.deep_view() =~= before.update(at as int, pair));
    } else {
        list.insert(at, (version, raw));
        assert(list.deep_view() =~= before.insert(at as int, pair));
    }
}

/// A packument with its versions in order.
pub struct Fetched {
    packument: Packument,
    versions: Vec<(Version, String)>,
    /// Cached packuments may predate versions and tags published since.
    verified: bool,
}

/// What a `Fetched` means.
#[verifier::ext_equal]
pub struct FetchedView {
    pub packument: PackumentView,
    pub verified: bool,
}

impl View for Fetched {
    type V = FetchedView;

    closed spec fn view(&self) -> FetchedView {
        FetchedView { packument: self.packument@, verified: self.verified }
    }
}

impl DeepView for Fetched {
    type V = FetchedView;

    open spec fn deep_view(&self) -> FetchedView {
        self@
    }
}

impl PackumentView {
    /// The versions, as they are written.
    pub open spec fn raws(self) -> Set<Text> {
        self.versions.dom()
    }

    /// `raw` may be chosen under `cutoff`.
    pub open spec fn is_released(self, raw: Text, cutoff: Option<Timestamp>) -> bool {
        match cutoff {
            None => true,
            Some(cutoff) => !self.changed_after(cutoff) || (self.time.contains_key(raw) && match parsed_time(
                self.time[raw],
            ) {
                Some(time) => time.is_before(cutoff),
                None => false,
            }),
        }
    }
}

/// The version that is picked for `range` whatever else a packument holds, if it is one.
pub open spec fn pinned(range: Text, chosen: Set<VersionView>) -> Option<VersionView> {
    let exact = parsed_version(range);
    if exact is Some && version_text(exact->0) == range {
        Some(bare(exact->0))
    } else if range_fault(range) is None {
        highest_of(chosen, |v: VersionView| in_range(range, v))
    } else {
        None
    }
}

/// `v` is among the versions `raws`.
pub open spec fn is_available(raws: Set<Text>, v: VersionView) -> bool {
    exists|raw: Text| is_release(raws, v, raw)
}

/// Versions up to `tagged` that are `released`, with prereleases only if that is one.
pub open spec fn up_to(tagged: VersionView, released: spec_fn(Text) -> bool) -> spec_fn(VersionView, Text) -> bool {
    |v: VersionView, raw: Text|
        !version_less(tagged, v) && (tagged.pre_release.len() > 0 || v.pre_release.len() == 0) && released(raw)
}

/// Versions in `range` that were `chosen` before.
pub open spec fn reusable(range: Text, chosen: Set<VersionView>) -> spec_fn(VersionView, Text) -> bool {
    |v: VersionView, raw: Text| chosen.contains(v) && in_range(range, v)
}

/// Versions in `range` that are `released`.
pub open spec fn matching(range: Text, released: spec_fn(Text) -> bool) -> spec_fn(VersionView, Text) -> bool {
    |v: VersionView, raw: Text| in_range(range, v) && released(raw)
}

/// The version `one`, if it is in `range` and `released`.
pub open spec fn matching_one(
    range: Text,
    one: VersionView,
    released: spec_fn(Text) -> bool,
) -> spec_fn(VersionView, Text) -> bool {
    |v: VersionView, raw: Text| v == one && in_range(range, v) && released(raw)
}

/// What a tag on version `tagged` selects: that version, or the highest below it that is
/// `released`, and a prerelease only if the tagged version is one.
pub open spec fn picked_for_tag(
    p: PackumentView,
    tagged: VersionView,
    released: spec_fn(Text) -> bool,
) -> Option<(VersionView, Text)> {
    if is_available(p.raws(), tagged) {
        highest(p.raws(), up_to(tagged, released))
    } else {
        None
    }
}

/// What a range selects: a version already `chosen`, or else the latest one, or else the highest.
/// Versions not yet chosen must be `released`.
pub open spec fn picked_for_range(
    p: PackumentView,
    range: Text,
    chosen: Set<VersionView>,
    released: spec_fn(Text) -> bool,
) -> Option<(VersionView, Text)> {
    let reused = highest(p.raws(), reusable(range, chosen));
    let latest = if p.dist_tags.contains_key("latest"@) && parsed_version(p.dist_tags["latest"@]) is Some {
        highest(p.raws(), matching_one(range, bare(parsed_version(p.dist_tags["latest"@])->0), released))
    } else {
        None
    };
    if range_fault(range) is Some {
        None
    } else if reused is Some {
        reused
    } else if latest is Some {
        latest
    } else {
        highest(p.raws(), matching(range, released))
    }
}

/// The version that is picked for a range or a tag, and how it is written.
pub open spec fn picked(
    p: PackumentView,
    range: Text,
    chosen: Set<VersionView>,
    released: spec_fn(Text) -> bool,
) -> Option<(VersionView, Text)> {
    if p.dist_tags.contains_key(range) {
        match parsed_version(p.dist_tags[range]) {
            Some(tagged) => picked_for_tag(p, bare(tagged), released),
            None => None,
        }
    } else {
        picked_for_range(p, range, chosen, released)
    }
}

impl FetchedView {
    /// A pinned version for `range` is here.
    pub open spec fn has_pinned(self, range: Text, chosen: Set<VersionView>) -> bool {
        &&& !self.packument.dist_tags.contains_key(range)
        &&& pinned(range, chosen) is Some
        &&& is_available(self.packument.raws(), pinned(range, chosen)->0)
    }
}

/// The version of `range` that every packument gives that has it, since published versions never
/// change.
pub fn pinned_version(range: &str, chosen: &Versions) -> (result: Option<Version>)
    ensures
        result.deep_view() == pinned(range@, chosen@),
        result is Some ==> bare(result->0@) == result->0@,
{
    if let Some(version) = Version::parse(range) {
        if same(version.text().as_str(), range) {
            return Some(version.into_bare());
        }
    }
    if check_range(range).is_some() {
        return None;
    }
    chosen.highest_in(range)
}

/// The versions that may be chosen anew: those released before `cutoff`, or any.
pub open spec fn release_rule(p: PackumentView, cutoff: Option<Timestamp>) -> spec_fn(Text) -> bool {
    |raw: Text| p.is_released(raw, cutoff)
}

/// A version that may be chosen, and what is known of it.
#[derive(Debug, PartialEq, Eq)]
pub struct Candidate {
    pub version: Version,
    /// It was chosen before.
    pub chosen: bool,
    /// It is in the range that is asked for.
    pub in_range: bool,
    /// It was published early enough.
    pub released: bool,
}

/// What a `Candidate` means.
#[verifier::ext_equal]
pub struct CandidateView {
    pub version: VersionView,
    pub chosen: bool,
    pub in_range: bool,
    pub released: bool,
}

impl View for Candidate {
    type V = CandidateView;

    open spec fn view(&self) -> CandidateView {
        CandidateView {
            version: self.version@,
            chosen: self.chosen,
            in_range: self.in_range,
            released: self.released,
        }
    }
}

impl DeepView for Candidate {
    type V = CandidateView;

    open spec fn deep_view(&self) -> CandidateView {
        self@
    }
}

/// Neither of `a` and `b` precedes the other.
pub open spec fn same_version(a: VersionView, b: VersionView) -> bool {
    !version_less(a, b) && !version_less(b, a)
}

/// The last of `candidates` that `accept` accepts.
pub open spec fn last_accepted(candidates: Seq<CandidateView>, accept: spec_fn(CandidateView) -> bool) -> Option<int>
    decreases candidates.len(),
{
    if candidates.len() == 0 {
        None
    } else if accept(candidates.last()) {
        Some(candidates.len() - 1)
    } else {
        last_accepted(candidates.drop_last(), accept)
    }
}

/// Candidates that were chosen before.
pub open spec fn reusable_candidate() -> spec_fn(CandidateView) -> bool {
    |c: CandidateView| c.chosen && c.in_range
}

/// Candidates that may be chosen anew.
pub open spec fn new_candidate() -> spec_fn(CandidateView) -> bool {
    |c: CandidateView| c.in_range && c.released
}

/// The candidate that is `version`, if it may be chosen anew.
pub open spec fn new_candidate_at(version: VersionView) -> spec_fn(CandidateView) -> bool {
    |c: CandidateView| same_version(c.version, version) && c.in_range && c.released
}

/// Candidates up to `tagged`, with prereleases only if that is one.
pub open spec fn candidate_up_to(tagged: VersionView) -> spec_fn(CandidateView) -> bool {
    |c: CandidateView|
        !version_less(tagged, c.version) && (tagged.pre_release.len() > 0 || c.version.pre_release.len() == 0)
            && c.released
}

/// What a range selects of `candidates`, which are in order: one that was chosen before, or else the
/// latest one, or else the highest.
pub open spec fn candidate_for_range(candidates: Seq<CandidateView>, latest: Option<VersionView>) -> Option<int> {
    let reused = last_accepted(candidates, reusable_candidate());
    let found = match latest {
        Some(version) => last_accepted(candidates, new_candidate_at(version)),
        None => None,
    };
    if reused is Some {
        reused
    } else if found is Some {
        found
    } else {
        last_accepted(candidates, new_candidate())
    }
}

/// What a tag on version `tagged` selects of `candidates`, which are in order: the highest that is not
/// above it, as long as it is one of them itself.
pub open spec fn candidate_for_tag(candidates: Seq<CandidateView>, tagged: VersionView) -> Option<int> {
    if exists|i: int| 0 <= i < candidates.len() && same_version((#[trigger] candidates[i]).version, tagged) {
        last_accepted(candidates, candidate_up_to(tagged))
    } else {
        None
    }
}

/// Which candidates are looked for.
enum Rule<'a> {
    Reusable,
    New,
    NewAt(&'a Version),
    UpTo(&'a Version),
}

impl<'a> Rule<'a> {
    spec fn accept(self) -> spec_fn(CandidateView) -> bool {
        match self {
            Rule::Reusable => reusable_candidate(),
            Rule::New => new_candidate(),
            Rule::NewAt(version) => new_candidate_at(version@),
            Rule::UpTo(tagged) => candidate_up_to(tagged@),
        }
    }

    fn accepts(&self, candidate: &Candidate) -> (result: bool)
        ensures
            result == self.accept()(candidate@),
    {
        match self {
            Rule::Reusable => candidate.chosen && candidate.in_range,
            Rule::New => candidate.in_range && candidate.released,
            Rule::NewAt(version) => is_same(&candidate.version, version) && candidate.in_range && candidate.released,
            Rule::UpTo(tagged) => !tagged.precedes(&candidate.version) && (tagged.is_prerelease()
                || !candidate.version.is_prerelease()) && candidate.released,
        }
    }
}

fn is_same(a: &Version, b: &Version) -> (result: bool)
    ensures
        result == same_version(a@, b@),
{
    !a.precedes(b) && !b.precedes(a)
}

fn find_last(candidates: &Vec<Candidate>, rule: &Rule) -> (result: Option<usize>)
    ensures
        match result {
            Some(i) => i < candidates@.len() && last_accepted(candidates.deep_view(), rule.accept()) == Some(i as int),
            None => last_accepted(candidates.deep_view(), rule.accept()) is None,
        },
{
    let ghost all = candidates.deep_view();
    let ghost accept = rule.accept();
    let mut i: usize = candidates.len();
    assert(all.take(i as int) =~= all);
    while i > 0
        invariant
            i <= candidates@.len(),
            all == candidates.deep_view(),
            accept == rule.accept(),
            last_accepted(all, accept) == last_accepted(all.take(i as int), accept),
        decreases i,
    {
        assert(all.take(i as int).last() == candidates@[i - 1]@);
        assert(all.take(i as int).drop_last() =~= all.take(i - 1));
        i -= 1;
        if rule.accepts(&candidates[i]) {
            return Some(i);
        }
    }
    None
}

/// The place of what a range selects of `candidates`, which are in order: one that was chosen before,
/// or else the latest one, or else the highest.
pub fn choose_for_range(candidates: &Vec<Candidate>, latest: Option<&Version>) -> (result: Option<usize>)
    ensures
        match result {
            Some(i) => i < candidates@.len() && candidate_for_range(candidates.deep_view(), latest.deep_view()) == Some(
                i as int,
            ),
            None => candidate_for_range(candidates.deep_view(), latest.deep_view()) is None,
        },
{
    let reused = find_last(candidates, &Rule::Reusable);
    if reused.is_some() {
        return reused;
    }
    if let Some(version) = latest {
        let found = find_last(candidates, &Rule::NewAt(version));
        if found.is_some() {
            return found;
        }
    }
    find_last(candidates, &Rule::New)
}

/// The place of what a tag on version `tagged` selects of `candidates`, which are in order: the highest
/// that is not above it, as long as it is one of them itself.
pub fn choose_for_tag(candidates: &Vec<Candidate>, tagged: &Version) -> (result: Option<usize>)
    ensures
        match result {
            Some(i) => i < candidates@.len() && candidate_for_tag(candidates.deep_view(), tagged@) == Some(i as int),
            None => candidate_for_tag(candidates.deep_view(), tagged@) is None,
        },
{
    let ghost all = candidates.deep_view();
    let mut i: usize = 0;
    while i < candidates.len()
        invariant_except_break
            forall|j: int| 0 <= j < i ==> !same_version((#[trigger] all[j]).version, tagged@),
        invariant
            i <= candidates@.len(),
            all == candidates.deep_view(),
        ensures
            i < all.len() ==> same_version(all[i as int].version, tagged@),
            i >= all.len() ==> forall|j: int| 0 <= j < all.len() ==> !same_version(
                (#[trigger] all[j]).version,
                tagged@,
            ),
        decreases candidates@.len() - i,
    {
        assert(all[i as int] == candidates@[i as int]@);
        if is_same(&candidates[i].version, tagged) {
            break;
        }
        i += 1;
    }
    if i >= candidates.len() {
        return None;
    }
    find_last(candidates, &Rule::UpTo(tagged))
}

proof fn last_is_highest(
    raws: Set<Text>,
    list: Seq<(VersionView, Text)>,
    candidates: Seq<CandidateView>,
    rule: spec_fn(CandidateView) -> bool,
    accept: spec_fn(VersionView, Text) -> bool,
)
    requires
        is_release_list(raws, list),
        candidates.len() == list.len(),
        forall|i: int| 0 <= i < list.len() ==> rule(#[trigger] candidates[i]) == accept(list[i].0, list[i].1),
    ensures
        match last_accepted(candidates, rule) {
            Some(k) => 0 <= k < list.len() && highest(raws, accept) == Some(list[k]),
            None => highest(raws, accept) is None,
        },
{
    last_accepted_is(candidates, rule);
    match last_accepted(candidates, rule) {
        Some(k) => {
            let (v, raw) = list[k];
            assert(rule(candidates[k]));
            assert(is_release(raws, list[k].0, list[k].1));
            assert forall|w: VersionView, other: Text| #[trigger]
                is_release(raws, w, other) && accept(w, other) implies !version_less(v, w) by {
                let j = list.index_of((w, other));
                assert(list[j] == (w, other));
                assert(rule(candidates[j]));
                if j < k {
                    assert(version_less(list[j].0, list[k].0));
                    version_less_total(list[j].0, list[k].0);
                } else {
                    version_less_irreflexive(v);
                }
            }
            highest_is(raws, accept, v, raw);
        },
        None => {
            assert forall|v: VersionView, raw: Text| !is_highest(raws, accept, v, raw) by {
                if is_release(raws, v, raw) {
                    let j = list.index_of((v, raw));
                    assert(list[j] == (v, raw));
                    assert(!rule(candidates[j]));
                }
            }
        },
    }
}

proof fn last_accepted_is(candidates: Seq<CandidateView>, rule: spec_fn(CandidateView) -> bool)
    ensures
        match last_accepted(candidates, rule) {
            Some(k) => 0 <= k < candidates.len() && rule(candidates[k]) && forall|j: int|
                k < j < candidates.len() ==> !rule(#[trigger] candidates[j]),
            None => forall|j: int| 0 <= j < candidates.len() ==> !rule(#[trigger] candidates[j]),
        },
    decreases candidates.len(),
{
    if candidates.len() > 0 && !rule(candidates.last()) {
        let shorter = candidates.drop_last();
        last_accepted_is(shorter, rule);
        assert forall|j: int| 0 <= j < shorter.len() implies #[trigger] candidates[j] == shorter[j] by {}
    }
}

impl Fetched {
    #[verifier::type_invariant]
    spec fn well_formed(&self) -> bool {
        is_release_list(self.packument@.raws(), self.versions.deep_view())
    }

    pub fn new(packument: Packument, verified: bool) -> (result: Self)
        ensures
            result@ == (FetchedView { packument: packument@, verified }),
    {
        let mut versions: Vec<(Version, String)> = Vec::new();
        let n: usize = packument.versions.len();
        let ghost keys = sorted(packument@.raws());
        proof {
            sorted_properties(packument@.raws());
            assert(keys.take(0).to_set() =~= Set::<Text>::empty());
        }
        let mut i: usize = 0;
        while i < n
            invariant
                i <= n,
                n == keys.len(),
                keys == sorted(packument.versions@.dom()),
                crate::dict::ascending(keys),
                is_release_list(keys.take(i as int).to_set(), versions.deep_view()),
            decreases n - i,
        {
            let raw = packument.versions.key(i);
            let ghost raws = keys.take(i as int).to_set();
            let ghost list = versions.deep_view();
            proof {
                taken_one_more(keys, i as int);
                assert forall|other: Text| #[trigger] raws.contains(other) implies text_less(other, raw@) by {
                    let k = keys.take(i as int).index_of(other);
                    assert(text_less(keys[k], keys[i as int]));
                }
            }
            match Version::parse(raw.as_str()) {
                Some(version) => {
                    let version = version.into_bare();
                    proof {
                        release_added(raws, list, raw@, version@);
                    }
                    add_release(&mut versions, version, raw.clone());
                },
                None => {
                    proof {
                        unreadable_added(raws, list, raw@);
                    }
                },
            }
            i += 1;
        }
        assert(keys.take(i as int) =~= keys);
        Fetched { packument, versions, verified }
    }

    pub fn is_verified(&self) -> (result: bool)
        ensures
            result == self@.verified,
    {
        self.verified
    }

    pub fn packument(&self) -> (result: &Packument)
        ensures
            result@ == self@.packument,
    {
        &self.packument
    }

    /// The versions in order, with what is known of them.
    fn candidates(&self, range: Option<&str>, chosen: &Versions, cutoff: Option<Timestamp>) -> (result: Vec<Candidate>)
        ensures
            result@.len() == self.versions@.len(),
            forall|i: int|
                0 <= i < result@.len() ==> (#[trigger] result.deep_view()[i]) == self.candidate(
                    range.deep_view(),
                    chosen@,
                    cutoff,
                    i,
                ),
    {
        proof {
            use_type_invariant(self);
        }
        let ghost raws = self@.packument.raws();
        let ghost all = self.versions.deep_view();
        let mut result: Vec<Candidate> = Vec::new();
        let mut i: usize = 0;
        while i < self.versions.len()
            invariant
                i <= self.versions@.len(),
                result@.len() == i,
                raws == self@.packument.raws(),
                all == self.versions.deep_view(),
                is_release_list(raws, all),
                forall|j: int|
                    0 <= j < i ==> (#[trigger] result.deep_view()[j]) == self.candidate(
                        range.deep_view(),
                        chosen@,
                        cutoff,
                        j,
                    ),
            decreases self.versions@.len() - i,
        {
            let (version, raw) = (&self.versions[i].0, &self.versions[i].1);
            assert(all[i as int] == (version@, raw@));
            assert(is_release(raws, all[i as int].0, all[i as int].1));
            let candidate = Candidate {
                version: version.duplicate(),
                chosen: chosen.contains(version),
                in_range: match range {
                    Some(range) => satisfies(range, version),
                    None => false,
                },
                released: self.released_before(raw.as_str(), cutoff),
            };
            assert(candidate@ == self.candidate(range.deep_view(), chosen@, cutoff, i as int));
            let ghost before = result.deep_view();
            result.push(candidate);
            assert(result.deep_view() =~= before.push(candidate@));
            i += 1;
        }
        result
    }

    /// What is known of the version at place `i`.
    spec fn candidate(
        &self,
        range: Option<Text>,
        chosen: Set<VersionView>,
        cutoff: Option<Timestamp>,
        i: int,
    ) -> CandidateView {
        let (v, raw) = self.versions.deep_view()[i];
        CandidateView {
            version: v,
            chosen: chosen.contains(v),
            in_range: match range {
                Some(range) => in_range(range, v),
                None => false,
            },
            released: self@.packument.is_released(raw, cutoff),
        }
    }

    /// The version at place `at`, and how it is written.
    fn release_at(&self, at: Option<usize>) -> (result: Option<(Version, String)>)
        requires
            at is Some ==> at->0 < self.versions@.len(),
        ensures
            result.deep_view() == match at {
                Some(i) => Some(self.versions.deep_view()[i as int]),
                None => None,
            },
            result is Some ==> bare((result->0).0@) == (result->0).0@,
    {
        proof {
            use_type_invariant(self);
        }
        match at {
            Some(i) => {
                let ghost all = self.versions.deep_view();
                let (version, raw) = (&self.versions[i].0, &self.versions[i].1);
                assert(all[i as int] == (version@, raw@));
                assert(is_release(self@.packument.raws(), all[i as int].0, all[i as int].1));
                Some((version.duplicate(), raw.clone()))
            },
            None => None,
        }
    }

    /// What a tag on version `tagged` selects.
    fn pick_tagged(&self, tagged: &Version, cutoff: Option<Timestamp>) -> (result: Option<(Version, String)>)
        requires
            bare(tagged@) == tagged@,
        ensures
            result.deep_view() == picked_for_tag(
                self@.packument,
                tagged@,
                release_rule(self@.packument, cutoff),
            ),
            result is Some ==> bare((result->0).0@) == (result->0).0@,
    {
        proof {
            use_type_invariant(self);
        }
        let none = Versions::new();
        let candidates = self.candidates(None, &none, cutoff);
        proof {
            let (raws, list, all) = (self@.packument.raws(), self.versions.deep_view(), candidates.deep_view());
            let released = release_rule(self@.packument, cutoff);
            assert forall|i: int| 0 <= i < list.len() implies candidate_up_to(tagged@)(#[trigger] all[i]) == up_to(
                tagged@,
                released,
            )(list[i].0, list[i].1) by {
                assert(all[i] == self.candidate(None, Set::empty(), cutoff, i));
            }
            last_is_highest(raws, list, all, candidate_up_to(tagged@), up_to(tagged@, released));
            self.available_is_candidate(all, tagged@, cutoff);
        }
        let at = choose_for_tag(&candidates, tagged);
        self.release_at(at)
    }

    proof fn available_is_candidate(&self, all: Seq<CandidateView>, v: VersionView, cutoff: Option<Timestamp>)
        requires
            is_release_list(self@.packument.raws(), self.versions.deep_view()),
            all.len() == self.versions@.len(),
            forall|i: int|
                0 <= i < all.len() ==> (#[trigger] all[i]) == self.candidate(None, Set::empty(), cutoff, i),
            bare(v) == v,
        ensures
            is_available(self@.packument.raws(), v) <==> exists|i: int|
                0 <= i < all.len() && same_version((#[trigger] all[i]).version, v),
    {
        let (raws, list) = (self@.packument.raws(), self.versions.deep_view());
        version_less_irreflexive(v);
        if is_available(raws, v) {
            let raw = choose|raw: Text| is_release(raws, v, raw);
            let i = list.index_of((v, raw));
            assert(list[i] == (v, raw));
            assert(all[i].version == v);
        }
        if exists|i: int| 0 <= i < all.len() && same_version((#[trigger] all[i]).version, v) {
            let i = choose|i: int| 0 <= i < all.len() && same_version((#[trigger] all[i]).version, v);
            assert(is_release(raws, list[i].0, list[i].1));
            version_less_total(list[i].0, v);
        }
    }

    /// What a range selects.
    fn pick_in_range(&self, range: &str, chosen: &Versions, cutoff: Option<Timestamp>) -> (result: Option<
        (Version, String),
    >)
        requires
            range_fault(range@) is None,
        ensures
            result.deep_view() == picked_for_range(
                self@.packument,
                range@,
                chosen@,
                release_rule(self@.packument, cutoff),
            ),
            result is Some ==> bare((result->0).0@) == (result->0).0@,
    {
        proof {
            use_type_invariant(self);
        }
        let latest = match self.packument.dist_tags.get("latest") {
            Some(raw) => match Version::parse(raw.as_str()) {
                Some(version) => Some(version.into_bare()),
                None => None,
            },
            None => None,
        };
        let candidates = self.candidates(Some(range), chosen, cutoff);
        let latest = match &latest {
            Some(version) => Some(version),
            None => None,
        };
        proof {
            let (raws, list, all) = (self@.packument.raws(), self.versions.deep_view(), candidates.deep_view());
            let released = release_rule(self@.packument, cutoff);
            assert forall|i: int| 0 <= i < list.len() implies (#[trigger] all[i]) == self.candidate(
                Some(range@),
                chosen@,
                cutoff,
                i,
            ) && bare(list[i].0) == list[i].0 by {
                assert(is_release(raws, list[i].0, list[i].1));
            }
            last_is_highest(raws, list, all, reusable_candidate(), reusable(range@, chosen@));
            last_is_highest(raws, list, all, new_candidate(), matching(range@, released));
            if let Some(one) = latest {
                assert forall|i: int| 0 <= i < list.len() implies new_candidate_at(one@)(#[trigger] all[i])
                    == matching_one(range@, one@, released)(list[i].0, list[i].1) by {
                    version_less_total(list[i].0, one@);
                    version_less_irreflexive(one@);
                }
                last_is_highest(raws, list, all, new_candidate_at(one@), matching_one(range@, one@, released));
            }
        }
        let at = choose_for_range(&candidates, latest);
        self.release_at(at)
    }

    /// Whether `v` is one of the versions.
    fn has(&self, v: &Version) -> (result: bool)
        requires
            bare(v@) == v@,
        ensures
            result == is_available(self@.packument.raws(), v@),
    {
        proof {
            use_type_invariant(self);
        }
        let ghost raws = self@.packument.raws();
        let ghost all = self.versions.deep_view();
        let at: usize = place_of(&self.versions, v);
        proof {
            if at < all.len() {
                assert(self.versions@[at as int].0@ == all[at as int].0);
                assert(is_release(raws, all[at as int].0, all[at as int].1));
                version_less_total(v@, all[at as int].0);
            }
            version_less_irreflexive(v@);
            assert forall|raw: Text| is_release(raws, v@, raw) implies at < all.len() && all[at as int].0 == v@ by {
                let k = all.index_of((v@, raw));
                assert(all[k] == (v@, raw));
                if k > at {
                    assert(version_less(all[at as int].0, all[k].0));
                }
            }
        }
        at < self.versions.len() && !v.precedes(&self.versions[at].0)
    }

    /// Whether a pinned version for `range` is here.
    pub fn has_pinned_version(&self, range: &str, chosen: &Versions) -> (result: bool)
        ensures
            result == self@.has_pinned(range@, chosen@),
    {
        if self.packument.dist_tags.contains_key(range) {
            return false;
        }
        match pinned_version(range, chosen) {
            Some(version) => self.has(&version),
            None => false,
        }
    }

    /// Whether `raw` was published before `cutoff`, as far as that is known.
    pub fn released_before(&self, raw: &str, cutoff: Option<Timestamp>) -> (result: bool)
        ensures
            result == self@.packument.is_released(raw@, cutoff),
    {
        match cutoff {
            None => true,
            Some(cutoff) => {
                let published = match self.packument.time.get(raw) {
                    Some(time) => parse_time(time.as_str()),
                    None => None,
                };
                was_released(self.packument.changed_since(cutoff), published, cutoff)
            },
        }
    }
}

/// Whether a version was published before `cutoff`: one of a package that has not `changed` since was,
/// and of any other it must be known.
pub fn was_released(changed: bool, published: Option<Timestamp>, cutoff: Timestamp) -> (result: bool)
    ensures
        result == (!changed || (published matches Some(time) && time.is_before(cutoff))),
{
    if !changed {
        return true;
    }
    match published {
        Some(time) => time.before(&cutoff),
        None => false,
    }
}

/// Versions not yet `chosen` must be released before `cutoff`. A tag whose version is not falls back
/// to the highest released version below it, and only to prereleases if the tagged version is one.
pub fn pick_version(
    fetched: &Fetched,
    range: &str,
    chosen: &Versions,
    cutoff: Option<Timestamp>,
) -> (result: Option<(Version, String)>)
    ensures
        result.deep_view() == picked(
            fetched@.packument,
            range@,
            chosen@,
            release_rule(fetched@.packument, cutoff),
        ),
        result is Some ==> bare((result->0).0@) == (result->0).0@,
{
    let packument = fetched.packument();
    if let Some(raw) = packument.dist_tags.get(range) {
        let tagged = match Version::parse(raw.as_str()) {
            Some(version) => version.into_bare(),
            None => {
                return None;
            },
        };
        return fetched.pick_tagged(&tagged, cutoff);
    }
    if check_range(range).is_some() {
        return None;
    }
    fetched.pick_in_range(range, chosen, cutoff)
}

/// Whatever is picked is a version of the package, and it was released unless it had been chosen
/// before.
pub proof fn picked_is_release(
    p: PackumentView,
    range: Text,
    chosen: Set<VersionView>,
    released: spec_fn(Text) -> bool,
)
    ensures
        match picked(p, range, chosen, released) {
            Some((v, raw)) => is_release(p.raws(), v, raw) && p.versions.contains_key(raw) && (released(raw)
                || chosen.contains(v)),
            None => true,
        },
{
    if p.dist_tags.contains_key(range) {
        if let Some(tagged) = parsed_version(p.dist_tags[range]) {
            highest_properties(p.raws(), up_to(bare(tagged), released));
        }
    } else {
        highest_properties(p.raws(), reusable(range, chosen));
        highest_properties(p.raws(), matching(range, released));
        if p.dist_tags.contains_key("latest"@) {
            if let Some(latest) = parsed_version(p.dist_tags["latest"@]) {
                highest_properties(p.raws(), matching_one(range, bare(latest), released));
            }
        }
    }
}

/// `v` is what `range` asks for of a package whose packument is `p`: the version of a tag or one below
/// it, or a version in the range.
pub open spec fn suits(p: PackumentView, range: Text, v: VersionView) -> bool {
    if p.dist_tags.contains_key(range) {
        parsed_version(p.dist_tags[range]) matches Some(tagged) && !version_less(bare(tagged), v)
    } else {
        in_range(range, v)
    }
}

/// Whatever is picked is what was asked for.
pub proof fn picked_suits(
    p: PackumentView,
    range: Text,
    chosen: Set<VersionView>,
    released: spec_fn(Text) -> bool,
)
    ensures
        picked(p, range, chosen, released) matches Some((v, raw)) ==> suits(p, range, v),
{
    if p.dist_tags.contains_key(range) {
        if let Some(tagged) = parsed_version(p.dist_tags[range]) {
            highest_properties(p.raws(), up_to(bare(tagged), released));
        }
    } else {
        highest_properties(p.raws(), reusable(range, chosen));
        highest_properties(p.raws(), matching(range, released));
        if p.dist_tags.contains_key("latest"@) {
            if let Some(latest) = parsed_version(p.dist_tags["latest"@]) {
                highest_properties(p.raws(), matching_one(range, bare(latest), released));
            }
        }
    }
}

impl FetchedView {
    /// The version that `tag` stands for, or what is wrong with it.
    pub open spec fn tagged_version(self, name: Text, tag: Text, cutoff: Option<Timestamp>) -> Result<Text, Text> {
        let p = self.packument;
        if !p.dist_tags.contains_key(tag) {
            Err(name + " has no version tagged "@ + tag)
        } else {
            match picked(p, tag, Set::empty(), release_rule(p, cutoff)) {
                Some((_, raw)) => Ok(raw),
                None => Err(
                    "every version of "@ + name + " up to "@ + tag
                        + " was published too recently for hinata.minimumReleaseAge"@,
                ),
            }
        }
    }

    /// What is asked for where `tag` is: the text that it stands for, or under a `cutoff` the version.
    pub open spec fn wanted_version(self, name: Text, tag: Text, cutoff: Option<Timestamp>) -> Result<Text, Text> {
        let p = self.packument;
        if cutoff is Some {
            self.tagged_version(name, tag, cutoff)
        } else if p.dist_tags.contains_key(tag) {
            Ok(p.dist_tags[tag])
        } else {
            Err(name + " has no version tagged "@ + tag)
        }
    }
}

impl Fetched {
    /// The version `tag` points to, or the highest one below it published before `cutoff`.
    pub fn tagged(&self, name: &str, tag: &str, cutoff: Option<Timestamp>) -> (result: Result<String, Error>)
        ensures
            match result {
                Ok(raw) => self@.tagged_version(name@, tag@, cutoff) == Ok::<Text, Text>(raw@),
                Err(error) => error@.len() == 1 && self@.tagged_version(name@, tag@, cutoff) == Err::<Text, Text>(
                    error@[0],
                ),
            },
    {
        if !self.packument.dist_tags.contains_key(tag) {
            return Err(Error::new(cat3(name, " has no version tagged ", tag)));
        }
        match pick_version(self, tag, &Versions::new(), cutoff) {
            Some((_, raw)) => Ok(raw),
            None => Err(
                Error::new(
                    cat5(
                        "every version of ",
                        name,
                        " up to ",
                        tag,
                        " was published too recently for hinata.minimumReleaseAge",
                    ),
                ),
            ),
        }
    }

    /// What is asked for where `tag` is: the text that it stands for, or under a `cutoff` the version.
    pub fn wanted(&self, name: &str, tag: &str, cutoff: Option<Timestamp>) -> (result: Result<String, Error>)
        ensures
            match result {
                Ok(raw) => self@.wanted_version(name@, tag@, cutoff) == Ok::<Text, Text>(raw@),
                Err(error) => error@.len() == 1 && self@.wanted_version(name@, tag@, cutoff) == Err::<Text, Text>(
                    error@[0],
                ),
            },
    {
        if cutoff.is_some() {
            return self.tagged(name, tag, cutoff);
        }
        match self.packument.dist_tags.get(tag) {
            Some(raw) => Ok(raw.clone()),
            None => Err(Error::new(cat3(name, " has no version tagged ", tag))),
        }
    }
}

/// A version that was chosen before is chosen again wherever it is in the range and still there.
pub proof fn chosen_is_reused(
    p: PackumentView,
    range: Text,
    chosen: Set<VersionView>,
    released: spec_fn(Text) -> bool,
    v: VersionView,
    raw: Text,
)
    requires
        p.raws().finite(),
        !p.dist_tags.contains_key(range),
        chosen.contains(v),
        in_range(range, v),
        is_release(p.raws(), v, raw),
    ensures
        picked(p, range, chosen, released) matches Some((w, _)) && chosen.contains(w) && in_range(range, w)
            && !version_less(w, v),
{
    let accept = reusable(range, chosen);
    highest_exists(p.raws(), accept, v, raw);
    highest_properties(p.raws(), accept);
}

proof fn highest_exists(raws: Set<Text>, accept: spec_fn(VersionView, Text) -> bool, v: VersionView, raw: Text)
    requires
        raws.finite(),
        is_release(raws, v, raw),
        accept(v, raw),
    ensures
        highest(raws, accept) is Some,
    decreases accepted_above(raws, accept, v).len(),
{
    if !is_highest(raws, accept, v, raw) {
        let (w, other) = choose|w: VersionView, other: Text| #[trigger]
            is_release(raws, w, other) && accept(w, other) && version_less(v, w);
        let (wide, narrow) = (accepted_above(raws, accept, v), accepted_above(raws, accept, w));
        raws.lemma_len_filter(|r: Text| is_above(raws, accept, v, r));
        assert(wide.contains(other));
        assert(!narrow.contains(other)) by {
            version_less_irreflexive(w);
        }
        assert forall|r: Text| narrow.contains(r) implies wide.contains(r) by {
            version_less_transitive(v, w, bare(parsed_version(r)->0));
        }
        assert(narrow.subset_of(wide.remove(other)));
        vstd::set_lib::lemma_len_subset(narrow, wide.remove(other));
        highest_exists(raws, accept, w, other);
    }
}

spec fn is_above(raws: Set<Text>, accept: spec_fn(VersionView, Text) -> bool, v: VersionView, raw: Text) -> bool {
    parsed_version(raw) is Some && is_release(raws, bare(parsed_version(raw)->0), raw) && accept(
        bare(parsed_version(raw)->0),
        raw,
    ) && version_less(v, bare(parsed_version(raw)->0))
}

spec fn accepted_above(raws: Set<Text>, accept: spec_fn(VersionView, Text) -> bool, v: VersionView) -> Set<Text> {
    raws.filter(|raw: Text| is_above(raws, accept, v, raw))
}

/// A version that was chosen before and pinned is picked from every packument that has it, whatever
/// else that holds.
pub proof fn pinned_is_picked(
    p: PackumentView,
    range: Text,
    chosen: Set<VersionView>,
    released: spec_fn(Text) -> bool,
)
    requires
        p.raws().finite(),
        all_bare(chosen),
        !p.dist_tags.contains_key(range),
        !(parsed_version(range) is Some && version_text(parsed_version(range)->0) == range),
        pinned(range, chosen) is Some,
        is_available(p.raws(), pinned(range, chosen)->0),
    ensures
        picked(p, range, chosen, released) matches Some((v, _)) && Some(v) == pinned(range, chosen),
{
    let accept = |v: VersionView| in_range(range, v);
    let v = pinned(range, chosen)->0;
    assert(is_highest_of(chosen, accept, v));
    let raw = choose|raw: Text| is_release(p.raws(), v, raw);
    chosen_is_reused(p, range, chosen, released, v, raw);
    let (w, _) = picked(p, range, chosen, released)->0;
    assert(!version_less(v, w));
    version_less_total(v, w);
    assert(bare(w) == w && bare(v) == v);
}

/// A version that is not released is never chosen anew.
pub proof fn unreleased_is_not_chosen(
    p: PackumentView,
    range: Text,
    chosen: Set<VersionView>,
    cutoff: Option<Timestamp>,
)
    ensures
        picked(p, range, chosen, release_rule(p, cutoff)) matches Some((v, raw)) ==> p.is_released(raw, cutoff)
            || chosen.contains(v),
{
    picked_is_release(p, range, chosen, release_rule(p, cutoff));
}

/// `v` is what may be chosen for `range` of a package whose packument is `p`: a version in the range, or
/// for a tag one up to the version that it is on, if that is there, and a prerelease only if that is
/// one.
pub open spec fn may_be_chosen(p: PackumentView, range: Text, v: VersionView) -> bool {
    if p.dist_tags.contains_key(range) {
        parsed_version(p.dist_tags[range]) matches Some(tagged) && is_available(p.raws(), bare(tagged)) && !version_less(
            bare(tagged),
            v,
        ) && (tagged.pre_release.len() > 0 || v.pre_release.len() == 0)
    } else {
        range_fault(range) is None && in_range(range, v)
    }
}

/// No version that `p` has and that is released under `cutoff` may be chosen for `range`.
pub open spec fn nothing_fits(p: PackumentView, range: Text, cutoff: Option<Timestamp>) -> bool {
    forall|v: VersionView, raw: Text| #[trigger]
        is_release(p.raws(), v, raw) && p.is_released(raw, cutoff) ==> !may_be_chosen(p, range, v)
}

/// Where a released version may be chosen for a range or a tag, one is picked. For a tag none that may
/// be chosen is above it, and for a range only a version chosen before or the latest one counts before
/// the highest.
pub proof fn something_is_picked(
    p: PackumentView,
    range: Text,
    chosen: Set<VersionView>,
    cutoff: Option<Timestamp>,
    v: VersionView,
    raw: Text,
)
    requires
        p.raws().finite(),
        is_release(p.raws(), v, raw),
        p.is_released(raw, cutoff),
        may_be_chosen(p, range, v),
    ensures
        picked(p, range, chosen, release_rule(p, cutoff)) matches Some((w, _)) && may_be_chosen(p, range, w) && (
        !version_less(w, v) || (!p.dist_tags.contains_key(range) && (chosen.contains(w) || is_latest(p, w)))),
{
    let released = release_rule(p, cutoff);
    if p.dist_tags.contains_key(range) {
        let tagged = bare(parsed_version(p.dist_tags[range])->0);
        highest_exists(p.raws(), up_to(tagged, released), v, raw);
        highest_properties(p.raws(), up_to(tagged, released));
    } else {
        highest_exists(p.raws(), matching(range, released), v, raw);
        highest_properties(p.raws(), matching(range, released));
        highest_properties(p.raws(), reusable(range, chosen));
        if p.dist_tags.contains_key("latest"@) {
            if let Some(latest) = parsed_version(p.dist_tags["latest"@]) {
                highest_properties(p.raws(), matching_one(range, bare(latest), released));
            }
        }
    }
}

/// `v` is tagged as the latest version.
pub open spec fn is_latest(p: PackumentView, v: VersionView) -> bool {
    p.dist_tags.contains_key("latest"@) && (parsed_version(p.dist_tags["latest"@]) matches Some(latest) && bare(latest)
        == v)
}

/// The latest version is picked for a range that it is in, unless one in the range was chosen before.
pub proof fn latest_is_picked(
    p: PackumentView,
    range: Text,
    chosen: Set<VersionView>,
    cutoff: Option<Timestamp>,
    v: VersionView,
    raw: Text,
)
    requires
        p.raws().finite(),
        is_release(p.raws(), v, raw),
        p.is_released(raw, cutoff),
        is_latest(p, v),
        !p.dist_tags.contains_key(range),
        range_fault(range) is None,
        in_range(range, v),
    ensures
        picked(p, range, chosen, release_rule(p, cutoff)) matches Some((w, _)) && (w == v || (chosen.contains(w)
            && in_range(range, w))),
{
    let released = release_rule(p, cutoff);
    highest_exists(p.raws(), matching_one(range, v, released), v, raw);
    highest_properties(p.raws(), matching_one(range, v, released));
    highest_properties(p.raws(), reusable(range, chosen));
}

/// Under a cutoff a tag stands for a version that is there, was released before it and is no higher than
/// the tagged one. Otherwise it stands for what it is on. A tag that is not there stands for nothing.
pub proof fn tags_stand_for_versions(fetched: FetchedView, name: Text, tag: Text, cutoff: Option<Timestamp>)
    ensures
        ({
            let p = fetched.packument;
            let wanted = fetched.wanted_version(name, tag, cutoff);
            &&& !p.dist_tags.contains_key(tag) ==> wanted is Err
            &&& p.dist_tags.contains_key(tag) && cutoff is None ==> wanted == Ok::<Text, Text>(p.dist_tags[tag])
            &&& cutoff is Some && wanted is Ok ==> p.versions.contains_key(wanted->Ok_0) && p.is_released(
                wanted->Ok_0,
                cutoff,
            ) && (parsed_version(wanted->Ok_0) matches Some(v) && (parsed_version(p.dist_tags[tag]) matches Some(tagged)
                && !version_less(bare(tagged), bare(v))))
            &&& cutoff is Some && p.dist_tags.contains_key(tag) && wanted is Err && p.raws().finite() ==> nothing_fits(
                p,
                tag,
                cutoff,
            )
        }),
{
    let p = fetched.packument;
    let released = release_rule(p, cutoff);
    picked_is_release(p, tag, Set::empty(), released);
    picked_suits(p, tag, Set::empty(), released);
    if cutoff is Some && p.dist_tags.contains_key(tag) && p.raws().finite() && fetched.wanted_version(
        name,
        tag,
        cutoff,
    ) is Err {
        assert forall|v: VersionView, raw: Text| #[trigger] is_release(p.raws(), v, raw) && p.is_released(
            raw,
            cutoff,
        ) implies !may_be_chosen(p, tag, v) by {
            if may_be_chosen(p, tag, v) {
                something_is_picked(p, tag, Set::empty(), cutoff, v, raw);
            }
        }
    }
}

/// Without a cutoff every version may be chosen. Under one, a version may be that was published before
/// it, and any may be where nothing of the package changed since. What may be chosen under a cutoff may
/// be under a later one too, and no other version may be.
pub proof fn cutoffs_hold_back(p: PackumentView, raw: Text, cutoff: Timestamp, later: Timestamp)
    ensures
        p.is_released(raw, None),
        p.time.contains_key(raw) && (parsed_time(p.time[raw]) matches Some(time) && time.is_before(cutoff))
            ==> p.is_released(raw, Some(cutoff)),
        (p.modified matches Some(modified) && (parsed_time(modified) matches Some(time) && time.is_before(cutoff)))
            ==> p.is_released(raw, Some(cutoff)),
        p.is_released(raw, Some(cutoff)) && !later.is_before(cutoff) ==> p.is_released(raw, Some(later)),
        !(p.modified matches Some(modified) && (parsed_time(modified) matches Some(time) && time.is_before(cutoff)))
            && !(p.time.contains_key(raw) && (parsed_time(p.time[raw]) matches Some(time) && time.is_before(cutoff)))
            ==> !p.is_released(raw, Some(cutoff)),
{
}

/// What is picked was chosen before, or may be chosen and is released.
pub proof fn picked_may_be_chosen(
    p: PackumentView,
    range: Text,
    chosen: Set<VersionView>,
    cutoff: Option<Timestamp>,
)
    ensures
        picked(p, range, chosen, release_rule(p, cutoff)) matches Some((v, raw)) ==> chosen.contains(v) || (
        may_be_chosen(p, range, v) && p.is_released(raw, cutoff) && is_release(p.raws(), v, raw)),
{
    let released = release_rule(p, cutoff);
    picked_is_release(p, range, chosen, released);
    if p.dist_tags.contains_key(range) {
        if let Some(tagged) = parsed_version(p.dist_tags[range]) {
            highest_properties(p.raws(), up_to(bare(tagged), released));
        }
    } else {
        highest_properties(p.raws(), reusable(range, chosen));
        highest_properties(p.raws(), matching(range, released));
        if p.dist_tags.contains_key("latest"@) {
            if let Some(latest) = parsed_version(p.dist_tags["latest"@]) {
                highest_properties(p.raws(), matching_one(range, bare(latest), released));
            }
        }
    }
}

} // verus!
