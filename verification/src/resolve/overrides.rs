//! Overrides replace what a dependency asks for before a version is chosen, whoever asks for it.
use vstd::prelude::*;

use crate::dict::{sorted, Dict, Duplicate};
use crate::error::Error;
use crate::resolve::{cut_version, parse_spec, parsed_spec, split_version};
use crate::text::{cat, cat4, same, Text};
use crate::version::{check_range, overlaps, range_fault, ranges_overlap};

verus! {

/// One override.
#[derive(Debug, PartialEq, Eq)]
pub struct Entry {
    /// The configured key, for reporting.
    pub key: String,
    pub name: String,
    /// Only requests whose range overlaps this one are overridden.
    pub selector: Option<String>,
    pub to: (String, String),
    pub used: bool,
}

/// What a `Entry` means.
#[verifier::ext_equal]
pub struct EntryView {
    pub key: Text,
    pub name: Text,
    pub selector: Option<Text>,
    pub to: (Text, Text),
    pub used: bool,
}

impl View for Entry {
    type V = EntryView;

    open spec fn view(&self) -> EntryView {
        EntryView {
            key: self.key.deep_view(),
            name: self.name.deep_view(),
            selector: self.selector.deep_view(),
            to: self.to.deep_view(),
            used: self.used.deep_view(),
        }
    }
}

impl DeepView for Entry {
    type V = EntryView;

    open spec fn deep_view(&self) -> EntryView {
        self@
    }
}

/// Overrides, and which of them have been of use.
pub struct Overrides {
    entries: Vec<Entry>,
}

impl View for Overrides {
    type V = Seq<EntryView>;

    closed spec fn view(&self) -> Seq<EntryView> {
        self.entries.deep_view()
    }
}

/// The override that `key` and `spec` configure.
pub open spec fn configured_entry(key: Text, spec: Text) -> Result<EntryView, Seq<Text>> {
    let (name, selector) = match cut_version(key) {
        Some((name, range)) => (name, Some(range)),
        None => (key, None),
    };
    if selector is Some && range_fault(selector->0) is Some {
        Err(seq!["the override "@ + key + " is not a valid range: "@ + range_fault(selector->0)->0])
    } else {
        match parsed_spec(name, spec) {
            Ok(to) => Ok(EntryView { key, name, selector, to, used: false }),
            Err(problem) => Err(seq!["in the override for "@ + key, problem]),
        }
    }
}

/// The overrides that `keys` of `config` configure, in their order.
pub open spec fn configured(keys: Seq<Text>, config: Map<Text, Text>) -> Result<Seq<EntryView>, Seq<Text>>
    decreases keys.len(),
{
    if keys.len() == 0 {
        Ok(Seq::empty())
    } else {
        match configured_entry(keys[0], config[keys[0]]) {
            Err(problem) => Err(problem),
            Ok(entry) => match configured(keys.skip(1), config) {
                Err(problem) => Err(problem),
                Ok(rest) => Ok(seq![entry] + rest),
            },
        }
    }
}

impl EntryView {
    /// Requests for `range` are overridden.
    pub open spec fn covers(self, range: Text) -> bool {
        match self.selector {
            None => true,
            // Tags and other ranges that do not parse can still be named exactly.
            Some(raw) => raw == range || (range_fault(raw) is None && range_fault(range) is None && ranges_overlap(
                raw,
                range,
            )),
        }
    }

    pub open spec fn matches(self, name: Text, range: Text) -> bool {
        self.name == name && self.covers(range)
    }
}

/// The last entry for `name` at `range` that has a selector, or that has none.
pub open spec fn last_match(entries: Seq<EntryView>, name: Text, range: Text, selector: bool) -> Option<int>
    decreases entries.len(),
{
    if entries.len() == 0 {
        None
    } else if entries.last().matches(name, range) && (entries.last().selector is Some) == selector {
        Some(entries.len() - 1)
    } else {
        last_match(entries.drop_last(), name, range, selector)
    }
}

/// The entry that replaces a request for `name` at `range`. A selector is more specific than a bare
/// name.
pub open spec fn override_for(entries: Seq<EntryView>, name: Text, range: Text) -> Option<int> {
    match last_match(entries, name, range, true) {
        Some(i) => Some(i),
        None => last_match(entries, name, range, false),
    }
}

proof fn last_match_bounds(entries: Seq<EntryView>, name: Text, range: Text, selector: bool)
    ensures
        match last_match(entries, name, range, selector) {
            Some(i) => 0 <= i < entries.len() && entries[i].matches(name, range) && (entries[i].selector is Some)
                == selector,
            None => true,
        },
    decreases entries.len(),
{
    if entries.len() > 0 {
        last_match_bounds(entries.drop_last(), name, range, selector);
    }
}

/// An override applies only to requests for its name that it covers.
pub proof fn override_matches(entries: Seq<EntryView>, name: Text, range: Text)
    ensures
        match override_for(entries, name, range) {
            Some(i) => 0 <= i < entries.len() && entries[i].matches(name, range),
            None => true,
        },
{
    last_match_bounds(entries, name, range, true);
    last_match_bounds(entries, name, range, false);
}

/// The last of `entries` that matches and has a selector, or that has none. Of each it is known whether
/// it matches, and whether it has a selector.
pub open spec fn last_entry(entries: Seq<(bool, bool)>, selector: bool) -> Option<int>
    decreases entries.len(),
{
    if entries.len() == 0 {
        None
    } else if entries.last() == (true, selector) {
        Some(entries.len() - 1)
    } else {
        last_entry(entries.drop_last(), selector)
    }
}

fn find_entry(entries: &Vec<(bool, bool)>, selector: bool) -> (result: Option<usize>)
    ensures
        match result {
            Some(i) => i < entries@.len() && last_entry(entries@, selector) == Some(i as int),
            None => last_entry(entries@, selector) is None,
        },
{
    let mut i: usize = entries.len();
    assert(entries@.take(i as int) =~= entries@);
    while i > 0
        invariant
            i <= entries@.len(),
            last_entry(entries@, selector) == last_entry(entries@.take(i as int), selector),
        decreases i,
    {
        assert(entries@.take(i as int).drop_last() =~= entries@.take(i - 1));
        i -= 1;
        if entries[i].0 && entries[i].1 == selector {
            return Some(i);
        }
    }
    None
}

/// The entry that applies, where it is known of each whether it matches and whether it has a selector.
/// A selector is more specific than a bare name, and of several the last one counts.
pub fn most_specific(entries: &Vec<(bool, bool)>) -> (result: Option<usize>)
    ensures
        match result {
            Some(i) => i < entries@.len() && Some(i as int) == (if last_entry(entries@, true) is Some {
                last_entry(entries@, true)
            } else {
                last_entry(entries@, false)
            }),
            None => last_entry(entries@, true) is None && last_entry(entries@, false) is None,
        },
{
    match find_entry(entries, true) {
        Some(i) => Some(i),
        None => find_entry(entries, false),
    }
}

proof fn last_entry_is(entries: Seq<EntryView>, known: Seq<(bool, bool)>, name: Text, range: Text, selector: bool)
    requires
        known.len() == entries.len(),
        forall|i: int|
            0 <= i < known.len() ==> (#[trigger] known[i]) == (
                entries[i].matches(name, range),
                entries[i].selector is Some,
            ),
    ensures
        last_entry(known, selector) == last_match(entries, name, range, selector),
    decreases entries.len(),
{
    if entries.len() > 0 {
        let n = entries.len() - 1;
        assert(known[n] == (entries[n].matches(name, range), entries[n].selector is Some));
        assert forall|i: int| 0 <= i < n implies (#[trigger] known.drop_last()[i]) == (
            entries.drop_last()[i].matches(name, range),
            entries.drop_last()[i].selector is Some,
        ) by {
            assert(known.drop_last()[i] == known[i]);
        }
        last_entry_is(entries.drop_last(), known.drop_last(), name, range, selector);
    }
}

/// `entries` with the one at `i` marked as used.
pub open spec fn with_used(entries: Seq<EntryView>, i: int) -> Seq<EntryView> {
    entries.update(i, EntryView { used: true, ..entries[i] })
}

/// `a` and `b` are the same overrides, whichever of them have been of use.
pub open spec fn same_overrides(a: Seq<EntryView>, b: Seq<EntryView>) -> bool {
    a.len() == b.len() && forall|i: int|
        0 <= i < a.len() ==> (EntryView { used: false, ..#[trigger] a[i] }) == (EntryView { used: false, ..b[i] })
}

proof fn same_last_match(a: Seq<EntryView>, b: Seq<EntryView>, name: Text, range: Text, selector: bool)
    requires
        same_overrides(a, b),
    ensures
        last_match(a, name, range, selector) == last_match(b, name, range, selector),
    decreases a.len(),
{
    if a.len() > 0 {
        let n = a.len() - 1;
        assert((EntryView { used: false, ..a[n] }) == (EntryView { used: false, ..b[n] }));
        assert(same_overrides(a.drop_last(), b.drop_last())) by {
            assert forall|i: int| 0 <= i < n implies (EntryView { used: false, ..#[trigger] a.drop_last()[i] }) == (
            EntryView { used: false, ..b.drop_last()[i] }) by {
                assert(a.drop_last()[i] == a[i]);
            }
        }
        same_last_match(a.drop_last(), b.drop_last(), name, range, selector);
    }
}

/// That an override has been of use does not change what it applies to.
pub proof fn use_changes_nothing(a: Seq<EntryView>, b: Seq<EntryView>, name: Text, range: Text)
    requires
        same_overrides(a, b),
    ensures
        override_for(a, name, range) == override_for(b, name, range),
        override_for(a, name, range) matches Some(i) ==> a[i].to == b[i].to && same_overrides(a, with_used(b, i)),
{
    same_last_match(a, b, name, range, true);
    same_last_match(a, b, name, range, false);
    override_matches(a, name, range);
    if let Some(i) = override_for(a, name, range) {
        assert((EntryView { used: false, ..a[i] }) == (EntryView { used: false, ..b[i] }));
    }
}

/// The keys of the entries that no request matched.
pub open spec fn unused_keys(entries: Seq<EntryView>) -> Seq<Text>
    decreases entries.len(),
{
    if entries.len() == 0 {
        Seq::empty()
    } else if entries.last().used {
        unused_keys(entries.drop_last())
    } else {
        unused_keys(entries.drop_last()).push(entries.last().key)
    }
}

fn new_entry(key: &str, spec: &str) -> (result: Result<Entry, Error>)
    ensures
        match result {
            Ok(entry) => configured_entry(key@, spec@) == Ok::<EntryView, Seq<Text>>(entry@),
            Err(error) => configured_entry(key@, spec@) == Err::<EntryView, Seq<Text>>(error@),
        },
{
    let (name, selector) = match split_version(key) {
        Some((name, range)) => {
            if let Some(problem) = check_range(range) {
                return Err(Error::new(cat4("the override ", key, " is not a valid range: ", problem.as_str())));
            }
            (name, Some(range.to_owned()))
        },
        None => (key, None),
    };
    match parse_spec(name, spec) {
        Ok(to) => Ok(Entry { key: key.to_owned(), name: name.to_owned(), selector, to, used: false }),
        Err(error) => {
            let ghost problem = error@;
            let result = error.within(cat("in the override for ", key));
            assert(result@ =~= seq!["in the override for "@ + key@, problem[0]]);
            Err(result)
        },
    }
}

impl Entry {
    fn selects(&self, range: &str) -> (result: bool)
        ensures
            result == self@.covers(range@),
    {
        match &self.selector {
            None => true,
            Some(raw) => same(raw.as_str(), range) || overlaps(raw.as_str(), range),
        }
    }
}

impl Overrides {
    /// Keyed by `name` or `name@range`, and valued by a range or an `npm:` alias.
    pub fn new(config: &Dict<String>) -> (result: Result<Self, Error>)
        ensures
            match result {
                Ok(overrides) => configured(sorted(config@.dom()), config@) == Ok::<Seq<EntryView>, Seq<Text>>(
                    overrides@,
                ),
                Err(error) => configured(sorted(config@.dom()), config@) == Err::<Seq<EntryView>, Seq<Text>>(error@),
            },
    {
        let mut entries: Vec<Entry> = Vec::new();
        let n: usize = config.len();
        let ghost keys = sorted(config@.dom());
        let mut i: usize = 0;
        assert(keys.skip(0) =~= keys);
        assert(entries.deep_view() =~= Seq::<EntryView>::empty());
        while i < n
            invariant
                i <= n,
                n == keys.len(),
                keys == sorted(config@.dom()),
                match configured(keys.skip(i as int), config@) {
                    Ok(rest) => configured(keys, config@) == Ok::<Seq<EntryView>, Seq<Text>>(
                        entries.deep_view() + rest,
                    ),
                    Err(problem) => configured(keys, config@) == Err::<Seq<EntryView>, Seq<Text>>(problem),
                },
            decreases n - i,
        {
            let ghost before = entries.deep_view();
            assert(keys.skip(i as int).skip(1) =~= keys.skip(i + 1));
            let entry = new_entry(config.key(i).as_str(), config.value(i).as_str())?;
            entries.push(entry);
            proof {
                assert(entries.deep_view() =~= before.push(entry@));
                if let Ok(rest) = configured(keys.skip(i + 1), config@) {
                    assert(before + (seq![entry@] + rest) =~= entries.deep_view() + rest);
                }
            }
            i += 1;
        }
        assert(entries.deep_view() + Seq::<EntryView>::empty() =~= entries.deep_view());
        Ok(Overrides { entries })
    }

    /// Which entries match a request, and whether they have a selector.
    fn matching(&self, name: &str, range: &str) -> (result: Vec<(bool, bool)>)
        ensures
            result@.len() == self@.len(),
            forall|i: int|
                0 <= i < result@.len() ==> (#[trigger] result@[i]) == (
                    self@[i].matches(name@, range@),
                    self@[i].selector is Some,
                ),
    {
        let mut result: Vec<(bool, bool)> = Vec::new();
        let mut i: usize = 0;
        while i < self.entries.len()
            invariant
                i <= self@.len(),
                self@ == self.entries.deep_view(),
                result@.len() == i,
                forall|j: int|
                    0 <= j < i ==> (#[trigger] result@[j]) == (
                        self@[j].matches(name@, range@),
                        self@[j].selector is Some,
                    ),
            decreases self@.len() - i,
        {
            let entry = &self.entries[i];
            assert(self@[i as int] == entry@);
            result.push((same(entry.name.as_str(), name) && entry.selects(range), entry.selector.is_some()));
            i += 1;
        }
        result
    }

    /// What replaces a request for `name` at `range`, if an override matches it.
    pub fn applies(&mut self, name: &str, range: &str) -> (result: Option<(String, String)>)
        ensures
            match override_for(old(self)@, name@, range@) {
                Some(i) => result.deep_view() == Some(old(self)@[i].to) && final(self)@ == with_used(old(self)@, i),
                None => result is None && final(self)@ == old(self)@,
            },
    {
        let matching = self.matching(name, range);
        proof {
            last_entry_is(self@, matching@, name@, range@, true);
            last_entry_is(self@, matching@, name@, range@, false);
        }
        match most_specific(&matching) {
            Some(i) => {
                let ghost before = self@;
                self.entries[i].used = true;
                assert(self@ =~= with_used(before, i as int));
                Some(self.entries[i].to.duplicate())
            },
            None => None,
        }
    }

    /// The keys of the overrides that no request matched.
    pub fn unused(&self) -> (result: Vec<String>)
        ensures
            result.deep_view() == unused_keys(self@),
    {
        let mut result: Vec<String> = Vec::new();
        let mut i: usize = 0;
        assert(result.deep_view() =~= Seq::<Text>::empty());
        while i < self.entries.len()
            invariant
                i <= self.entries.len(),
                self@ == self.entries.deep_view(),
                result.deep_view() == unused_keys(self@.take(i as int)),
            decreases self.entries.len() - i,
        {
            assert(self@.take(i + 1).drop_last() =~= self@.take(i as int));
            if !self.entries[i].used {
                let ghost before = result.deep_view();
                result.push(self.entries[i].key.clone());
                assert(result.deep_view() =~= before.push(self@[i as int].key));
            }
            i += 1;
        }
        assert(self@.take(i as int) =~= self@);
        result
    }
}

proof fn last_match_is_last(entries: Seq<EntryView>, name: Text, range: Text, selector: bool)
    ensures
        match last_match(entries, name, range, selector) {
            Some(i) => 0 <= i < entries.len() && entries[i].matches(name, range) && (entries[i].selector is Some)
                == selector && forall|j: int|
                i < j < entries.len() && (#[trigger] entries[j]).matches(name, range) ==> (entries[j].selector is Some)
                    != selector,
            None => forall|j: int|
                0 <= j < entries.len() && (#[trigger] entries[j]).matches(name, range) ==> (entries[j].selector is Some)
                    != selector,
        },
    decreases entries.len(),
{
    if entries.len() > 0 {
        let shorter = entries.drop_last();
        last_match_is_last(shorter, name, range, selector);
        assert forall|j: int| 0 <= j < shorter.len() implies #[trigger] entries[j] == shorter[j] by {}
    }
}

/// A request is overridden by the last override that covers it. Only overrides that select ranges count
/// before the others. A request stays as it is only where no override covers it.
pub proof fn last_override_counts(entries: Seq<EntryView>, name: Text, range: Text)
    ensures
        match override_for(entries, name, range) {
            Some(i) => 0 <= i < entries.len() && entries[i].matches(name, range) && forall|j: int|
                0 <= j < entries.len() && j != i && (#[trigger] entries[j]).matches(name, range) ==> if (
                entries[i].selector is Some) == (entries[j].selector is Some) {
                    j < i
                } else {
                    entries[i].selector is Some
                },
            None => forall|j: int| 0 <= j < entries.len() ==> !(#[trigger] entries[j]).matches(name, range),
        },
{
    last_match_is_last(entries, name, range, true);
    last_match_is_last(entries, name, range, false);
}

/// An override covers whatever is asked for of its package if it selects no range, and otherwise just
/// that range and those with which it has versions in common.
pub proof fn overrides_cover(entry: EntryView, name: Text, range: Text)
    ensures
        entry.name != name ==> !entry.matches(name, range),
        entry.name == name && entry.selector is None ==> entry.matches(name, range),
        entry.name == name && entry.selector == Some(range) ==> entry.matches(name, range),
        entry.name == name && entry.selector is Some && entry.selector->0 != range ==> entry.matches(name, range) == (
        range_fault(entry.selector->0) is None && range_fault(range) is None && ranges_overlap(
            entry.selector->0,
            range,
        )),
{
}

/// There is one override for each key that is configured, in order, and none has been of use yet. A key
/// names the package, and after an `@` the range that is selected. What is asked for instead is read
/// like any dependency on that package.
pub proof fn overrides_are_configured(keys: Seq<Text>, config: Map<Text, Text>)
    ensures
        configured(keys, config) matches Ok(entries) ==> entries.len() == keys.len() && forall|i: int|
            0 <= i < keys.len() ==> {
                let entry = #[trigger] entries[i];
                &&& entry.key == keys[i]
                &&& !entry.used
                &&& parsed_spec(entry.name, config[keys[i]]) == Ok::<(Text, Text), Text>(entry.to)
                &&& match entry.selector {
                    Some(range) => keys[i] == entry.name + "@"@ + range && range_fault(range) is None,
                    None => keys[i] == entry.name,
                }
            },
    decreases keys.len(),
{
    if keys.len() > 0 {
        let rest = keys.skip(1);
        overrides_are_configured(rest, config);
        key_is_cut(keys[0]);
        if let Ok(entries) = configured(keys, config) {
            let others = configured(rest, config)->Ok_0;
            assert forall|i: int| 0 <= i < keys.len() implies {
                let entry = #[trigger] entries[i];
                &&& entry.key == keys[i]
                &&& !entry.used
                &&& parsed_spec(entry.name, config[keys[i]]) == Ok::<(Text, Text), Text>(entry.to)
                &&& match entry.selector {
                    Some(range) => keys[i] == entry.name + "@"@ + range && range_fault(range) is None,
                    None => keys[i] == entry.name,
                }
            } by {
                if i > 0 {
                    assert(entries[i] == others[i - 1]);
                    assert(rest[i - 1] == keys[i]);
                }
            }
        }
    }
}

proof fn key_is_cut(key: Text)
    ensures
        cut_version(key) matches Some((name, range)) ==> key == name + "@"@ + range,
{
    reveal_strlit("@");
    if key.len() > 0 {
        let rest = key.skip(1);
        rest.index_of_first_ensures('@');
        if let Some(i) = rest.index_of_first('@') {
            let (name, range) = (key.take(1) + rest.take(i), rest.skip(i + 1));
            assert(key =~= name + "@"@ + range);
        }
    }
}

/// Just the overrides that have not been of use are told.
pub proof fn unused_are_told(entries: Seq<EntryView>, key: Text)
    ensures
        unused_keys(entries).contains(key) <==> exists|i: int|
            0 <= i < entries.len() && !(#[trigger] entries[i]).used && entries[i].key == key,
    decreases entries.len(),
{
    if entries.len() > 0 {
        let shorter = entries.drop_last();
        let (before, after) = (unused_keys(shorter), unused_keys(entries));
        unused_are_told(shorter, key);
        if before.contains(key) {
            assert(after[before.index_of(key)] == key);
            let i = choose|i: int| 0 <= i < shorter.len() && !(#[trigger] shorter[i]).used && shorter[i].key == key;
            assert(entries[i] == shorter[i]);
        }
        if !entries.last().used && entries.last().key == key {
            assert(after[before.len() as int] == key);
            assert(entries[entries.len() - 1] == entries.last());
        }
        if after.contains(key) && !before.contains(key) {
            let i = after.index_of(key);
            assert(i == before.len()) by {
                if i < before.len() {
                    assert(before[i] == key);
                }
            }
        }
        if exists|i: int| 0 <= i < entries.len() && !(#[trigger] entries[i]).used && entries[i].key == key {
            let i = choose|i: int| 0 <= i < entries.len() && !(#[trigger] entries[i]).used && entries[i].key == key;
            if i < shorter.len() {
                assert(shorter[i] == entries[i]);
            }
        }
    }
}

} // verus!
