//! What resolving changed, compared against the lockfile it replaces.
use vstd::prelude::*;

use crate::dict::{sorted, sorted_properties, taken_one_more, Dict, Duplicate, Names};
use crate::lock::{Lock, LockView, Package, PackageView};
use crate::logging::{
    counted, dimmed, faint, green, in_green, in_red, in_ticks, in_yellow, plural, red, ticked, yellow,
};
use crate::text::{cat, cat3, cat4, cat5, decimal, join, joined, number, same, Text};

verus! {

/// How many packages are listed before the rest are only counted.
pub const LISTED: usize = 20;

/// Where a version of a package came from.
#[derive(Debug, PartialEq, Eq)]
pub struct Source {
    pub name: String,
    pub version: String,
    pub url: String,
    pub integrity: String,
}

/// What a `Source` means.
#[verifier::ext_equal]
pub struct SourceView {
    pub name: Text,
    pub version: Text,
    pub url: Text,
    pub integrity: Text,
}

impl View for Source {
    type V = SourceView;

    open spec fn view(&self) -> SourceView {
        SourceView {
            name: self.name.deep_view(),
            version: self.version.deep_view(),
            url: self.url.deep_view(),
            integrity: self.integrity.deep_view(),
        }
    }
}

impl DeepView for Source {
    type V = SourceView;

    open spec fn deep_view(&self) -> SourceView {
        self@
    }
}

impl Duplicate for Source {
    fn duplicate(&self) -> (result: Self) {
        Source {
            name: self.name.duplicate(),
            version: self.version.duplicate(),
            url: self.url.duplicate(),
            integrity: self.integrity.duplicate(),
        }
    }
}

/// Tarball sources keyed by `name@version`, taken before the lockfile is resolved again.
#[derive(Debug, PartialEq, Eq)]
pub struct Snapshot {
    pub sources: Dict<Source>,
}

/// What a `Snapshot` means.
#[verifier::ext_equal]
pub struct SnapshotView {
    pub sources: Map<Text, SourceView>,
}

impl View for Snapshot {
    type V = SnapshotView;

    open spec fn view(&self) -> SnapshotView {
        SnapshotView {
            sources: self.sources.deep_view(),
        }
    }
}

impl DeepView for Snapshot {
    type V = SnapshotView;

    open spec fn deep_view(&self) -> SnapshotView {
        self@
    }
}

impl Duplicate for Snapshot {
    fn duplicate(&self) -> (result: Self) {
        Snapshot {
            sources: self.sources.duplicate(),
        }
    }
}

/// A version of a package that came or went.
#[derive(Debug, PartialEq, Eq)]
pub struct Entry {
    pub name: String,
    pub version: String,
    /// Install scripts that will not run until the package is in `allowBuilds`.
    pub scripts: bool,
}

/// What a `Entry` means.
#[verifier::ext_equal]
pub struct EntryView {
    pub name: Text,
    pub version: Text,
    pub scripts: bool,
}

impl View for Entry {
    type V = EntryView;

    open spec fn view(&self) -> EntryView {
        EntryView {
            name: self.name.deep_view(),
            version: self.version.deep_view(),
            scripts: self.scripts.deep_view(),
        }
    }
}

impl DeepView for Entry {
    type V = EntryView;

    open spec fn deep_view(&self) -> EntryView {
        self@
    }
}

impl Duplicate for Entry {
    fn duplicate(&self) -> (result: Self) {
        Entry {
            name: self.name.duplicate(),
            version: self.version.duplicate(),
            scripts: self.scripts,
        }
    }
}

/// What resolving changed.
#[derive(Debug, PartialEq, Eq)]
pub struct Changes {
    pub added: Vec<Entry>,
    pub removed: Vec<Entry>,
    /// The name, then the version before and after.
    pub updated: Vec<(String, String, String)>,
    /// Packages whose tarball changed while their version stayed the same.
    pub resupplied: Vec<Entry>,
}

/// What a `Changes` means.
#[verifier::ext_equal]
pub struct ChangesView {
    pub added: Seq<EntryView>,
    pub removed: Seq<EntryView>,
    pub updated: Seq<(Text, Text, Text)>,
    pub resupplied: Seq<EntryView>,
}

impl View for Changes {
    type V = ChangesView;

    open spec fn view(&self) -> ChangesView {
        ChangesView {
            added: self.added.deep_view(),
            removed: self.removed.deep_view(),
            updated: self.updated.deep_view(),
            resupplied: self.resupplied.deep_view(),
        }
    }
}

impl DeepView for Changes {
    type V = ChangesView;

    open spec fn deep_view(&self) -> ChangesView {
        self@
    }
}

/// A line for the user.
#[derive(Debug, PartialEq, Eq)]
pub struct Line {
    pub warning: bool,
    pub text: String,
}

/// What a `Line` means.
#[verifier::ext_equal]
pub struct LineView {
    pub warning: bool,
    pub text: Text,
}

impl View for Line {
    type V = LineView;

    open spec fn view(&self) -> LineView {
        LineView {
            warning: self.warning.deep_view(),
            text: self.text.deep_view(),
        }
    }
}

impl DeepView for Line {
    type V = LineView;

    open spec fn deep_view(&self) -> LineView {
        self@
    }
}

impl Duplicate for Line {
    fn duplicate(&self) -> (result: Self) {
        Line {
            warning: self.warning,
            text: self.text.duplicate(),
        }
    }
}

/// The version that a package is, as a key.
pub open spec fn version_key(package: PackageView) -> Text {
    package.name + "@"@ + package.version
}

fn key(package: &Package) -> (result: String)
    ensures
        result@ == version_key(package@),
{
    cat3(package.name.as_str(), "@", package.version.as_str())
}

/// The packages `ids` by their versions. Of several instances of a version, the last one counts.
pub open spec fn by_version(packages: Map<Text, PackageView>, ids: Seq<Text>) -> Map<Text, PackageView>
    decreases ids.len(),
{
    if ids.len() == 0 {
        Map::empty()
    } else {
        by_version(packages, ids.drop_last()).insert(version_key(packages[ids.last()]), packages[ids.last()])
    }
}

/// The packages of a lock by their versions.
pub open spec fn versions_of(packages: Map<Text, PackageView>) -> Map<Text, PackageView> {
    by_version(packages, sorted(packages.dom()))
}

/// Where a package comes from.
pub open spec fn source_of(package: PackageView) -> SourceView {
    SourceView {
        name: package.name,
        version: package.version,
        url: package.url,
        integrity: package.integrity,
    }
}

/// Where the packages of a lock come from.
pub open spec fn snapshot_of(lock: Option<LockView>) -> SnapshotView {
    SnapshotView {
        sources: match lock {
            Some(lock) => versions_of(lock.packages).map_values(|package: PackageView| source_of(package)),
            None => Map::empty(),
        },
    }
}

/// The packages by their versions.
fn current_versions(packages: &Dict<Package>) -> (result: Dict<Package>)
    ensures
        result@ == versions_of(packages@),
{
    let mut result: Dict<Package> = Dict::new();
    let n: usize = packages.len();
    let ghost ids = sorted(packages@.dom());
    let mut i: usize = 0;
    while i < n
        invariant
            i <= n,
            n == ids.len(),
            ids == sorted(packages@.dom()),
            result@ == by_version(packages@, ids.take(i as int)),
        decreases n - i,
    {
        let package = packages.value(i);
        result.insert(key(package), package.duplicate());
        assert(ids.take(i + 1).drop_last() =~= ids.take(i as int));
        i += 1;
    }
    assert(ids.take(i as int) =~= ids);
    result
}

/// Where the packages of a lock come from.
pub fn snapshot(lock: Option<&Lock>) -> (result: Snapshot)
    ensures
        result@ == snapshot_of(lock.deep_view()),
{
    let mut sources: Dict<Source> = Dict::new();
    if let Some(lock) = lock {
        let versions = current_versions(&lock.packages);
        let n: usize = versions.len();
        let ghost keys = sorted(versions@.dom());
        let ghost all = versions@.map_values(|package: PackageView| source_of(package));
        proof {
            sorted_properties(versions@.dom());
            assert(sources@ =~= all.restrict(keys.take(0).to_set()));
        }
        let mut i: usize = 0;
        while i < n
            invariant
                i <= n,
                n == keys.len(),
                keys == sorted(versions@.dom()),
                all == versions@.map_values(|package: PackageView| source_of(package)),
                sources@ == all.restrict(keys.take(i as int).to_set()),
            decreases n - i,
        {
            let package = versions.value(i);
            proof {
                taken_one_more(keys, i as int);
            }
            sources.insert(
                versions.key(i).clone(),
                Source {
                    name: package.name.clone(),
                    version: package.version.clone(),
                    url: package.url.clone(),
                    integrity: package.integrity.clone(),
                },
            );
            assert(sources@ =~= all.restrict(keys.take(i + 1).to_set()));
            i += 1;
        }
        proof {
            assert(keys.take(i as int) =~= keys);
            assert forall|x: Text| all.contains_key(x) implies keys.to_set().contains(x) by {
                assert(keys.contains(x));
            }
            assert(sources@ =~= all);
        }
    }
    Snapshot { sources }
}

/// A package that came.
pub open spec fn added_entry(package: PackageView) -> EntryView {
    EntryView {
        name: package.name,
        version: package.version,
        scripts: package.install_script && !package.build && !package.impure_build,
    }
}

/// A version that has no scripts to tell of.
pub open spec fn plain_entry(name: Text, version: Text) -> EntryView {
    EntryView { name, version, scripts: false }
}

/// The versions that came.
pub open spec fn arrivals(before: SnapshotView, current: Map<Text, PackageView>) -> Seq<EntryView> {
    sorted(current.dom().difference(before.sources.dom())).map_values(|key: Text| added_entry(current[key]))
}

/// The versions that went.
pub open spec fn departures(before: SnapshotView, current: Map<Text, PackageView>) -> Seq<EntryView> {
    sorted(before.sources.dom().difference(current.dom())).map_values(
        |key: Text| plain_entry(before.sources[key].name, before.sources[key].version),
    )
}

/// How many of `entries` are versions of `name`.
pub open spec fn count_of(entries: Seq<EntryView>, name: Text) -> nat {
    entries.filter(|entry: EntryView| entry.name == name).len()
}

/// One version of `name` came, and one went.
pub open spec fn is_update(came: Seq<EntryView>, went: Seq<EntryView>, name: Text) -> bool {
    count_of(came, name) == 1 && count_of(went, name) == 1
}

/// The version of `name` that is the last in `entries`.
pub open spec fn last_version(entries: Seq<EntryView>, name: Text) -> Text
    decreases entries.len(),
{
    if entries.len() == 0 {
        Seq::empty()
    } else if entries.last().name == name {
        entries.last().version
    } else {
        last_version(entries.drop_last(), name)
    }
}

/// A version whose tarball changed.
pub open spec fn is_resupplied(before: SnapshotView, current: Map<Text, PackageView>, key: Text) -> bool {
    before.sources.contains_key(key) && (before.sources[key].url != current[key].url || before.sources[key].integrity
        != current[key].integrity)
}

/// What changed. One version of a package leaving as another arrives is an update, not both.
pub open spec fn changes_between(before: SnapshotView, after: LockView) -> ChangesView {
    let current = versions_of(after.packages);
    let came = arrivals(before, current);
    let went = departures(before, current);
    ChangesView {
        added: came.filter(|entry: EntryView| !is_update(came, went, entry.name)),
        removed: went.filter(|entry: EntryView| !is_update(came, went, entry.name)),
        updated: came.filter(|entry: EntryView| is_update(came, went, entry.name)).map_values(
            |entry: EntryView| (entry.name, last_version(went, entry.name), entry.version),
        ),
        resupplied: sorted(current.dom().filter(|key: Text| is_resupplied(before, current, key))).map_values(
            |key: Text| plain_entry(current[key].name, current[key].version),
        ),
    }
}

fn count_by_name(entries: &Vec<Entry>, name: &str) -> (result: usize)
    ensures
        result == count_of(entries.deep_view(), name@),
{
    let ghost all = entries.deep_view();
    let ghost keep = |entry: EntryView| entry.name == name@;
    let mut count: usize = 0;
    let mut i: usize = 0;
    proof {
        reveal(Seq::filter);
        assert(all.take(0).filter(keep).len() == 0);
    }
    while i < entries.len()
        invariant
            i <= entries.len(),
            all == entries.deep_view(),
            keep == (|entry: EntryView| entry.name == name@),
            count == all.take(i as int).filter(keep).len(),
            count <= i,
        decreases entries.len() - i,
    {
        proof {
            reveal(Seq::filter);
            assert(all.take(i + 1).drop_last() =~= all.take(i as int));
            assert(all[i as int] == entries@[i as int]@);
        }
        if same(entries[i].name.as_str(), name) {
            count += 1;
        }
        i += 1;
    }
    assert(all.take(i as int) =~= all);
    count
}

fn find_version(entries: &Vec<Entry>, name: &str) -> (result: String)
    ensures
        result@ == last_version(entries.deep_view(), name@),
{
    let ghost all = entries.deep_view();
    let mut i: usize = entries.len();
    assert(all.take(i as int) =~= all);
    while i > 0
        invariant
            i <= entries.len(),
            all == entries.deep_view(),
            last_version(all, name@) == last_version(all.take(i as int), name@),
        decreases i,
    {
        assert(all.take(i as int).drop_last() =~= all.take(i - 1));
        assert(all.take(i as int).last() == entries@[i - 1]@);
        if same(entries[i - 1].name.as_str(), name) {
            return entries[i - 1].version.clone();
        }
        i -= 1;
    }
    let result = String::new();
    assert(result@ =~= Seq::<char>::empty());
    result
}

fn updated_name(came: &Vec<Entry>, went: &Vec<Entry>, name: &str) -> (result: bool)
    ensures
        result == is_update(came.deep_view(), went.deep_view(), name@),
{
    count_by_name(came, name) == 1 && count_by_name(went, name) == 1
}

fn list_arrivals(before: &Snapshot, current: &Dict<Package>) -> (result: Vec<Entry>)
    ensures
        result.deep_view() == arrivals(before@, current@),
{
    let new = current.without(&before.sources);
    let ghost keys = sorted(new@.dom());
    let ghost all = arrivals(before@, current@);
    let mut result: Vec<Entry> = Vec::new();
    let n: usize = new.len();
    assert(new@.dom() =~= current@.dom().difference(before@.sources.dom()));
    let mut i: usize = 0;
    while i < n
        invariant
            i <= n,
            n == keys.len(),
            keys == sorted(new@.dom()),
            new@ == current@.remove_keys(before@.sources.dom()),
            new@.dom() == current@.dom().difference(before@.sources.dom()),
            all == arrivals(before@, current@),
            result@.len() == i,
            forall|j: int| 0 <= j < i ==> (#[trigger] result@[j])@ == all[j],
        decreases n - i,
    {
        let package = new.value(i);
        result.push(
            Entry {
                name: package.name.clone(),
                version: package.version.clone(),
                scripts: package.install_script && !package.build && !package.impure_build,
            },
        );
        i += 1;
    }
    assert(result.deep_view() =~= all);
    result
}

fn list_departures(before: &Snapshot, current: &Dict<Package>) -> (result: Vec<Entry>)
    ensures
        result.deep_view() == departures(before@, current@),
{
    let gone = before.sources.without(current);
    let ghost keys = sorted(gone@.dom());
    let ghost all = departures(before@, current@);
    let mut result: Vec<Entry> = Vec::new();
    let n: usize = gone.len();
    assert(gone@.dom() =~= before@.sources.dom().difference(current@.dom()));
    let mut i: usize = 0;
    while i < n
        invariant
            i <= n,
            n == keys.len(),
            keys == sorted(gone@.dom()),
            gone@ == before@.sources.remove_keys(current@.dom()),
            gone@.dom() == before@.sources.dom().difference(current@.dom()),
            all == departures(before@, current@),
            result@.len() == i,
            forall|j: int| 0 <= j < i ==> (#[trigger] result@[j])@ == all[j],
        decreases n - i,
    {
        let source = gone.value(i);
        result.push(Entry { name: source.name.clone(), version: source.version.clone(), scripts: false });
        i += 1;
    }
    assert(result.deep_view() =~= all);
    result
}

fn list_resupplied(before: &Snapshot, current: &Dict<Package>) -> (result: Vec<Entry>)
    ensures
        result.deep_view() == sorted(
            current@.dom().filter(|key: Text| is_resupplied(before@, current@, key)),
        ).map_values(|key: Text| plain_entry(current@[key].name, current@[key].version)),
{
    let ghost wanted = current@.dom().filter(|key: Text| is_resupplied(before@, current@, key));
    let mut names = Names::new();
    let n: usize = current.len();
    let ghost keys = sorted(current@.dom());
    proof {
        sorted_properties(current@.dom());
        assert(names@ =~= wanted.intersect(keys.take(0).to_set()));
    }
    let mut i: usize = 0;
    while i < n
        invariant
            i <= n,
            n == keys.len(),
            keys == sorted(current@.dom()),
            wanted == current@.dom().filter(|key: Text| is_resupplied(before@, current@, key)),
            names@ == wanted.intersect(keys.take(i as int).to_set()),
        decreases n - i,
    {
        let key = current.key(i);
        let package = current.value(i);
        proof {
            taken_one_more(keys, i as int);
        }
        if let Some(source) = before.sources.get(key.as_str()) {
            if !same(source.url.as_str(), package.url.as_str()) || !same(
                source.integrity.as_str(),
                package.integrity.as_str(),
            ) {
                names.insert(key.clone());
            }
        }
        assert(names@ =~= wanted.intersect(keys.take(i + 1).to_set()));
        i += 1;
    }
    proof {
        assert(keys.take(i as int) =~= keys);
        assert forall|x: Text| wanted.contains(x) implies keys.to_set().contains(x) by {
            assert(keys.contains(x));
        }
        assert(names@ =~= wanted);
        sorted_properties(wanted);
    }
    let ghost list = sorted(wanted);
    let ghost all = list.map_values(|key: Text| plain_entry(current@[key].name, current@[key].version));
    let mut result: Vec<Entry> = Vec::new();
    let m: usize = names.len();
    let mut k: usize = 0;
    while k < m
        invariant
            k <= m,
            m == list.len(),
            names@ == wanted,
            wanted == current@.dom().filter(|key: Text| is_resupplied(before@, current@, key)),
            list == sorted(wanted),
            all == list.map_values(|key: Text| plain_entry(current@[key].name, current@[key].version)),
            result@.len() == k,
            forall|j: int| 0 <= j < k ==> (#[trigger] result@[j])@ == all[j],
        decreases m - k,
    {
        let key = names.at(k);
        assert(current@.contains_key(key@));
        let package = current.get(key.as_str()).unwrap();
        result.push(Entry { name: package.name.clone(), version: package.version.clone(), scripts: false });
        k += 1;
    }
    assert(result.deep_view() =~= all);
    result
}

/// One version of a package leaving as another arrives is an update, not both.
pub fn changes(before: &Snapshot, after: &Lock) -> (result: Changes)
    ensures
        result@ == changes_between(before@, after@),
{
    let current = current_versions(&after.packages);
    let came = list_arrivals(before, &current);
    let went = list_departures(before, &current);
    let ghost (all_came, all_went) = (came.deep_view(), went.deep_view());
    let ghost stays = |entry: EntryView| !is_update(all_came, all_went, entry.name);
    let ghost moves = |entry: EntryView| is_update(all_came, all_went, entry.name);
    let ghost update = |entry: EntryView| (entry.name, last_version(all_went, entry.name), entry.version);
    let mut removed: Vec<Entry> = Vec::new();
    let mut i: usize = 0;
    proof {
        reveal(Seq::filter);
        assert(removed.deep_view() =~= all_went.take(0).filter(stays));
    }
    while i < went.len()
        invariant
            i <= went.len(),
            all_came == came.deep_view(),
            all_went == went.deep_view(),
            stays == (|entry: EntryView| !is_update(all_came, all_went, entry.name)),
            removed.deep_view() == all_went.take(i as int).filter(stays),
        decreases went.len() - i,
    {
        proof {
            reveal(Seq::filter);
            assert(all_went.take(i + 1).drop_last() =~= all_went.take(i as int));
            assert(all_went[i as int] == went@[i as int]@);
        }
        if !updated_name(&came, &went, went[i].name.as_str()) {
            let ghost had = removed.deep_view();
            removed.push(went[i].duplicate());
            assert(removed.deep_view() =~= had.push(all_went[i as int]));
        }
        i += 1;
    }
    assert(all_went.take(i as int) =~= all_went);
    let mut added: Vec<Entry> = Vec::new();
    let mut updated: Vec<(String, String, String)> = Vec::new();
    let mut k: usize = 0;
    proof {
        reveal(Seq::filter);
        assert(added.deep_view() =~= all_came.take(0).filter(stays));
        assert(updated.deep_view() =~= all_came.take(0).filter(moves).map_values(update));
    }
    while k < came.len()
        invariant
            k <= came.len(),
            all_came == came.deep_view(),
            all_went == went.deep_view(),
            stays == (|entry: EntryView| !is_update(all_came, all_went, entry.name)),
            moves == (|entry: EntryView| is_update(all_came, all_went, entry.name)),
            update == (|entry: EntryView| (entry.name, last_version(all_went, entry.name), entry.version)),
            added.deep_view() == all_came.take(k as int).filter(stays),
            updated.deep_view() == all_came.take(k as int).filter(moves).map_values(update),
        decreases came.len() - k,
    {
        proof {
            reveal(Seq::filter);
            assert(all_came.take(k + 1).drop_last() =~= all_came.take(k as int));
            assert(all_came[k as int] == came@[k as int]@);
        }
        let entry = &came[k];
        if updated_name(&came, &went, entry.name.as_str()) {
            let ghost had = updated.deep_view();
            updated.push(
                (entry.name.clone(), find_version(&went, entry.name.as_str()), entry.version.clone()),
            );
            assert(updated.deep_view() =~= had.push(update(all_came[k as int])));
            assert(updated.deep_view() =~= all_came.take(k + 1).filter(moves).map_values(update));
        } else {
            let ghost had = added.deep_view();
            added.push(entry.duplicate());
            assert(added.deep_view() =~= had.push(all_came[k as int]));
        }
        k += 1;
    }
    assert(all_came.take(k as int) =~= all_came);
    let resupplied = list_resupplied(before, &current);
    let result = Changes { added, removed, updated, resupplied };
    assert(result@ =~= changes_between(before@, after@));
    result
}

/// A line on a package that came.
pub open spec fn added_line(entry: EntryView) -> Text {
    "  "@ + in_green("+"@) + " "@ + (entry.name + " "@ + entry.version + if entry.scripts {
        " (install scripts)"@
    } else {
        ""@
    })
}

/// A line on a package that went.
pub open spec fn removed_line(entry: EntryView) -> Text {
    "  "@ + in_red("-"@) + " "@ + (entry.name + " "@ + entry.version)
}

/// A line on a package whose version changed.
pub open spec fn updated_line(update: (Text, Text, Text)) -> Text {
    "  "@ + in_yellow("~"@) + " "@ + (update.0 + " "@ + update.1 + " → "@ + update.2)
}

/// A line on a version whose tarball changed.
pub open spec fn resupplied_line(entry: EntryView) -> Text {
    in_ticks(entry.name + "@"@ + entry.version)
        + " is the version the lockfile recorded, but no longer the tarball"@
}

/// How many packages came, went and changed, as far as any did.
pub open spec fn count_parts(changes: ChangesView) -> Seq<Text> {
    (if changes.added.len() > 0 {
        seq!["+"@ + decimal(changes.added.len())]
    } else {
        Seq::empty()
    }) + (if changes.removed.len() > 0 {
        seq!["-"@ + decimal(changes.removed.len())]
    } else {
        Seq::empty()
    }) + (if changes.updated.len() > 0 {
        seq![decimal(changes.updated.len()) + " updated"@]
    } else {
        Seq::empty()
    })
}

/// The first line of a report.
pub open spec fn headline(changes: ChangesView, total: nat) -> Text {
    let parts = count_parts(changes);
    "resolved "@ + counted(total, "package"@, "packages"@) + if parts.len() == 0 {
        ""@
    } else {
        faint(" ("@ + joined(parts, ", "@) + ")"@)
    }
}

/// The packages that came, went and changed, one on each line.
pub open spec fn change_lines(changes: ChangesView) -> Seq<Text> {
    changes.added.map_values(|entry: EntryView| added_line(entry)) + changes.removed.map_values(
        |entry: EntryView| removed_line(entry),
    ) + changes.updated.map_values(|update: (Text, Text, Text)| updated_line(update))
}

pub open spec fn info_lines(lines: Seq<Text>) -> Seq<LineView> {
    lines.map_values(|text: Text| LineView { warning: false, text })
}

/// What the user is told of a lock that replaces `before`. A first resolution would list every
/// package, which the count already says.
pub open spec fn reported(before: SnapshotView, after: LockView) -> Seq<LineView> {
    let total = after.packages.dom().len();
    let changes = changes_between(before, after);
    let lines = change_lines(changes);
    if before.sources == Map::<Text, SourceView>::empty() {
        info_lines(seq!["resolved "@ + counted(total, "package"@, "packages"@)])
    } else {
        info_lines(seq![headline(changes, total)]) + info_lines(
            if lines.len() > LISTED {
                lines.take(LISTED as int).push(
                    "  "@ + faint("and "@ + decimal((lines.len() - LISTED) as nat) + " more"@),
                )
            } else {
                lines
            },
        ) + changes.resupplied.map_values(
            |entry: EntryView| LineView { warning: true, text: resupplied_line(entry) },
        )
    }
}

fn list_counts(changes: &Changes) -> (result: Vec<String>)
    ensures
        result.deep_view() == count_parts(changes@),
{
    let mut parts: Vec<String> = Vec::new();
    if changes.added.len() > 0 {
        parts.push(cat("+", number(changes.added.len() as u64).as_str()));
    }
    if changes.removed.len() > 0 {
        parts.push(cat("-", number(changes.removed.len() as u64).as_str()));
    }
    if changes.updated.len() > 0 {
        parts.push(cat(number(changes.updated.len() as u64).as_str(), " updated"));
    }
    assert(parts.deep_view() =~= count_parts(changes@));
    parts
}

fn list_changes(changes: &Changes) -> (result: Vec<String>)
    ensures
        result.deep_view() == change_lines(changes@),
{
    let mut lines: Vec<String> = Vec::new();
    let ghost all = change_lines(changes@);
    let ghost (a, b) = (changes@.added.len(), changes@.removed.len());
    let mut i: usize = 0;
    while i < changes.added.len()
        invariant
            i <= changes.added.len(),
            a == changes@.added.len(),
            all == change_lines(changes@),
            lines@.len() == i,
            forall|j: int| 0 <= j < i ==> (#[trigger] lines@[j])@ == all[j],
        decreases changes.added.len() - i,
    {
        let entry = &changes.added[i];
        assert(all[i as int] == added_line(entry@));
        let rest = cat4(
            entry.name.as_str(),
            " ",
            entry.version.as_str(),
            if entry.scripts {
                " (install scripts)"
            } else {
                ""
            },
        );
        lines.push(cat4("  ", green("+").as_str(), " ", rest.as_str()));
        i += 1;
    }
    let mut k: usize = 0;
    while k < changes.removed.len()
        invariant
            k <= changes.removed.len(),
            a == changes@.added.len(),
            b == changes@.removed.len(),
            all == change_lines(changes@),
            lines@.len() == a + k,
            forall|j: int| 0 <= j < a + k ==> (#[trigger] lines@[j])@ == all[j],
        decreases changes.removed.len() - k,
    {
        let entry = &changes.removed[k];
        assert(all[a + k] == removed_line(entry@));
        let rest = cat3(entry.name.as_str(), " ", entry.version.as_str());
        lines.push(cat4("  ", red("-").as_str(), " ", rest.as_str()));
        k += 1;
    }
    let mut m: usize = 0;
    while m < changes.updated.len()
        invariant
            m <= changes.updated.len(),
            a == changes@.added.len(),
            b == changes@.removed.len(),
            all == change_lines(changes@),
            lines@.len() == a + b + m,
            forall|j: int| 0 <= j < a + b + m ==> (#[trigger] lines@[j])@ == all[j],
        decreases changes.updated.len() - m,
    {
        let update = &changes.updated[m];
        assert(changes@.updated[m as int] == (update.0@, update.1@, update.2@));
        assert(all[a + b + m] == updated_line(changes@.updated[m as int]));
        let rest = cat5(update.0.as_str(), " ", update.1.as_str(), " → ", update.2.as_str());
        lines.push(cat4("  ", yellow("~").as_str(), " ", rest.as_str()));
        m += 1;
    }
    assert(lines.deep_view() =~= all);
    lines
}

/// What the user is told of a lock that replaces `before`.
pub fn report(before: &Snapshot, after: &Lock) -> (result: Vec<Line>)
    ensures
        result.deep_view() == reported(before@, after@),
{
    let mut result: Vec<Line> = Vec::new();
    let total: usize = after.packages.len();
    let count = cat("resolved ", plural(total, "package", "packages").as_str());
    if before.sources.is_empty() {
        result.push(Line { warning: false, text: count });
        assert(result.deep_view() =~= reported(before@, after@));
        return result;
    }
    let changes = changes(before, after);
    let parts = list_counts(&changes);
    let head = if parts.len() == 0 {
        cat(count.as_str(), "")
    } else {
        cat(count.as_str(), dimmed(cat3(" (", join(&parts, ", ").as_str(), ")").as_str()).as_str())
    };
    assert(head@ == headline(changes@, total as nat)) by {
        assert(count@ == "resolved "@ + counted(total as nat, "package"@, "packages"@));
    }
    result.push(Line { warning: false, text: head });
    let mut lines = list_changes(&changes);
    let ghost all = lines.deep_view();
    if lines.len() > LISTED {
        let more = cat3("and ", number((lines.len() - LISTED) as u64).as_str(), " more");
        lines.truncate(LISTED);
        lines.push(cat("  ", dimmed(more.as_str()).as_str()));
    }
    let ghost listed = if all.len() > LISTED {
        all.take(LISTED as int).push("  "@ + faint("and "@ + decimal((all.len() - LISTED) as nat) + " more"@))
    } else {
        all
    };
    assert(lines.deep_view() =~= listed);
    let ghost expected = reported(before@, after@);
    let mut i: usize = 0;
    while i < lines.len()
        invariant
            i <= lines.len(),
            listed == lines.deep_view(),
            changes@ == changes_between(before@, after@),
            all == change_lines(changes@),
            expected == reported(before@, after@),
            expected.len() == 1 + listed.len() + changes@.resupplied.len(),
            forall|j: int| 0 <= j < listed.len() ==> expected[1 + j] == (LineView {
                warning: false,
                text: #[trigger] listed[j],
            }),
            result@.len() == 1 + i,
            forall|j: int| 0 <= j < 1 + i ==> (#[trigger] result@[j])@ == expected[j],
        decreases lines.len() - i,
    {
        assert(listed[i as int] == lines@[i as int]@);
        result.push(Line { warning: false, text: lines[i].clone() });
        assert(result@[1 + i]@ =~= expected[1 + i]);
        i += 1;
    }
    let mut k: usize = 0;
    while k < changes.resupplied.len()
        invariant
            k <= changes.resupplied.len(),
            changes@ == changes_between(before@, after@),
            expected == reported(before@, after@),
            expected.len() == 1 + listed.len() + changes@.resupplied.len(),
            forall|j: int| 0 <= j < changes@.resupplied.len() ==> expected[1 + listed.len() + j] == (LineView {
                warning: true,
                text: resupplied_line(#[trigger] changes@.resupplied[j]),
            }),
            result@.len() == 1 + listed.len() + k,
            forall|j: int| 0 <= j < 1 + listed.len() + k ==> (#[trigger] result@[j])@ == expected[j],
        decreases changes.resupplied.len() - k,
    {
        let entry = &changes.resupplied[k];
        assert(changes@.resupplied[k as int] == entry@);
        let version = cat3(entry.name.as_str(), "@", entry.version.as_str());
        let text = cat(
            ticked(version.as_str()).as_str(),
            " is the version the lockfile recorded, but no longer the tarball",
        );
        result.push(Line { warning: true, text });
        assert(result@[1 + listed.len() + k]@ =~= expected[1 + listed.len() + k]);
        k += 1;
    }
    assert(result.deep_view() =~= expected);
    result
}

/// A package is listed as updated, or as added and removed, but not as both.
pub proof fn update_is_listed_once(before: SnapshotView, after: LockView, i: int, j: int)
    requires
        0 <= i < changes_between(before, after).updated.len(),
    ensures
        0 <= j < changes_between(before, after).added.len() ==> changes_between(before, after).added[j].name
            != changes_between(before, after).updated[i].0,
        0 <= j < changes_between(before, after).removed.len() ==> changes_between(before, after).removed[j].name
            != changes_between(before, after).updated[i].0,
{
    let current = versions_of(after.packages);
    let came = arrivals(before, current);
    let went = departures(before, current);
    let stays = |entry: EntryView| !is_update(came, went, entry.name);
    let moves = |entry: EntryView| is_update(came, went, entry.name);
    filter_holds(came, moves, i);
    if 0 <= j < came.filter(stays).len() {
        filter_holds(came, stays, j);
    }
    if 0 <= j < went.filter(stays).len() {
        filter_holds(went, stays, j);
    }
}

proof fn filter_holds(entries: Seq<EntryView>, keep: spec_fn(EntryView) -> bool, i: int)
    requires
        0 <= i < entries.filter(keep).len(),
    ensures
        keep(entries.filter(keep)[i]),
    decreases entries.len(),
{
    reveal(Seq::filter);
    if entries.len() > 0 {
        let shorter = entries.drop_last();
        if i < shorter.filter(keep).len() {
            filter_holds(shorter, keep, i);
        }
    }
}

/// A lock that stays as it is has no changes.
pub proof fn same_lock_has_no_changes(lock: LockView)
    ensures
        changes_between(snapshot_of(Some(lock)), lock) == (ChangesView {
            added: Seq::empty(),
            removed: Seq::empty(),
            updated: Seq::empty(),
            resupplied: Seq::empty(),
        }),
{
    reveal(Seq::filter);
    let before = snapshot_of(Some(lock));
    let current = versions_of(lock.packages);
    let none = Set::<Text>::empty();
    sorted_properties(none);
    assert(current.dom().difference(before.sources.dom()) =~= none);
    assert(before.sources.dom().difference(current.dom()) =~= none);
    assert(current.dom().filter(|key: Text| is_resupplied(before, current, key)) =~= none);
    let changes = changes_between(before, lock);
    assert(arrivals(before, current) =~= Seq::empty());
    assert(departures(before, current) =~= Seq::empty());
    assert(changes.updated =~= Seq::empty());
    assert(changes.resupplied =~= Seq::empty());
}

/// Every version that is there has an entry, which is for a package of that version, and nothing else
/// does.
proof fn versions_are_gathered(packages: Map<Text, PackageView>, ids: Seq<Text>)
    ensures
        forall|i: int|
            0 <= i < ids.len() ==> by_version(packages, ids).contains_key(version_key(#[trigger] packages[ids[i]])),
        forall|key: Text| #[trigger]
            by_version(packages, ids).contains_key(key) ==> version_key(by_version(packages, ids)[key]) == key
                && exists|i: int| 0 <= i < ids.len() && #[trigger] packages[ids[i]] == by_version(packages, ids)[key],
    decreases ids.len(),
{
    if ids.len() > 0 {
        let shorter = ids.drop_last();
        versions_are_gathered(packages, shorter);
        let (before, after) = (by_version(packages, shorter), by_version(packages, ids));
        assert(ids[ids.len() - 1] == ids.last());
        assert forall|i: int| 0 <= i < ids.len() implies after.contains_key(
            version_key(#[trigger] packages[ids[i]]),
        ) by {
            if i < shorter.len() {
                assert(before.contains_key(version_key(packages[shorter[i]])));
            }
        }
        assert forall|key: Text| #[trigger] after.contains_key(key) implies version_key(after[key]) == key
            && exists|i: int| 0 <= i < ids.len() && #[trigger] packages[ids[i]] == after[key] by {
            if key == version_key(packages[ids.last()]) {
                assert(packages[ids[ids.len() - 1]] == after[key]);
            } else {
                assert(before.contains_key(key));
                let i = choose|i: int| 0 <= i < shorter.len() && #[trigger] packages[shorter[i]] == before[key];
                assert(packages[ids[i]] == after[key]);
            }
        }
    }
}

/// Some package is the version `key`.
pub open spec fn has_version(packages: Map<Text, PackageView>, key: Text) -> bool {
    exists|id: Text| #[trigger] packages.contains_key(id) && packages[id].name + "@"@ + packages[id].version == key
}

proof fn versions_are_those(packages: Map<Text, PackageView>, key: Text)
    requires
        packages.dom().finite(),
    ensures
        versions_of(packages).contains_key(key) <==> has_version(packages, key),
        versions_of(packages).contains_key(key) ==> version_key(versions_of(packages)[key]) == key && exists|id: Text|
            #[trigger] packages.contains_key(id) && packages[id] == versions_of(packages)[key],
{
    let ids = sorted(packages.dom());
    sorted_properties(packages.dom());
    versions_are_gathered(packages, ids);
    if versions_of(packages).contains_key(key) {
        let i = choose|i: int| 0 <= i < ids.len() && #[trigger] packages[ids[i]] == versions_of(packages)[key];
        assert(ids.contains(ids[i]));
        assert(packages.contains_key(ids[i]));
    }
    if has_version(packages, key) {
        let id = choose|id: Text| #[trigger]
            packages.contains_key(id) && packages[id].name + "@"@ + packages[id].version == key;
        assert(ids.contains(id));
        assert(packages[ids[ids.index_of(id)]] == packages[id]);
    }
}

proof fn filter_keeps(entries: Seq<EntryView>, keep: spec_fn(EntryView) -> bool, entry: EntryView)
    ensures
        entries.filter(keep).contains(entry) <==> entries.contains(entry) && keep(entry),
    decreases entries.len(),
{
    reveal(Seq::filter);
    if entries.len() > 0 {
        let shorter = entries.drop_last();
        filter_keeps(shorter, keep, entry);
        let (before, after) = (shorter.filter(keep), entries.filter(keep));
        if before.contains(entry) {
            assert(after[before.index_of(entry)] == entry);
        }
        if shorter.contains(entry) {
            assert(entries[shorter.index_of(entry)] == entry);
        }
        if entries.last() == entry && keep(entry) {
            assert(after.last() == entry);
            assert(after[after.len() - 1] == entry);
            assert(entries[entries.len() - 1] == entry);
        }
        if entries.contains(entry) && !shorter.contains(entry) {
            let i = entries.index_of(entry);
            assert(i == shorter.len()) by {
                if i < shorter.len() {
                    assert(shorter[i] == entry);
                }
            }
        }
        if after.contains(entry) && !before.contains(entry) {
            let i = after.index_of(entry);
            assert(i == before.len()) by {
                if i < before.len() {
                    assert(before[i] == entry);
                }
            }
        }
    }
}

/// Where one entry is of `name`, that is the last one.
proof fn only_version(entries: Seq<EntryView>, name: Text, entry: EntryView)
    requires
        count_of(entries, name) == 1,
        entries.contains(entry),
        entry.name == name,
    ensures
        last_version(entries, name) == entry.version,
    decreases entries.len(),
{
    reveal(Seq::filter);
    let keep = |e: EntryView| e.name == name;
    let shorter = entries.drop_last();
    if entries.last().name == name {
        filter_keeps(shorter, keep, entry);
        assert(shorter.filter(keep).len() == 0);
        let i = entries.index_of(entry);
        if i < shorter.len() {
            assert(shorter[i] == entry);
            assert(shorter.filter(keep).contains(entry));
        }
    } else {
        let i = entries.index_of(entry);
        assert(shorter[i] == entry);
        only_version(shorter, name, entry);
    }
}

/// The version `key` is listed among `entries`.
pub open spec fn is_listed(entries: Seq<EntryView>, key: Text) -> bool {
    exists|entry: EntryView| #[trigger] entries.contains(entry) && entry.name + "@"@ + entry.version == key
}

/// A package went from the version `from` to the version `to`.
pub open spec fn is_updated(updated: Seq<(Text, Text, Text)>, from: Text, to: Text) -> bool {
    exists|update: (Text, Text, Text)| #[trigger]
        updated.contains(update) && update.0 + "@"@ + update.1 == from && update.0 + "@"@ + update.2 == to
}

/// Every version that came is listed as added, or as what a package was updated to, and every one that
/// went as removed, or as what one was updated from. Whatever is listed as added or updated to came, and
/// whatever is listed as removed or updated from went.
pub proof fn every_change_is_listed(before: LockView, after: LockView, key: Text)
    requires
        before.packages.dom().finite(),
        after.packages.dom().finite(),
    ensures
        ({
            let changes = changes_between(snapshot_of(Some(before)), after);
            let (was, now) = (has_version(before.packages, key), has_version(after.packages, key));
            &&& now && !was ==> is_listed(changes.added, key) || exists|from: Text| #[trigger]
                is_updated(changes.updated, from, key)
            &&& was && !now ==> is_listed(changes.removed, key) || exists|to: Text| #[trigger]
                is_updated(changes.updated, key, to)
            &&& is_listed(changes.added, key) ==> now && !was
            &&& is_listed(changes.removed, key) ==> was && !now
        }),
{
    let earlier = snapshot_of(Some(before));
    let (old_versions, current) = (versions_of(before.packages), versions_of(after.packages));
    let (came, went) = (arrivals(earlier, current), departures(earlier, current));
    let changes = changes_between(earlier, after);
    let stays = |entry: EntryView| !is_update(came, went, entry.name);
    let moves = |entry: EntryView| is_update(came, went, entry.name);
    versions_are_those(before.packages, key);
    versions_are_those(after.packages, key);
    assert(earlier.sources.dom() =~= old_versions.dom());
    let (new_keys, old_keys) = (
        sorted(current.dom().difference(earlier.sources.dom())),
        sorted(earlier.sources.dom().difference(current.dom())),
    );
    changed_are_finite(before, after);
    sorted_properties(current.dom().difference(earlier.sources.dom()));
    sorted_properties(earlier.sources.dom().difference(current.dom()));
    if current.contains_key(key) && !old_versions.contains_key(key) {
        let entry = added_entry(current[key]);
        assert(new_keys.contains(key));
        assert(came[new_keys.index_of(key)] == entry);
        assert(came.contains(entry));
        filter_keeps(came, stays, entry);
        filter_keeps(came, moves, entry);
        if is_update(came, went, entry.name) {
            let update = (entry.name, last_version(went, entry.name), entry.version);
            let i = came.filter(moves).index_of(entry);
            assert(changes.updated[i] == update);
            assert(changes.updated.contains(update));
            assert(is_updated(changes.updated, update.0 + "@"@ + update.1, key));
        } else {
            assert(changes.added.contains(entry));
        }
    }
    if old_versions.contains_key(key) && !current.contains_key(key) {
        let entry = plain_entry(earlier.sources[key].name, earlier.sources[key].version);
        assert(old_keys.contains(key));
        assert(went[old_keys.index_of(key)] == entry);
        assert(went.contains(entry));
        filter_keeps(went, stays, entry);
        if is_update(came, went, entry.name) {
            only_version(went, entry.name, entry);
            let named = |e: EntryView| e.name == entry.name;
            let other = came.filter(named)[0];
            assert(came.filter(named).contains(other));
            filter_keeps(came, named, other);
            filter_keeps(came, moves, other);
            let update = (other.name, last_version(went, other.name), other.version);
            let i = came.filter(moves).index_of(other);
            assert(changes.updated[i] == update);
            assert(changes.updated.contains(update));
            assert(is_updated(changes.updated, key, update.0 + "@"@ + update.2));
        } else {
            assert(changes.removed.contains(entry));
        }
    }
    if is_listed(changes.added, key) {
        let entry = choose|entry: EntryView| #[trigger]
            changes.added.contains(entry) && entry.name + "@"@ + entry.version == key;
        filter_keeps(came, stays, entry);
        let i = came.index_of(entry);
        assert(new_keys.contains(new_keys[i]));
        versions_are_those(after.packages, new_keys[i]);
        assert(new_keys[i] == key);
    }
    if is_listed(changes.removed, key) {
        let entry = choose|entry: EntryView| #[trigger]
            changes.removed.contains(entry) && entry.name + "@"@ + entry.version == key;
        filter_keeps(went, stays, entry);
        let i = went.index_of(entry);
        assert(old_keys.contains(old_keys[i]));
        versions_are_those(before.packages, old_keys[i]);
        assert(old_keys[i] == key);
    }
}

proof fn versions_are_finite(packages: Map<Text, PackageView>, ids: Seq<Text>)
    ensures
        by_version(packages, ids).dom().finite(),
    decreases ids.len(),
{
    if ids.len() > 0 {
        versions_are_finite(packages, ids.drop_last());
    }
}

proof fn changed_are_finite(before: LockView, after: LockView)
    ensures
        versions_of(after.packages).dom().difference(snapshot_of(Some(before)).sources.dom()).finite(),
        snapshot_of(Some(before)).sources.dom().difference(versions_of(after.packages).dom()).finite(),
        versions_of(after.packages).dom().finite(),
{
    versions_are_finite(before.packages, sorted(before.packages.dom()));
    versions_are_finite(after.packages, sorted(after.packages.dom()));
    assert(snapshot_of(Some(before)).sources.dom() =~= versions_of(before.packages).dom());
}

/// A version that stays but comes from another tarball is told of, and none that comes from the same.
pub proof fn other_tarballs_are_told(before: LockView, after: LockView, key: Text)
    requires
        before.packages.dom().finite(),
        after.packages.dom().finite(),
        has_version(before.packages, key),
        has_version(after.packages, key),
    ensures
        (forall|a: Text, b: Text| #[trigger]
            before.packages.contains_key(a) && #[trigger] after.packages.contains_key(b) && version_key(
                before.packages[a],
            ) == key && version_key(after.packages[b]) == key ==> before.packages[a].url != after.packages[b].url
            || before.packages[a].integrity != after.packages[b].integrity) ==> is_listed(
            changes_between(snapshot_of(Some(before)), after).resupplied,
            key,
        ),
        (forall|a: Text, b: Text| #[trigger]
            before.packages.contains_key(a) && #[trigger] after.packages.contains_key(b) && version_key(
                before.packages[a],
            ) == key && version_key(after.packages[b]) == key ==> before.packages[a].url == after.packages[b].url
            && before.packages[a].integrity == after.packages[b].integrity) ==> !is_listed(
            changes_between(snapshot_of(Some(before)), after).resupplied,
            key,
        ),
{
    let earlier = snapshot_of(Some(before));
    let (old_versions, current) = (versions_of(before.packages), versions_of(after.packages));
    let resupplied = changes_between(earlier, after).resupplied;
    let keys = current.dom().filter(|k: Text| is_resupplied(earlier, current, k));
    let order = sorted(keys);
    versions_are_those(before.packages, key);
    versions_are_those(after.packages, key);
    changed_are_finite(before, after);
    current.dom().lemma_len_filter(|k: Text| is_resupplied(earlier, current, k));
    sorted_properties(keys);
    let a = choose|id: Text| #[trigger] before.packages.contains_key(id) && before.packages[id] == old_versions[key];
    let b = choose|id: Text| #[trigger] after.packages.contains_key(id) && after.packages[id] == current[key];
    assert(version_key(before.packages[a]) == key && version_key(after.packages[b]) == key);
    if keys.contains(key) {
        assert(order.contains(key));
        let entry = plain_entry(current[key].name, current[key].version);
        assert(resupplied[order.index_of(key)] == entry);
        assert(resupplied.contains(entry));
    }
    if is_listed(resupplied, key) {
        let entry = choose|entry: EntryView| #[trigger]
            resupplied.contains(entry) && entry.name + "@"@ + entry.version == key;
        let i = resupplied.index_of(entry);
        assert(order.contains(order[i]));
        versions_are_those(after.packages, order[i]);
        assert(order[i] == key);
    }
}

/// `text` stands in one of `lines`, which is a warning or not.
pub open spec fn is_reported(lines: Seq<LineView>, warning: bool, text: Text) -> bool {
    exists|line: LineView, before: Text, after: Text| #[trigger]
        lines.contains(line) && line.warning == warning && line.text == #[trigger] (before + text + after)
}

/// Unless it is the first resolution, a report tells what came, went and changed, with names and versions,
/// as long as that is not too much, and always warns of versions that come from another tarball.
pub proof fn changes_are_reported(before: SnapshotView, after: LockView)
    requires
        before.sources.dom() != Set::<Text>::empty(),
    ensures
        ({
            let changes = changes_between(before, after);
            let lines = reported(before, after);
            &&& changes.added.len() + changes.removed.len() + changes.updated.len() <= LISTED ==> {
                &&& forall|entry: EntryView| #[trigger]
                    changes.added.contains(entry) ==> is_reported(lines, false, entry.name + " "@ + entry.version)
                &&& forall|entry: EntryView| #[trigger]
                    changes.removed.contains(entry) ==> is_reported(lines, false, entry.name + " "@ + entry.version)
                &&& forall|update: (Text, Text, Text)| #[trigger]
                    changes.updated.contains(update) ==> is_reported(
                        lines,
                        false,
                        update.0 + " "@ + update.1 + " → "@ + update.2,
                    )
            }
            &&& forall|entry: EntryView| #[trigger]
                changes.resupplied.contains(entry) ==> is_reported(lines, true, entry.name + "@"@ + entry.version)
        }),
{
    let changes = changes_between(before, after);
    let lines = reported(before, after);
    let told = change_lines(changes);
    assert(before.sources != Map::<Text, SourceView>::empty()) by {
        if before.sources == Map::<Text, SourceView>::empty() {
            assert(before.sources.dom() =~= Set::<Text>::empty());
        }
    }
    let listed: int = if told.len() > LISTED {
        LISTED + 1
    } else {
        told.len() as int
    };
    if told.len() <= LISTED {
        assert forall|entry: EntryView| #[trigger] changes.added.contains(entry) implies is_reported(
            lines,
            false,
            entry.name + " "@ + entry.version,
        ) by {
            let i = changes.added.index_of(entry);
            assert(told[i] == added_line(entry));
            let line = lines[1 + i];
            assert(line.text == added_line(entry) && !line.warning);
            assert(lines.contains(line));
            let start = "  "@ + in_green("+"@) + " "@;
            let end = if entry.scripts {
                " (install scripts)"@
            } else {
                ""@
            };
            assert(line.text =~= start + (entry.name + " "@ + entry.version) + end);
        }
        assert forall|entry: EntryView| #[trigger] changes.removed.contains(entry) implies is_reported(
            lines,
            false,
            entry.name + " "@ + entry.version,
        ) by {
            let i = changes.removed.index_of(entry);
            assert(told[changes.added.len() + i] == removed_line(entry));
            let line = lines[1 + changes.added.len() + i];
            assert(line.text == removed_line(entry) && !line.warning);
            assert(lines.contains(line));
            let start = "  "@ + in_red("-"@) + " "@;
            assert(line.text =~= start + (entry.name + " "@ + entry.version) + Seq::<char>::empty());
        }
        assert forall|update: (Text, Text, Text)| #[trigger] changes.updated.contains(update) implies is_reported(
            lines,
            false,
            update.0 + " "@ + update.1 + " → "@ + update.2,
        ) by {
            let i = changes.updated.index_of(update);
            let at = changes.added.len() + changes.removed.len() + i;
            assert(told[at] == updated_line(update));
            let line = lines[1 + at];
            assert(line.text == updated_line(update) && !line.warning);
            assert(lines.contains(line));
            let start = "  "@ + in_yellow("~"@) + " "@;
            let text = update.0 + " "@ + update.1 + " → "@ + update.2;
            assert(line.text =~= start + text + Seq::<char>::empty());
        }
    }
    assert forall|entry: EntryView| #[trigger] changes.resupplied.contains(entry) implies is_reported(
        lines,
        true,
        entry.name + "@"@ + entry.version,
    ) by {
        let i = changes.resupplied.index_of(entry);
        let line = lines[1 + listed + i];
        assert(line.text == resupplied_line(entry) && line.warning);
        assert(lines.contains(line));
        let text = entry.name + "@"@ + entry.version;
        let start = faint("`"@) + "\x1b[33m"@;
        let end = "\x1b[39m"@ + faint("`"@) + " is the version the lockfile recorded, but no longer the tarball"@;
        assert(line.text =~= start + text + end);
    }
}

} // verus!
