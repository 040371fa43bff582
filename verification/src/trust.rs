//! What is only used once the user has approved it.
use vstd::prelude::*;

use crate::dict::{sorted, sorted_properties, Dict};
use crate::error::Error;
use crate::lock::{Lock, LockView, PackageView};
use crate::logging::{dimmed, faint, in_ticks, ticked};
use crate::text::{cat3, cat4, same, Text};
use crate::util::{hash, hex_is_injective, hex_of, sha256_of};

verus! {

/// The packages among `ids` whose install scripts run outside the sandbox: name, version, integrity.
pub open spec fn impure_builds(packages: Map<Text, PackageView>, ids: Seq<Text>) -> Seq<(Text, Text, Text)>
    decreases ids.len(),
{
    if ids.len() == 0 {
        Seq::empty()
    } else {
        let before = impure_builds(packages, ids.drop_last());
        let package = packages[ids.last()];
        if package.impure_build {
            before.push((package.name, package.version, package.integrity))
        } else {
            before
        }
    }
}

/// The packages whose install scripts run outside the sandbox.
pub open spec fn impure_in(lock: LockView) -> Seq<(Text, Text, Text)> {
    impure_builds(lock.packages, sorted(lock.packages.dom()))
}

/// The entries of a map in the order of their keys.
pub open spec fn entries_of(map: Map<Text, Text>) -> Seq<(Text, Text)> {
    sorted(map.dom()).map_values(|key: Text| (key, map[key]))
}

/// What needs approval, as JSON.
pub uninterp spec fn approval_json(impure: Seq<(Text, Text, Text)>, substituters: Seq<(Text, Text)>) -> Seq<u8>;

/// `serde_json::to_vec` on a list of strings and a map of strings to strings, which never fails.
/// Claimed is only that the bytes depend on these values alone.
#[verifier::external_body]
fn outside_approval_json(impure: &Vec<(String, String, String)>, substituters: &Vec<(String, String)>) -> (result: Vec<u8>)
    ensures
        result@ == approval_json(impure.deep_view(), substituters.deep_view()),
{
    let map: std::collections::BTreeMap<String, String> = substituters.iter().cloned().collect();
    serde_json::to_vec(&(impure, map)).unwrap_or_default()
}

/// What stands for an approval of everything that needs one.
pub open spec fn approval_hash(lock: LockView, substituters: Map<Text, Text>) -> Text {
    hex_of(sha256_of(approval_json(impure_in(lock), entries_of(substituters))))
}

/// There is something that needs approval.
pub open spec fn needs_approval(lock: LockView, substituters: Map<Text, Text>) -> bool {
    impure_in(lock).len() > 0 || substituters != Map::<Text, Text>::empty()
}

/// Nothing has to be asked where `remembered` is the hash of what was approved last: there is nothing
/// to approve, or it is what was approved.
pub open spec fn is_granted(lock: LockView, substituters: Map<Text, Text>, remembered: Option<Text>) -> bool {
    !needs_approval(lock, substituters) || remembered == Some(approval_hash(lock, substituters))
}

/// What the user is told before being asked.
pub open spec fn approval_lines(lock: LockView, substituters: Map<Text, Text>) -> Seq<Text> {
    seq!["this project needs approval before installing:"@] + impure_in(lock).map_values(
        |entry: (Text, Text, Text)|
            "  "@ + in_ticks(entry.0 + "@"@ + entry.1)
                + " runs install scripts with your permissions and network access"@,
    ) + entries_of(substituters).map_values(
        |entry: (Text, Text)|
            "  "@ + in_ticks(entry.0) + " can provide any store path, signed by "@ + faint(entry.1),
    )
}

/// What has to happen before installing.
pub enum Approval {
    /// Nothing: there is nothing to approve, or it has been approved.
    Granted,
    /// The user is told `lines` and asked, and `hash` is remembered if the answer is yes.
    Needed { lines: Vec<String>, hash: String },
}

fn list_impure(lock: &Lock) -> (result: Vec<(String, String, String)>)
    ensures
        result.deep_view() == impure_in(lock@),
{
    let mut result: Vec<(String, String, String)> = Vec::new();
    let n: usize = lock.packages.len();
    let ghost ids = sorted(lock@.packages.dom());
    let mut i: usize = 0;
    assert(result.deep_view() =~= Seq::<(Text, Text, Text)>::empty());
    while i < n
        invariant
            i <= n,
            n == ids.len(),
            ids == sorted(lock@.packages.dom()),
            result.deep_view() == impure_builds(lock@.packages, ids.take(i as int)),
        decreases n - i,
    {
        let package = lock.packages.value(i);
        let ghost before = result.deep_view();
        assert(ids.take(i + 1).drop_last() =~= ids.take(i as int));
        if package.impure_build {
            result.push((package.name.clone(), package.version.clone(), package.integrity.clone()));
            assert(result.deep_view() =~= before.push((package@.name, package@.version, package@.integrity)));
        }
        i += 1;
    }
    assert(ids.take(i as int) =~= ids);
    result
}

fn list_entries(map: &Dict<String>) -> (result: Vec<(String, String)>)
    ensures
        result.deep_view() == entries_of(map@),
{
    let mut result: Vec<(String, String)> = Vec::new();
    let n: usize = map.len();
    let ghost all = entries_of(map@);
    let mut i: usize = 0;
    while i < n
        invariant
            i <= n,
            n == sorted(map@.dom()).len(),
            all == entries_of(map@),
            result@.len() == i,
            forall|j: int| 0 <= j < i ==> (#[trigger] result@[j]).deep_view() == all[j],
        decreases n - i,
    {
        result.push((map.key(i).clone(), map.value(i).clone()));
        i += 1;
    }
    assert(result.deep_view() =~= all);
    result
}

/// Impure install scripts run as the user, and binary caches can provide any store path, so both
/// affect more than the project and are only used once the user has approved them. `remembered` is
/// the hash of what was approved last.
pub fn approve(lock: &Lock, substituters: &Dict<String>, remembered: Option<&str>) -> (result: Approval)
    ensures
        match result {
            Approval::Granted => is_granted(lock@, substituters@, remembered.deep_view()),
            Approval::Needed { lines, hash } => !is_granted(lock@, substituters@, remembered.deep_view()) && hash@
                == approval_hash(lock@, substituters@) && lines.deep_view() == approval_lines(lock@, substituters@),
        },
{
    let impure = list_impure(lock);
    let entries = list_entries(substituters);
    let hash = hash(outside_approval_json(&impure, &entries).as_slice());
    approve_hashed(lock, substituters, hash, remembered)
}

/// What comes of it that `hash` stands for everything that needs approval, and that `remembered` is
/// the hash of what was approved last.
pub fn approve_hashed(
    lock: &Lock,
    substituters: &Dict<String>,
    hash: String,
    remembered: Option<&str>,
) -> (result: Approval)
    ensures
        match result {
            Approval::Granted => !needs_approval(lock@, substituters@) || remembered.deep_view() == Some(hash@),
            Approval::Needed { lines, hash: noted } => needs_approval(lock@, substituters@) && remembered.deep_view()
                != Some(hash@) && noted@ == hash@ && lines.deep_view() == approval_lines(lock@, substituters@),
        },
{
    let impure = list_impure(lock);
    assert(impure.deep_view().len() == impure@.len());
    if impure.len() == 0 && substituters.is_empty() {
        return Approval::Granted;
    }
    let entries = list_entries(substituters);
    if let Some(approved) = remembered {
        if same(approved, hash.as_str()) {
            return Approval::Granted;
        }
    }
    let ghost all = approval_lines(lock@, substituters@);
    let ghost a = impure@.len() as int;
    let mut lines: Vec<String> = Vec::new();
    lines.push("this project needs approval before installing:".to_owned());
    let mut i: usize = 0;
    while i < impure.len()
        invariant
            i <= impure.len(),
            impure.deep_view() == impure_in(lock@),
            all == approval_lines(lock@, substituters@),
            lines@.len() == 1 + i,
            forall|j: int| 0 <= j < 1 + i ==> (#[trigger] lines@[j])@ == all[j],
        decreases impure.len() - i,
    {
        let entry = &impure[i];
        assert(impure.deep_view()[i as int] == (entry.0@, entry.1@, entry.2@));
        let version = cat3(entry.0.as_str(), "@", entry.1.as_str());
        let line = cat3(
            "  ",
            ticked(version.as_str()).as_str(),
            " runs install scripts with your permissions and network access",
        );
        assert(line@ == all[1 + i]);
        lines.push(line);
        i += 1;
    }
    let mut k: usize = 0;
    while k < entries.len()
        invariant
            k <= entries.len(),
            a == impure@.len(),
            impure.deep_view() == impure_in(lock@),
            entries.deep_view() == entries_of(substituters@),
            all == approval_lines(lock@, substituters@),
            lines@.len() == 1 + a + k,
            forall|j: int| 0 <= j < 1 + a + k ==> (#[trigger] lines@[j])@ == all[j],
        decreases entries.len() - k,
    {
        let entry = &entries[k];
        assert(entries.deep_view()[k as int] == (entry.0@, entry.1@));
        assert(impure.deep_view().len() == a);
        let line = cat4(
            "  ",
            ticked(entry.0.as_str()).as_str(),
            " can provide any store path, signed by ",
            dimmed(entry.1.as_str()).as_str(),
        );
        assert(line@ == all[1 + a + k]);
        lines.push(line);
        k += 1;
    }
    assert(impure.deep_view().len() == a && entries.deep_view().len() == entries@.len());
    assert(lines.deep_view() =~= all);
    Approval::Needed { lines, hash }
}

/// An approval is asked for again only when something that needs it has changed: with the hash that
/// was remembered, the same packages and caches are granted, whatever else is in the lock.
pub proof fn approval_is_remembered(
    before: LockView,
    after: LockView,
    substituters: Map<Text, Text>,
    later: Map<Text, Text>,
)
    requires
        impure_in(before) == impure_in(after),
        substituters == later,
    ensures
        approval_hash(before, substituters) == approval_hash(after, later),
        is_granted(after, later, Some(approval_hash(before, substituters))),
{
}

/// An approval of one thing is none of another: where something needs approval, what was remembered
/// grants it only if the hashes are equal, and nothing grants it where nothing is remembered.
pub proof fn approval_is_for_nothing_else(
    before: LockView,
    after: LockView,
    substituters: Map<Text, Text>,
    later: Map<Text, Text>,
)
    requires
        needs_approval(after, later),
    ensures
        is_granted(after, later, Some(approval_hash(before, substituters))) <==> approval_hash(before, substituters)
            == approval_hash(after, later),
        !is_granted(after, later, None),
{
}

/// What needs approval is asked about again whenever the digest of it has changed: no two digests are
/// remembered as the same text.
pub proof fn change_is_asked_about(
    before: LockView,
    after: LockView,
    substituters: Map<Text, Text>,
    later: Map<Text, Text>,
)
    requires
        needs_approval(after, later),
    ensures
        sha256_of(approval_json(impure_in(before), entries_of(substituters))) != sha256_of(
            approval_json(impure_in(after), entries_of(later)),
        ) ==> !is_granted(after, later, Some(approval_hash(before, substituters))),
{
    let first = sha256_of(approval_json(impure_in(before), entries_of(substituters)));
    let second = sha256_of(approval_json(impure_in(after), entries_of(later)));
    if hex_of(first) == hex_of(second) {
        hex_is_injective(first, second);
    }
}

/// All that needs approval.
pub open spec fn to_approve(lock: LockView, substituters: Map<Text, Text>) -> (Seq<(Text, Text, Text)>, Seq<
    (Text, Text),
>) {
    (impure_in(lock), entries_of(substituters))
}

/// Two different things to approve have the same hash.
pub open spec fn hashes_collide(
    before: LockView,
    after: LockView,
    substituters: Map<Text, Text>,
    later: Map<Text, Text>,
) -> bool {
    to_approve(before, substituters) != to_approve(after, later) && approval_hash(before, substituters)
        == approval_hash(after, later)
}

/// Whether an install goes on, and what is remembered then, if the user would give `answer`. The user
/// is asked only where nothing is granted, and only a yes is remembered.
pub open spec fn after_asking(
    lock: LockView,
    substituters: Map<Text, Text>,
    remembered: Option<Text>,
    answer: Option<bool>,
) -> (bool, Option<Text>) {
    if is_granted(lock, substituters, remembered) {
        (true, remembered)
    } else if answer == Some(true) {
        (true, Some(approval_hash(lock, substituters)))
    } else {
        (false, remembered)
    }
}

/// Once something is approved, the same things and nothing at all are never asked about again. Anything
/// else is, unless the hashes collide: it goes on with a yes alone, and otherwise what was approved
/// stays remembered.
pub proof fn asked_again_only_on_change(
    before: LockView,
    after: LockView,
    substituters: Map<Text, Text>,
    later: Map<Text, Text>,
    earlier: Option<Text>,
    first: Option<bool>,
    second: Option<bool>,
)
    requires
        needs_approval(before, substituters),
        after_asking(before, substituters, earlier, first).0,
    ensures
        ({
            let remembered = after_asking(before, substituters, earlier, first).1;
            let unchanged = to_approve(before, substituters) == to_approve(after, later);
            let outcome = after_asking(after, later, remembered, second);
            &&& remembered == Some(approval_hash(before, substituters))
            &&& unchanged || !needs_approval(after, later) ==> is_granted(after, later, remembered) && outcome == (
                true,
                remembered,
            )
            &&& !unchanged && needs_approval(after, later) && !hashes_collide(before, after, substituters, later) ==> {
                &&& !is_granted(after, later, remembered)
                &&& outcome == (if second == Some(true) {
                    (true, Some(approval_hash(after, later)))
                } else {
                    (false, remembered)
                })
            }
        }),
{
}

/// How an approval is come by.
#[derive(Debug, Clone, Copy, PartialEq, Eq, Structural)]
pub enum Consent {
    Given,
    Asked,
    Impossible,
}

/// How an approval is come by: it is given with `--trust`, or else asked for on the terminal.
pub fn check(trusted: bool, terminal: bool) -> (result: Consent)
    ensures
        result == (if trusted {
            Consent::Given
        } else if terminal {
            Consent::Asked
        } else {
            Consent::Impossible
        }),
{
    if trusted {
        Consent::Given
    } else if terminal {
        Consent::Asked
    } else {
        Consent::Impossible
    }
}

/// What is remembered after the user's answer, or after there being none: `hash`, or nothing new.
pub fn consented(hash: String, answer: Option<bool>) -> (result: Result<String, Error>)
    ensures
        match result {
            Ok(remembered) => answer == Some(true) && remembered@ == hash@,
            Err(error) => error@ == seq![
                if answer is Some {
                    "not approved, so nothing was installed"@
                } else {
                    "there is no terminal to ask for approval on; pass --trust to approve these"@
                },
            ] && answer != Some(true),
        },
{
    match answer {
        Some(true) => Ok(hash),
        Some(false) => Err(Error::new("not approved, so nothing was installed".to_owned())),
        None => Err(
            Error::new("there is no terminal to ask for approval on; pass --trust to approve these".to_owned()),
        ),
    }
}

proof fn impure_are_gathered(packages: Map<Text, PackageView>, ids: Seq<Text>)
    ensures
        forall|k: int|
            0 <= k < ids.len() && (#[trigger] packages[ids[k]]).impure_build ==> impure_builds(packages, ids).contains(
                (packages[ids[k]].name, packages[ids[k]].version, packages[ids[k]].integrity),
            ),
        forall|entry: (Text, Text, Text)| #[trigger]
            impure_builds(packages, ids).contains(entry) ==> exists|k: int|
                0 <= k < ids.len() && (#[trigger] packages[ids[k]]).impure_build && entry == (
                    packages[ids[k]].name,
                    packages[ids[k]].version,
                    packages[ids[k]].integrity,
                ),
    decreases ids.len(),
{
    if ids.len() > 0 {
        let shorter = ids.drop_last();
        impure_are_gathered(packages, shorter);
        let (before, after) = (impure_builds(packages, shorter), impure_builds(packages, ids));
        let last = packages[ids.last()];
        assert(ids[ids.len() - 1] == ids.last());
        assert forall|entry: (Text, Text, Text)| before.contains(entry) implies #[trigger] after.contains(entry) by {
            assert(after[before.index_of(entry)] == entry);
        }
        if last.impure_build {
            assert(after[before.len() as int] == (last.name, last.version, last.integrity));
        }
        assert forall|k: int| 0 <= k < ids.len() && (#[trigger] packages[ids[k]]).impure_build implies after.contains(
            (packages[ids[k]].name, packages[ids[k]].version, packages[ids[k]].integrity),
        ) by {
            if k < shorter.len() {
                assert(packages[shorter[k]].impure_build);
            }
        }
        assert forall|entry: (Text, Text, Text)| #[trigger] after.contains(entry) implies exists|k: int|
            0 <= k < ids.len() && (#[trigger] packages[ids[k]]).impure_build && entry == (
                packages[ids[k]].name,
                packages[ids[k]].version,
                packages[ids[k]].integrity,
            ) by {
            let i = after.index_of(entry);
            if i < before.len() {
                assert(before[i] == entry);
                assert(before.contains(entry));
                let k = choose|k: int|
                    0 <= k < shorter.len() && (#[trigger] packages[shorter[k]]).impure_build && entry == (
                        packages[shorter[k]].name,
                        packages[shorter[k]].version,
                        packages[shorter[k]].integrity,
                    );
                assert(packages[ids[k]].impure_build);
            } else {
                assert(packages[ids[ids.len() - 1]].impure_build);
            }
        }
    }
}

/// Approval is needed just where some package runs install scripts outside the sandbox, or where there
/// are caches. All of these are approved by name, version and contents, and by address and key, and
/// nothing else is.
pub proof fn everything_is_approved(lock: LockView, substituters: Map<Text, Text>)
    requires
        lock.packages.dom().finite(),
        substituters.dom().finite(),
    ensures
        forall|id: Text| #[trigger]
            lock.packages.contains_key(id) && lock.packages[id].impure_build ==> {
                &&& needs_approval(lock, substituters)
                &&& to_approve(lock, substituters).0.contains(
                    (lock.packages[id].name, lock.packages[id].version, lock.packages[id].integrity),
                )
            },
        forall|url: Text| #[trigger]
            substituters.contains_key(url) ==> needs_approval(lock, substituters) && to_approve(
                lock,
                substituters,
            ).1.contains((url, substituters[url])),
        (forall|id: Text| #[trigger] lock.packages.contains_key(id) ==> !lock.packages[id].impure_build)
            && substituters.dom() == Set::<Text>::empty() ==> !needs_approval(lock, substituters),
        forall|entry: (Text, Text, Text)| #[trigger]
            to_approve(lock, substituters).0.contains(entry) ==> exists|id: Text| #[trigger]
                lock.packages.contains_key(id) && lock.packages[id].impure_build && entry == (
                    lock.packages[id].name,
                    lock.packages[id].version,
                    lock.packages[id].integrity,
                ),
        forall|entry: (Text, Text)| #[trigger]
            to_approve(lock, substituters).1.contains(entry) ==> substituters.contains_key(entry.0)
                && substituters[entry.0] == entry.1,
{
    let ids = sorted(lock.packages.dom());
    let urls = sorted(substituters.dom());
    sorted_properties(lock.packages.dom());
    sorted_properties(substituters.dom());
    impure_are_gathered(lock.packages, ids);
    assert forall|id: Text| #[trigger] lock.packages.contains_key(id) && lock.packages[id].impure_build implies {
        &&& needs_approval(lock, substituters)
        &&& impure_in(lock).contains((lock.packages[id].name, lock.packages[id].version, lock.packages[id].integrity))
    } by {
        assert(ids.contains(id));
        assert(lock.packages[ids[ids.index_of(id)]].impure_build);
    }
    assert forall|entry: (Text, Text, Text)| #[trigger] impure_in(lock).contains(entry) implies exists|id: Text|
        #[trigger] lock.packages.contains_key(id) && lock.packages[id].impure_build && entry == (
            lock.packages[id].name,
            lock.packages[id].version,
            lock.packages[id].integrity,
        ) by {
        let k = choose|k: int|
            0 <= k < ids.len() && (#[trigger] lock.packages[ids[k]]).impure_build && entry == (
                lock.packages[ids[k]].name,
                lock.packages[ids[k]].version,
                lock.packages[ids[k]].integrity,
            );
        assert(ids.contains(ids[k]));
        assert(lock.packages.contains_key(ids[k]));
    }
    assert forall|url: Text| #[trigger] substituters.contains_key(url) implies needs_approval(lock, substituters)
        && entries_of(substituters).contains((url, substituters[url])) by {
        assert(urls.contains(url));
        assert(entries_of(substituters)[urls.index_of(url)] == (url, substituters[url]));
    }
    assert forall|entry: (Text, Text)| #[trigger] entries_of(substituters).contains(
        entry,
    ) implies substituters.contains_key(entry.0) && substituters[entry.0] == entry.1 by {
        let i = entries_of(substituters).index_of(entry);
        assert(urls.contains(urls[i]));
    }
    if substituters.dom() == Set::<Text>::empty() {
        assert(substituters =~= Map::<Text, Text>::empty());
    }
    if (forall|id: Text| #[trigger] lock.packages.contains_key(id) ==> !lock.packages[id].impure_build)
        && impure_in(lock).len() > 0 {
        assert(impure_in(lock).contains(impure_in(lock)[0]));
    }
}

/// Whoever is asked is told of every package and of every cache that is to be approved.
pub proof fn everything_is_told(lock: LockView, substituters: Map<Text, Text>)
    ensures
        forall|name: Text, version: Text, integrity: Text| #[trigger]
            to_approve(lock, substituters).0.contains((name, version, integrity)) ==> is_told(
                approval_lines(lock, substituters),
                name + "@"@ + version,
            ),
        forall|url: Text, key: Text| #[trigger]
            to_approve(lock, substituters).1.contains((url, key)) ==> is_told(approval_lines(lock, substituters), url)
                && is_told(approval_lines(lock, substituters), key),
{
    let lines = approval_lines(lock, substituters);
    let (impure, caches) = to_approve(lock, substituters);
    assert forall|name: Text, version: Text, integrity: Text| #[trigger]
        impure.contains((name, version, integrity)) implies is_told(lines, name + "@"@ + version) by {
        let i = impure.index_of((name, version, integrity));
        let line = lines[1 + i];
        let text = name + "@"@ + version;
        let before = "  "@ + (faint("`"@) + "\x1b[33m"@);
        let after = "\x1b[39m"@ + faint("`"@) + " runs install scripts with your permissions and network access"@;
        assert(line == "  "@ + in_ticks(text) + " runs install scripts with your permissions and network access"@);
        assert(line =~= before + text + after);
        assert(lines.contains(line));
    }
    assert forall|url: Text, key: Text| #[trigger] caches.contains((url, key)) implies is_told(lines, url) && is_told(
        lines,
        key,
    ) by {
        let i = caches.index_of((url, key));
        let line = lines[1 + impure.len() + i];
        let middle = " can provide any store path, signed by "@;
        assert(line == "  "@ + in_ticks(url) + middle + faint(key));
        assert(lines.contains(line));
        let before = "  "@ + (faint("`"@) + "\x1b[33m"@);
        let after = "\x1b[39m"@ + faint("`"@) + middle + faint(key);
        assert(line =~= before + url + after);
        let start = "  "@ + in_ticks(url) + middle + "\x1b[2m"@;
        assert(line =~= start + key + "\x1b[0m"@);
    }
}

/// `text` stands in one of `lines`.
pub open spec fn is_told(lines: Seq<Text>, text: Text) -> bool {
    exists|line: Text, before: Text, after: Text| #[trigger]
        lines.contains(line) && line == #[trigger] (before + text + after)
}

} // verus!
