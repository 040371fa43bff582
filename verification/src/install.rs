//! What an install does with the lockfiles it finds.
use vstd::prelude::*;
use vstd::string::*;

use crate::bag::Same;
use crate::dict::{sorted, sorted_properties, taken_one_more, Dict, Duplicate, Names};
use crate::error::Error;
use crate::json::same_json;
use crate::lock::{
    Lock, LockView, Nixpkgs, NixpkgsView, Node, NodeView, Package, PackageView, Patch, PatchView, Specifiers,
    SpecifiersView, LOCKFILE, VERSION,
};
use crate::manifest::BuildMode;
use crate::pnpm;
use crate::pnpm::{
    complete_packuments, fill_install_scripts, filled_packages, outdated_names, package_names, packages_only,
    scripts_are_filled, specifiers_of_packages, with_answers, without_runtimes,
};
use crate::registry::{PackumentView, Registry};
use crate::resolve::chooser::{Answer, GroupsView};
use crate::resolve::{
    locked_importers, new_lock, resolution, resolution_view, resolve_and_report, Project, ProjectView,
};
use crate::text::{
    cat, cat3, cat4, cat5, chars, cut_at_first, decimal, join, joined, less, number, same, split_once, strip_prefix,
    trim, trimmed, without_prefix, Text,
};
use crate::time::Timestamp;
use crate::util::{hash, hex_of, join_path, joined_path, sha256_of};
use crate::version::{
    check_range, in_range, overlaps, parsed_version, range_fault, ranges_overlap, satisfies, version_less,
    version_less_irreflexive, version_less_total, version_less_transitive, version_text, Version, VersionView,
};

verus! {

/// Installs from pnpm-lock.yaml have no hinata.lock to record Nixpkgs and Node.js in.
pub const COMPAT: &'static str = "node_modules/.hinata.compat.json";

/// Locked when neither hinata.nixpkgs nor flake.lock chooses Nixpkgs.
pub const DEFAULT_NIXPKGS: &'static str = "github:NixOS/nixpkgs/nixpkgs-unstable";

/// How hinata.lock is treated.
#[derive(Debug, Clone, Copy, PartialEq, Eq, Structural)]
pub enum Lockfile {
    /// Fail rather than resolve or change hinata.lock.
    Frozen,
    /// Write hinata.lock, unless installing from a matching pnpm-lock.yaml.
    Default,
    /// Write hinata.lock even when installing from pnpm-lock.yaml.
    Save,
}

/// Which packages are updated.
#[derive(Debug, PartialEq, Eq)]
pub enum Update {
    Keep,
    All,
    Only(Names),
}

/// What an `Update` means.
pub enum UpdateView {
    Keep,
    All,
    Only(Set<Text>),
}

impl View for Update {
    type V = UpdateView;

    open spec fn view(&self) -> UpdateView {
        match self {
            Update::Keep => UpdateView::Keep,
            Update::All => UpdateView::All,
            Update::Only(names) => UpdateView::Only(names@),
        }
    }
}

impl UpdateView {
    /// Versions of `name` are chosen again.
    pub open spec fn covers(self, name: Text) -> bool {
        match self {
            UpdateView::Keep => false,
            UpdateView::All => true,
            UpdateView::Only(names) => names.contains(name),
        }
    }
}

impl Update {
    /// Whether versions of `name` are chosen again.
    pub fn includes(&self, name: &str) -> (result: bool)
        ensures
            result == self@.covers(name@),
    {
        match self {
            Update::Keep => false,
            Update::All => true,
            Update::Only(names) => names.contains(name),
        }
    }
}

/// What is asked of an install.
pub struct Options {
    pub dir: String,
    pub dev: bool,
    pub refresh: bool,
    pub update: Update,
    pub update_nixpkgs: bool,
    pub lockfile: Lockfile,
    pub trust: bool,
}

/// `a` and `b` are the same Nixpkgs. The order in which objects hold their members does not count.
pub open spec fn same_nixpkgs(a: NixpkgsView, b: NixpkgsView) -> bool {
    &&& a.from == b.from
    &&& a.locked.dom() == b.locked.dom()
    &&& forall|key: Text| #[trigger] a.locked.contains_key(key) ==> same_json(a.locked[key], b.locked[key])
}

fn is_same_nixpkgs(a: &Nixpkgs, b: &Nixpkgs) -> (result: bool)
    ensures
        result == same_nixpkgs(a@, b@),
{
    if !same(a.from.as_str(), b.from.as_str()) {
        return false;
    }
    let n: usize = a.locked.len();
    let ghost keys = sorted(a.locked@.dom());
    let m: usize = b.locked.len();
    let ghost others = sorted(b.locked@.dom());
    proof {
        sorted_properties(a.locked@.dom());
        sorted_properties(b.locked@.dom());
    }
    let mut i: usize = 0;
    while i < n
        invariant
            i <= n,
            n == keys.len(),
            keys == sorted(a.locked@.dom()),
            forall|j: int| 0 <= j < n ==> a.locked@.contains_key(#[trigger] keys[j]),
            forall|j: int|
                0 <= j < i ==> b.locked@.contains_key(#[trigger] keys[j]) && same_json(
                    a.locked@[keys[j]],
                    b.locked@[keys[j]],
                ),
        decreases n - i,
    {
        let ghost key = keys[i as int];
        assert(a@.locked.contains_key(key));
        match b.locked.get(a.locked.key(i).as_str()) {
            Some(value) => {
                if !a.locked.value(i).same_value(value) {
                    assert(!same_json(a@.locked[key], b@.locked[key]));
                    return false;
                }
            },
            None => {
                assert(!b@.locked.dom().contains(key));
                return false;
            },
        }
        i += 1;
    }
    let mut k: usize = 0;
    while k < m
        invariant
            k <= m,
            m == others.len(),
            others == sorted(b.locked@.dom()),
            forall|j: int| 0 <= j < m ==> b.locked@.contains_key(#[trigger] others[j]),
            forall|j: int| 0 <= j < k ==> a.locked@.contains_key(#[trigger] others[j]),
        decreases m - k,
    {
        if !a.locked.contains_key(b.locked.key(k).as_str()) {
            assert(!a@.locked.dom().contains(others[k as int]));
            assert(b@.locked.dom().contains(others[k as int]));
            return false;
        }
        k += 1;
    }
    proof {
        assert forall|key: Text| a.locked@.contains_key(key) implies b.locked@.contains_key(key) && same_json(
            a.locked@[key],
            b.locked@[key],
        ) by {
            assert(keys.contains(key));
            assert(keys[keys.index_of(key)] == key);
        }
        assert forall|key: Text| b.locked@.contains_key(key) implies a.locked@.contains_key(key) by {
            assert(others.contains(key));
            assert(others[others.index_of(key)] == key);
        }
        assert(a@.locked.dom() =~= b@.locked.dom());
    }
    true
}

/// The failure of an install that may not change hinata.lock.
pub open spec fn outdated() -> Text {
    "hinata.lock"@ + " is missing or out of date; run `hinata install` to update it"@
}

/// The failure of an install that may not change hinata.lock.
pub fn outdated_lock() -> (result: Error)
    ensures
        result@ == seq![outdated()],
{
    Error::new(cat(LOCKFILE, " is missing or out of date; run `hinata install` to update it"))
}

/// A lock was made from what the projects ask for.
pub open spec fn matches_projects(lock: LockView, projects: Map<Text, ProjectView>) -> bool {
    &&& lock.version == VERSION
    &&& lock.importers.dom() == projects.dom()
    &&& forall|path: Text| #[trigger]
        projects.contains_key(path) ==> lock.importers[path].specifiers == specifiers_of_packages(
            projects[path].specifiers,
        )
}

/// A lock was made from what the projects ask for, and from these overrides.
pub open spec fn is_current(lock: LockView, projects: Map<Text, ProjectView>, overrides: Map<Text, Text>) -> bool {
    matches_projects(lock, projects) && lock.overrides == overrides
}

fn same_specifiers(a: &Specifiers, b: &Specifiers) -> (result: bool)
    ensures
        result == (a@ == b@),
{
    let result = a.dependencies.same(&b.dependencies) && a.dev_dependencies.same(&b.dev_dependencies)
        && a.optional_dependencies.same(&b.optional_dependencies);
    assert(result ==> a@ =~= b@);
    result
}

/// Whether a lock was made from what the projects ask for, and from these overrides.
pub fn current(lock: &Lock, projects: &Dict<Project>, overrides: &Dict<String>) -> (result: bool)
    ensures
        result == is_current(lock@, projects@, overrides@),
{
    lock.overrides.same(overrides) && matching(lock, projects)
}

/// Whether a lock was made from what the projects ask for.
pub fn matching(lock: &Lock, projects: &Dict<Project>) -> (result: bool)
    ensures
        result == matches_projects(lock@, projects@),
{
    if lock.version != VERSION {
        return false;
    }
    let n: usize = projects.len();
    let m: usize = lock.importers.len();
    if n != m {
        assert(lock@.importers.dom().len() != projects@.dom().len());
        return false;
    }
    let ghost paths = sorted(projects@.dom());
    proof {
        sorted_properties(projects@.dom());
    }
    let mut i: usize = 0;
    while i < n
        invariant
            i <= n,
            n == paths.len(),
            paths == sorted(projects@.dom()),
            forall|x: Text| #[trigger] paths.contains(x) == projects@.dom().contains(x),
            forall|j: int|
                0 <= j < i ==> lock@.importers.contains_key(#[trigger] paths[j])
                    && lock@.importers[paths[j]].specifiers == specifiers_of_packages(projects@[paths[j]].specifiers),
        decreases n - i,
    {
        let path = projects.key(i);
        let wanted = without_runtimes(&projects.value(i).specifiers);
        match lock.importers.get(path.as_str()) {
            Some(importer) => {
                if !same_specifiers(&importer.specifiers, &wanted) {
                    assert(projects@.contains_key(path@));
                    return false;
                }
            },
            None => {
                assert(projects@.dom().contains(path@));
                return false;
            },
        }
        i += 1;
    }
    proof {
        assert forall|path: Text| #[trigger] projects@.contains_key(path) implies lock@.importers.contains_key(path)
            && lock@.importers[path].specifiers == specifiers_of_packages(projects@[path].specifiers) by {
            assert(paths.contains(path));
            assert(paths[paths.index_of(path)] == path);
        }
        assert(projects@.dom().subset_of(lock@.importers.dom()));
        vstd::set_lib::lemma_subset_equality(projects@.dom(), lock@.importers.dom());
    }
    true
}

/// The versions of the packages `ids` that are not updated.
pub open spec fn kept_versions(packages: Map<Text, PackageView>, ids: Seq<Text>, update: UpdateView) -> Seq<
    (Text, Text),
>
    decreases ids.len(),
{
    if ids.len() == 0 {
        Seq::empty()
    } else {
        let before = kept_versions(packages, ids.drop_last(), update);
        let package = packages[ids.last()];
        if update.covers(package.name) {
            before
        } else {
            before.push((package.name, package.version))
        }
    }
}

/// The versions that are preferred when resolving again.
pub open spec fn preferred_by(lock: Option<LockView>, update: UpdateView) -> Seq<(Text, Text)> {
    match lock {
        Some(lock) => kept_versions(lock.packages, sorted(lock.packages.dom()), update),
        None => Seq::empty(),
    }
}

/// The versions that are preferred when resolving again.
pub fn preferred(lock: Option<&Lock>, update: &Update) -> (result: Vec<(String, String)>)
    ensures
        result.deep_view() == preferred_by(lock.deep_view(), update@),
{
    let mut result: Vec<(String, String)> = Vec::new();
    assert(result.deep_view() =~= Seq::<(Text, Text)>::empty());
    if let Some(lock) = lock {
        let n: usize = lock.packages.len();
        let ghost ids = sorted(lock@.packages.dom());
        let mut i: usize = 0;
        while i < n
            invariant
                i <= n,
                n == ids.len(),
                ids == sorted(lock@.packages.dom()),
                result.deep_view() == kept_versions(lock@.packages, ids.take(i as int), update@),
            decreases n - i,
        {
            let package = lock.packages.value(i);
            let ghost before = result.deep_view();
            assert(ids.take(i + 1).drop_last() =~= ids.take(i as int));
            if !update.includes(package.name.as_str()) {
                result.push((package.name.clone(), package.version.clone()));
                assert(result.deep_view() =~= before.push((package@.name, package@.version)));
            }
            i += 1;
        }
        assert(ids.take(i as int) =~= ids);
    }
    result
}

/// Where the packages come from.
#[derive(Debug, Clone, Copy, PartialEq, Eq, Structural)]
pub enum Plan {
    /// From hinata.lock as it is.
    Keep,
    /// From pnpm-lock.yaml as it is, which stays the lockfile.
    KeepPnpm,
    /// From pnpm-lock.yaml, with install scripts looked up, into hinata.lock.
    Import,
    /// From the registry.
    Resolve,
    /// Nowhere: pnpm-lock.yaml does not match.
    PnpmOutdated,
    /// Nowhere: hinata.lock may not change, but has to.
    Outdated,
}

/// Where the packages come from, where these lockfiles were found. A lock is found in at most one of
/// them. pnpm-lock.yaml counts with whatever overrides it was made from, which it does not say.
pub open spec fn planned(
    existing: Option<LockView>,
    pnpm: Option<LockView>,
    projects: Map<Text, ProjectView>,
    overrides: Map<Text, Text>,
    keep: bool,
    lockfile: Lockfile,
) -> Plan {
    if existing is Some && keep && is_current(existing->0, projects, overrides) {
        Plan::Keep
    } else if existing is None && pnpm is Some && keep && matches_projects(pnpm->0, projects) {
        if lockfile == Lockfile::Save {
            Plan::Import
        } else {
            Plan::KeepPnpm
        }
    } else if existing is None && pnpm is Some && lockfile != Lockfile::Save {
        Plan::PnpmOutdated
    } else if lockfile == Lockfile::Frozen {
        Plan::Outdated
    } else {
        Plan::Resolve
    }
}

/// Where the packages come from, where these lockfiles were found.
pub fn plan(
    existing: Option<&Lock>,
    pnpm: Option<&Lock>,
    projects: &Dict<Project>,
    overrides: &Dict<String>,
    update: &Update,
    lockfile: Lockfile,
) -> (result: Plan)
    ensures
        result == planned(
            existing.deep_view(),
            pnpm.deep_view(),
            projects@,
            overrides@,
            update@ is Keep,
            lockfile,
        ),
{
    let keep = match update {
        Update::Keep => true,
        _ => false,
    };
    if let Some(lock) = existing {
        if keep && current(lock, projects, overrides) {
            return Plan::Keep;
        }
    } else if let Some(lock) = pnpm {
        if keep && matching(lock, projects) {
            return if lockfile == Lockfile::Save {
                Plan::Import
            } else {
                Plan::KeepPnpm
            };
        }
        if lockfile != Lockfile::Save {
            return Plan::PnpmOutdated;
        }
    }
    if lockfile == Lockfile::Frozen {
        Plan::Outdated
    } else {
        Plan::Resolve
    }
}

/// The failure of an install that pnpm-lock.yaml does not match.
pub open spec fn pnpm_outdated() -> Text {
    "pnpm-lock.yaml"@
        + " does not match package.json; run `pnpm install` to update it, or `hinata install --save-lock` to resolve dependencies into "@
        + "hinata.lock"@ + " instead"@
}

/// The packages of a lock, before they are marked.
pub struct Chosen {
    pub lock: Lock,
    /// The packages come from pnpm-lock.yaml, which stays the lockfile.
    pub pnpm_only: bool,
    /// The keys of overrides that nothing matched.
    pub unused_overrides: Vec<String>,
}

/// `result` is what comes of `plan`: the lock that was found, or what the registry makes of it.
pub open spec fn is_chosen<R: Registry>(
    result: Result<Chosen, Error>,
    plan: Plan,
    found: Option<LockView>,
    projects: Map<Text, ProjectView>,
    registry: R,
    update: UpdateView,
    cutoff: Option<Timestamp>,
    overrides: Map<Text, Text>,
) -> bool {
    match plan {
        Plan::Keep | Plan::KeepPnpm => result matches Ok(chosen) && Some(chosen.lock@) == found && chosen.pnpm_only
            == (plan == Plan::KeepPnpm) && chosen.unused_overrides@.len() == 0,
        Plan::PnpmOutdated => result matches Err(error) && error@ == seq![pnpm_outdated()],
        Plan::Outdated => result matches Err(error) && error@ == seq![outdated()],
        Plan::Import => exists|cached: Seq<Option<PackumentView>>, fetched: Result<Seq<PackumentView>, Seq<Text>>|
            match (#[trigger] filled_packages(registry, found->0.packages, cached, fetched), result) {
                (Some((packages, None)), Ok(chosen)) => chosen.lock@ == (LockView { packages, ..found->0 })
                    && !chosen.pnpm_only && chosen.unused_overrides@.len() == 0,
                (Some((_, Some(problem))), Err(error)) => error@ == problem,
                _ => false,
            },
        Plan::Resolve => exists|answers: Seq<Answer>, fuel: nat|
            match (
                #[trigger] resolution(
                    projects,
                    registry,
                    preferred_by(found, update),
                    cutoff,
                    overrides,
                    answers,
                    fuel,
                ),
                result,
            ) {
                (Some(Ok((lock, unused))), Ok(chosen)) => chosen.lock@ == lock && !chosen.pnpm_only
                    && chosen.unused_overrides.deep_view() == unused,
                (Some(Err(problem)), Err(error)) => error@ == problem,
                _ => false,
            },
    }
}

/// Chooses the packages: from a lockfile that matches what the projects ask for, or from the
/// registry. `pnpm` counts only where there is no `existing` lock.
pub fn choose_packages<R: Registry>(
    existing: Option<Lock>,
    pnpm: Option<Lock>,
    projects: &Dict<Project>,
    registry: &R,
    update: &Update,
    lockfile: Lockfile,
    cutoff: Option<Timestamp>,
    overrides: &Dict<String>,
) -> (result: Result<Chosen, Error>)
    ensures
        ({
            let found = if existing is Some {
                existing.deep_view()
            } else {
                pnpm.deep_view()
            };
            let plan = planned(
                existing.deep_view(),
                pnpm.deep_view(),
                projects@,
                overrides@,
                update@ is Keep,
                lockfile,
            );
            is_chosen(result, plan, found, projects@, *registry, update@, cutoff, overrides@)
        }),
{
    let ghost (existing_view, pnpm_view) = (existing.deep_view(), pnpm.deep_view());
    let plan = plan(as_reference(&existing), as_reference(&pnpm), projects, overrides, update, lockfile);
    let found = match existing {
        Some(lock) => Some(lock),
        None => pnpm,
    };
    let ghost found_view = found.deep_view();
    match plan {
        Plan::Keep => {
            let lock = found.unwrap();
            Ok(Chosen { lock, pnpm_only: false, unused_overrides: Vec::new() })
        },
        Plan::KeepPnpm => {
            let lock = found.unwrap();
            Ok(Chosen { lock, pnpm_only: true, unused_overrides: Vec::new() })
        },
        Plan::Import => {
            let mut lock = found.unwrap();
            let ghost before = lock@;
            let filled = fill_install_scripts(&mut lock, registry);
            match filled {
                Ok(()) => {
                    let chosen = Chosen { lock, pnpm_only: false, unused_overrides: Vec::new() };
                    Ok(chosen)
                },
                Err(error) => Err(error),
            }
        },
        Plan::PnpmOutdated => Err(
            Error::new(
                cat4(
                    pnpm::LOCKFILE,
                    " does not match package.json; run `pnpm install` to update it, or `hinata install --save-lock` to resolve dependencies into ",
                    LOCKFILE,
                    " instead",
                ),
            ),
        ),
        Plan::Outdated => Err(outdated_lock()),
        Plan::Resolve => {
            let versions = preferred(as_reference(&found), update);
            let resolved = resolve_and_report(projects, registry, &versions, cutoff, overrides);
            proof {
                let (answers, fuel) = choose|answers: Seq<Answer>, fuel: nat| #[trigger]
                    resolution(
                        projects@,
                        *registry,
                        versions.deep_view(),
                        cutoff,
                        overrides@,
                        answers,
                        fuel,
                    ) == Some(resolution_view(resolved));
                assert(resolution(
                    projects@,
                    *registry,
                    preferred_by(found_view, update@),
                    cutoff,
                    overrides@,
                    answers,
                    fuel,
                ) == Some(resolution_view(resolved)));
            }
            match resolved {
                Ok((lock, unused_overrides)) => Ok(Chosen { lock, pnpm_only: false, unused_overrides }),
                Err(error) => Err(error),
            }
        },
    }
}

fn as_reference(lock: &Option<Lock>) -> (result: Option<&Lock>)
    ensures
        result.deep_view() == lock.deep_view(),
        (result is Some) == (lock is Some),
{
    match lock {
        Some(lock) => Some(lock),
        None => None,
    }
}

/// How the install scripts of a package run. pnpm lockfiles do not record which packages have any.
pub open spec fn mode_of(package: PackageView, builds: Map<Text, BuildMode>, pnpm_only: bool) -> Option<BuildMode> {
    if builds.contains_key(package.name) && (pnpm_only || package.install_script) {
        Some(builds[package.name])
    } else {
        None
    }
}

/// A package, marked with how it is built.
pub open spec fn marked_build(
    package: PackageView,
    builds: Map<Text, BuildMode>,
    inputs: Map<Text, Seq<Text>>,
    pnpm_only: bool,
) -> PackageView {
    let mode = mode_of(package, builds, pnpm_only);
    PackageView {
        build: mode == Some(BuildMode::Sandboxed),
        impure_build: mode == Some(BuildMode::Impure),
        build_inputs: if mode == Some(BuildMode::Sandboxed) && inputs.contains_key(package.name) {
            inputs[package.name]
        } else {
            Seq::empty()
        },
        ..package
    }
}

/// The names of packages with install scripts that do not run.
pub open spec fn skipped_scripts(
    packages: Map<Text, PackageView>,
    builds: Map<Text, BuildMode>,
    pnpm_only: bool,
) -> Set<Text> {
    packages.dom().filter(
        |id: Text| packages[id].install_script && mode_of(packages[id], builds, pnpm_only) is None,
    ).map(|id: Text| packages[id].name)
}

/// The patch that applies to a package: one for its version, or else one for its name.
pub open spec fn patch_key(package: PackageView, patches: Map<Text, PatchView>) -> Option<Text> {
    let exact = package.name + "@"@ + package.version;
    if patches.contains_key(exact) {
        Some(exact)
    } else if patches.contains_key(package.name) {
        Some(package.name)
    } else {
        None
    }
}

/// A package, marked with its patch.
pub open spec fn marked_patch(package: PackageView, patches: Map<Text, PatchView>) -> PackageView {
    PackageView {
        patch: match patch_key(package, patches) {
            Some(key) => Some(patches[key]),
            None => None,
        },
        ..package
    }
}

/// The patches that apply to no package.
pub open spec fn unused_patches(packages: Map<Text, PackageView>, patches: Map<Text, PatchView>) -> Set<Text> {
    patches.dom().filter(
        |key: Text| forall|id: Text| #[trigger] packages.contains_key(id) ==> patch_key(packages[id], patches) != Some(key),
    )
}

/// Marks which packages run install scripts, and how. Gives the names of those whose install scripts
/// are skipped.
pub fn mark_builds(
    lock: &mut Lock,
    allow_builds: &Dict<BuildMode>,
    build_inputs: &Dict<Vec<String>>,
    pnpm_only: bool,
) -> (result: Names)
    ensures
        final(lock)@ == (LockView {
            packages: old(lock)@.packages.map_values(
                |package: PackageView| marked_build(package, allow_builds@, build_inputs@, pnpm_only),
            ),
            ..old(lock)@
        }),
        result@ == skipped_scripts(old(lock)@.packages, allow_builds@, pnpm_only),
{
    let ghost first = lock@;
    let ghost builds = allow_builds@;
    let ghost inputs = build_inputs@;
    let ghost is_skipped = |id: Text|
        first.packages[id].install_script && mode_of(first.packages[id], builds, pnpm_only) is None;
    let ghost name_of = |id: Text| first.packages[id].name;
    let mut skipped = Names::new();
    let mut packages: Dict<Package> = Dict::new();
    let n: usize = lock.packages.len();
    let ghost ids = sorted(first.packages.dom());
    let ghost expected = first.packages.map_values(
        |package: PackageView| marked_build(package, builds, inputs, pnpm_only),
    );
    proof {
        sorted_properties(first.packages.dom());
        assert(packages@ =~= expected.restrict(ids.take(0).to_set()));
        assert(skipped@ =~= ids.take(0).to_set().filter(is_skipped).map(name_of));
    }
    let mut i: usize = 0;
    while i < n
        invariant
            i <= n,
            n == ids.len(),
            first == lock@,
            builds == allow_builds@,
            inputs == build_inputs@,
            ids == sorted(first.packages.dom()),
            expected == first.packages.map_values(
                |package: PackageView| marked_build(package, builds, inputs, pnpm_only),
            ),
            is_skipped == (|id: Text|
                first.packages[id].install_script && mode_of(first.packages[id], builds, pnpm_only) is None),
            name_of == (|id: Text| first.packages[id].name),
            packages@ == expected.restrict(ids.take(i as int).to_set()),
            skipped@ == ids.take(i as int).to_set().filter(is_skipped).map(name_of),
        decreases n - i,
    {
        let mut package = lock.packages.value(i).duplicate();
        let ghost before = package@;
        let ghost id = ids[i as int];
        let ghost seen = ids.take(i as int).to_set();
        let mode = match allow_builds.get(package.name.as_str()) {
            Some(mode) => if pnpm_only || package.install_script {
                Some(*mode)
            } else {
                None
            },
            None => None,
        };
        assert(mode == mode_of(before, builds, pnpm_only));
        package.build = match mode {
            Some(BuildMode::Sandboxed) => true,
            _ => false,
        };
        package.impure_build = match mode {
            Some(BuildMode::Impure) => true,
            _ => false,
        };
        package.build_inputs = Vec::new();
        assert(package.build_inputs.deep_view() =~= Seq::<Text>::empty());
        if package.build {
            if let Some(attrs) = build_inputs.get(package.name.as_str()) {
                package.build_inputs = attrs.duplicate();
            }
        }
        proof {
            assert(package@ =~= marked_build(before, builds, inputs, pnpm_only));
            taken_one_more(ids, i as int);
            filtered_image_grows(seen, id, is_skipped, name_of);
        }
        if package.install_script && mode.is_none() {
            skipped.insert(package.name.clone());
        }
        packages.insert(lock.packages.key(i).clone(), package);
        assert(packages@ =~= expected.restrict(ids.take(i + 1).to_set()));
        i += 1;
    }
    proof {
        assert(ids.take(i as int) =~= ids);
        assert(ids.to_set() =~= first.packages.dom());
        assert(packages@ =~= expected);
        assert(skipped@ =~= skipped_scripts(first.packages, builds, pnpm_only));
    }
    lock.packages = packages;
    assert(lock@ =~= LockView { packages: expected, ..first });
    skipped
}

proof fn filtered_image_grows(
    seen: Set<Text>,
    id: Text,
    keep: spec_fn(Text) -> bool,
    image: spec_fn(Text) -> Text,
)
    ensures
        seen.insert(id).filter(keep).map(image) == (if keep(id) {
            seen.filter(keep).map(image).insert(image(id))
        } else {
            seen.filter(keep).map(image)
        }),
{
    let (more, less) = (seen.insert(id).filter(keep), seen.filter(keep));
    let expected = if keep(id) {
        less.map(image).insert(image(id))
    } else {
        less.map(image)
    };
    assert forall|x: Text| more.map(image).contains(x) == expected.contains(x) by {
        if more.map(image).contains(x) {
            let y = choose|y: Text| more.contains(y) && image(y) == x;
            if y != id {
                assert(less.contains(y));
            }
        }
        if less.map(image).contains(x) {
            let y = choose|y: Text| less.contains(y) && image(y) == x;
            assert(more.contains(y));
        }
        if keep(id) && x == image(id) {
            assert(more.contains(id));
        }
    }
    assert(more.map(image) =~= expected);
}

/// Marks which packages are patched. Gives the keys of the patches that apply to none.
pub fn mark_patches(lock: &mut Lock, patches: &Dict<Patch>) -> (result: Names)
    ensures
        final(lock)@ == (LockView {
            packages: old(lock)@.packages.map_values(|package: PackageView| marked_patch(package, patches@)),
            ..old(lock)@
        }),
        result@ == unused_patches(old(lock)@.packages, patches@),
{
    let ghost first = lock@;
    let ghost all = patches@;
    let mut unused = Names::new();
    let m: usize = patches.len();
    let ghost keys = sorted(all.dom());
    proof {
        sorted_properties(all.dom());
        assert(keys.take(0).to_set() =~= Set::<Text>::empty());
    }
    let mut k: usize = 0;
    while k < m
        invariant
            k <= m,
            m == keys.len(),
            all == patches@,
            keys == sorted(all.dom()),
            unused@ == keys.take(k as int).to_set(),
        decreases m - k,
    {
        unused.insert(patches.key(k).clone());
        proof {
            taken_one_more(keys, k as int);
        }
        k += 1;
    }
    proof {
        assert(keys.take(k as int) =~= keys);
        assert(unused@ =~= all.dom());
    }
    let mut packages: Dict<Package> = Dict::new();
    let n: usize = lock.packages.len();
    let ghost ids = sorted(first.packages.dom());
    let ghost expected = first.packages.map_values(|package: PackageView| marked_patch(package, all));
    proof {
        sorted_properties(first.packages.dom());
        assert(packages@ =~= expected.restrict(ids.take(0).to_set()));
    }
    let mut i: usize = 0;
    while i < n
        invariant
            i <= n,
            n == ids.len(),
            first == lock@,
            all == patches@,
            ids == sorted(first.packages.dom()),
            expected == first.packages.map_values(|package: PackageView| marked_patch(package, all)),
            packages@ == expected.restrict(ids.take(i as int).to_set()),
            forall|key: Text| #[trigger]
                unused@.contains(key) <==> all.contains_key(key) && forall|j: int|
                    0 <= j < i ==> patch_key(first.packages[#[trigger] ids[j]], all) != Some(key),
        decreases n - i,
    {
        let mut package = lock.packages.value(i).duplicate();
        let ghost before = package@;
        let ghost had = unused@;
        let exact = cat3(package.name.as_str(), "@", package.version.as_str());
        package.patch = match patches.get(exact.as_str()) {
            Some(patch) => {
                unused.remove(exact.as_str());
                Some(patch.duplicate())
            },
            None => match patches.get(package.name.as_str()) {
                Some(patch) => {
                    unused.remove(package.name.as_str());
                    Some(patch.duplicate())
                },
                None => None,
            },
        };
        proof {
            assert(package@ =~= marked_patch(before, all));
            assert(before == first.packages[ids[i as int]]);
            taken_one_more(ids, i as int);
            assert forall|key: Text| #[trigger] unused@.contains(key) <==> all.contains_key(key) && forall|j: int|
                0 <= j < i + 1 ==> patch_key(first.packages[#[trigger] ids[j]], all) != Some(key) by {
                assert(unused@.contains(key) <==> had.contains(key) && patch_key(before, all) != Some(key));
                if all.contains_key(key) && (forall|j: int|
                    0 <= j < i + 1 ==> patch_key(first.packages[#[trigger] ids[j]], all) != Some(key)) {
                    assert(patch_key(first.packages[ids[i as int]], all) != Some(key));
                }
            }
        }
        packages.insert(lock.packages.key(i).clone(), package);
        assert(packages@ =~= expected.restrict(ids.take(i + 1).to_set()));
        i += 1;
    }
    proof {
        assert(ids.take(i as int) =~= ids);
        assert(ids.to_set() =~= first.packages.dom());
        assert(packages@ =~= expected);
        assert forall|key: Text| unused@.contains(key) == unused_patches(first.packages, all).contains(key) by {
            if unused@.contains(key) {
                assert forall|id: Text| #[trigger] first.packages.contains_key(id) implies patch_key(
                    first.packages[id],
                    all,
                ) != Some(key) by {
                    assert(ids.contains(id));
                    assert(ids[ids.index_of(id)] == id);
                }
            }
            if unused_patches(first.packages, all).contains(key) {
                assert forall|j: int| 0 <= j < n implies patch_key(first.packages[#[trigger] ids[j]], all) != Some(
                    key,
                ) by {
                    assert(ids.contains(ids[j]));
                    assert(first.packages.contains_key(ids[j]));
                }
            }
        }
        assert(unused@ =~= unused_patches(first.packages, all));
    }
    lock.packages = packages;
    assert(lock@ =~= LockView { packages: expected, ..first });
    unused
}

/// The names among `names` that no package has.
pub fn missing_updates(names: &Names, lock: &Lock) -> (result: Names)
    ensures
        result@ == names@.filter(
            |name: Text| forall|id: Text| #[trigger]
                lock@.packages.contains_key(id) ==> lock@.packages[id].name != name,
        ),
{
    let ghost packages = lock@.packages;
    let ghost absent = |name: Text| forall|id: Text| #[trigger]
        packages.contains_key(id) ==> packages[id].name != name;
    let mut result = Names::new();
    let n: usize = names.len();
    let ghost list = sorted(names@);
    let ghost ids = sorted(packages.dom());
    let count: usize = lock.packages.len();
    proof {
        sorted_properties(names@);
        sorted_properties(packages.dom());
        assert(result@ =~= list.take(0).to_set().filter(absent));
    }
    let mut i: usize = 0;
    while i < n
        invariant
            i <= n,
            n == list.len(),
            list == sorted(names@),
            packages == lock@.packages,
            count == ids.len(),
            ids == sorted(packages.dom()),
            forall|x: Text| #[trigger] ids.contains(x) == packages.dom().contains(x),
            absent == (|name: Text| forall|id: Text| #[trigger]
                packages.contains_key(id) ==> packages[id].name != name),
            result@ == list.take(i as int).to_set().filter(absent),
        decreases n - i,
    {
        let name = names.at(i);
        let mut found = false;
        let mut k: usize = 0;
        while k < count
            invariant
                k <= count,
                packages == lock@.packages,
                count == ids.len(),
                ids == sorted(packages.dom()),
                forall|x: Text| #[trigger] ids.contains(x) == packages.dom().contains(x),
                found == exists|j: int| 0 <= j < k && packages[#[trigger] ids[j]].name == name@,
            decreases count - k,
        {
            let here = same(lock.packages.value(k).name.as_str(), name.as_str());
            proof {
                let was = found;
                assert(here == (packages[ids[k as int]].name == name@));
                if was {
                    let j = choose|j: int| 0 <= j < k && packages[#[trigger] ids[j]].name == name@;
                    assert(packages[ids[j]].name == name@);
                }
                if exists|j: int| 0 <= j < k + 1 && packages[#[trigger] ids[j]].name == name@ {
                    let j = choose|j: int| 0 <= j < k + 1 && packages[#[trigger] ids[j]].name == name@;
                    assert(j < k ==> was);
                }
            }
            if here {
                found = true;
            }
            k += 1;
        }
        proof {
            taken_one_more(list, i as int);
            assert(absent(name@) == !found) by {
                if !found {
                    assert forall|id: Text| #[trigger] packages.contains_key(id) implies packages[id].name != name@ by {
                        assert(ids.contains(id));
                        assert(ids[ids.index_of(id)] == id);
                    }
                } else {
                    let j = choose|j: int| 0 <= j < count && packages[#[trigger] ids[j]].name == name@;
                    assert(ids.contains(ids[j]));
                    assert(packages.contains_key(ids[j]));
                }
            }
        }
        if !found {
            result.insert(name.clone());
        }
        assert(result@ =~= list.take(i + 1).to_set().filter(absent));
        i += 1;
    }
    proof {
        assert(list.take(i as int) =~= list);
        assert(list.to_set() =~= names@);
    }
    result
}

/// What is done about Nixpkgs.
pub enum NixpkgsPlan {
    /// It is this one.
    Use(Nixpkgs),
    /// It is locked from this flake reference.
    Lock(String),
}

/// What a `NixpkgsPlan` means.
pub enum NixpkgsPlanView {
    Use(NixpkgsView),
    Lock(Text),
}

impl View for NixpkgsPlan {
    type V = NixpkgsPlanView;

    open spec fn view(&self) -> NixpkgsPlanView {
        match self {
            NixpkgsPlan::Use(nixpkgs) => NixpkgsPlanView::Use(nixpkgs@),
            NixpkgsPlan::Lock(reference) => NixpkgsPlanView::Lock(reference@),
        }
    }
}

/// What is done about Nixpkgs, where `configured` is asked for, flake.lock has `flake` and hinata.lock
/// has `locked`. Nothing is done where hinata.lock may not change, but would. flake.lock is followed
/// whenever it changes, while other sources stay locked until updated.
pub open spec fn nixpkgs_planned(
    configured: Option<Text>,
    flake: Option<NixpkgsView>,
    locked: Option<NixpkgsView>,
    update: bool,
    lockfile: Lockfile,
) -> Option<NixpkgsPlanView> {
    let reference = match configured {
        Some(reference) => reference,
        None => "github:NixOS/nixpkgs/nixpkgs-unstable"@,
    };
    if configured is None && flake is Some {
        if locked is Some && same_nixpkgs(locked->0, flake->0) {
            Some(NixpkgsPlanView::Use(locked->0))
        } else if lockfile != Lockfile::Frozen {
            Some(NixpkgsPlanView::Use(flake->0))
        } else {
            None
        }
    } else if locked is Some && !update && locked->0.from == reference {
        Some(NixpkgsPlanView::Use(locked->0))
    } else if lockfile == Lockfile::Frozen {
        None
    } else {
        Some(NixpkgsPlanView::Lock(reference))
    }
}

/// Decides what is done about Nixpkgs. flake.lock counts only where no Nixpkgs is configured.
pub fn pick_nixpkgs(
    configured: Option<&str>,
    flake: Option<Nixpkgs>,
    locked: Option<Nixpkgs>,
    update: bool,
    lockfile: Lockfile,
) -> (result: Result<NixpkgsPlan, Error>)
    ensures
        ({
            let planned = nixpkgs_planned(
                configured.deep_view(),
                flake.deep_view(),
                locked.deep_view(),
                update,
                lockfile,
            );
            match result {
                Ok(plan) => planned == Some(plan@),
                Err(error) => planned is None && error@ == seq![outdated()],
            }
        }),
{
    let reference = match configured {
        Some(reference) => reference,
        None => {
            if let Some(flake) = flake {
                if let Some(locked) = locked {
                    if is_same_nixpkgs(&locked, &flake) {
                        return Ok(NixpkgsPlan::Use(locked));
                    }
                }
                if lockfile != Lockfile::Frozen {
                    return Ok(NixpkgsPlan::Use(flake));
                }
                return Err(outdated_lock());
            }
            DEFAULT_NIXPKGS
        },
    };
    if let Some(locked) = locked {
        if !update && same(locked.from.as_str(), reference) {
            return Ok(NixpkgsPlan::Use(locked));
        }
    }
    if lockfile == Lockfile::Frozen {
        Err(outdated_lock())
    } else {
        Ok(NixpkgsPlan::Lock(reference.to_owned()))
    }
}

/// What is done about Node.js.
pub enum NodePlan {
    /// None is locked.
    Omit,
    /// It is this one.
    Use(Node),
    /// It is chosen for this range.
    Choose(String),
}

/// What a `NodePlan` means.
pub enum NodePlanView {
    Omit,
    Use(NodeView),
    Choose(Text),
}

impl View for NodePlan {
    type V = NodePlanView;

    open spec fn view(&self) -> NodePlanView {
        match self {
            NodePlan::Omit => NodePlanView::Omit,
            NodePlan::Use(node) => NodePlanView::Use(node@),
            NodePlan::Choose(range) => NodePlanView::Choose(range@),
        }
    }
}

/// What is done about Node.js, where `range` is asked for. A locked one stays as long as it was
/// locked for that range from the same Nixpkgs.
pub open spec fn node_planned(
    range: Option<Text>,
    locked: Option<NodeView>,
    locked_nixpkgs: Option<NixpkgsView>,
    nixpkgs: NixpkgsView,
    lockfile: Lockfile,
) -> Option<NodePlanView> {
    if range is None {
        Some(NodePlanView::Omit)
    } else if locked is Some && locked->0.from == range->0 && locked_nixpkgs is Some && same_nixpkgs(
        locked_nixpkgs->0,
        nixpkgs,
    ) {
        Some(NodePlanView::Use(locked->0))
    } else if lockfile == Lockfile::Frozen {
        None
    } else {
        Some(NodePlanView::Choose(range->0))
    }
}

/// Decides what is done about Node.js.
pub fn plan_node(
    range: Option<&str>,
    locked: Option<Node>,
    locked_nixpkgs: Option<&Nixpkgs>,
    nixpkgs: &Nixpkgs,
    lockfile: Lockfile,
) -> (result: Result<NodePlan, Error>)
    ensures
        ({
            let planned = node_planned(
                range.deep_view(),
                locked.deep_view(),
                locked_nixpkgs.deep_view(),
                nixpkgs@,
                lockfile,
            );
            match result {
                Ok(plan) => planned == Some(plan@),
                Err(error) => planned is None && error@ == seq![outdated()],
            }
        }),
{
    let range = match range {
        Some(range) => range,
        None => {
            return Ok(NodePlan::Omit);
        },
    };
    if let Some(node) = locked {
        let unchanged = match locked_nixpkgs {
            Some(other) => is_same_nixpkgs(other, nixpkgs),
            None => false,
        };
        if unchanged && same(node.from.as_str(), range) {
            return Ok(NodePlan::Use(node));
        }
    }
    if lockfile == Lockfile::Frozen {
        Err(outdated_lock())
    } else {
        Ok(NodePlan::Choose(range.to_owned()))
    }
}

/// What is done with the lock in the end.
#[derive(Debug, Clone, Copy, PartialEq, Eq, Structural)]
pub enum Finish {
    /// Nothing: the file on disk is as it should be, or pnpm-lock.yaml stays the lockfile.
    Leave,
    /// hinata.lock is written for the first time.
    Create,
    /// hinata.lock is written over.
    Replace,
}

/// What is done with a lock that is written as `json`, where hinata.lock holds `previous`. Nothing
/// is done where hinata.lock may not change, but would.
pub open spec fn finished(pnpm_only: bool, lockfile: Lockfile, previous: Option<Text>, json: Text) -> Option<Finish> {
    if pnpm_only || previous == Some(json) {
        Some(Finish::Leave)
    } else if lockfile == Lockfile::Frozen {
        None
    } else if previous is None {
        Some(Finish::Create)
    } else {
        Some(Finish::Replace)
    }
}

/// Decides what is done with the lock in the end.
pub fn finish(pnpm_only: bool, lockfile: Lockfile, previous: Option<&str>, json: &str) -> (result: Result<Finish, Error>)
    ensures
        match result {
            Ok(action) => finished(pnpm_only, lockfile, previous.deep_view(), json@) == Some(action),
            Err(error) => finished(pnpm_only, lockfile, previous.deep_view(), json@) is None && error@ == seq![
                outdated(),
            ],
        },
{
    if pnpm_only {
        return Ok(Finish::Leave);
    }
    let unchanged = match previous {
        Some(text) => same(text, json),
        None => false,
    };
    if unchanged {
        Ok(Finish::Leave)
    } else if lockfile == Lockfile::Frozen {
        Err(outdated_lock())
    } else if previous.is_none() {
        Ok(Finish::Create)
    } else {
        Ok(Finish::Replace)
    }
}

/// A version of Node.js and the attribute that provides it.
pub type Offer = (VersionView, Text);

/// The first place in `offers` with a higher version than `v`.
pub open spec fn offer_place(offers: Seq<Offer>, v: VersionView) -> int
    decreases offers.len(),
{
    if offers.len() == 0 || version_less(v, offers[0].0) {
        0
    } else {
        1 + offer_place(offers.skip(1), v)
    }
}

/// The versions that the attributes `attrs` provide, the newest last. Versions that cannot be read
/// are left out.
pub open spec fn offers_of(available: Map<Text, Text>, attrs: Seq<Text>) -> Seq<Offer>
    decreases attrs.len(),
{
    if attrs.len() == 0 {
        Seq::empty()
    } else {
        let before = offers_of(available, attrs.drop_last());
        match parsed_version(available[attrs.last()]) {
            Some(v) => before.insert(offer_place(before, v), (v, attrs.last())),
            None => before,
        }
    }
}

/// The newest version that `allowed` accepts.
pub open spec fn newest(offers: Seq<Offer>, allowed: spec_fn(VersionView) -> bool) -> Option<Offer>
    decreases offers.len(),
{
    if offers.len() == 0 {
        None
    } else if allowed(offers.last().0) {
        Some(offers.last())
    } else {
        newest(offers.drop_last(), allowed)
    }
}

/// Versions in `range`.
pub open spec fn in_node_range(range: Text) -> spec_fn(VersionView) -> bool {
    |v: VersionView| in_range(range, v)
}

/// Versions of which `range` allows the major version.
pub open spec fn in_node_major(range: Text) -> spec_fn(VersionView) -> bool {
    |v: VersionView|
        {
            let major = decimal(v.major as nat) + ".x"@;
            range_fault(range) is None && range_fault(major) is None && ranges_overlap(range, major)
        }
}

/// The Node.js that an offer is locked as.
pub open spec fn offered_node(range: Text, offer: Offer) -> NodeView {
    NodeView { from: range, attr: offer.1, version: version_text(offer.0) }
}

/// The Node.js for `range`: the newest release that satisfies it, or failing that, the newest in a
/// major version that it allows.
pub open spec fn node_for(range: Text, available: Map<Text, Text>) -> Result<NodeView, Text> {
    let offers = offers_of(available, sorted(available.dom()));
    if let Some(problem) = range_fault(range) {
        Err("parsing the Node.js version "@ + range + " in devEngines: "@ + problem)
    } else if let Some(offer) = newest(offers, in_node_range(range)) {
        Ok(offered_node(range, offer))
    } else if let Some(offer) = newest(offers, in_node_major(range)) {
        Ok(offered_node(range, offer))
    } else {
        Err(
            "the locked Nixpkgs has no Node.js for "@ + range + " (it has "@ + joined(
                offers.map_values(|offer: Offer| version_text(offer.0)),
                ", "@,
            ) + "); run `hinata update --nixpkgs`, or set hinata.nixpkgs to a revision that has one"@,
        )
    }
}

proof fn offer_place_bounds(offers: Seq<Offer>, v: VersionView)
    ensures
        0 <= offer_place(offers, v) <= offers.len(),
    decreases offers.len(),
{
    if offers.len() > 0 && !version_less(v, offers[0].0) {
        offer_place_bounds(offers.skip(1), v);
    }
}

/// The offers come in the order of their versions.
spec fn offers_ascend(offers: Seq<Offer>) -> bool {
    forall|i: int, j: int|
        0 <= i < j < offers.len() ==> !version_less((#[trigger] offers[j]).0, (#[trigger] offers[i]).0)
}

proof fn offer_place_splits(offers: Seq<Offer>, v: VersionView)
    requires
        offers_ascend(offers),
    ensures
        forall|i: int| 0 <= i < offer_place(offers, v) ==> !version_less(v, (#[trigger] offers[i]).0),
        forall|i: int| offer_place(offers, v) <= i < offers.len() ==> !version_less((#[trigger] offers[i]).0, v),
    decreases offers.len(),
{
    offer_place_bounds(offers, v);
    if offers.len() > 0 {
        if version_less(v, offers[0].0) {
            assert forall|i: int| 0 <= i < offers.len() implies !version_less((#[trigger] offers[i]).0, v) by {
                version_less_total(v, offers[i].0);
                if version_less(offers[i].0, v) {
                    version_less_transitive(offers[i].0, v, offers[0].0);
                    if i > 0 {
                        assert(!version_less(offers[i].0, offers[0].0));
                    } else {
                        version_less_irreflexive(v);
                        version_less_transitive(v, offers[0].0, v);
                    }
                }
            }
        } else {
            let rest = offers.skip(1);
            assert forall|i: int, j: int| 0 <= i < j < rest.len() implies !version_less(
                (#[trigger] rest[j]).0,
                (#[trigger] rest[i]).0,
            ) by {
                assert(!version_less(offers[j + 1].0, offers[i + 1].0));
            }
            offer_place_bounds(rest, v);
            offer_place_splits(rest, v);
            assert forall|i: int| 0 <= i < offer_place(offers, v) implies !version_less(v, (#[trigger] offers[i]).0) by {
                if i > 0 {
                    assert(rest[i - 1] == offers[i]);
                }
            }
            assert forall|i: int| offer_place(offers, v) <= i < offers.len() implies !version_less(
                (#[trigger] offers[i]).0,
                v,
            ) by {
                assert(rest[i - 1] == offers[i]);
            }
        }
    }
}

proof fn offers_are_in_order(available: Map<Text, Text>, attrs: Seq<Text>)
    ensures
        offers_ascend(offers_of(available, attrs)),
        forall|k: int|
            0 <= k < attrs.len() && parsed_version(available[#[trigger] attrs[k]]) is Some ==> offers_of(
                available,
                attrs,
            ).contains((parsed_version(available[attrs[k]])->0, attrs[k])),
    decreases attrs.len(),
{
    if attrs.len() > 0 {
        let shorter = attrs.drop_last();
        let before = offers_of(available, shorter);
        let after = offers_of(available, attrs);
        offers_are_in_order(available, shorter);
        if let Some(v) = parsed_version(available[attrs.last()]) {
            let at = offer_place(before, v);
            offer_place_bounds(before, v);
            offer_place_splits(before, v);
            assert forall|i: int, j: int| 0 <= i < j < after.len() implies !version_less(
                (#[trigger] after[j]).0,
                (#[trigger] after[i]).0,
            ) by {
                let a = if i < at {
                    i
                } else {
                    i - 1
                };
                let b = if j < at {
                    j
                } else {
                    j - 1
                };
                if i != at && j != at {
                    assert(!version_less(before[b].0, before[a].0));
                } else if i == at {
                    assert(!version_less(before[b].0, v));
                } else {
                    assert(!version_less(v, before[a].0));
                }
            }
        }
        assert forall|k: int| 0 <= k < attrs.len() && parsed_version(available[#[trigger] attrs[k]]) is Some implies after.contains(
            (parsed_version(available[attrs[k]])->0, attrs[k]),
        ) by {
            let offer = (parsed_version(available[attrs[k]])->0, attrs[k]);
            if k < attrs.len() - 1 {
                assert(shorter[k] == attrs[k]);
                assert(before.contains(offer));
                if let Some(v) = parsed_version(available[attrs.last()]) {
                    let at = offer_place(before, v);
                    offer_place_bounds(before, v);
                    let i = before.index_of(offer);
                    if i < at {
                        assert(after[i] == offer);
                    } else {
                        assert(after[i + 1] == offer);
                    }
                }
            } else {
                let at = offer_place(before, offer.0);
                offer_place_bounds(before, offer.0);
                assert(after[at] == offer);
            }
        }
    }
}

proof fn newest_is_last(offers: Seq<Offer>, allowed: spec_fn(VersionView) -> bool)
    requires
        offers_ascend(offers),
    ensures
        match newest(offers, allowed) {
            Some(offer) => allowed(offer.0) && forall|i: int|
                0 <= i < offers.len() && allowed((#[trigger] offers[i]).0) ==> !version_less(offer.0, offers[i].0),
            None => forall|i: int| 0 <= i < offers.len() ==> !allowed((#[trigger] offers[i]).0),
        },
    decreases offers.len(),
{
    if offers.len() > 0 {
        let last = offers.len() - 1;
        if allowed(offers.last().0) {
            assert forall|i: int| 0 <= i < offers.len() && allowed((#[trigger] offers[i]).0) implies !version_less(
                offers.last().0,
                offers[i].0,
            ) by {
                if i < last {
                    assert(!version_less(offers[last].0, offers[i].0));
                } else {
                    version_less_irreflexive(offers[i].0);
                }
            }
        } else {
            let shorter = offers.drop_last();
            assert forall|i: int, j: int| 0 <= i < j < shorter.len() implies !version_less(
                (#[trigger] shorter[j]).0,
                (#[trigger] shorter[i]).0,
            ) by {
                assert(!version_less(offers[j].0, offers[i].0));
            }
            newest_is_last(shorter, allowed);
            assert forall|i: int| 0 <= i < last implies #[trigger] offers[i] == shorter[i] by {}
        }
    }
}

/// No release that is allowed is newer than the one that is picked, and one is picked whenever any is
/// allowed.
pub proof fn newest_is_newest(available: Map<Text, Text>, allowed: spec_fn(VersionView) -> bool, attr: Text)
    requires
        available.dom().finite(),
        available.contains_key(attr),
        parsed_version(available[attr]) is Some,
        allowed(parsed_version(available[attr])->0),
    ensures
        newest(offers_of(available, sorted(available.dom())), allowed) is Some,
        !version_less(
            (newest(offers_of(available, sorted(available.dom())), allowed)->0).0,
            parsed_version(available[attr])->0,
        ),
{
    let attrs = sorted(available.dom());
    let offers = offers_of(available, attrs);
    sorted_properties(available.dom());
    offers_are_in_order(available, attrs);
    newest_is_last(offers, allowed);
    assert(attrs.contains(attr));
    let k = attrs.index_of(attr);
    assert(attrs[k] == attr);
    let offer = (parsed_version(available[attr])->0, attr);
    assert(offers.contains(offer));
    assert(offers[offers.index_of(offer)] == offer);
}

fn list_offers(available: &Dict<String>) -> (result: Vec<(Version, String)>)
    ensures
        result.deep_view() == offers_of(available@, sorted(available@.dom())),
{
    let mut result: Vec<(Version, String)> = Vec::new();
    let n: usize = available.len();
    let ghost attrs = sorted(available@.dom());
    let mut i: usize = 0;
    assert(result.deep_view() =~= Seq::<Offer>::empty());
    while i < n
        invariant
            i <= n,
            n == attrs.len(),
            attrs == sorted(available@.dom()),
            result.deep_view() == offers_of(available@, attrs.take(i as int)),
        decreases n - i,
    {
        let ghost before = result.deep_view();
        assert(attrs.take(i + 1).drop_last() =~= attrs.take(i as int));
        if let Some(version) = Version::parse(available.value(i).as_str()) {
            let ghost v = version@;
            let mut at: usize = 0;
            assert(before.skip(0) =~= before);
            while at < result.len() && !version.precedes(&result[at].0)
                invariant
                    at <= result.len(),
                    before == result.deep_view(),
                    v == version@,
                    offer_place(before, v) == at + offer_place(before.skip(at as int), v),
                decreases result.len() - at,
            {
                assert(before.skip(at as int).skip(1) =~= before.skip(at + 1));
                at += 1;
            }
            assert(offer_place(before, v) == at) by {
                if at < result.len() {
                    assert(before.skip(at as int)[0].0 == result@[at as int].0@);
                }
            }
            result.insert(at, (version, available.key(i).clone()));
            assert(result.deep_view() =~= before.insert(at as int, (v, attrs[i as int])));
        }
        i += 1;
    }
    assert(attrs.take(i as int) =~= attrs);
    result
}

fn allows_major(range: &str, version: &Version) -> (result: bool)
    ensures
        result == in_node_major(range@)(version@),
{
    let major = cat(number(version.major).as_str(), ".x");
    overlaps(range, major.as_str())
}

/// The last of `fits` that is true.
pub open spec fn last_fit(fits: Seq<bool>) -> Option<int>
    decreases fits.len(),
{
    if fits.len() == 0 {
        None
    } else if fits.last() {
        Some(fits.len() - 1)
    } else {
        last_fit(fits.drop_last())
    }
}

fn find_fit(fits: &Vec<bool>) -> (result: Option<usize>)
    ensures
        match result {
            Some(i) => i < fits@.len() && last_fit(fits@) == Some(i as int),
            None => last_fit(fits@) is None,
        },
{
    let mut i: usize = fits.len();
    assert(fits@.take(i as int) =~= fits@);
    while i > 0
        invariant
            i <= fits@.len(),
            last_fit(fits@) == last_fit(fits@.take(i as int)),
        decreases i,
    {
        assert(fits@.take(i as int).drop_last() =~= fits@.take(i - 1));
        i -= 1;
        if fits[i] {
            return Some(i);
        }
    }
    None
}

/// The release that is picked of several in order, where it is known which are `in_range` and of which
/// the major version is allowed: the newest in the range, or failing that, the newest in a major
/// version.
pub fn newest_release(in_range: &Vec<bool>, in_major: &Vec<bool>) -> (result: Option<usize>)
    ensures
        match result {
            Some(i) => Some(i as int) == (if last_fit(in_range@) is Some {
                last_fit(in_range@)
            } else {
                last_fit(in_major@)
            }),
            None => last_fit(in_range@) is None && last_fit(in_major@) is None,
        },
{
    match find_fit(in_range) {
        Some(i) => Some(i),
        None => find_fit(in_major),
    }
}

proof fn last_fit_is_newest(offers: Seq<Offer>, fits: Seq<bool>, allowed: spec_fn(VersionView) -> bool)
    requires
        fits.len() == offers.len(),
        forall|i: int| 0 <= i < fits.len() ==> (#[trigger] fits[i]) == allowed(offers[i].0),
    ensures
        match last_fit(fits) {
            Some(i) => 0 <= i < offers.len() && newest(offers, allowed) == Some(offers[i]),
            None => newest(offers, allowed) is None,
        },
    decreases offers.len(),
{
    if offers.len() > 0 {
        let n = offers.len() - 1;
        assert(fits[n] == allowed(offers[n].0));
        assert forall|i: int| 0 <= i < n implies (#[trigger] fits.drop_last()[i]) == allowed(
            offers.drop_last()[i].0,
        ) by {
            assert(fits.drop_last()[i] == fits[i]);
        }
        last_fit_is_newest(offers.drop_last(), fits.drop_last(), allowed);
    }
}

/// Nixpkgs has few releases of each major version, so the newest release of a major version that
/// the range allows is used when no release satisfies the range.
pub fn pick_node(range: &str, available: &Dict<String>) -> (result: Result<Node, Error>)
    ensures
        match result {
            Ok(node) => node_for(range@, available@) == Ok::<NodeView, Text>(node@),
            Err(error) => error@.len() == 1 && node_for(range@, available@) == Err::<NodeView, Text>(error@[0]),
        },
{
    if let Some(problem) = check_range(range) {
        return Err(
            Error::new(cat4("parsing the Node.js version ", range, " in devEngines: ", problem.as_str())),
        );
    }
    let offers = list_offers(available);
    let ghost all = offers.deep_view();
    let mut in_range: Vec<bool> = Vec::new();
    let mut in_major: Vec<bool> = Vec::new();
    let mut k: usize = 0;
    while k < offers.len()
        invariant
            k <= offers.len(),
            all == offers.deep_view(),
            in_range@.len() == k,
            in_major@.len() == k,
            forall|j: int| 0 <= j < k ==> (#[trigger] in_range@[j]) == in_node_range(range@)(all[j].0),
            forall|j: int| 0 <= j < k ==> (#[trigger] in_major@[j]) == in_node_major(range@)(all[j].0),
        decreases offers.len() - k,
    {
        assert(all[k as int] == (offers@[k as int].0@, offers@[k as int].1@));
        in_range.push(satisfies(range, &offers[k].0));
        in_major.push(allows_major(range, &offers[k].0));
        k += 1;
    }
    proof {
        last_fit_is_newest(all, in_range@, in_node_range(range@));
        last_fit_is_newest(all, in_major@, in_node_major(range@));
    }
    if let Some(at) = newest_release(&in_range, &in_major) {
        let (version, attr) = (&offers[at].0, &offers[at].1);
        assert(all[at as int] == (version@, attr@));
        return Ok(Node { from: range.to_owned(), attr: attr.clone(), version: version.text() });
    }
    let ghost texts = offers.deep_view().map_values(|offer: Offer| version_text(offer.0));
    let mut offered: Vec<String> = Vec::new();
    let mut i: usize = 0;
    while i < offers.len()
        invariant
            i <= offers.len(),
            texts == offers.deep_view().map_values(|offer: Offer| version_text(offer.0)),
            offered@.len() == i,
            forall|j: int| 0 <= j < i ==> (#[trigger] offered@[j])@ == texts[j],
        decreases offers.len() - i,
    {
        assert(offers.deep_view()[i as int] == (offers@[i as int].0@, offers@[i as int].1@));
        offered.push(offers[i].0.text());
        i += 1;
    }
    assert(offered.deep_view() =~= texts);
    Err(
        Error::new(
            cat5(
                "the locked Nixpkgs has no Node.js for ",
                range,
                " (it has ",
                join(&offered, ", ").as_str(),
                "); run `hinata update --nixpkgs`, or set hinata.nixpkgs to a revision that has one",
            ),
        ),
    )
}

/// The inputs of a build as JSON.
pub uninterp spec fn key_json(
    lock_json: Text,
    dev: bool,
    node_major: Option<u32>,
    library: Seq<(Text, Text)>,
) -> Seq<u8>;

/// `serde_json::to_vec` on a tuple of strings, booleans, numbers and lists of them, which never
/// fails. Claimed is only that the bytes depend on these values alone.
#[verifier::external_body]
fn outside_key_json(
    lock_json: &str,
    dev: bool,
    node_major: Option<u32>,
    library: &Vec<(String, String)>,
) -> (result: Vec<u8>)
    ensures
        result@ == key_json(lock_json@, dev, node_major, library.deep_view()),
{
    serde_json::to_vec(&(lock_json, dev, node_major, library)).unwrap_or_default()
}

/// What a build depends on, as a hash.
pub open spec fn key_of(lock_json: Text, dev: bool, node_major: Option<u32>, library: Seq<(Text, Text)>) -> Text {
    hex_of(sha256_of(key_json(lock_json, dev, node_major, library)))
}

/// What a build depends on, as a hash. `library` are the files that it is evaluated from.
pub fn cache_key(lock_json: &str, dev: bool, node_major: Option<u32>, library: &Vec<(String, String)>) -> (result: String)
    ensures
        result@ == key_of(lock_json@, dev, node_major, library.deep_view()),
{
    hash(outside_key_json(lock_json, dev, node_major, library).as_slice())
}

/// The number that decimal digits stand for.
pub open spec fn decimal_value(digits: Text) -> nat
    decreases digits.len(),
{
    if digits.len() == 0 {
        0
    } else {
        10 * decimal_value(digits.drop_last()) + (digits.last() as nat - '0' as nat) as nat
    }
}

/// There is nothing but decimal digits in `s`.
pub open spec fn all_digits(s: Text) -> bool {
    forall|i: int| 0 <= i < s.len() ==> '0' <= #[trigger] s[i] <= '9'
}

/// The number that `s` stands for: decimal digits, which a plus sign may precede.
pub open spec fn parsed_u32(s: Text) -> Option<u32> {
    let digits = match without_prefix(s, "+"@) {
        Some(rest) => rest,
        None => s,
    };
    if digits.len() > 0 && all_digits(digits) && decimal_value(digits) <= u32::MAX {
        Some(decimal_value(digits) as u32)
    } else {
        None
    }
}

proof fn decimal_value_grows(digits: Text, n: int)
    requires
        0 <= n <= digits.len(),
        forall|i: int| 0 <= i < digits.len() ==> '0' <= #[trigger] digits[i] <= '9',
    ensures
        decimal_value(digits.take(n)) <= decimal_value(digits),
    decreases digits.len() - n,
{
    if n == digits.len() {
        assert(digits.take(n) =~= digits);
    } else {
        assert(digits.take(n + 1).drop_last() =~= digits.take(n));
        decimal_value_grows(digits, n + 1);
    }
}

fn parse_u32(s: &str) -> (result: Option<u32>)
    ensures
        result == parsed_u32(s@),
{
    let digits = match strip_prefix(s, "+") {
        Some(rest) => rest,
        None => s,
    };
    let cs = chars(digits);
    if cs.len() == 0 {
        return None;
    }
    let mut i: usize = 0;
    while i < cs.len()
        invariant
            i <= cs.len(),
            cs@ == digits@,
            digits@ == (match without_prefix(s@, "+"@) {
                Some(rest) => rest,
                None => s@,
            }),
            forall|j: int| 0 <= j < i ==> '0' <= #[trigger] digits@[j] <= '9',
        decreases cs.len() - i,
    {
        if cs[i] < '0' || cs[i] > '9' {
            assert(!('0' <= digits@[i as int] <= '9'));
            assert(!all_digits(digits@));
            return None;
        }
        i += 1;
    }
    let mut value: u64 = 0;
    let mut k: usize = 0;
    while k < cs.len()
        invariant
            k <= cs.len(),
            cs@ == digits@,
            digits@ == (match without_prefix(s@, "+"@) {
                Some(rest) => rest,
                None => s@,
            }),
            forall|j: int| 0 <= j < digits@.len() ==> '0' <= #[trigger] digits@[j] <= '9',
            value == decimal_value(digits@.take(k as int)),
            value <= u32::MAX,
        decreases cs.len() - k,
    {
        assert(digits@.take(k + 1).drop_last() =~= digits@.take(k as int));
        assert('0' <= digits@[k as int] <= '9');
        value = value * 10 + (cs[k] as u64 - '0' as u64);
        assert(value == decimal_value(digits@.take(k + 1)));
        if value > u32::MAX as u64 {
            proof {
                decimal_value_grows(digits@, k + 1);
            }
            return None;
        }
        k += 1;
    }
    assert(digits@.take(k as int) =~= digits@);
    Some(value as u32)
}

/// The major version in what `node --version` prints.
pub open spec fn printed_major(output: Text) -> Option<u32> {
    match without_prefix(trimmed(output), "v"@) {
        Some(version) => parsed_u32(
            match cut_at_first(version, '.') {
                Some((major, _)) => major,
                None => version,
            },
        ),
        None => None,
    }
}

/// The major version in what `node --version` prints.
pub fn node_major(output: &str) -> (result: Option<u32>)
    ensures
        result == printed_major(output@),
{
    match strip_prefix(trim(output), "v") {
        Some(version) => match split_once(version, '.') {
            Some((major, _)) => parse_u32(major),
            None => parse_u32(version),
        },
        None => None,
    }
}

/// Native addons are built for the Node.js of the user. Native addons only load in the Node.js major
/// version they were built for.
pub open spec fn needs_user_node(lock: LockView) -> bool {
    lock.node is None && exists|id: Text| #[trigger] lock.packages.contains_key(id) && lock.packages[id].build
}

/// Whether native addons are built for the Node.js of the user.
pub fn builds_for_user_node(lock: &Lock) -> (result: bool)
    ensures
        result == needs_user_node(lock@),
{
    if lock.node.is_some() {
        return false;
    }
    let n: usize = lock.packages.len();
    let ghost ids = sorted(lock@.packages.dom());
    proof {
        sorted_properties(lock@.packages.dom());
    }
    let mut i: usize = 0;
    while i < n
        invariant
            i <= n,
            n == ids.len(),
            lock@.node is None,
            ids == sorted(lock@.packages.dom()),
            forall|j: int| 0 <= j < i ==> !lock@.packages[#[trigger] ids[j]].build,
        decreases n - i,
    {
        if lock.packages.value(i).build {
            assert(lock@.packages.contains_key(ids[i as int]));
            return true;
        }
        i += 1;
    }
    assert forall|id: Text| #[trigger] lock@.packages.contains_key(id) implies !lock@.packages[id].build by {
        assert(ids.contains(id));
        assert(ids[ids.index_of(id)] == id);
    }
    false
}

/// Where the packages of an importer were built.
pub struct ImporterRoots {
    pub dependencies: Dict<String>,
    pub dev_dependencies: Dict<String>,
    pub optional_dependencies: Dict<String>,
}

/// What is linked into the importer in `dir`, by where its dependencies were built and where its links
/// to other projects lead.
pub open spec fn linked_into(
    regular: Map<Text, Text>,
    dev: Map<Text, Text>,
    optional: Map<Text, Text>,
    links: Map<Text, Text>,
    dir: Text,
) -> Map<Text, Text> {
    optional.union_prefer_right(dev).union_prefer_right(regular).union_prefer_right(
        links.map_values(|target: Text| joined_path(dir, target)),
    )
}

/// What is linked into the importer in `dir`. Links to other projects come first, then regular
/// dependencies, then dev and optional ones.
pub fn importer_packages(roots: &ImporterRoots, links: &Dict<String>, dir: &str) -> (result: Dict<String>)
    ensures
        result@ == linked_into(
            roots.dependencies@,
            roots.dev_dependencies@,
            roots.optional_dependencies@,
            links@,
            dir@,
        ),
{
    let mut packages = roots.optional_dependencies.duplicate();
    packages.extend(&roots.dev_dependencies);
    packages.extend(&roots.dependencies);
    let ghost base = packages@;
    let ghost all = links@.map_values(|target: Text| joined_path(dir@, target));
    let n: usize = links.len();
    let ghost keys = sorted(links@.dom());
    proof {
        sorted_properties(links@.dom());
        assert(packages@ =~= base.union_prefer_right(all.restrict(keys.take(0).to_set())));
    }
    let mut i: usize = 0;
    while i < n
        invariant
            i <= n,
            n == keys.len(),
            keys == sorted(links@.dom()),
            all == links@.map_values(|target: Text| joined_path(dir@, target)),
            packages@ == base.union_prefer_right(all.restrict(keys.take(i as int).to_set())),
        decreases n - i,
    {
        proof {
            taken_one_more(keys, i as int);
        }
        packages.insert(links.key(i).clone(), join_path(dir, links.value(i).as_str()));
        assert(packages@ =~= base.union_prefer_right(all.restrict(keys.take(i + 1).to_set())));
        i += 1;
    }
    proof {
        assert(keys.take(i as int) =~= keys);
        assert forall|x: Text| all.contains_key(x) implies keys.to_set().contains(x) by {
            assert(keys.contains(x));
        }
        assert(all.restrict(keys.to_set()) =~= all);
    }
    packages
}

/// A frozen install resolves nothing, looks nothing up, locks nothing anew and writes nothing.
pub proof fn frozen_changes_nothing(
    existing: Option<LockView>,
    pnpm: Option<LockView>,
    projects: Map<Text, ProjectView>,
    overrides: Map<Text, Text>,
    keep: bool,
    configured: Option<Text>,
    flake: Option<NixpkgsView>,
    locked: Option<NixpkgsView>,
    update: bool,
    range: Option<Text>,
    locked_node: Option<NodeView>,
    nixpkgs: NixpkgsView,
    pnpm_only: bool,
    previous: Option<Text>,
    json: Text,
)
    ensures
        planned(existing, pnpm, projects, overrides, keep, Lockfile::Frozen) != Plan::Resolve,
        planned(existing, pnpm, projects, overrides, keep, Lockfile::Frozen) != Plan::Import,
        nixpkgs_planned(configured, flake, locked, update, Lockfile::Frozen) matches Some(plan) ==> locked is Some
            && plan == NixpkgsPlanView::Use(locked->0),
        node_planned(range, locked_node, locked, nixpkgs, Lockfile::Frozen) matches Some(plan) ==> plan
            == NodePlanView::Omit || (locked_node is Some && plan == NodePlanView::Use(locked_node->0)),
        finished(pnpm_only, Lockfile::Frozen, previous, json) matches Some(action) ==> action == Finish::Leave,
{
}

/// Without hinata.lock, a pnpm-lock.yaml that matches is installed from, and nothing is written,
/// unless hinata.lock is asked for.
pub proof fn matching_pnpm_lock_is_kept(
    pnpm: LockView,
    projects: Map<Text, ProjectView>,
    overrides: Map<Text, Text>,
    lockfile: Lockfile,
    previous: Option<Text>,
    json: Text,
)
    requires
        matches_projects(pnpm, projects),
        lockfile != Lockfile::Save,
    ensures
        planned(None, Some(pnpm), projects, overrides, true, lockfile) == Plan::KeepPnpm,
        finished(true, lockfile, previous, json) == Some(Finish::Leave),
{
}

/// A hinata.lock takes precedence over any pnpm-lock.yaml.
pub proof fn own_lock_takes_precedence(
    existing: LockView,
    pnpm: Option<LockView>,
    projects: Map<Text, ProjectView>,
    overrides: Map<Text, Text>,
    keep: bool,
    lockfile: Lockfile,
)
    ensures
        planned(Some(existing), pnpm, projects, overrides, keep, lockfile) == planned(
            Some(existing),
            None,
            projects,
            overrides,
            keep,
            lockfile,
        ),
{
}

/// Nixpkgs from flake.lock follows that file, and from elsewhere it stays as it is until it is
/// updated or another source is configured.
pub proof fn nixpkgs_stays(
    configured: Option<Text>,
    flake: Option<NixpkgsView>,
    locked: NixpkgsView,
    lockfile: Lockfile,
)
    ensures
        configured is None && flake is Some && lockfile != Lockfile::Frozen ==> nixpkgs_planned(
            configured,
            flake,
            Some(locked),
            false,
            lockfile,
        ) == Some(
            NixpkgsPlanView::Use(
                if same_nixpkgs(locked, flake->0) {
                    locked
                } else {
                    flake->0
                },
            ),
        ),
        configured == Some(locked.from) ==> nixpkgs_planned(configured, flake, Some(locked), false, lockfile) == Some(
            NixpkgsPlanView::Use(locked),
        ),
{
}

/// Install scripts run only for packages that are allowed to, and never both in the sandbox and
/// outside.
pub proof fn only_allowed_builds_run(
    package: PackageView,
    builds: Map<Text, BuildMode>,
    inputs: Map<Text, Seq<Text>>,
    pnpm_only: bool,
)
    ensures
        ({
            let marked = marked_build(package, builds, inputs, pnpm_only);
            &&& marked.build || marked.impure_build ==> builds.contains_key(package.name)
            &&& !(marked.build && marked.impure_build)
            &&& marked.build_inputs.len() > 0 ==> marked.build
        }),
{
}

/// Install scripts run for every package that has some and is allowed to run them, in the way in which
/// it is allowed to and with its build inputs, whichever lockfile it comes from. Where it is not known
/// which packages have any, that holds of every package that is allowed to. Nothing else is marked,
/// nor is anything else of a package changed. Just those that have some and are not allowed to run
/// them are skipped.
pub proof fn allowed_builds_run(
    packages: Map<Text, PackageView>,
    builds: Map<Text, BuildMode>,
    inputs: Map<Text, Seq<Text>>,
    pnpm_only: bool,
)
    ensures
        forall|id: Text| #[trigger]
            packages.contains_key(id) ==> {
                let package = packages[id];
                let marked = marked_build(package, builds, inputs, pnpm_only);
                &&& (package.install_script || pnpm_only) && builds.contains_key(package.name) ==> {
                    &&& builds[package.name] == BuildMode::Sandboxed ==> marked.build && !marked.impure_build
                    &&& builds[package.name] == BuildMode::Impure ==> marked.impure_build && !marked.build
                    &&& marked.build && inputs.contains_key(package.name) ==> marked.build_inputs
                        == inputs[package.name]
                    &&& marked.build && !inputs.contains_key(package.name) ==> marked.build_inputs.len() == 0
                }
                &&& !package.install_script && !pnpm_only ==> !marked.build && !marked.impure_build
                &&& marked.name == package.name && marked.version == package.version
                &&& marked.url == package.url && marked.integrity == package.integrity
                &&& marked.deps == package.deps && marked.optional_deps == package.optional_deps
                &&& marked.os == package.os && marked.cpu == package.cpu && marked.libc == package.libc
                &&& marked.has_bin == package.has_bin && marked.install_script == package.install_script
                &&& marked.patch == package.patch
            },
        forall|name: Text| #[trigger]
            skipped_scripts(packages, builds, pnpm_only).contains(name) <==> !builds.contains_key(name) && exists|id: Text|
                #[trigger] packages.contains_key(id) && packages[id].name == name && packages[id].install_script,
{
    let skipped = skipped_scripts(packages, builds, pnpm_only);
    let unmarked = |id: Text| packages[id].install_script && mode_of(packages[id], builds, pnpm_only) is None;
    assert forall|name: Text| #[trigger] skipped.contains(name) <==> !builds.contains_key(name) && exists|id: Text|
        #[trigger] packages.contains_key(id) && packages[id].name == name && packages[id].install_script by {
        if skipped.contains(name) {
            let id = choose|id: Text| packages.dom().filter(unmarked).contains(id) && packages[id].name == name;
            assert(packages.contains_key(id));
        }
        if !builds.contains_key(name) && exists|id: Text| #[trigger]
            packages.contains_key(id) && packages[id].name == name && packages[id].install_script {
            let id = choose|id: Text| #[trigger]
                packages.contains_key(id) && packages[id].name == name && packages[id].install_script;
            assert(packages.dom().filter(unmarked).contains(id));
        }
    }
}

/// A package is patched by the patch for its version, or else by the one for its name, and by nothing
/// else. Just the patches that patch no package are told to be unused.
pub proof fn patches_apply(packages: Map<Text, PackageView>, patches: Map<Text, PatchView>)
    ensures
        forall|id: Text| #[trigger]
            packages.contains_key(id) ==> {
                let package = packages[id];
                let exact = package.name + "@"@ + package.version;
                let marked = marked_patch(package, patches);
                &&& patches.contains_key(exact) ==> marked.patch == Some(patches[exact])
                &&& !patches.contains_key(exact) && patches.contains_key(package.name) ==> marked.patch == Some(
                    patches[package.name],
                )
                &&& !patches.contains_key(exact) && !patches.contains_key(package.name) ==> marked.patch is None
                &&& marked == (PackageView { patch: marked.patch, ..package })
                &&& !unused_patches(packages, patches).contains(exact)
                &&& !patches.contains_key(exact) ==> !unused_patches(packages, patches).contains(package.name)
            },
        forall|key: Text|
            patches.contains_key(key) && (forall|id: Text| #[trigger]
                packages.contains_key(id) ==> packages[id].name != key && packages[id].name + "@"@ + packages[id].version
                    != key) ==> #[trigger] unused_patches(packages, patches).contains(key),
{
}

/// Marking packages twice is marking them once.
pub proof fn marking_is_idempotent(
    package: PackageView,
    builds: Map<Text, BuildMode>,
    inputs: Map<Text, Seq<Text>>,
    patches: Map<Text, PatchView>,
    pnpm_only: bool,
)
    ensures
        marked_build(marked_build(package, builds, inputs, pnpm_only), builds, inputs, pnpm_only) == marked_build(
            package,
            builds,
            inputs,
            pnpm_only,
        ),
        marked_patch(marked_patch(package, patches), patches) == marked_patch(package, patches),
{
}

/// A lock that was just resolved matches the projects that it was resolved from, so that the next
/// install does not resolve again. Runtimes are left out of what a lock is compared with, so a
/// project must not ask for one.
pub proof fn resolved_lock_is_current(
    projects: Map<Text, ProjectView>,
    links: Seq<Map<Text, Text>>,
    ids: Seq<GroupsView>,
    packages: Map<Text, PackageView>,
    overrides: Map<Text, Text>,
)
    requires
        projects.dom().finite(),
        forall|path: Text| #[trigger]
            projects.contains_key(path) ==> specifiers_of_packages(projects[path].specifiers)
                == projects[path].specifiers,
    ensures
        is_current(
            new_lock(packages, locked_importers(projects, sorted(projects.dom()), links, ids), overrides),
            projects,
            overrides,
        ),
{
    let paths = sorted(projects.dom());
    sorted_properties(projects.dom());
    locked_importers_match(projects, paths, links, ids);
    assert(paths.to_set() =~= projects.dom());
}

proof fn locked_importers_match(
    projects: Map<Text, ProjectView>,
    paths: Seq<Text>,
    links: Seq<Map<Text, Text>>,
    ids: Seq<GroupsView>,
)
    ensures
        locked_importers(projects, paths, links, ids).dom() == paths.to_set(),
        forall|path: Text| #[trigger]
            paths.contains(path) ==> locked_importers(projects, paths, links, ids)[path].specifiers
                == projects[path].specifiers,
    decreases paths.len(),
{
    let made = locked_importers(projects, paths, links, ids);
    if paths.len() == 0 {
        assert(made.dom() =~= paths.to_set());
    } else {
        let n = paths.len() - 1;
        let shorter = paths.drop_last();
        locked_importers_match(projects, shorter, links, ids);
        assert(paths.take(n) =~= shorter);
        assert(paths.take(n + 1) =~= paths);
        taken_one_more(paths, n);
        assert(made.dom() =~= paths.to_set());
        assert forall|path: Text| #[trigger] paths.contains(path) implies made[path].specifiers
            == projects[path].specifiers by {
            if path != paths[n] {
                let i = paths.index_of(path);
                assert(shorter[i] == path);
                assert(shorter.contains(path));
            }
        }
    }
}

proof fn kept_are_kept(packages: Map<Text, PackageView>, ids: Seq<Text>, update: UpdateView)
    ensures
        forall|k: int|
            0 <= k < ids.len() && !update.covers(packages[#[trigger] ids[k]].name) ==> kept_versions(
                packages,
                ids,
                update,
            ).contains((packages[ids[k]].name, packages[ids[k]].version)),
        forall|kept: (Text, Text)| #[trigger]
            kept_versions(packages, ids, update).contains(kept) ==> !update.covers(kept.0) && exists|k: int|
                0 <= k < ids.len() && packages[#[trigger] ids[k]].name == kept.0 && packages[ids[k]].version == kept.1,
    decreases ids.len(),
{
    if ids.len() > 0 {
        let shorter = ids.drop_last();
        kept_are_kept(packages, shorter, update);
        let (before, after) = (kept_versions(packages, shorter, update), kept_versions(packages, ids, update));
        let last = packages[ids.last()];
        assert forall|kept: (Text, Text)| before.contains(kept) implies #[trigger] after.contains(kept) by {
            assert(after[before.index_of(kept)] == kept);
        }
        if !update.covers(last.name) {
            assert(after[before.len() as int] == (last.name, last.version));
        }
        assert forall|k: int| 0 <= k < ids.len() && !update.covers(
            packages[#[trigger] ids[k]].name,
        ) implies after.contains((packages[ids[k]].name, packages[ids[k]].version)) by {
            if k < shorter.len() {
                assert(shorter[k] == ids[k]);
                assert(before.contains((packages[ids[k]].name, packages[ids[k]].version)));
            }
        }
        assert forall|kept: (Text, Text)| #[trigger] after.contains(kept) implies !update.covers(kept.0) && exists|k: int|
            0 <= k < ids.len() && packages[#[trigger] ids[k]].name == kept.0 && packages[ids[k]].version == kept.1 by {
            let i = after.index_of(kept);
            if i < before.len() {
                assert(before[i] == kept);
                assert(before.contains(kept));
                let k = choose|k: int|
                    0 <= k < shorter.len() && packages[#[trigger] shorter[k]].name == kept.0
                        && packages[shorter[k]].version == kept.1;
                assert(ids[k] == shorter[k]);
            } else {
                assert(ids[ids.len() - 1] == ids.last());
            }
        }
    }
}

/// What is locked stays preferred, unless it is to be updated: everything where nothing is, nothing where
/// everything is, and otherwise all but the packages that are named. Nothing else is preferred.
pub proof fn locked_versions_are_preferred(lock: LockView, update: UpdateView, name: Text, version: Text)
    requires
        lock.packages.dom().finite(),
    ensures
        preferred_by(Some(lock), update).contains((name, version)) <==> (match update {
            UpdateView::Keep => true,
            UpdateView::All => false,
            UpdateView::Only(names) => !names.contains(name),
        }) && exists|id: Text| #[trigger]
            lock.packages.contains_key(id) && lock.packages[id].name == name && lock.packages[id].version == version,
{
    let ids = sorted(lock.packages.dom());
    sorted_properties(lock.packages.dom());
    kept_are_kept(lock.packages, ids, update);
    let kept = (name, version);
    if preferred_by(Some(lock), update).contains(kept) {
        let k = choose|k: int|
            0 <= k < ids.len() && lock.packages[#[trigger] ids[k]].name == kept.0 && lock.packages[ids[k]].version
                == kept.1;
        assert(ids.contains(ids[k]));
        assert(lock.packages.contains_key(ids[k]));
    }
    if !update.covers(name) && exists|id: Text| #[trigger]
        lock.packages.contains_key(id) && lock.packages[id].name == name && lock.packages[id].version == version {
        let id = choose|id: Text| #[trigger]
            lock.packages.contains_key(id) && lock.packages[id].name == name && lock.packages[id].version == version;
        assert(ids.contains(id));
        assert(ids[ids.index_of(id)] == id);
    }
}

/// A lock is current for one set of dependencies and overrides only: whatever dependency that is no
/// runtime is added, removed, moved to another group or asked for by another specifier, the lock is
/// current no more.
pub proof fn changes_are_noticed(
    lock: LockView,
    before: Map<Text, ProjectView>,
    after: Map<Text, ProjectView>,
    overrides: Map<Text, Text>,
    others: Map<Text, Text>,
)
    requires
        is_current(lock, before, overrides),
        is_current(lock, after, others),
    ensures
        overrides == others,
        before.dom() == after.dom(),
        forall|path: Text| #[trigger]
            before.contains_key(path) ==> ask_for_same(before[path].specifiers, after[path].specifiers),
{
    assert forall|path: Text| #[trigger] before.contains_key(path) implies ask_for_same(
        before[path].specifiers,
        after[path].specifiers,
    ) by {
        let (a, b) = (before[path].specifiers, after[path].specifiers);
        assert(before.dom().contains(path));
        assert(after.contains_key(path));
        assert(specifiers_of_packages(a) == specifiers_of_packages(b));
        only_packages_count(a.dependencies, b.dependencies);
        only_packages_count(a.dev_dependencies, b.dev_dependencies);
        only_packages_count(a.optional_dependencies, b.optional_dependencies);
    }
}

/// The same is asked for in each group, but for runtimes.
pub open spec fn ask_for_same(a: SpecifiersView, b: SpecifiersView) -> bool {
    &&& ask_for_same_packages(a.dependencies, b.dependencies)
    &&& ask_for_same_packages(a.dev_dependencies, b.dev_dependencies)
    &&& ask_for_same_packages(a.optional_dependencies, b.optional_dependencies)
}

/// What one of `a` and `b` asks for under an alias and is no runtime, the other one does too.
pub open spec fn ask_for_same_packages(a: Map<Text, Text>, b: Map<Text, Text>) -> bool {
    forall|alias: Text, spec: Text|
        !"runtime:"@.is_prefix_of(spec) ==> #[trigger] asks_for(a, alias, spec) == #[trigger] asks_for(b, alias, spec)
}

/// `deps` ask for `spec` under `alias`.
pub open spec fn asks_for(deps: Map<Text, Text>, alias: Text, spec: Text) -> bool {
    deps.contains_key(alias) && deps[alias] == spec
}

proof fn only_packages_count(a: Map<Text, Text>, b: Map<Text, Text>)
    requires
        packages_only(a) == packages_only(b),
    ensures
        ask_for_same_packages(a, b),
{
    assert forall|alias: Text, spec: Text| !"runtime:"@.is_prefix_of(spec) implies #[trigger] asks_for(a, alias, spec)
        == #[trigger] asks_for(b, alias, spec) by {
        assert(asks_for(packages_only(a), alias, spec) == asks_for(a, alias, spec));
        assert(asks_for(packages_only(b), alias, spec) == asks_for(b, alias, spec));
    }
}

/// An install keeps a lock that is current, and resolves again only where there is none or it is not, or
/// where updates are asked for. It never resolves where that would change a lock that may not change.
pub proof fn current_lock_is_kept(
    existing: Option<LockView>,
    pnpm: Option<LockView>,
    projects: Map<Text, ProjectView>,
    overrides: Map<Text, Text>,
    keep: bool,
    lockfile: Lockfile,
)
    ensures
        ({
            let plan = planned(existing, pnpm, projects, overrides, keep, lockfile);
            let is_kept = existing matches Some(lock) && keep && is_current(lock, projects, overrides);
            let is_pnpm = existing is None && (pnpm matches Some(lock) && keep && matches_projects(lock, projects));
            &&& plan == Plan::Keep <==> is_kept
            &&& plan == Plan::Import <==> is_pnpm && lockfile == Lockfile::Save
            &&& plan == Plan::KeepPnpm <==> is_pnpm && lockfile != Lockfile::Save
            &&& plan == Plan::Resolve ==> lockfile != Lockfile::Frozen && !is_kept && !is_pnpm
            &&& existing is Some && !is_kept && lockfile != Lockfile::Frozen ==> plan == Plan::Resolve
            &&& existing is None && pnpm is None && lockfile != Lockfile::Frozen ==> plan == Plan::Resolve
            &&& existing is None && !is_pnpm && lockfile == Lockfile::Save ==> plan == Plan::Resolve
            &&& plan == Plan::PnpmOutdated ==> existing is None && pnpm is Some && !is_pnpm
            &&& plan == Plan::Outdated ==> lockfile == Lockfile::Frozen
        }),
{
}

/// A lock that is as it was is never written, and any other one is, unless pnpm-lock.yaml stays the
/// lockfile or the lock may not change, which is a failure.
pub proof fn changed_lock_is_written(pnpm_only: bool, lockfile: Lockfile, previous: Option<Text>, json: Text)
    ensures
        finished(pnpm_only, lockfile, Some(json), json) == Some(Finish::Leave),
        !pnpm_only && lockfile != Lockfile::Frozen && previous != Some(json) ==> finished(
            pnpm_only,
            lockfile,
            previous,
            json,
        ) == Some(
            if previous is Some {
                Finish::Replace
            } else {
                Finish::Create
            },
        ),
        finished(pnpm_only, lockfile, previous, json) is None <==> !pnpm_only && lockfile == Lockfile::Frozen
            && previous != Some(json),
{
}

/// Nixpkgs is locked anew where it is to be updated, where another source is configured than it was
/// locked from, and where none is locked, unless flake.lock provides it.
pub proof fn nixpkgs_is_locked_anew(
    configured: Option<Text>,
    flake: Option<NixpkgsView>,
    locked: Option<NixpkgsView>,
    update: bool,
    lockfile: Lockfile,
)
    requires
        lockfile != Lockfile::Frozen,
    ensures
        ({
            let plan = nixpkgs_planned(configured, flake, locked, update, lockfile);
            &&& plan is Some
            &&& configured is Some && (update || locked is None || locked->0.from != configured->0) ==> plan == Some(
                NixpkgsPlanView::Lock(configured->0),
            )
            &&& configured is None && flake is None && (update || locked is None) ==> plan == Some(
                NixpkgsPlanView::Lock("github:NixOS/nixpkgs/nixpkgs-unstable"@),
            )
            &&& configured is None && flake is None && !update && locked is Some && locked->0.from
                == "github:NixOS/nixpkgs/nixpkgs-unstable"@ ==> plan == Some(NixpkgsPlanView::Use(locked->0))
        }),
{
}

/// Node.js stays as it is locked as long as the same range is asked for and Nixpkgs stays the same, and
/// is chosen anew otherwise.
pub proof fn node_stays(
    range: Text,
    locked: Option<NodeView>,
    locked_nixpkgs: Option<NixpkgsView>,
    nixpkgs: NixpkgsView,
    lockfile: Lockfile,
)
    ensures
        ({
            let plan = node_planned(Some(range), locked, locked_nixpkgs, nixpkgs, lockfile);
            &&& locked is Some && locked->0.from == range && locked_nixpkgs is Some && same_nixpkgs(
                locked_nixpkgs->0,
                nixpkgs,
            ) ==> plan == Some(NodePlanView::Use(locked->0))
            &&& (locked is None || locked->0.from != range || locked_nixpkgs is None || locked_nixpkgs->0.from
                != nixpkgs.from) ==> plan == (if lockfile == Lockfile::Frozen {
                None
            } else {
                Some(NodePlanView::Choose(range))
            })
        }),
        node_planned(None, locked, locked_nixpkgs, nixpkgs, lockfile) == Some(NodePlanView::Omit),
{
}

/// Node.js comes from an attribute of Nixpkgs that provides it in the version that is locked. That is in
/// the range if any is, and no other one in it is newer. Only otherwise is it one of a major version that
/// the range allows, and none of those is newer. None is found only where there is neither.
pub proof fn node_fits_range(range: Text, available: Map<Text, Text>)
    requires
        available.dom().finite(),
    ensures
        match node_for(range, available) {
            Ok(node) => {
                &&& node.from == range
                &&& available.contains_key(node.attr)
                &&& parsed_version(available[node.attr]) matches Some(v) && node.version == version_text(v) && {
                    ||| in_range(range, v) && forall|attr: Text| #[trigger]
                        available.contains_key(attr) && parsed_version(available[attr]) is Some && in_range(
                            range,
                            parsed_version(available[attr])->0,
                        ) ==> !version_less(v, parsed_version(available[attr])->0)
                    ||| !is_offered(range, available) && in_node_major(range)(v) && forall|attr: Text| #[trigger]
                        available.contains_key(attr) && parsed_version(available[attr]) is Some && in_node_major(range)(
                            parsed_version(available[attr])->0,
                        ) ==> !version_less(v, parsed_version(available[attr])->0)
                }
            },
            Err(_) => range_fault(range) is Some || (!is_offered(range, available) && forall|attr: Text| #[trigger]
                available.contains_key(attr) && parsed_version(available[attr]) is Some ==> !in_node_major(range)(
                    parsed_version(available[attr])->0,
                )),
        },
{
    let attrs = sorted(available.dom());
    let offers = offers_of(available, attrs);
    sorted_properties(available.dom());
    offers_are_in_order(available, attrs);
    offers_are_available(available, attrs);
    newest_is_last(offers, in_node_range(range));
    newest_is_last(offers, in_node_major(range));
    assert forall|attr: Text| #[trigger]
        available.contains_key(attr) && parsed_version(available[attr]) is Some implies offers.contains(
        (parsed_version(available[attr])->0, attr),
    ) by {
        assert(attrs.contains(attr));
        assert(attrs[attrs.index_of(attr)] == attr);
    }
    if let Some(offer) = newest(offers, in_node_range(range)) {
        newest_is_among(offers, in_node_range(range));
        assert forall|attr: Text| #[trigger]
            available.contains_key(attr) && parsed_version(available[attr]) is Some && in_range(
                range,
                parsed_version(available[attr])->0,
            ) implies !version_less(offer.0, parsed_version(available[attr])->0) by {
            newest_is_newest(available, in_node_range(range), attr);
        }
    } else {
        assert(!is_offered(range, available)) by {
            if is_offered(range, available) {
                let attr = choose|attr: Text| #[trigger]
                    available.contains_key(attr) && parsed_version(available[attr]) is Some && in_range(
                        range,
                        parsed_version(available[attr])->0,
                    );
                newest_is_newest(available, in_node_range(range), attr);
            }
        }
        if let Some(offer) = newest(offers, in_node_major(range)) {
            newest_is_among(offers, in_node_major(range));
            assert forall|attr: Text| #[trigger]
                available.contains_key(attr) && parsed_version(available[attr]) is Some && in_node_major(range)(
                    parsed_version(available[attr])->0,
                ) implies !version_less(offer.0, parsed_version(available[attr])->0) by {
                newest_is_newest(available, in_node_major(range), attr);
            }
        } else {
            assert forall|attr: Text| #[trigger]
                available.contains_key(attr) && parsed_version(available[attr]) is Some implies !in_node_major(range)(
                parsed_version(available[attr])->0,
            ) by {
                if in_node_major(range)(parsed_version(available[attr])->0) {
                    newest_is_newest(available, in_node_major(range), attr);
                }
            }
        }
    }
}

/// Something in `available` is in `range`.
pub open spec fn is_offered(range: Text, available: Map<Text, Text>) -> bool {
    exists|attr: Text| #[trigger]
        available.contains_key(attr) && parsed_version(available[attr]) is Some && in_range(
            range,
            parsed_version(available[attr])->0,
        )
}

proof fn offers_are_available(available: Map<Text, Text>, attrs: Seq<Text>)
    requires
        forall|k: int| 0 <= k < attrs.len() ==> available.contains_key(#[trigger] attrs[k]),
    ensures
        forall|i: int|
            0 <= i < offers_of(available, attrs).len() ==> {
                let offer = #[trigger] offers_of(available, attrs)[i];
                available.contains_key(offer.1) && parsed_version(available[offer.1]) == Some(offer.0)
            },
    decreases attrs.len(),
{
    if attrs.len() > 0 {
        let shorter = attrs.drop_last();
        assert forall|k: int| 0 <= k < shorter.len() implies available.contains_key(#[trigger] shorter[k]) by {
            assert(shorter[k] == attrs[k]);
        }
        offers_are_available(available, shorter);
        let before = offers_of(available, shorter);
        let after = offers_of(available, attrs);
        assert(available.contains_key(attrs[attrs.len() - 1]));
        if let Some(v) = parsed_version(available[attrs.last()]) {
            let at = offer_place(before, v);
            offer_place_bounds(before, v);
            assert forall|i: int| 0 <= i < after.len() implies {
                let offer = #[trigger] after[i];
                available.contains_key(offer.1) && parsed_version(available[offer.1]) == Some(offer.0)
            } by {
                if i < at {
                    assert(after[i] == before[i]);
                } else if i > at {
                    assert(after[i] == before[i - 1]);
                }
            }
        }
    }
}

proof fn newest_is_among(offers: Seq<Offer>, allowed: spec_fn(VersionView) -> bool)
    ensures
        newest(offers, allowed) matches Some(offer) ==> offers.contains(offer),
    decreases offers.len(),
{
    if offers.len() > 0 {
        if allowed(offers.last().0) {
            assert(offers[offers.len() - 1] == offers.last());
        } else {
            newest_is_among(offers.drop_last(), allowed);
            if let Some(offer) = newest(offers.drop_last(), allowed) {
                let i = offers.drop_last().index_of(offer);
                assert(offers[i] == offer);
            }
        }
    }
}

/// What is linked into an importer leads to another project where its links say so, and otherwise to
/// where a regular dependency of that name was built, or else one for development, or else an optional
/// one. All of these are linked, and nothing else is.
pub proof fn importer_is_linked(
    regular: Map<Text, Text>,
    dev: Map<Text, Text>,
    optional: Map<Text, Text>,
    links: Map<Text, Text>,
    dir: Text,
    alias: Text,
)
    ensures
        ({
            let all = linked_into(regular, dev, optional, links, dir);
            &&& all.contains_key(alias) <==> links.contains_key(alias) || regular.contains_key(alias)
                || dev.contains_key(alias) || optional.contains_key(alias)
            &&& links.contains_key(alias) ==> all[alias] == joined_path(dir, links[alias])
            &&& !links.contains_key(alias) && regular.contains_key(alias) ==> all[alias] == regular[alias]
            &&& !links.contains_key(alias) && !regular.contains_key(alias) && dev.contains_key(alias) ==> all[alias]
                == dev[alias]
            &&& !links.contains_key(alias) && !regular.contains_key(alias) && !dev.contains_key(alias)
                && optional.contains_key(alias) ==> all[alias] == optional[alias]
        }),
{
}

/// A lock that is kept is kept as it is. One that is made anew by resolving prefers what was locked
/// before, all but the packages that are to be updated, and one that is taken from pnpm-lock.yaml has the
/// same packages, for which only the install scripts are looked up.
pub proof fn locked_is_preferred<R: Registry>(
    chosen: Chosen,
    plan: Plan,
    found: LockView,
    projects: Map<Text, ProjectView>,
    registry: R,
    update: UpdateView,
    cutoff: Option<Timestamp>,
    overrides: Map<Text, Text>,
)
    requires
        found.packages.dom().finite(),
        is_chosen(Ok(chosen), plan, Some(found), projects, registry, update, cutoff, overrides),
    ensures
        plan == Plan::Keep || plan == Plan::KeepPnpm ==> chosen.lock@ == found,
        plan == Plan::Import ==> {
            &&& chosen.lock@.packages.dom() == found.packages.dom()
            &&& chosen.lock@.importers == found.importers
            &&& forall|id: Text| #[trigger]
                found.packages.contains_key(id) ==> chosen.lock@.packages[id] == (PackageView {
                    install_script: chosen.lock@.packages[id].install_script,
                    ..found.packages[id]
                })
        },
        plan == Plan::Resolve ==> exists|preferred: Seq<(Text, Text)>, answers: Seq<Answer>, fuel: nat|
            (#[trigger] resolution(projects, registry, preferred, cutoff, overrides, answers, fuel) matches Some(
                Ok((lock, _)),
            ) && chosen.lock@ == lock) && forall|id: Text| #[trigger]
                found.packages.contains_key(id) && !update.covers(found.packages[id].name) ==> preferred.contains(
                    (found.packages[id].name, found.packages[id].version),
                ),
{
    if plan == Plan::Import {
        let (cached, fetched) = choose|
            cached: Seq<Option<PackumentView>>,
            fetched: Result<Seq<PackumentView>, Seq<Text>>,
        |
            match (#[trigger] filled_packages(registry, found.packages, cached, fetched), Ok::<Chosen, Error>(chosen)) {
                (Some((packages, None)), Ok(chosen)) => chosen.lock@ == (LockView { packages, ..found })
                    && !chosen.pnpm_only && chosen.unused_overrides@.len() == 0,
                (Some((_, Some(problem))), Err(error)) => error@ == problem,
                _ => false,
            };
        let ids = sorted(found.packages.dom());
        let names = sorted(package_names(found.packages));
        sorted_properties(found.packages.dom());
        assert forall|i: int| 0 <= i < ids.len() implies found.packages.contains_key(#[trigger] ids[i]) by {
            assert(ids.contains(ids[i]));
        }
        assert(ids.no_duplicates());
        let complete = complete_packuments(found.packages, names, cached);
        let outdated = outdated_names(found.packages, names, cached);
        scripts_are_filled(complete, found.packages, ids);
        if let Ok(fetched) = fetched {
            scripts_are_filled(with_answers(complete, outdated, fetched), found.packages, ids);
        }
    }
    if plan == Plan::Resolve {
        let preferred = preferred_by(Some(found), update);
        let (answers, fuel) = choose|answers: Seq<Answer>, fuel: nat|
            match (
                #[trigger] resolution(projects, registry, preferred, cutoff, overrides, answers, fuel),
                Ok::<Chosen, Error>(chosen),
            ) {
                (Some(Ok((lock, unused))), Ok(chosen)) => chosen.lock@ == lock && !chosen.pnpm_only
                    && chosen.unused_overrides.deep_view() == unused,
                (Some(Err(problem)), Err(error)) => error@ == problem,
                _ => false,
            };
        assert forall|id: Text| #[trigger]
            found.packages.contains_key(id) && !update.covers(found.packages[id].name) implies preferred.contains(
            (found.packages[id].name, found.packages[id].version),
        ) by {
            locked_versions_are_preferred(found, update, found.packages[id].name, found.packages[id].version);
        }
        assert(resolution(projects, registry, preferred, cutoff, overrides, answers, fuel) is Some);
    }
}

} // verus!
