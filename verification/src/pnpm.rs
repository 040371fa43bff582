//! Lockfiles of pnpm.
use vstd::prelude::*;
use vstd::string::*;

use crate::dict::{sorted, sorted_properties, taken_one_more, Dict, Duplicate, Names};
use crate::error::Error;
use crate::lock::{
    cycles, find_cycles, lock_fault, validate, Importer, ImporterView, Lock, LockView, Package, PackageView, Patch,
    PatchView, Specifiers, SpecifiersView, VERSION,
};
use crate::registry::{fetched_view, Packument, PackumentView, Registry, DEFAULT_REGISTRY};
use crate::resolve::{cut_version, split_version, versions_are_split};
use crate::text::{
    cat, cat3, cat4, cat5, cut_at_first, cut_at_last, cuts_give_parts, find, same, split_once, split_once_last,
    starts_with, strip_prefix, Text,
};

verus! {

/// The name of pnpm's lockfile.
pub const LOCKFILE: &'static str = "pnpm-lock.yaml";

/// What marks a runtime rather than a package.
pub const RUNTIME: &'static str = "runtime:";

/// A lockfile of pnpm.
#[derive(Debug, PartialEq, Eq)]
pub struct PnpmLock {
    pub importers: Dict<PnpmImporter>,
    pub packages: Dict<PnpmPackage>,
    pub snapshots: Dict<Snapshot>,
    pub patched_dependencies: Names,
}

/// What a `PnpmLock` means.
#[verifier::ext_equal]
pub struct PnpmLockView {
    pub importers: Map<Text, PnpmImporterView>,
    pub packages: Map<Text, PnpmPackageView>,
    pub snapshots: Map<Text, SnapshotView>,
    pub patched_dependencies: Set<Text>,
}

impl View for PnpmLock {
    type V = PnpmLockView;

    open spec fn view(&self) -> PnpmLockView {
        PnpmLockView {
            importers: self.importers.deep_view(),
            packages: self.packages.deep_view(),
            snapshots: self.snapshots.deep_view(),
            patched_dependencies: self.patched_dependencies.deep_view(),
        }
    }
}

impl DeepView for PnpmLock {
    type V = PnpmLockView;

    open spec fn deep_view(&self) -> PnpmLockView {
        self@
    }
}

impl Duplicate for PnpmLock {
    fn duplicate(&self) -> (result: Self) {
        PnpmLock {
            importers: self.importers.duplicate(),
            packages: self.packages.duplicate(),
            snapshots: self.snapshots.duplicate(),
            patched_dependencies: self.patched_dependencies.duplicate(),
        }
    }
}

/// What one project depends on.
#[derive(Debug, PartialEq, Eq)]
pub struct PnpmImporter {
    pub dependencies: Dict<Dependency>,
    pub dev_dependencies: Dict<Dependency>,
    pub optional_dependencies: Dict<Dependency>,
}

/// What a `PnpmImporter` means.
#[verifier::ext_equal]
pub struct PnpmImporterView {
    pub dependencies: Map<Text, DependencyView>,
    pub dev_dependencies: Map<Text, DependencyView>,
    pub optional_dependencies: Map<Text, DependencyView>,
}

impl View for PnpmImporter {
    type V = PnpmImporterView;

    open spec fn view(&self) -> PnpmImporterView {
        PnpmImporterView {
            dependencies: self.dependencies.deep_view(),
            dev_dependencies: self.dev_dependencies.deep_view(),
            optional_dependencies: self.optional_dependencies.deep_view(),
        }
    }
}

impl DeepView for PnpmImporter {
    type V = PnpmImporterView;

    open spec fn deep_view(&self) -> PnpmImporterView {
        self@
    }
}

impl Duplicate for PnpmImporter {
    fn duplicate(&self) -> (result: Self) {
        PnpmImporter {
            dependencies: self.dependencies.duplicate(),
            dev_dependencies: self.dev_dependencies.duplicate(),
            optional_dependencies: self.optional_dependencies.duplicate(),
        }
    }
}

/// What was asked for, and what it was resolved to.
#[derive(Debug, PartialEq, Eq)]
pub struct Dependency {
    pub specifier: String,
    pub version: String,
}

/// What a `Dependency` means.
#[verifier::ext_equal]
pub struct DependencyView {
    pub specifier: Text,
    pub version: Text,
}

impl View for Dependency {
    type V = DependencyView;

    open spec fn view(&self) -> DependencyView {
        DependencyView {
            specifier: self.specifier.deep_view(),
            version: self.version.deep_view(),
        }
    }
}

impl DeepView for Dependency {
    type V = DependencyView;

    open spec fn deep_view(&self) -> DependencyView {
        self@
    }
}

impl Duplicate for Dependency {
    fn duplicate(&self) -> (result: Self) {
        Dependency {
            specifier: self.specifier.duplicate(),
            version: self.version.duplicate(),
        }
    }
}

/// One version of a package.
#[derive(Debug, PartialEq, Eq)]
pub struct PnpmPackage {
    pub resolution: Resolution,
    pub os: Option<Vec<String>>,
    pub cpu: Option<Vec<String>>,
    pub libc: Option<Vec<String>>,
    pub has_bin: bool,
}

/// What a `PnpmPackage` means.
#[verifier::ext_equal]
pub struct PnpmPackageView {
    pub resolution: ResolutionView,
    pub os: Option<Seq<Text>>,
    pub cpu: Option<Seq<Text>>,
    pub libc: Option<Seq<Text>>,
    pub has_bin: bool,
}

impl View for PnpmPackage {
    type V = PnpmPackageView;

    open spec fn view(&self) -> PnpmPackageView {
        PnpmPackageView {
            resolution: self.resolution.deep_view(),
            os: self.os.deep_view(),
            cpu: self.cpu.deep_view(),
            libc: self.libc.deep_view(),
            has_bin: self.has_bin.deep_view(),
        }
    }
}

impl DeepView for PnpmPackage {
    type V = PnpmPackageView;

    open spec fn deep_view(&self) -> PnpmPackageView {
        self@
    }
}

impl Duplicate for PnpmPackage {
    fn duplicate(&self) -> (result: Self) {
        PnpmPackage {
            resolution: self.resolution.duplicate(),
            os: self.os.duplicate(),
            cpu: self.cpu.duplicate(),
            libc: self.libc.duplicate(),
            has_bin: self.has_bin,
        }
    }
}

/// Where a package can be downloaded.
#[derive(Debug, PartialEq, Eq)]
pub struct Resolution {
    pub integrity: Option<String>,
    pub tarball: Option<String>,
}

/// What a `Resolution` means.
#[verifier::ext_equal]
pub struct ResolutionView {
    pub integrity: Option<Text>,
    pub tarball: Option<Text>,
}

impl View for Resolution {
    type V = ResolutionView;

    open spec fn view(&self) -> ResolutionView {
        ResolutionView {
            integrity: self.integrity.deep_view(),
            tarball: self.tarball.deep_view(),
        }
    }
}

impl DeepView for Resolution {
    type V = ResolutionView;

    open spec fn deep_view(&self) -> ResolutionView {
        self@
    }
}

impl Duplicate for Resolution {
    fn duplicate(&self) -> (result: Self) {
        Resolution {
            integrity: self.integrity.duplicate(),
            tarball: self.tarball.duplicate(),
        }
    }
}

/// What an instance of a package depends on.
#[derive(Debug, PartialEq, Eq)]
pub struct Snapshot {
    pub dependencies: Dict<String>,
    pub optional_dependencies: Dict<String>,
}

/// What a `Snapshot` means.
#[verifier::ext_equal]
pub struct SnapshotView {
    pub dependencies: Map<Text, Text>,
    pub optional_dependencies: Map<Text, Text>,
}

impl View for Snapshot {
    type V = SnapshotView;

    open spec fn view(&self) -> SnapshotView {
        SnapshotView {
            dependencies: self.dependencies.deep_view(),
            optional_dependencies: self.optional_dependencies.deep_view(),
        }
    }
}

impl DeepView for Snapshot {
    type V = SnapshotView;

    open spec fn deep_view(&self) -> SnapshotView {
        self@
    }
}

impl Duplicate for Snapshot {
    fn duplicate(&self) -> (result: Self) {
        Snapshot {
            dependencies: self.dependencies.duplicate(),
            optional_dependencies: self.optional_dependencies.duplicate(),
        }
    }
}

/// What is wrong with the lockfile's own version, if it is given at all.
pub open spec fn version_problem(version: Option<Text>) -> Option<Text> {
    match version {
        None => Some("the lockfile has no lockfileVersion"@),
        Some(version) => if version == "9.0"@ {
            None
        } else {
            Some("lockfileVersion "@ + version + " is not supported; only 9.0 is"@)
        },
    }
}

/// What a document of a lockfile gave.
#[derive(Debug, PartialEq, Eq)]
pub enum Document {
    /// It could not be read, for this reason.
    Unreadable(String),
    /// It was read, and has this version, if it has one.
    Read(Option<String>),
}

/// What a `Document` means.
pub enum DocumentView {
    Unreadable(Text),
    Read(Option<Text>),
}

impl DeepView for Document {
    type V = DocumentView;

    open spec fn deep_view(&self) -> DocumentView {
        match self {
            Document::Unreadable(problem) => DocumentView::Unreadable(problem@),
            Document::Read(version) => DocumentView::Read(version.deep_view()),
        }
    }
}

/// What is wrong with a lockfile of these documents. Only the last one counts.
pub open spec fn documents_problem(documents: Seq<DocumentView>) -> Option<Text> {
    if documents.len() == 0 {
        Some("the lockfile is empty"@)
    } else {
        match documents.last() {
            DocumentView::Unreadable(problem) => Some(problem),
            DocumentView::Read(version) => version_problem(version),
        }
    }
}

/// Which of its documents a lockfile is read from: pnpm can write other documents before the one
/// describing the project.
pub fn project_document(documents: &Vec<Document>) -> (result: Result<usize, Error>)
    ensures
        match result {
            Ok(i) => documents_problem(documents.deep_view()) is None && i == documents@.len() - 1,
            Err(error) => documents_problem(documents.deep_view()) is Some && error@ == seq![
                documents_problem(documents.deep_view())->0,
            ],
        },
{
    let ghost all = documents.deep_view();
    assert(all.len() == documents@.len());
    let n: usize = documents.len();
    if n == 0 {
        return Err(Error::new("the lockfile is empty".to_owned()));
    }
    assert(all.last() == documents@[n - 1].deep_view());
    match &documents[n - 1] {
        Document::Unreadable(problem) => Err(Error::new(problem.clone())),
        Document::Read(None) => Err(Error::new("the lockfile has no lockfileVersion".to_owned())),
        Document::Read(Some(version)) => if same(version.as_str(), "9.0") {
            Ok(n - 1)
        } else {
            Err(Error::new(cat3("lockfileVersion ", version.as_str(), " is not supported; only 9.0 is")))
        },
    }
}

/// A package id, cut into name and version.
pub open spec fn cut_key(key: Text) -> Option<(Text, Text)> {
    match cut_version(key) {
        Some((name, version)) => if version.len() == 0 {
            None
        } else {
            Some((name, version))
        },
        None => None,
    }
}

fn split_key(key: &str) -> (result: Option<(&str, &str)>)
    ensures
        result.deep_view() == cut_key(key@),
{
    match split_version(key) {
        Some((name, version)) => if version.is_empty() {
            None
        } else {
            Some((name, version))
        },
        None => None,
    }
}

/// `id` is a runtime rather than a package.
pub open spec fn is_runtime_id(id: Text) -> bool {
    cut_key(id) is Some && "runtime:"@.is_prefix_of((cut_key(id)->0).1)
}

fn is_runtime(id: &str) -> (result: bool)
    ensures
        result == is_runtime_id(id@),
{
    match split_key(id) {
        Some((_, version)) => starts_with(version, RUNTIME),
        None => false,
    }
}

/// `a` stands in `s` before the first `b`, if there is any.
pub open spec fn comes_before(s: Text, a: char, b: char) -> bool {
    match (s.index_of_first(a), s.index_of_first(b)) {
        (Some(i), Some(j)) => i < j,
        (Some(_), None) => true,
        _ => false,
    }
}

/// The id that `reference` stands for under the name `alias`. References are versions with peer
/// suffixes, or full ids when the dependency is aliased.
pub open spec fn referred_id(alias: Text, reference: Text) -> Text {
    if "@"@.is_prefix_of(reference) || (comes_before(reference, '@', ':') && comes_before(reference, '@', '(')) {
        reference
    } else {
        alias + "@"@ + reference
    }
}

fn precedes(s: &str, a: char, b: char) -> (result: bool)
    ensures
        result == comes_before(s@, a, b),
{
    match (find(s, a), find(s, b)) {
        (Some(i), Some(j)) => i < j,
        (Some(_), None) => true,
        _ => false,
    }
}

fn dep_path(alias: &str, reference: &str) -> (result: String)
    ensures
        result@ == referred_id(alias@, reference@),
{
    if starts_with(reference, "@") || (precedes(reference, '@', ':') && precedes(reference, '@', '(')) {
        reference.to_owned()
    } else {
        cat3(alias, "@", reference)
    }
}

/// A name without its scope.
pub open spec fn without_scope(name: Text) -> Text {
    match cut_at_last(name, '/') {
        Some((_, name)) => name,
        None => name,
    }
}

fn unscoped(name: &str) -> (result: &str)
    ensures
        result@ == without_scope(name@),
{
    match split_once_last(name, '/') {
        Some((_, name)) => name,
        None => name,
    }
}

/// The first of `aliases` that is a link.
pub open spec fn first_link(references: Map<Text, Text>, aliases: Seq<Text>) -> Option<Text>
    decreases aliases.len(),
{
    if aliases.len() == 0 {
        None
    } else if "link:"@.is_prefix_of(references[aliases[0]]) {
        Some(aliases[0])
    } else {
        first_link(references, aliases.skip(1))
    }
}

/// What is wrong with the dependencies of `id`.
pub open spec fn reference_problem(id: Text, references: Map<Text, Text>) -> Option<Text> {
    match first_link(references, sorted(references.dom())) {
        Some(alias) => Some(
            id + " depends on "@ + alias + " through "@ + (references[alias] + ", which is not supported yet"@),
        ),
        None => None,
    }
}

/// What dependencies lead to. Runtimes are skipped.
pub open spec fn referred_ids(references: Map<Text, Text>) -> Map<Text, Text> {
    Map::new(
        |alias: Text| references.contains_key(alias) && !is_runtime_id(referred_id(alias, references[alias])),
        |alias: Text| referred_id(alias, references[alias]),
    )
}

fn dep_paths(id: &str, references: &Dict<String>) -> (result: Result<Dict<String>, String>)
    ensures
        match result {
            Ok(paths) => reference_problem(id@, references@) is None && paths@ == referred_ids(references@),
            Err(problem) => reference_problem(id@, references@) == Some(problem@),
        },
{
    let mut paths: Dict<String> = Dict::new();
    let n: usize = references.len();
    let ghost aliases = sorted(references@.dom());
    let ghost all = referred_ids(references@);
    proof {
        sorted_properties(references@.dom());
        assert(aliases.skip(0) =~= aliases);
        assert(paths@ =~= all.restrict(aliases.take(0).to_set()));
    }
    let mut i: usize = 0;
    while i < n
        invariant
            i <= n,
            n == aliases.len(),
            aliases == sorted(references@.dom()),
            all == referred_ids(references@),
            forall|x: Text| #[trigger] aliases.contains(x) == references@.dom().contains(x),
            first_link(references@, aliases) == first_link(references@, aliases.skip(i as int)),
            paths@ == all.restrict(aliases.take(i as int).to_set()),
        decreases n - i,
    {
        let alias = references.key(i);
        let reference = references.value(i);
        proof {
            assert(aliases.skip(i as int)[0] == alias@);
            assert(aliases.skip(i as int).skip(1) =~= aliases.skip(i + 1));
            taken_one_more(aliases, i as int);
        }
        if starts_with(reference.as_str(), "link:") {
            return Err(
                cat5(
                    id,
                    " depends on ",
                    alias.as_str(),
                    " through ",
                    cat(reference.as_str(), ", which is not supported yet").as_str(),
                ),
            );
        }
        let path = dep_path(alias.as_str(), reference.as_str());
        if !is_runtime(path.as_str()) {
            paths.insert(alias.clone(), path);
        }
        assert(paths@ =~= all.restrict(aliases.take(i + 1).to_set()));
        i += 1;
    }
    proof {
        assert(aliases.take(i as int) =~= aliases);
        assert forall|x: Text| all.contains_key(x) implies aliases.to_set().contains(x) by {
            assert(aliases.contains(x));
        }
        assert(paths@ =~= all);
    }
    Ok(paths)
}

/// The key in `packages` of a snapshot: its id without peers.
pub open spec fn package_key(id: Text) -> Text {
    match cut_at_first(id, '(') {
        Some((key, _)) => key,
        None => id,
    }
}

/// Where a package can be downloaded.
pub open spec fn package_url(key: Text, resolution: ResolutionView) -> Text {
    let (name, version) = cut_key(key)->0;
    match resolution.tarball {
        Some(url) => url,
        None => "https://registry.npmjs.org"@ + "/"@ + name + "/-/"@ + (without_scope(name) + "-"@ + version + ".tgz"@),
    }
}

/// A package comes from a registry.
pub open spec fn is_from_registry(resolution: ResolutionView) -> bool {
    resolution.integrity is Some && (resolution.tarball is None || "https://"@.is_prefix_of(resolution.tarball->0)
        || "http://"@.is_prefix_of(resolution.tarball->0))
}

impl PnpmLockView {
    /// A snapshot is a runtime rather than a package.
    pub open spec fn is_skipped(self, id: Text) -> bool {
        is_runtime_id(package_key(id))
    }

    /// What is wrong with a snapshot.
    pub open spec fn snapshot_problem(self, id: Text) -> Option<Text> {
        let key = package_key(id);
        let snapshot = self.snapshots[id];
        if cut_key(key) is None {
            Some(id + " is not a valid package id"@)
        } else if self.is_skipped(id) {
            None
        } else if !self.packages.contains_key(key) {
            Some(id + " has no entry in packages"@)
        } else if !is_from_registry(self.packages[key].resolution) {
            Some(id + " is not from a registry, which is not supported yet"@)
        } else if reference_problem(id, snapshot.dependencies) is Some {
            reference_problem(id, snapshot.dependencies)
        } else {
            reference_problem(id, snapshot.optional_dependencies)
        }
    }

    /// What is wrong with the first of the snapshots `ids` with which anything is wrong.
    pub open spec fn first_problem(self, ids: Seq<Text>) -> Option<Text>
        decreases ids.len(),
    {
        if ids.len() == 0 {
            None
        } else {
            match self.snapshot_problem(ids[0]) {
                Some(problem) => Some(problem),
                None => self.first_problem(ids.skip(1)),
            }
        }
    }

    /// The package that a snapshot is locked as.
    pub open spec fn converted_package(self, id: Text) -> PackageView {
        let key = package_key(id);
        let entry = self.packages[key];
        PackageView {
            name: (cut_key(key)->0).0,
            version: (cut_key(key)->0).1,
            url: package_url(key, entry.resolution),
            integrity: entry.resolution.integrity->0,
            deps: referred_ids(self.snapshots[id].dependencies),
            optional_deps: referred_ids(self.snapshots[id].optional_dependencies),
            os: entry.os,
            cpu: entry.cpu,
            libc: entry.libc,
            has_bin: entry.has_bin,
            install_script: false,
            build: false,
            impure_build: false,
            build_inputs: Seq::empty(),
            patch: None,
        }
    }

    pub open spec fn converted_packages(self) -> Map<Text, PackageView> {
        Map::new(
            |id: Text| self.snapshots.contains_key(id) && !self.is_skipped(id),
            |id: Text| self.converted_package(id),
        )
    }
}

/// A dependency leads to another project.
pub open spec fn is_link(dependency: DependencyView) -> bool {
    "link:"@.is_prefix_of(dependency.version)
}

/// A dependency leads to a package.
pub open spec fn is_package(alias: Text, dependency: DependencyView) -> bool {
    !is_link(dependency) && !is_runtime_id(referred_id(alias, dependency.version))
}

/// Where the dependencies on other projects lead.
pub open spec fn converted_links(deps: Map<Text, DependencyView>) -> Map<Text, Text> {
    Map::new(
        |alias: Text| deps.contains_key(alias) && is_link(deps[alias]),
        |alias: Text| deps[alias].version.skip("link:"@.len() as int),
    )
}

/// Which packages the other dependencies lead to. Runtimes are skipped.
pub open spec fn converted_ids(deps: Map<Text, DependencyView>) -> Map<Text, Text> {
    Map::new(
        |alias: Text| deps.contains_key(alias) && is_package(alias, deps[alias]),
        |alias: Text| referred_id(alias, deps[alias].version),
    )
}

/// What the dependencies ask for.
pub open spec fn converted_specifiers(deps: Map<Text, DependencyView>) -> Map<Text, Text> {
    Map::new(
        |alias: Text| deps.contains_key(alias) && (is_link(deps[alias]) || is_package(alias, deps[alias])),
        |alias: Text| deps[alias].specifier,
    )
}

impl PnpmImporterView {
    /// The importer that this one is locked as.
    pub open spec fn converted(self) -> ImporterView {
        ImporterView {
            dependencies: converted_ids(self.dependencies),
            dev_dependencies: converted_ids(self.dev_dependencies),
            optional_dependencies: converted_ids(self.optional_dependencies),
            links: converted_links(self.dependencies).union_prefer_right(
                converted_links(self.dev_dependencies),
            ).union_prefer_right(converted_links(self.optional_dependencies)),
            specifiers: SpecifiersView {
                dependencies: converted_specifiers(self.dependencies),
                dev_dependencies: converted_specifiers(self.dev_dependencies),
                optional_dependencies: converted_specifiers(self.optional_dependencies),
            },
        }
    }
}

impl PnpmLockView {
    /// The lock that this one is converted to.
    pub open spec fn converted(self) -> LockView {
        LockView {
            version: VERSION,
            nixpkgs: None,
            node: None,
            overrides: Map::empty(),
            packages: self.converted_packages(),
            sccs: cycles(self.converted_packages()),
            importers: self.importers.map_values(|importer: PnpmImporterView| importer.converted()),
        }
    }

    /// What is wrong with this lock.
    pub open spec fn problem(self) -> Option<Text> {
        self.first_problem(sorted(self.snapshots.dom()))
    }
}

fn convert_package(pnpm: &PnpmLock, id: &str, snapshot: &Snapshot) -> (result: Result<Option<Package>, String>)
    requires
        pnpm@.snapshots.contains_key(id@),
        snapshot@ == pnpm@.snapshots[id@],
    ensures
        match result {
            Ok(None) => pnpm@.snapshot_problem(id@) is None && pnpm@.is_skipped(id@),
            Ok(Some(package)) => pnpm@.snapshot_problem(id@) is None && !pnpm@.is_skipped(id@) && package@
                == pnpm@.converted_package(id@),
            Err(problem) => pnpm@.snapshot_problem(id@) == Some(problem@),
        },
{
    let key = match split_once(id, '(') {
        Some((key, _)) => key,
        None => id,
    };
    let (name, version) = match split_key(key) {
        Some(parts) => parts,
        None => {
            return Err(cat(id, " is not a valid package id"));
        },
    };
    if starts_with(version, RUNTIME) {
        return Ok(None);
    }
    let entry = match pnpm.packages.get(key) {
        Some(entry) => entry,
        None => {
            return Err(cat(id, " has no entry in packages"));
        },
    };
    let integrity = match &entry.resolution.integrity {
        Some(integrity) => integrity.clone(),
        None => {
            return Err(cat(id, " is not from a registry, which is not supported yet"));
        },
    };
    let url = match &entry.resolution.tarball {
        None => cat5(
            DEFAULT_REGISTRY,
            "/",
            name,
            "/-/",
            cat4(unscoped(name), "-", version, ".tgz").as_str(),
        ),
        Some(url) => if starts_with(url.as_str(), "https://") || starts_with(url.as_str(), "http://") {
            url.clone()
        } else {
            return Err(cat(id, " is not from a registry, which is not supported yet"));
        },
    };
    let package = Package {
        name: name.to_owned(),
        version: version.to_owned(),
        url,
        integrity,
        deps: dep_paths(id, &snapshot.dependencies)?,
        optional_deps: dep_paths(id, &snapshot.optional_dependencies)?,
        os: entry.os.duplicate(),
        cpu: entry.cpu.duplicate(),
        libc: entry.libc.duplicate(),
        has_bin: entry.has_bin,
        install_script: false,
        build: false,
        impure_build: false,
        build_inputs: Vec::new(),
        patch: None,
    };
    proof {
        assert(package.build_inputs.deep_view() =~= Seq::<Text>::empty());
        assert(package@ =~= pnpm@.converted_package(id@));
    }
    Ok(Some(package))
}

/// Converts one group of dependencies, and takes its links over into `links`.
fn convert_group(deps: &Dict<Dependency>, links: &mut Dict<String>) -> (result: (Dict<String>, Dict<String>))
    ensures
        result.0@ == converted_ids(deps@),
        result.1@ == converted_specifiers(deps@),
        final(links)@ == old(links)@.union_prefer_right(converted_links(deps@)),
{
    let mut ids: Dict<String> = Dict::new();
    let mut specifiers: Dict<String> = Dict::new();
    let ghost first = links@;
    let ghost (all_ids, all_specifiers, all_links) = (
        converted_ids(deps@),
        converted_specifiers(deps@),
        converted_links(deps@),
    );
    let n: usize = deps.len();
    let ghost aliases = sorted(deps@.dom());
    proof {
        sorted_properties(deps@.dom());
        let none = aliases.take(0).to_set();
        assert(ids@ =~= all_ids.restrict(none));
        assert(specifiers@ =~= all_specifiers.restrict(none));
        assert(links@ =~= first.union_prefer_right(all_links.restrict(none)));
    }
    let mut i: usize = 0;
    while i < n
        invariant
            i <= n,
            n == aliases.len(),
            aliases == sorted(deps@.dom()),
            all_ids == converted_ids(deps@),
            all_specifiers == converted_specifiers(deps@),
            all_links == converted_links(deps@),
            ids@ == all_ids.restrict(aliases.take(i as int).to_set()),
            specifiers@ == all_specifiers.restrict(aliases.take(i as int).to_set()),
            links@ == first.union_prefer_right(all_links.restrict(aliases.take(i as int).to_set())),
        decreases n - i,
    {
        let alias = deps.key(i);
        let dependency = deps.value(i);
        proof {
            taken_one_more(aliases, i as int);
        }
        match strip_prefix(dependency.version.as_str(), "link:") {
            Some(target) => {
                links.insert(alias.clone(), target.to_owned());
                specifiers.insert(alias.clone(), dependency.specifier.clone());
            },
            None => {
                let path = dep_path(alias.as_str(), dependency.version.as_str());
                if !is_runtime(path.as_str()) {
                    ids.insert(alias.clone(), path);
                    specifiers.insert(alias.clone(), dependency.specifier.clone());
                }
            },
        }
        proof {
            let seen = aliases.take(i + 1).to_set();
            assert(ids@ =~= all_ids.restrict(seen));
            assert(specifiers@ =~= all_specifiers.restrict(seen));
            assert(links@ =~= first.union_prefer_right(all_links.restrict(seen)));
        }
        i += 1;
    }
    proof {
        assert(aliases.take(i as int) =~= aliases);
        assert forall|x: Text| deps@.contains_key(x) implies aliases.to_set().contains(x) by {
            assert(aliases.contains(x));
        }
        assert(ids@ =~= all_ids);
        assert(specifiers@ =~= all_specifiers);
        assert(all_links.restrict(aliases.to_set()) =~= all_links);
    }
    (ids, specifiers)
}

fn convert_importer(importer: &PnpmImporter) -> (result: Importer)
    ensures
        result@ == importer@.converted(),
{
    let mut links: Dict<String> = Dict::new();
    let (dependencies, wanted) = convert_group(&importer.dependencies, &mut links);
    let ghost own = links@;
    let (dev_dependencies, dev_wanted) = convert_group(&importer.dev_dependencies, &mut links);
    let (optional_dependencies, optional_wanted) = convert_group(&importer.optional_dependencies, &mut links);
    let result = Importer {
        dependencies,
        dev_dependencies,
        optional_dependencies,
        links,
        specifiers: Specifiers {
            dependencies: wanted,
            dev_dependencies: dev_wanted,
            optional_dependencies: optional_wanted,
        },
    };
    proof {
        assert(own =~= converted_links(importer@.dependencies));
        assert(result@.specifiers =~= importer@.converted().specifiers);
        assert(result@ =~= importer@.converted());
    }
    result
}

/// Converts a lockfile of pnpm. Leaves `install_script` unset, since pnpm lockfiles do not record it.
pub fn convert(pnpm: &PnpmLock) -> (result: Result<Lock, Error>)
    ensures
        match result {
            Ok(lock) => pnpm@.problem() is None && lock@ == pnpm@.converted(),
            Err(error) => pnpm@.problem() is Some && error@ == seq![pnpm@.problem()->0],
        },
{
    let mut packages: Dict<Package> = Dict::new();
    let n: usize = pnpm.snapshots.len();
    let ghost ids = sorted(pnpm@.snapshots.dom());
    let ghost all = pnpm@.converted_packages();
    proof {
        sorted_properties(pnpm@.snapshots.dom());
        assert(ids.skip(0) =~= ids);
        assert(packages@ =~= all.restrict(ids.take(0).to_set()));
    }
    let mut i: usize = 0;
    while i < n
        invariant
            i <= n,
            n == ids.len(),
            ids == sorted(pnpm@.snapshots.dom()),
            all == pnpm@.converted_packages(),
            pnpm@.first_problem(ids) == pnpm@.first_problem(ids.skip(i as int)),
            packages@ == all.restrict(ids.take(i as int).to_set()),
        decreases n - i,
    {
        let id = pnpm.snapshots.key(i);
        proof {
            assert(ids.skip(i as int)[0] == id@);
            assert(ids.skip(i as int).skip(1) =~= ids.skip(i + 1));
            taken_one_more(ids, i as int);
        }
        match convert_package(pnpm, id.as_str(), pnpm.snapshots.value(i)) {
            Ok(Some(package)) => {
                packages.insert(id.clone(), package);
            },
            Ok(None) => {},
            Err(problem) => {
                return Err(Error::new(problem));
            },
        }
        assert(packages@ =~= all.restrict(ids.take(i + 1).to_set()));
        i += 1;
    }
    proof {
        assert(ids.take(i as int) =~= ids);
        assert forall|x: Text| all.contains_key(x) implies ids.to_set().contains(x) by {
            assert(ids.contains(x));
        }
        assert(packages@ =~= all);
    }
    let mut importers: Dict<Importer> = Dict::new();
    let m: usize = pnpm.importers.len();
    let ghost paths = sorted(pnpm@.importers.dom());
    let ghost expected = pnpm@.importers.map_values(|importer: PnpmImporterView| importer.converted());
    proof {
        sorted_properties(pnpm@.importers.dom());
        assert(importers@ =~= expected.restrict(paths.take(0).to_set()));
    }
    let mut k: usize = 0;
    while k < m
        invariant
            k <= m,
            m == paths.len(),
            paths == sorted(pnpm@.importers.dom()),
            expected == pnpm@.importers.map_values(|importer: PnpmImporterView| importer.converted()),
            importers@ == expected.restrict(paths.take(k as int).to_set()),
        decreases m - k,
    {
        proof {
            taken_one_more(paths, k as int);
        }
        importers.insert(pnpm.importers.key(k).clone(), convert_importer(pnpm.importers.value(k)));
        assert(importers@ =~= expected.restrict(paths.take(k + 1).to_set()));
        k += 1;
    }
    proof {
        assert(paths.take(k as int) =~= paths);
        assert forall|x: Text| expected.contains_key(x) implies paths.to_set().contains(x) by {
            assert(paths.contains(x));
        }
        assert(importers@ =~= expected);
    }
    let lock = Lock {
        version: VERSION,
        nixpkgs: None,
        node: None,
        overrides: Dict::new(),
        sccs: find_cycles(&packages),
        packages,
        importers,
    };
    assert(lock@ =~= pnpm@.converted());
    Ok(lock)
}

/// The ids of what is left out of the conversion, because it is a runtime rather than a package.
pub fn skipped_runtimes(pnpm: &PnpmLock) -> (result: Names)
    ensures
        result@ == pnpm@.snapshots.dom().filter(|id: Text| pnpm@.is_skipped(id)),
{
    let ghost skipped = |id: Text| pnpm@.is_skipped(id);
    let mut result = Names::new();
    let n: usize = pnpm.snapshots.len();
    let ghost ids = sorted(pnpm@.snapshots.dom());
    proof {
        sorted_properties(pnpm@.snapshots.dom());
        assert(result@ =~= ids.take(0).to_set().filter(skipped));
    }
    let mut i: usize = 0;
    while i < n
        invariant
            i <= n,
            n == ids.len(),
            ids == sorted(pnpm@.snapshots.dom()),
            skipped == (|id: Text| pnpm@.is_skipped(id)),
            result@ == ids.take(i as int).to_set().filter(skipped),
        decreases n - i,
    {
        proof {
            taken_one_more(ids, i as int);
        }
        let id = pnpm.snapshots.key(i);
        let key = match split_once(id.as_str(), '(') {
            Some((key, _)) => key,
            None => id.as_str(),
        };
        if is_runtime(key) {
            result.insert(id.clone());
        }
        assert(result@ =~= ids.take(i + 1).to_set().filter(skipped));
        i += 1;
    }
    proof {
        assert(ids.take(i as int) =~= ids);
        assert(ids.to_set() =~= pnpm@.snapshots.dom());
    }
    result
}

/// A reference that names no package is a version of the one that it stands under, with or without
/// peers. One that names a package, which may be scoped, is an id of that package.
pub proof fn references_lead_to_ids(alias: Text, name: Text, version: Text)
    requires
        !version.contains('@'),
        !name.contains('@') && !name.contains(':') && !name.contains('('),
    ensures
        referred_id(alias, version) == alias + "@"@ + version,
        referred_id(alias, "@"@ + name + "@"@ + version) == "@"@ + name + "@"@ + version,
        referred_id(alias, name + "@"@ + version) == name + "@"@ + version,
{
    reveal_strlit("@");
    let scoped = "@"@ + name + "@"@ + version;
    assert(scoped.subrange(0, 1) =~= "@"@);
    assert(!"@"@.is_prefix_of(version)) by {
        if "@"@.is_prefix_of(version) {
            assert(version.subrange(0, 1)[0] == version[0]);
            assert(version.contains(version[0]));
        }
    }
    version.index_of_first_ensures('@');
    let plain = name + "@"@ + version;
    let at = name.len() as int;
    assert(plain[at] == '@');
    assert(plain.contains('@'));
    plain.index_of_first_ensures('@');
    plain.index_of_first_ensures(':');
    plain.index_of_first_ensures('(');
    assert forall|i: int| 0 <= i < at implies plain[i] != '@' && plain[i] != ':' && plain[i] != '(' by {
        assert(plain[i] == name[i]);
        assert(name.contains(plain[i]));
    }
    assert(plain.index_of_first('@') == Some(at));
}

/// `id` is an id of a runtime.
pub open spec fn names_runtime(id: Text) -> bool {
    exists|name: Text, version: Text|
        id == #[trigger] (name + "@"@ + version) && name.len() > 0 && (name[0] as u32) < 0x80 && !name.skip(1).contains(
            '@',
        ) && "runtime:"@.is_prefix_of(version)
}

proof fn runtimes_are_told(id: Text)
    ensures
        is_runtime_id(id) == names_runtime(id),
{
    reveal_strlit("@");
    reveal_strlit("runtime:");
    if is_runtime_id(id) {
        let rest = id.skip(1);
        rest.index_of_first_ensures('@');
        let i = rest.index_of_first('@')->0;
        let (name, version) = cut_key(id)->0;
        assert(name.skip(1) =~= rest.take(i));
        assert forall|k: int| 0 <= k < i implies rest.take(i)[k] != '@' by {}
        assert(id =~= name + "@"@ + version);
    }
    if names_runtime(id) {
        let (name, version) = choose|name: Text, version: Text|
            id == #[trigger] (name + "@"@ + version) && name.len() > 0 && (name[0] as u32) < 0x80 && !name.skip(
                1,
            ).contains('@') && "runtime:"@.is_prefix_of(version);
        versions_are_split(name, version);
    }
}

/// Whatever an importer depends on in pnpm's lockfile, in whichever of `groups`, is in what it is
/// converted to: with what it asks for in the same group, and with the project that it is linked to or
/// in the same group with the package that it refers to. Only runtimes are left out, and nothing is
/// added. Where a name is linked in several groups, it is linked to what the optional dependencies say, or
/// else the development dependencies.
pub proof fn importers_keep_dependencies(importer: PnpmImporterView, alias: Text)
    ensures
        keeps_group(importer.dependencies, importer.converted().dependencies, importer.converted(), alias),
        keeps_group(importer.dev_dependencies, importer.converted().dev_dependencies, importer.converted(), alias),
        keeps_group(
            importer.optional_dependencies,
            importer.converted().optional_dependencies,
            importer.converted(),
            alias,
        ),
        keeps_specifier(importer.dependencies, importer.converted().specifiers.dependencies, alias),
        keeps_specifier(importer.dev_dependencies, importer.converted().specifiers.dev_dependencies, alias),
        keeps_specifier(importer.optional_dependencies, importer.converted().specifiers.optional_dependencies, alias),
        importer.converted().links.contains_key(alias) ==> {
            let path = importer.converted().links[alias];
            ||| links_to(importer.dependencies, alias, path)
            ||| links_to(importer.dev_dependencies, alias, path)
            ||| links_to(importer.optional_dependencies, alias, path)
        },
        forall|path: Text| #[trigger]
            links_to(importer.optional_dependencies, alias, path) ==> importer.converted().links[alias] == path,
        forall|path: Text| #[trigger]
            links_to(importer.dev_dependencies, alias, path) ==> importer.converted().links[alias] == path || links_to(
                importer.optional_dependencies,
                alias,
                importer.converted().links[alias],
            ),
{
    group_is_kept(importer.dependencies, alias);
    group_is_kept(importer.dev_dependencies, alias);
    group_is_kept(importer.optional_dependencies, alias);
}

proof fn group_is_kept(deps: Map<Text, DependencyView>, alias: Text)
    ensures
        deps.contains_key(alias) ==> runtime_under(deps, alias) == is_runtime_id(referred_id(alias, deps[alias].version)),
        (exists|path: Text| links_to(deps, alias, path)) == (deps.contains_key(alias) && is_link(deps[alias])),
        converted_links(deps).contains_key(alias) ==> links_to(deps, alias, converted_links(deps)[alias]),
        forall|path: Text| #[trigger]
            links_to(deps, alias, path) ==> converted_links(deps).contains_key(alias) && converted_links(deps)[alias] == path,
        converted_ids(deps).contains_key(alias) ==> !names_runtime(converted_ids(deps)[alias]),
{
    reveal_strlit("link:");
    if deps.contains_key(alias) {
        let version = deps[alias].version;
        runtimes_are_told(referred_id(alias, version));
        if is_link(deps[alias]) {
            assert(version =~= "link:"@ + version.skip("link:"@.len() as int));
            assert(links_to(deps, alias, version.skip("link:"@.len() as int)));
        }
        assert forall|path: Text| #[trigger] links_to(deps, alias, path) implies converted_links(deps).contains_key(alias)
            && converted_links(deps)[alias] == path by {
            assert(version.subrange(0, "link:"@.len() as int) =~= "link:"@);
            assert(version.skip("link:"@.len() as int) =~= path);
        }
        if exists|path: Text| links_to(deps, alias, path) {
            let path = choose|path: Text| links_to(deps, alias, path);
            assert(version.subrange(0, "link:"@.len() as int) =~= "link:"@);
        }
    }
}

/// What `deps` have under `alias` is a runtime.
pub open spec fn runtime_under(deps: Map<Text, DependencyView>, alias: Text) -> bool {
    names_runtime(referred_id(alias, deps[alias].version))
}

/// `deps` have `alias` as a link to `path`.
pub open spec fn links_to(deps: Map<Text, DependencyView>, alias: Text, path: Text) -> bool {
    deps.contains_key(alias) && deps[alias].version == "link:"@ + path
}

/// What `deps` have under `alias` is linked in `importer`, or is one of `ids`, which hold nothing else.
pub open spec fn keeps_group(
    deps: Map<Text, DependencyView>,
    ids: Map<Text, Text>,
    importer: ImporterView,
    alias: Text,
) -> bool {
    &&& (exists|path: Text| links_to(deps, alias, path)) ==> importer.links.contains_key(alias) && !ids.contains_key(
        alias,
    )
    &&& deps.contains_key(alias) && !(exists|path: Text| links_to(deps, alias, path)) && !runtime_under(
        deps,
        alias,
    ) ==> ids.contains_key(alias) && ids[alias] == referred_id(alias, deps[alias].version)
    &&& ids.contains_key(alias) ==> deps.contains_key(alias) && !names_runtime(ids[alias])
}

/// What `deps` ask for under `alias` is kept in `specifiers`, which hold nothing else, unless it is a
/// runtime.
pub open spec fn keeps_specifier(deps: Map<Text, DependencyView>, specifiers: Map<Text, Text>, alias: Text) -> bool {
    &&& deps.contains_key(alias) && ((exists|path: Text| links_to(deps, alias, path)) || !runtime_under(
        deps,
        alias,
    )) ==> specifiers.contains_key(alias) && specifiers[alias] == deps[alias].specifier
    &&& specifiers.contains_key(alias) ==> deps.contains_key(alias)
}

/// Every snapshot of version `version` of `name` in a lockfile of pnpm that can be converted, whatever
/// its peers, becomes a package under the same id, with what the lockfile says of that version and with
/// all dependencies of the snapshot but runtimes. What is a runtime becomes none, and nothing else
/// becomes a package.
pub proof fn snapshots_become_packages(lock: PnpmLockView, name: Text, version: Text, peers: Text)
    requires
        lock.snapshots.dom().finite(),
        lock.problem() is None,
        lock.snapshots.contains_key(name + "@"@ + version + peers),
        name.len() > 0 && (name[0] as u32) < 0x80 && !name.skip(1).contains('@'),
        version.len() > 0,
        !(name + "@"@ + version).contains('('),
        peers.len() == 0 || peers[0] == '(',
    ensures
        ({
            let key = name + "@"@ + version;
            let id = key + peers;
            let packages = lock.converted().packages;
            &&& packages.contains_key(id) <==> !"runtime:"@.is_prefix_of(version)
            &&& packages.contains_key(id) ==> {
                let (package, entry, snapshot) = (packages[id], lock.packages[key], lock.snapshots[id]);
                &&& lock.packages.contains_key(key)
                &&& package.name == name
                &&& package.version == version
                &&& Some(package.integrity) == entry.resolution.integrity
                &&& entry.resolution.tarball is Some ==> package.url == entry.resolution.tarball->0
                &&& package.os == entry.os && package.cpu == entry.cpu && package.libc == entry.libc
                &&& package.has_bin == entry.has_bin
                &&& !package.build && !package.impure_build && package.patch is None
                &&& leads_where_references_do(snapshot.dependencies, package.deps)
                &&& leads_where_references_do(snapshot.optional_dependencies, package.optional_deps)
            }
        }),
        forall|id: Text| #[trigger] lock.converted().packages.contains_key(id) ==> lock.snapshots.contains_key(id),
        lock.converted().importers.dom() == lock.importers.dom(),
{
    let key = name + "@"@ + version;
    let id = key + peers;
    versions_are_split(name, version);
    runtimes_are_told(key);
    assert(package_key(id) == key) by {
        if peers.len() > 0 {
            let rest = peers.skip(1);
            cuts_give_parts(key, rest, '(');
            assert(id =~= key + seq!['('] + rest);
        } else {
            cuts_give_parts(key, key, '(');
            assert(id =~= key);
        }
    }
    let ids = sorted(lock.snapshots.dom());
    sorted_properties(lock.snapshots.dom());
    assert(ids.contains(id));
    no_snapshot_problem(lock, ids, ids.index_of(id));
    assert(lock.snapshot_problem(id) is None);
    references_are_followed(lock.snapshots[id].dependencies);
    references_are_followed(lock.snapshots[id].optional_dependencies);
    assert(lock.converted().importers.dom() =~= lock.importers.dom());
}

/// `ids` are what `references` stand for, but for runtimes.
pub open spec fn leads_where_references_do(references: Map<Text, Text>, ids: Map<Text, Text>) -> bool {
    &&& forall|alias: Text| #[trigger]
        references.contains_key(alias) && !names_runtime(referred_id(alias, references[alias])) ==> ids.contains_key(alias)
    &&& forall|alias: Text| #[trigger]
        ids.contains_key(alias) ==> references.contains_key(alias) && ids[alias] == referred_id(
            alias,
            references[alias],
        ) && !names_runtime(ids[alias])
}

proof fn references_are_followed(references: Map<Text, Text>)
    ensures
        leads_where_references_do(references, referred_ids(references)),
{
    assert forall|alias: Text| references.contains_key(alias) implies #[trigger] referred_ids(references).contains_key(
        alias,
    ) == !names_runtime(referred_id(alias, references[alias])) by {
        runtimes_are_told(referred_id(alias, references[alias]));
    }
}

proof fn no_snapshot_problem(lock: PnpmLockView, ids: Seq<Text>, i: int)
    requires
        lock.first_problem(ids) is None,
        0 <= i < ids.len(),
    ensures
        lock.snapshot_problem(ids[i]) is None,
    decreases ids.len(),
{
    if i > 0 {
        no_snapshot_problem(lock, ids.skip(1), i - 1);
    }
}

/// The first of the patches that pnpm applied which is not among `patches`.
pub open spec fn first_unpatched(keys: Seq<Text>, patches: Map<Text, PatchView>) -> Option<Text>
    decreases keys.len(),
{
    if keys.len() == 0 {
        None
    } else if !patches.contains_key(keys[0]) {
        Some(keys[0])
    } else {
        first_unpatched(keys.skip(1), patches)
    }
}

/// What comes of the lockfile at `path` where `patches` are configured.
pub open spec fn imported(path: Text, pnpm: PnpmLockView, patches: Map<Text, PatchView>) -> Result<
    LockView,
    Seq<Text>,
> {
    match first_unpatched(sorted(pnpm.patched_dependencies), patches) {
        Some(key) => Err(
            seq![
                key + " is patched in "@ + "pnpm-lock.yaml"@
                    + ", but not in patchedDependencies of pnpm-workspace.yaml or hinata.patchedDependencies in package.json"@,
            ],
        ),
        None => match pnpm.problem() {
            Some(problem) => Err(seq!["parsing "@ + path, problem]),
            None => match lock_fault(pnpm.converted()) {
                Some(fault) => Err(seq!["parsing "@ + path, fault]),
                None => Ok(pnpm.converted()),
            },
        },
    }
}

/// Converts the lockfile of pnpm at `path`, if there is one, and validates it. Patches configured only where hinata
/// does not look would otherwise be silently skipped.
pub fn read(path: &str, pnpm: Option<&PnpmLock>, patches: &Dict<Patch>) -> (result: Result<Option<Lock>, Error>)
    ensures
        match (pnpm, result) {
            (None, Ok(None)) => true,
            (Some(pnpm), Ok(Some(lock))) => imported(path@, pnpm@, patches@) == Ok::<LockView, Seq<Text>>(lock@),
            (Some(pnpm), Err(error)) => imported(path@, pnpm@, patches@) == Err::<LockView, Seq<Text>>(error@),
            _ => false,
        },
{
    let source = match pnpm {
        Some(source) => source,
        None => {
            return Ok(None);
        },
    };
    let n: usize = source.patched_dependencies.len();
    let ghost keys = sorted(source@.patched_dependencies);
    let mut i: usize = 0;
    assert(keys.skip(0) =~= keys);
    while i < n
        invariant
            i <= n,
            n == keys.len(),
            pnpm == Some(source),
            keys == sorted(source@.patched_dependencies),
            first_unpatched(keys, patches@) == first_unpatched(keys.skip(i as int), patches@),
        decreases n - i,
    {
        let key = source.patched_dependencies.at(i);
        assert(keys.skip(i as int)[0] == key@);
        assert(keys.skip(i as int).skip(1) =~= keys.skip(i + 1));
        if !patches.contains_key(key.as_str()) {
            return Err(
                Error::new(
                    cat4(
                        key.as_str(),
                        " is patched in ",
                        LOCKFILE,
                        ", but not in patchedDependencies of pnpm-workspace.yaml or hinata.patchedDependencies in package.json",
                    ),
                ),
            );
        }
        i += 1;
    }
    let checked = match convert(source) {
        Ok(lock) => match validate(&lock) {
            Ok(()) => Ok(lock),
            Err(error) => Err(error),
        },
        Err(error) => Err(error),
    };
    match checked {
        Ok(lock) => Ok(Some(lock)),
        Err(error) => {
            let ghost problem = error@;
            let error = error.within(cat("parsing ", path));
            assert(error@ =~= seq!["parsing "@ + path@, problem[0]]);
            Err(error)
        },
    }
}

/// `deps` without runtimes.
pub open spec fn packages_only(deps: Map<Text, Text>) -> Map<Text, Text> {
    Map::new(
        |alias: Text| deps.contains_key(alias) && !"runtime:"@.is_prefix_of(deps[alias]),
        |alias: Text| deps[alias],
    )
}

/// `specifiers` without runtimes.
pub open spec fn specifiers_of_packages(specifiers: SpecifiersView) -> SpecifiersView {
    SpecifiersView {
        dependencies: packages_only(specifiers.dependencies),
        dev_dependencies: packages_only(specifiers.dev_dependencies),
        optional_dependencies: packages_only(specifiers.optional_dependencies),
    }
}

fn retain_packages(deps: &Dict<String>) -> (result: Dict<String>)
    ensures
        result@ == packages_only(deps@),
{
    let mut result: Dict<String> = Dict::new();
    let ghost all = packages_only(deps@);
    let n: usize = deps.len();
    let ghost keys = sorted(deps@.dom());
    proof {
        sorted_properties(deps@.dom());
        assert(result@ =~= all.restrict(keys.take(0).to_set()));
    }
    let mut i: usize = 0;
    while i < n
        invariant
            i <= n,
            n == keys.len(),
            keys == sorted(deps@.dom()),
            all == packages_only(deps@),
            result@ == all.restrict(keys.take(i as int).to_set()),
        decreases n - i,
    {
        proof {
            taken_one_more(keys, i as int);
        }
        if !starts_with(deps.value(i).as_str(), RUNTIME) {
            result.insert(deps.key(i).clone(), deps.value(i).clone());
        }
        assert(result@ =~= all.restrict(keys.take(i + 1).to_set()));
        i += 1;
    }
    proof {
        assert(keys.take(i as int) =~= keys);
        assert forall|x: Text| all.contains_key(x) implies keys.to_set().contains(x) by {
            assert(keys.contains(x));
        }
        assert(result@ =~= all);
    }
    result
}

/// Runtimes are skipped when converting, and pnpm records them even when package.json does not list
/// them as dependencies.
pub fn without_runtimes(specifiers: &Specifiers) -> (result: Specifiers)
    ensures
        result@ == specifiers_of_packages(specifiers@),
{
    Specifiers {
        dependencies: retain_packages(&specifiers.dependencies),
        dev_dependencies: retain_packages(&specifiers.dev_dependencies),
        optional_dependencies: retain_packages(&specifiers.optional_dependencies),
    }
}

/// The names of packages.
pub open spec fn package_names(packages: Map<Text, PackageView>) -> Set<Text> {
    packages.dom().map(|id: Text| packages[id].name)
}

/// `packument` has all versions of `name` that are locked.
pub open spec fn is_complete(packages: Map<Text, PackageView>, name: Text, packument: PackumentView) -> bool {
    forall|id: Text| #[trigger]
        packages.contains_key(id) && packages[id].name == name ==> packument.versions.contains_key(packages[id].version)
}

/// What the cache holds of `names` that is complete.
pub open spec fn complete_packuments(
    packages: Map<Text, PackageView>,
    names: Seq<Text>,
    cached: Seq<Option<PackumentView>>,
) -> Map<Text, PackumentView>
    decreases names.len(),
{
    if names.len() == 0 {
        Map::empty()
    } else {
        let i = names.len() - 1;
        let before = complete_packuments(packages, names.drop_last(), cached);
        if i < cached.len() && cached[i] is Some && is_complete(packages, names[i], cached[i]->0) {
            before.insert(names[i], cached[i]->0)
        } else {
            before
        }
    }
}

/// The ones of `names` for which the cache holds nothing that is complete.
pub open spec fn outdated_names(
    packages: Map<Text, PackageView>,
    names: Seq<Text>,
    cached: Seq<Option<PackumentView>>,
) -> Seq<Text>
    decreases names.len(),
{
    if names.len() == 0 {
        Seq::empty()
    } else {
        let i = names.len() - 1;
        let before = outdated_names(packages, names.drop_last(), cached);
        if i < cached.len() && cached[i] is Some && is_complete(packages, names[i], cached[i]->0) {
            before
        } else {
            before.push(names[i])
        }
    }
}

/// `packuments` with what was fetched for `names`.
pub open spec fn with_answers(
    packuments: Map<Text, PackumentView>,
    names: Seq<Text>,
    fetched: Seq<PackumentView>,
) -> Map<Text, PackumentView>
    decreases names.len(),
{
    if names.len() == 0 || fetched.len() == 0 {
        packuments
    } else {
        with_answers(packuments.insert(names[0], fetched[0]), names.skip(1), fetched.skip(1))
    }
}

/// What prevents telling whether the package `id` has install scripts.
pub open spec fn script_problem(
    packuments: Map<Text, PackumentView>,
    id: Text,
    package: PackageView,
) -> Option<Text> {
    if !packuments.contains_key(package.name) {
        Some("the registry gave no answer for "@ + package.name)
    } else if !packuments[package.name].versions.contains_key(package.version) {
        Some(id + " is not in the registry"@)
    } else {
        None
    }
}

/// `packages` with their install scripts filled in, as far as that succeeds, and what stopped it.
pub open spec fn with_scripts(
    packuments: Map<Text, PackumentView>,
    packages: Map<Text, PackageView>,
    ids: Seq<Text>,
) -> (Map<Text, PackageView>, Option<Text>)
    decreases ids.len(),
{
    if ids.len() == 0 {
        (packages, None)
    } else {
        let package = packages[ids[0]];
        match script_problem(packuments, ids[0], package) {
            Some(problem) => (packages, Some(problem)),
            None => with_scripts(
                packuments,
                packages.insert(
                    ids[0],
                    PackageView {
                        install_script: packuments[package.name].versions[package.version].install_script,
                        ..package
                    },
                ),
                ids.skip(1),
            ),
        }
    }
}

/// The packages with their install scripts filled in, and what stopped that, if `registry` may give
/// these answers.
pub open spec fn filled_packages<R: Registry>(
    registry: R,
    packages: Map<Text, PackageView>,
    cached: Seq<Option<PackumentView>>,
    fetched: Result<Seq<PackumentView>, Seq<Text>>,
) -> Option<(Map<Text, PackageView>, Option<Seq<Text>>)> {
    let names = sorted(package_names(packages));
    let complete = complete_packuments(packages, names, cached);
    let outdated = outdated_names(packages, names, cached);
    let ids = sorted(packages.dom());
    if !registry.may_cache(names, cached) {
        None
    } else if outdated.len() == 0 {
        let (filled, problem) = with_scripts(complete, packages, ids);
        Some((filled, if let Some(problem) = problem { Some(seq![problem]) } else { None }))
    } else if !registry.may_fetch(outdated, fetched) {
        None
    } else {
        match fetched {
            Err(problem) => Some((packages, Some(problem))),
            Ok(fetched) => {
                let (filled, problem) = with_scripts(with_answers(complete, outdated, fetched), packages, ids);
                Some((filled, if let Some(problem) = problem { Some(seq![problem]) } else { None }))
            },
        }
    }
}

fn names_of(packages: &Dict<Package>) -> (result: Vec<String>)
    ensures
        result.deep_view() == sorted(package_names(packages@)),
{
    let mut names = Names::new();
    let n: usize = packages.len();
    let ghost ids = sorted(packages@.dom());
    let ghost name_of = |id: Text| packages@[id].name;
    proof {
        sorted_properties(packages@.dom());
        assert(names@ =~= ids.take(0).to_set().map(name_of));
    }
    let mut i: usize = 0;
    while i < n
        invariant
            i <= n,
            n == ids.len(),
            ids == sorted(packages@.dom()),
            name_of == (|id: Text| packages@[id].name),
            names@ == ids.take(i as int).to_set().map(name_of),
        decreases n - i,
    {
        let ghost before = ids.take(i as int).to_set();
        names.insert(packages.value(i).name.clone());
        proof {
            taken_one_more(ids, i as int);
            let id = ids[i as int];
            let after = before.insert(id);
            assert forall|x: Text| after.map(name_of).contains(x) == before.map(name_of).insert(name_of(id)).contains(x) by {
                if after.map(name_of).contains(x) {
                    let y = choose|y: Text| after.contains(y) && name_of(y) == x;
                    if y != id {
                        assert(before.contains(y));
                    }
                }
                if before.map(name_of).contains(x) {
                    let y = choose|y: Text| before.contains(y) && name_of(y) == x;
                    assert(after.contains(y));
                }
                if x == name_of(id) {
                    assert(after.contains(id));
                }
            }
            assert(after.map(name_of) =~= before.map(name_of).insert(name_of(id)));
        }
        i += 1;
    }
    assert(ids.take(i as int) =~= ids);
    names.to_vec()
}

fn covers(packages: &Dict<Package>, name: &str, packument: &Packument) -> (result: bool)
    ensures
        result == is_complete(packages@, name@, packument@),
{
    let n: usize = packages.len();
    let ghost ids = sorted(packages@.dom());
    proof {
        sorted_properties(packages@.dom());
    }
    let mut i: usize = 0;
    while i < n
        invariant
            i <= n,
            n == ids.len(),
            ids == sorted(packages@.dom()),
            forall|x: Text| #[trigger] ids.contains(x) == packages@.dom().contains(x),
            forall|j: int|
                0 <= j < i && packages@[#[trigger] ids[j]].name == name@ ==> packument@.versions.contains_key(
                    packages@[ids[j]].version,
                ),
        decreases n - i,
    {
        let package = packages.value(i);
        assert(packages@.contains_key(ids[i as int]));
        if same(package.name.as_str(), name) && !packument.versions.contains_key(package.version.as_str()) {
            return false;
        }
        i += 1;
    }
    assert forall|id: Text| #[trigger]
        packages@.contains_key(id) && packages@[id].name == name@ implies packument@.versions.contains_key(
        packages@[id].version,
    ) by {
        assert(ids.contains(id));
        assert(ids[ids.index_of(id)] == id);
    }
    true
}

/// Fills in which packages have install scripts.
pub fn fill_install_scripts<R: Registry>(lock: &mut Lock, registry: &R) -> (result: Result<(), Error>)
    ensures
        exists|cached: Seq<Option<PackumentView>>, fetched: Result<Seq<PackumentView>, Seq<Text>>| #[trigger]
            filled_packages(*registry, old(lock)@.packages, cached, fetched) == Some(
                (
                    final(lock)@.packages,
                    match result {
                        Ok(()) => None,
                        Err(error) => Some(error@),
                    },
                ),
            ),
        final(lock)@ == (LockView { packages: final(lock)@.packages, ..old(lock)@ }),
{
    let ghost first = lock@;
    let names = names_of(&lock.packages);
    let ghost all = names.deep_view();
    let cached = registry.cached(&names);
    let ghost cached_view = cached.deep_view();
    let mut packuments: Dict<Packument> = Dict::new();
    let mut outdated: Vec<String> = Vec::new();
    let mut i: usize = 0;
    assert(outdated.deep_view() =~= Seq::<Text>::empty());
    while i < names.len()
        invariant
            i <= names.len(),
            lock@ == first,
            all == names.deep_view(),
            cached_view == cached.deep_view(),
            packuments@ == complete_packuments(first.packages, all.take(i as int), cached_view),
            outdated.deep_view() == outdated_names(first.packages, all.take(i as int), cached_view),
        decreases names.len() - i,
    {
        let ghost before = outdated.deep_view();
        proof {
            assert(all.take(i + 1).drop_last() =~= all.take(i as int));
            assert(all[i as int] == names@[i as int]@);
        }
        let mut usable = false;
        if i < cached.len() {
            assert(cached_view[i as int] == cached@[i as int].deep_view());
            if let Some(packument) = &cached[i] {
                if covers(&lock.packages, names[i].as_str(), packument) {
                    packuments.insert(names[i].clone(), packument.duplicate());
                    usable = true;
                }
            }
        }
        if !usable {
            outdated.push(names[i].clone());
            assert(outdated.deep_view() =~= before.push(all[i as int]));
        }
        i += 1;
    }
    assert(all.take(i as int) =~= all);
    let ghost mut fetched_answer: Result<Seq<PackumentView>, Seq<Text>> = Err(Seq::empty());
    let ghost complete = packuments@;
    let ghost asked = outdated.deep_view();
    if outdated.len() > 0 {
        let outcome = registry.fetch(&outdated);
        proof {
            fetched_answer = fetched_view(outcome);
        }
        match outcome {
            Err(error) => {
                assert(filled_packages(*registry, first.packages, cached_view, fetched_answer) == Some(
                    (first.packages, Some(error@)),
                ));
                return Err(error);
            },
            Ok(fetched) => {
                let ghost given = fetched.deep_view();
                let mut k: usize = 0;
                assert(asked.skip(0) =~= asked && given.skip(0) =~= given);
                while k < outdated.len() && k < fetched.len()
                    invariant
                        k <= outdated.len(),
                        k <= fetched.len(),
                        asked == outdated.deep_view(),
                        given == fetched.deep_view(),
                        with_answers(complete, asked, given) == with_answers(
                            packuments@,
                            asked.skip(k as int),
                            given.skip(k as int),
                        ),
                    decreases outdated.len() - k,
                {
                    assert(asked.skip(k as int).skip(1) =~= asked.skip(k + 1));
                    assert(given.skip(k as int).skip(1) =~= given.skip(k + 1));
                    packuments.insert(outdated[k].clone(), fetched[k].duplicate());
                    k += 1;
                }
                assert(packuments@ == with_answers(complete, asked, given));
            },
        }
    }
    let ghost known = packuments@;
    let ghost ids = sorted(first.packages.dom());
    let n: usize = lock.packages.len();
    proof {
        sorted_properties(first.packages.dom());
        assert(ids.skip(0) =~= ids);
    }
    let mut j: usize = 0;
    while j < n
        invariant
            j <= n,
            n == ids.len(),
            first == old(lock)@,
            ids == sorted(first.packages.dom()),
            known == packuments@,
            lock@ == (LockView { packages: lock@.packages, ..first }),
            lock@.packages.dom() == first.packages.dom(),
            with_scripts(known, first.packages, ids) == with_scripts(known, lock@.packages, ids.skip(j as int)),
            asked == outdated_names(first.packages, sorted(package_names(first.packages)), cached_view),
            complete == complete_packuments(first.packages, sorted(package_names(first.packages)), cached_view),
            registry.may_cache(sorted(package_names(first.packages)), cached_view),
            asked.len() == 0 ==> known == complete,
            asked.len() > 0 ==> registry.may_fetch(asked, fetched_answer) && fetched_answer is Ok && known
                == with_answers(complete, asked, fetched_answer->Ok_0),
        decreases n - j,
    {
        let id = lock.packages.key(j).clone();
        let package = lock.packages.value(j);
        proof {
            assert(ids.skip(j as int)[0] == id@);
            assert(ids.skip(j as int).skip(1) =~= ids.skip(j + 1));
        }
        let outcome = match packuments.get(package.name.as_str()) {
            Some(packument) => match packument.versions.get(package.version.as_str()) {
                Some(release) => Ok(release.install_script),
                None => Err(cat(id.as_str(), " is not in the registry")),
            },
            None => Err(cat("the registry gave no answer for ", package.name.as_str())),
        };
        let install_script = match outcome {
            Ok(install_script) => install_script,
            Err(problem) => {
                assert(with_scripts(known, first.packages, ids) == (lock@.packages, Some(problem@)));
                assert(filled_packages(*registry, first.packages, cached_view, fetched_answer) == Some(
                    (lock@.packages, Some(seq![problem@])),
                ));
                return Err(Error::new(problem));
            },
        };
        let ghost here = lock@.packages;
        if let Some(mut package) = lock.packages.remove(id.as_str()) {
            package.install_script = install_script;
            lock.packages.insert(id, package);
        }
        proof {
            let package = here[id@];
            let updated = PackageView { install_script, ..package };
            assert(lock@.packages =~= here.insert(id@, updated));
            assert(lock@.packages.dom() =~= first.packages.dom());
        }
        j += 1;
    }
    assert(ids.skip(j as int) =~= Seq::<Text>::empty());
    assert(filled_packages(*registry, first.packages, cached_view, fetched_answer) == Some(
        (lock@.packages, None::<Seq<Text>>),
    ));
    Ok(())
}

/// Whether a package has install scripts is filled in as the registry has it, for each of `ids`, and
/// nothing else changes. Where that stops, something is missing of one of them.
pub proof fn scripts_are_filled(
    packuments: Map<Text, PackumentView>,
    packages: Map<Text, PackageView>,
    ids: Seq<Text>,
)
    requires
        ids.no_duplicates(),
        forall|i: int| 0 <= i < ids.len() ==> packages.contains_key(#[trigger] ids[i]),
    ensures
        ({
            let (filled, problem) = with_scripts(packuments, packages, ids);
            &&& filled.dom() == packages.dom()
            &&& forall|id: Text| #[trigger]
                packages.contains_key(id) ==> filled[id] == (PackageView {
                    install_script: filled[id].install_script,
                    ..packages[id]
                })
            &&& forall|id: Text| #[trigger] packages.contains_key(id) && !ids.contains(id) ==> filled[id] == packages[id]
            &&& problem is None ==> forall|i: int|
                0 <= i < ids.len() ==> {
                    let package = packages[#[trigger] ids[i]];
                    &&& packuments.contains_key(package.name)
                    &&& packuments[package.name].versions.contains_key(package.version)
                    &&& filled[ids[i]].install_script
                        == packuments[package.name].versions[package.version].install_script
                }
            &&& problem is Some ==> exists|i: int|
                0 <= i < ids.len() && !(packuments.contains_key(packages[#[trigger] ids[i]].name)
                    && packuments[packages[ids[i]].name].versions.contains_key(packages[ids[i]].version))
        }),
    decreases ids.len(),
{
    if ids.len() > 0 {
        let first = ids[0];
        let rest = ids.skip(1);
        let package = packages[first];
        assert(packages.contains_key(ids[0]));
        assert forall|i: int| 0 <= i < rest.len() implies #[trigger] rest[i] == ids[i + 1] && rest[i] != first by {}
        if script_problem(packuments, first, package) is None {
            let more = packages.insert(
                first,
                PackageView {
                    install_script: packuments[package.name].versions[package.version].install_script,
                    ..package
                },
            );
            assert(more.dom() =~= packages.dom());
            assert forall|i: int| 0 <= i < rest.len() implies more.contains_key(#[trigger] rest[i]) by {
                assert(packages.contains_key(ids[i + 1]));
            }
            scripts_are_filled(packuments, more, rest);
            let (filled, problem) = with_scripts(packuments, packages, ids);
            assert(!rest.contains(first));
            assert(more.contains_key(first));
            assert forall|id: Text| #[trigger] packages.contains_key(id) implies filled[id] == (PackageView {
                install_script: filled[id].install_script,
                ..packages[id]
            }) by {
                assert(more.contains_key(id));
            }
            assert forall|id: Text| #[trigger] packages.contains_key(id) && !ids.contains(id) implies filled[id]
                == packages[id] by {
                assert(ids.contains(first));
                if rest.contains(id) {
                    assert(ids[rest.index_of(id) + 1] == id);
                }
                assert(more.contains_key(id));
            }
            if problem is None {
                assert forall|i: int| 0 <= i < ids.len() implies {
                    let package = packages[#[trigger] ids[i]];
                    &&& packuments.contains_key(package.name)
                    &&& packuments[package.name].versions.contains_key(package.version)
                    &&& filled[ids[i]].install_script
                        == packuments[package.name].versions[package.version].install_script
                } by {
                    if i > 0 {
                        assert(more[rest[i - 1]] == packages[ids[i]]);
                    }
                }
            } else {
                let i = choose|i: int|
                    0 <= i < rest.len() && !(packuments.contains_key(more[#[trigger] rest[i]].name)
                        && packuments[more[rest[i]].name].versions.contains_key(more[rest[i]].version));
                assert(more[rest[i]] == packages[ids[i + 1]]);
            }
        }
    }
}

/// A packument from the cache is used only if it has all versions that are locked, and every package for
/// which there is none such is asked of the registry.
pub proof fn outdated_are_asked_for(
    packages: Map<Text, PackageView>,
    names: Seq<Text>,
    cached: Seq<Option<PackumentView>>,
)
    requires
        names.no_duplicates(),
    ensures
        forall|i: int|
            0 <= i < names.len() ==> {
                let name = #[trigger] names[i];
                let complete = complete_packuments(packages, names, cached);
                &&& complete.contains_key(name) != outdated_names(packages, names, cached).contains(name)
                &&& complete.contains_key(name) ==> i < cached.len() && cached[i] == Some(complete[name]) && forall|
                    id: Text,
                | #[trigger]
                    packages.contains_key(id) && packages[id].name == name ==> complete[name].versions.contains_key(
                        packages[id].version,
                    )
            },
        forall|name: Text|
            #![trigger complete_packuments(packages, names, cached).contains_key(name)]
            #![trigger outdated_names(packages, names, cached).contains(name)]
            (complete_packuments(packages, names, cached).contains_key(name) || outdated_names(
                packages,
                names,
                cached,
            ).contains(name)) ==> names.contains(name),
    decreases names.len(),
{
    if names.len() > 0 {
        let n = names.len() - 1;
        let shorter = names.drop_last();
        let last = names.last();
        assert forall|i: int, j: int| 0 <= i < shorter.len() && 0 <= j < shorter.len() && i != j implies shorter[i]
            != shorter[j] by {
            assert(names[i] != names[j]);
        }
        outdated_are_asked_for(packages, shorter, cached);
        let (had, has) = (
            complete_packuments(packages, shorter, cached),
            complete_packuments(packages, names, cached),
        );
        let (before, after) = (outdated_names(packages, shorter, cached), outdated_names(packages, names, cached));
        assert(!shorter.contains(last)) by {
            if shorter.contains(last) {
                assert(names[shorter.index_of(last)] != names[n]);
            }
        }
        assert(!had.contains_key(last) && !before.contains(last));
        assert forall|name: Text| before.contains(name) implies #[trigger] after.contains(name) by {
            assert(after[before.index_of(name)] == name);
        }
        assert forall|name: Text| #[trigger] after.contains(name) implies before.contains(name) || name == last by {
            let i = after.index_of(name);
            if i < before.len() {
                assert(before[i] == name);
            }
        }
        if after != before {
            assert(after[before.len() as int] == last);
        }
        assert forall|i: int| 0 <= i < names.len() implies {
            let name = #[trigger] names[i];
            &&& has.contains_key(name) != after.contains(name)
            &&& has.contains_key(name) ==> i < cached.len() && cached[i] == Some(has[name]) && forall|id: Text| #[trigger]
                packages.contains_key(id) && packages[id].name == name ==> has[name].versions.contains_key(
                    packages[id].version,
                )
        } by {
            if i < n {
                assert(shorter[i] == names[i]);
                assert(names[i] != names[n]);
            } else {
                assert(names[i] == last);
            }
        }
        assert forall|name: Text|
            #![trigger has.contains_key(name)]
            #![trigger after.contains(name)]
            (has.contains_key(name) || after.contains(name)) implies names.contains(name) by {
            if name != last {
                assert(had.contains_key(name) || before.contains(name));
                assert(shorter.contains(name));
                assert(names[shorter.index_of(name)] == name);
            } else {
                assert(names[n] == last);
            }
        }
    }
}

/// A lockfile of pnpm is only read if every patch that it was made with is configured, and what comes of
/// it is always valid.
pub proof fn imports_are_patched(path: Text, pnpm: PnpmLockView, patches: Map<Text, PatchView>, key: Text)
    requires
        pnpm.patched_dependencies.finite(),
    ensures
        imported(path, pnpm, patches) matches Ok(lock) ==> {
            &&& pnpm.patched_dependencies.contains(key) ==> patches.contains_key(key)
            &&& lock_fault(lock) is None
            &&& lock == pnpm.converted()
        },
        (forall|k: Text| #[trigger] pnpm.patched_dependencies.contains(k) ==> patches.contains_key(k))
            && pnpm.problem() is None && lock_fault(pnpm.converted()) is None ==> imported(path, pnpm, patches) is Ok,
{
    let keys = sorted(pnpm.patched_dependencies);
    sorted_properties(pnpm.patched_dependencies);
    if pnpm.patched_dependencies.contains(key) {
        assert(keys.contains(key));
        unpatched_is_found(keys, patches, keys.index_of(key));
    }
    if forall|k: Text| #[trigger] pnpm.patched_dependencies.contains(k) ==> patches.contains_key(k) {
        assert forall|i: int| 0 <= i < keys.len() implies patches.contains_key(#[trigger] keys[i]) by {
            assert(keys.contains(keys[i]));
        }
        all_are_patched(keys, patches);
    }
}

proof fn unpatched_is_found(keys: Seq<Text>, patches: Map<Text, PatchView>, i: int)
    requires
        0 <= i < keys.len(),
    ensures
        first_unpatched(keys, patches) is None ==> patches.contains_key(keys[i]),
    decreases keys.len(),
{
    if i > 0 {
        unpatched_is_found(keys.skip(1), patches, i - 1);
        assert(keys.skip(1)[i - 1] == keys[i]);
    }
}

proof fn all_are_patched(keys: Seq<Text>, patches: Map<Text, PatchView>)
    requires
        forall|i: int| 0 <= i < keys.len() ==> patches.contains_key(#[trigger] keys[i]),
    ensures
        first_unpatched(keys, patches) is None,
    decreases keys.len(),
{
    if keys.len() > 0 {
        let rest = keys.skip(1);
        assert(patches.contains_key(keys[0]));
        assert forall|i: int| 0 <= i < rest.len() implies patches.contains_key(#[trigger] rest[i]) by {
            assert(rest[i] == keys[i + 1]);
        }
        all_are_patched(rest, patches);
    }
}

/// A package of which no address is given comes from the registry, where it is found by its name, scope
/// included, and by its name without the scope and its version.
pub proof fn addresses_are_made(scope: Text, name: Text, version: Text, resolution: ResolutionView)
    requires
        name.len() > 0 && (name[0] as u32) < 0x80,
        !name.contains('@') && !name.contains('/'),
        !scope.contains('@'),
        version.len() > 0,
        resolution.tarball is None,
    ensures
        package_url(name + "@"@ + version, resolution) == "https://registry.npmjs.org"@ + "/"@ + name + "/-/"@ + (name
            + "-"@ + version + ".tgz"@),
        package_url("@"@ + scope + "/"@ + name + "@"@ + version, resolution) == "https://registry.npmjs.org"@ + "/"@ + (
        "@"@ + scope + "/"@ + name) + "/-/"@ + (name + "-"@ + version + ".tgz"@),
{
    reveal_strlit("@");
    reveal_strlit("/");
    let full = "@"@ + scope + "/"@ + name;
    assert(!name.skip(1).contains('@')) by {
        if name.skip(1).contains('@') {
            assert(name[name.skip(1).index_of('@') + 1] == '@');
        }
    }
    assert(!full.skip(1).contains('@')) by {
        let rest = full.skip(1);
        assert(rest =~= scope + "/"@ + name);
        if rest.contains('@') {
            let i = rest.index_of('@');
            if i < scope.len() {
                assert(scope[i] == '@');
            } else if i > scope.len() {
                assert(name[i - scope.len() - 1] == '@');
            }
        }
    }
    versions_are_split(name, version);
    versions_are_split(full, version);
    cuts_give_parts(name, name, '/');
    cuts_give_parts("@"@ + scope, name, '/');
    assert(full =~= "@"@ + scope + seq!['/'] + name);
}

/// A lockfile of pnpm with a package that comes from no registry, or of which nothing is said, is refused.
pub proof fn foreign_packages_are_refused(lock: PnpmLockView, name: Text, version: Text)
    requires
        lock.snapshots.dom().finite(),
        lock.snapshots.contains_key(name + "@"@ + version),
        name.len() > 0 && (name[0] as u32) < 0x80 && !name.skip(1).contains('@'),
        version.len() > 0,
        !(name + "@"@ + version).contains('('),
        !"runtime:"@.is_prefix_of(version),
        lock.packages.contains_key(name + "@"@ + version) ==> {
            let resolution = lock.packages[name + "@"@ + version].resolution;
            resolution.integrity is None || (resolution.tarball is Some && !"https://"@.is_prefix_of(
                resolution.tarball->0,
            ) && !"http://"@.is_prefix_of(resolution.tarball->0))
        },
    ensures
        lock.problem() is Some,
{
    let id = name + "@"@ + version;
    versions_are_split(name, version);
    cuts_give_parts(id, id, '(');
    assert(package_key(id) == id);
    if lock.problem() is None {
        let ids = sorted(lock.snapshots.dom());
        sorted_properties(lock.snapshots.dom());
        assert(ids.contains(id));
        no_snapshot_problem(lock, ids, ids.index_of(id));
    }
}

} // verus!
