//! The lockfile: what every package is, where it comes from and what it depends on.
use vstd::prelude::*;
use vstd::string::*;
use vstd::utf8::*;

use crate::dict::{sorted, sorted_properties, taken_one_more, Dict, Duplicate, Names};
use crate::error::{literal, quoted, Error};
use crate::graph::{components, leads, leads_from_edge, mutual, touched, walks};
use crate::json::{Json, JsonView};
use crate::text::{cat, cat4, cat5, chars, cut_at_first, cuts_give_parts, split_once, starts_with, tail, Text};

verus! {

/// The version of the lockfile's format.
pub const VERSION: u32 = 1;

/// The name of the lockfile.
pub const LOCKFILE: &'static str = "hinata.lock";

/// All that is locked.
#[derive(Debug, PartialEq, Eq)]
pub struct Lock {
    pub version: u32,
    pub nixpkgs: Option<Nixpkgs>,
    pub node: Option<Node>,
    /// The overrides these packages were resolved with, so that changing one resolves again.
    pub overrides: Dict<String>,
    pub packages: Dict<Package>,
    /// Nix derivations cannot depend on each other cyclically, so each of these groups is built as one.
    pub sccs: Vec<Vec<String>>,
    pub importers: Dict<Importer>,
}

/// What a `Lock` means.
#[verifier::ext_equal]
pub struct LockView {
    pub version: u32,
    pub nixpkgs: Option<NixpkgsView>,
    pub node: Option<NodeView>,
    pub overrides: Map<Text, Text>,
    pub packages: Map<Text, PackageView>,
    pub sccs: Seq<Seq<Text>>,
    pub importers: Map<Text, ImporterView>,
}

impl View for Lock {
    type V = LockView;

    open spec fn view(&self) -> LockView {
        LockView {
            version: self.version.deep_view(),
            nixpkgs: self.nixpkgs.deep_view(),
            node: self.node.deep_view(),
            overrides: self.overrides.deep_view(),
            packages: self.packages.deep_view(),
            sccs: self.sccs.deep_view(),
            importers: self.importers.deep_view(),
        }
    }
}

impl DeepView for Lock {
    type V = LockView;

    open spec fn deep_view(&self) -> LockView {
        self@
    }
}

impl Duplicate for Lock {
    fn duplicate(&self) -> (result: Self) {
        Lock {
            version: self.version,
            nixpkgs: self.nixpkgs.duplicate(),
            node: self.node.duplicate(),
            overrides: self.overrides.duplicate(),
            packages: self.packages.duplicate(),
            sccs: self.sccs.duplicate(),
            importers: self.importers.duplicate(),
        }
    }
}

/// One package, resolved.
#[derive(Debug, PartialEq, Eq)]
pub struct Package {
    pub name: String,
    pub version: String,
    pub url: String,
    pub integrity: String,
    pub deps: Dict<String>,
    pub optional_deps: Dict<String>,
    pub os: Option<Vec<String>>,
    pub cpu: Option<Vec<String>>,
    pub libc: Option<Vec<String>>,
    pub has_bin: bool,
    pub install_script: bool,
    pub build: bool,
    pub impure_build: bool,
    pub build_inputs: Vec<String>,
    pub patch: Option<Patch>,
}

/// What a `Package` means.
#[verifier::ext_equal]
pub struct PackageView {
    pub name: Text,
    pub version: Text,
    pub url: Text,
    pub integrity: Text,
    pub deps: Map<Text, Text>,
    pub optional_deps: Map<Text, Text>,
    pub os: Option<Seq<Text>>,
    pub cpu: Option<Seq<Text>>,
    pub libc: Option<Seq<Text>>,
    pub has_bin: bool,
    pub install_script: bool,
    pub build: bool,
    pub impure_build: bool,
    pub build_inputs: Seq<Text>,
    pub patch: Option<PatchView>,
}

impl View for Package {
    type V = PackageView;

    open spec fn view(&self) -> PackageView {
        PackageView {
            name: self.name.deep_view(),
            version: self.version.deep_view(),
            url: self.url.deep_view(),
            integrity: self.integrity.deep_view(),
            deps: self.deps.deep_view(),
            optional_deps: self.optional_deps.deep_view(),
            os: self.os.deep_view(),
            cpu: self.cpu.deep_view(),
            libc: self.libc.deep_view(),
            has_bin: self.has_bin.deep_view(),
            install_script: self.install_script.deep_view(),
            build: self.build.deep_view(),
            impure_build: self.impure_build.deep_view(),
            build_inputs: self.build_inputs.deep_view(),
            patch: self.patch.deep_view(),
        }
    }
}

impl DeepView for Package {
    type V = PackageView;

    open spec fn deep_view(&self) -> PackageView {
        self@
    }
}

impl Duplicate for Package {
    fn duplicate(&self) -> (result: Self) {
        Package {
            name: self.name.duplicate(),
            version: self.version.duplicate(),
            url: self.url.duplicate(),
            integrity: self.integrity.duplicate(),
            deps: self.deps.duplicate(),
            optional_deps: self.optional_deps.duplicate(),
            os: self.os.duplicate(),
            cpu: self.cpu.duplicate(),
            libc: self.libc.duplicate(),
            has_bin: self.has_bin,
            install_script: self.install_script,
            build: self.build,
            impure_build: self.impure_build,
            build_inputs: self.build_inputs.duplicate(),
            patch: self.patch.duplicate(),
        }
    }
}

/// The Nixpkgs that packages are built with.
#[derive(Debug, PartialEq, Eq)]
pub struct Nixpkgs {
    /// The flake reference this was locked from.
    pub from: String,
    /// Attributes for `builtins.fetchTree`.
    pub locked: Dict<Json>,
}

/// What a `Nixpkgs` means.
#[verifier::ext_equal]
pub struct NixpkgsView {
    pub from: Text,
    pub locked: Map<Text, JsonView>,
}

impl View for Nixpkgs {
    type V = NixpkgsView;

    open spec fn view(&self) -> NixpkgsView {
        NixpkgsView {
            from: self.from.deep_view(),
            locked: self.locked.deep_view(),
        }
    }
}

impl DeepView for Nixpkgs {
    type V = NixpkgsView;

    open spec fn deep_view(&self) -> NixpkgsView {
        self@
    }
}

impl Duplicate for Nixpkgs {
    fn duplicate(&self) -> (result: Self) {
        Nixpkgs {
            from: self.from.duplicate(),
            locked: self.locked.duplicate(),
        }
    }
}

/// The Node.js that packages are built and run with.
#[derive(Debug, PartialEq, Eq)]
pub struct Node {
    /// The version range this was locked for.
    pub from: String,
    /// The Nixpkgs attribute that provides it.
    pub attr: String,
    pub version: String,
}

/// What a `Node` means.
#[verifier::ext_equal]
pub struct NodeView {
    pub from: Text,
    pub attr: Text,
    pub version: Text,
}

impl View for Node {
    type V = NodeView;

    open spec fn view(&self) -> NodeView {
        NodeView {
            from: self.from.deep_view(),
            attr: self.attr.deep_view(),
            version: self.version.deep_view(),
        }
    }
}

impl DeepView for Node {
    type V = NodeView;

    open spec fn deep_view(&self) -> NodeView {
        self@
    }
}

impl Duplicate for Node {
    fn duplicate(&self) -> (result: Self) {
        Node {
            from: self.from.duplicate(),
            attr: self.attr.duplicate(),
            version: self.version.duplicate(),
        }
    }
}

/// A patch on a package.
#[derive(Debug, PartialEq, Eq)]
pub struct Patch {
    /// Relative to the lockfile.
    pub path: String,
    /// Hexadecimal SHA-256 of the patch file.
    pub hash: String,
}

/// What a `Patch` means.
#[verifier::ext_equal]
pub struct PatchView {
    pub path: Text,
    pub hash: Text,
}

impl View for Patch {
    type V = PatchView;

    open spec fn view(&self) -> PatchView {
        PatchView {
            path: self.path.deep_view(),
            hash: self.hash.deep_view(),
        }
    }
}

impl DeepView for Patch {
    type V = PatchView;

    open spec fn deep_view(&self) -> PatchView {
        self@
    }
}

impl Duplicate for Patch {
    fn duplicate(&self) -> (result: Self) {
        Patch {
            path: self.path.duplicate(),
            hash: self.hash.duplicate(),
        }
    }
}

/// What one project of the workspace depends on.
#[derive(Debug, PartialEq, Eq)]
pub struct Importer {
    pub dependencies: Dict<String>,
    pub dev_dependencies: Dict<String>,
    pub optional_dependencies: Dict<String>,
    pub links: Dict<String>,
    pub specifiers: Specifiers,
}

/// What a `Importer` means.
#[verifier::ext_equal]
pub struct ImporterView {
    pub dependencies: Map<Text, Text>,
    pub dev_dependencies: Map<Text, Text>,
    pub optional_dependencies: Map<Text, Text>,
    pub links: Map<Text, Text>,
    pub specifiers: SpecifiersView,
}

impl View for Importer {
    type V = ImporterView;

    open spec fn view(&self) -> ImporterView {
        ImporterView {
            dependencies: self.dependencies.deep_view(),
            dev_dependencies: self.dev_dependencies.deep_view(),
            optional_dependencies: self.optional_dependencies.deep_view(),
            links: self.links.deep_view(),
            specifiers: self.specifiers.deep_view(),
        }
    }
}

impl DeepView for Importer {
    type V = ImporterView;

    open spec fn deep_view(&self) -> ImporterView {
        self@
    }
}

impl Duplicate for Importer {
    fn duplicate(&self) -> (result: Self) {
        Importer {
            dependencies: self.dependencies.duplicate(),
            dev_dependencies: self.dev_dependencies.duplicate(),
            optional_dependencies: self.optional_dependencies.duplicate(),
            links: self.links.duplicate(),
            specifiers: self.specifiers.duplicate(),
        }
    }
}

/// What a project asks for, group by group.
#[derive(Debug, PartialEq, Eq)]
pub struct Specifiers {
    pub dependencies: Dict<String>,
    pub dev_dependencies: Dict<String>,
    pub optional_dependencies: Dict<String>,
}

/// What a `Specifiers` means.
#[verifier::ext_equal]
pub struct SpecifiersView {
    pub dependencies: Map<Text, Text>,
    pub dev_dependencies: Map<Text, Text>,
    pub optional_dependencies: Map<Text, Text>,
}

impl View for Specifiers {
    type V = SpecifiersView;

    open spec fn view(&self) -> SpecifiersView {
        SpecifiersView {
            dependencies: self.dependencies.deep_view(),
            dev_dependencies: self.dev_dependencies.deep_view(),
            optional_dependencies: self.optional_dependencies.deep_view(),
        }
    }
}

impl DeepView for Specifiers {
    type V = SpecifiersView;

    open spec fn deep_view(&self) -> SpecifiersView {
        self@
    }
}

impl Duplicate for Specifiers {
    fn duplicate(&self) -> (result: Self) {
        Specifiers {
            dependencies: self.dependencies.duplicate(),
            dev_dependencies: self.dev_dependencies.duplicate(),
            optional_dependencies: self.optional_dependencies.duplicate(),
        }
    }
}

impl Specifiers {
    pub fn is_empty(&self) -> (result: bool)
        ensures
            result == (self@.dependencies == Map::<Text, Text>::empty() && self@.dev_dependencies == Map::<
                Text,
                Text,
            >::empty() && self@.optional_dependencies == Map::<Text, Text>::empty()),
    {
        self.dependencies.is_empty() && self.dev_dependencies.is_empty() && self.optional_dependencies.is_empty()
    }

    pub fn groups(&self) -> (result: [&Dict<String>; 3])
        ensures
            *result@[0] == self.dependencies,
            *result@[1] == self.dev_dependencies,
            *result@[2] == self.optional_dependencies,
    {
        [&self.dependencies, &self.dev_dependencies, &self.optional_dependencies]
    }

    pub fn groups_mut(&mut self) -> (result: [&mut Dict<String>; 3])
        ensures
            *result@[0] == old(self).dependencies,
            *result@[1] == old(self).dev_dependencies,
            *result@[2] == old(self).optional_dependencies,
            final(self).dependencies == *final(result@[0]),
            final(self).dev_dependencies == *final(result@[1]),
            final(self).optional_dependencies == *final(result@[2]),
    {
        [&mut self.dependencies, &mut self.dev_dependencies, &mut self.optional_dependencies]
    }
}

/// A letter or a digit, or one of `-._~`.
pub open spec fn is_name_char(c: char) -> bool {
    ('a' <= c <= 'z') || ('A' <= c <= 'Z') || ('0' <= c <= '9') || c == '-' || c == '.' || c == '_' || c == '~'
}

/// A name without its scope, or a scope without its `@`.
pub open spec fn is_name_segment(s: Text) -> bool {
    &&& s.len() > 0
    &&& s[0] != '.'
    &&& s[0] != '_'
    &&& forall|i: int| 0 <= i < s.len() ==> is_name_char(#[trigger] s[i])
}

/// `segment` or `@segment/segment`, in no more than 214 bytes.
pub open spec fn valid_name(name: Text) -> bool {
    &&& encode_utf8(name).len() <= 214
    &&& if name.len() > 0 && name[0] == '@' {
        match cut_at_first(name.skip(1), '/') {
            Some((scope, rest)) => is_name_segment(scope) && is_name_segment(rest),
            None => false,
        }
    } else {
        is_name_segment(name)
    }
}

fn is_segment(s: &str) -> (result: bool)
    ensures
        result == is_name_segment(s@),
{
    let cs = chars(s);
    if cs.len() == 0 || cs[0] == '.' || cs[0] == '_' {
        return false;
    }
    let mut i: usize = 0;
    while i < cs.len()
        invariant
            i <= cs.len(),
            cs@ == s@,
            forall|j: int| 0 <= j < i ==> is_name_char(#[trigger] s@[j]),
        decreases cs.len() - i,
    {
        let c = cs[i];
        if !(('a' <= c && c <= 'z') || ('A' <= c && c <= 'Z') || ('0' <= c && c <= '9') || c == '-' || c == '.' || c
            == '_' || c == '~') {
            assert(!is_name_char(s@[i as int]));
            return false;
        }
        i += 1;
    }
    true
}

/// Whether npm accepts `name`, with the uppercase letters that it still allows in old package names.
pub fn is_valid_name(name: &str) -> (result: bool)
    ensures
        result == valid_name(name@),
{
    if name.as_bytes().len() > 214 {
        return false;
    }
    let n: usize = name.unicode_len();
    if n > 0 && name.get_char(0) == '@' {
        match split_once(tail(name, 1), '/') {
            Some((scope, rest)) => is_segment(scope) && is_segment(rest),
            None => false,
        }
    } else {
        is_segment(name)
    }
}

/// The first of `names` that is no valid name.
pub open spec fn first_invalid(names: Seq<Text>) -> Option<Text>
    decreases names.len(),
{
    if names.len() == 0 {
        None
    } else if !valid_name(names[0]) {
        Some(names[0])
    } else {
        first_invalid(names.skip(1))
    }
}

fn find_invalid(names: &Dict<String>) -> (result: Option<&String>)
    ensures
        result.deep_view() == first_invalid(sorted(names@.dom())),
{
    let n: usize = names.len();
    let mut i: usize = 0;
    let ghost keys = sorted(names@.dom());
    assert(keys.skip(0) =~= keys);
    while i < n
        invariant
            i <= n,
            n == keys.len(),
            keys == sorted(names@.dom()),
            first_invalid(keys) == first_invalid(keys.skip(i as int)),
        decreases n - i,
    {
        if !is_valid_name(names.key(i).as_str()) {
            return Some(names.key(i));
        }
        assert(keys.skip(i as int).skip(1) =~= keys.skip(i + 1));
        i += 1;
    }
    None
}

/// What is wrong with the first of `keys` with which anything is wrong.
pub open spec fn first_fault<V>(keys: Seq<Text>, all: Map<Text, V>, fault: spec_fn(Text, V) -> Option<Text>) -> Option<
    Text,
>
    decreases keys.len(),
{
    if keys.len() == 0 {
        None
    } else {
        match fault(keys[0], all[keys[0]]) {
            Some(text) => Some(text),
            None => first_fault(keys.skip(1), all, fault),
        }
    }
}

/// What is wrong with a package.
pub open spec fn package_fault(id: Text, package: PackageView) -> Option<Text> {
    let deps = first_invalid(sorted(package.deps.dom()));
    let invalid = if deps is Some {
        deps
    } else {
        first_invalid(sorted(package.optional_deps.dom()))
    };
    if !valid_name(package.name) {
        Some(id + " is named "@ + literal(package.name) + ", which is not a valid package name"@)
    } else if let Some(name) = invalid {
        Some(id + " depends on "@ + literal(name) + ", which is not a valid package name"@)
    } else if !"sha512-"@.is_prefix_of(package.integrity) && !"sha256-"@.is_prefix_of(package.integrity) {
        Some(id + " has no SHA-512 or SHA-256 integrity hash"@)
    } else {
        None
    }
}

/// What is wrong with an importer.
pub open spec fn importer_fault(path: Text, importer: ImporterView) -> Option<Text> {
    let groups = seq![
        first_invalid(sorted(importer.dependencies.dom())),
        first_invalid(sorted(importer.dev_dependencies.dom())),
        first_invalid(sorted(importer.optional_dependencies.dom())),
        first_invalid(sorted(importer.links.dom())),
    ];
    let invalid = if groups[0] is Some {
        groups[0]
    } else if groups[1] is Some {
        groups[1]
    } else if groups[2] is Some {
        groups[2]
    } else {
        groups[3]
    };
    match invalid {
        Some(name) => Some(
            "importer "@ + path + " depends on "@ + literal(name) + ", which is not a valid package name"@,
        ),
        None => None,
    }
}

/// The first thing wrong with a lock, packages before importers.
pub open spec fn lock_fault(lock: LockView) -> Option<Text> {
    match first_fault(
        sorted(lock.packages.dom()),
        lock.packages,
        |id: Text, package: PackageView| package_fault(id, package),
    ) {
        Some(text) => Some(text),
        None => first_fault(
            sorted(lock.importers.dom()),
            lock.importers,
            |path: Text, importer: ImporterView| importer_fault(path, importer),
        ),
    }
}

fn check_package(id: &str, package: &Package) -> (result: Option<String>)
    ensures
        result.deep_view() == package_fault(id@, package@),
{
    if !is_valid_name(package.name.as_str()) {
        return Some(
            cat4(id, " is named ", quoted(package.name.as_str()).as_str(), ", which is not a valid package name"),
        );
    }
    let invalid = match find_invalid(&package.deps) {
        Some(name) => Some(name),
        None => find_invalid(&package.optional_deps),
    };
    if let Some(name) = invalid {
        return Some(cat4(id, " depends on ", quoted(name.as_str()).as_str(), ", which is not a valid package name"));
    }
    if !starts_with(package.integrity.as_str(), "sha512-") && !starts_with(package.integrity.as_str(), "sha256-") {
        return Some(cat(id, " has no SHA-512 or SHA-256 integrity hash"));
    }
    None
}

fn check_importer(path: &str, importer: &Importer) -> (result: Option<String>)
    ensures
        result.deep_view() == importer_fault(path@, importer@),
{
    let invalid = match find_invalid(&importer.dependencies) {
        Some(name) => Some(name),
        None => match find_invalid(&importer.dev_dependencies) {
            Some(name) => Some(name),
            None => match find_invalid(&importer.optional_dependencies) {
                Some(name) => Some(name),
                None => find_invalid(&importer.links),
            },
        },
    };
    match invalid {
        Some(name) => Some(
            cat5(
                "importer ",
                path,
                " depends on ",
                quoted(name.as_str()).as_str(),
                ", which is not a valid package name",
            ),
        ),
        None => None,
    }
}

/// Names and aliases end up in paths and build scripts, so ones that npm would not accept are
/// rejected, as are integrity hashes weaker than SHA-256.
pub fn validate(lock: &Lock) -> (result: Result<(), Error>)
    ensures
        match result {
            Ok(()) => lock_fault(lock@) is None,
            Err(error) => lock_fault(lock@) is Some && error@ == seq![lock_fault(lock@)->0],
        },
{
    let ghost package_rule = |id: Text, package: PackageView| package_fault(id, package);
    let ghost importer_rule = |path: Text, importer: ImporterView| importer_fault(path, importer);
    let n: usize = lock.packages.len();
    let ghost ids = sorted(lock@.packages.dom());
    let mut i: usize = 0;
    assert(ids.skip(0) =~= ids);
    while i < n
        invariant
            i <= n,
            n == ids.len(),
            ids == sorted(lock@.packages.dom()),
            package_rule == (|id: Text, package: PackageView| package_fault(id, package)),
            first_fault(ids, lock@.packages, package_rule) == first_fault(
                ids.skip(i as int),
                lock@.packages,
                package_rule,
            ),
        decreases n - i,
    {
        if let Some(fault) = check_package(lock.packages.key(i).as_str(), lock.packages.value(i)) {
            return Err(Error::new(fault));
        }
        assert(ids.skip(i as int).skip(1) =~= ids.skip(i + 1));
        i += 1;
    }
    let m: usize = lock.importers.len();
    let ghost paths = sorted(lock@.importers.dom());
    let mut j: usize = 0;
    assert(paths.skip(0) =~= paths);
    while j < m
        invariant
            j <= m,
            m == paths.len(),
            paths == sorted(lock@.importers.dom()),
            importer_rule == (|path: Text, importer: ImporterView| importer_fault(path, importer)),
            first_fault(
                ids,
                lock@.packages,
                |id: Text, package: PackageView| package_fault(id, package),
            ) is None,
            ids == sorted(lock@.packages.dom()),
            first_fault(paths, lock@.importers, importer_rule) == first_fault(
                paths.skip(j as int),
                lock@.importers,
                importer_rule,
            ),
        decreases m - j,
    {
        if let Some(fault) = check_importer(lock.importers.key(j).as_str(), lock.importers.value(j)) {
            return Err(Error::new(fault));
        }
        assert(paths.skip(j as int).skip(1) =~= paths.skip(j + 1));
        j += 1;
    }
    Ok(())
}

/// `a` depends on `b`, and both are packages.
pub open spec fn depends(packages: Map<Text, PackageView>, a: Text, b: Text) -> bool {
    &&& packages.contains_key(a)
    &&& packages.contains_key(b)
    &&& packages[a].deps.values().contains(b) || packages[a].optional_deps.values().contains(b)
}

/// `path` goes from `a` to `b` along dependencies.
pub open spec fn is_path(packages: Map<Text, PackageView>, path: Seq<Text>, a: Text, b: Text) -> bool {
    &&& path.len() > 0
    &&& path[0] == a
    &&& path.last() == b
    &&& forall|i: int| 0 <= i < path.len() - 1 ==> depends(packages, #[trigger] path[i], path[i + 1])
}

/// `b` is `a` or one of what `a` depends on, directly or not.
pub open spec fn needs(packages: Map<Text, PackageView>, a: Text, b: Text) -> bool {
    exists|path: Seq<Text>| is_path(packages, path, a, b)
}

/// The packages that need `a` and that `a` needs, itself included.
pub open spec fn entangled(packages: Map<Text, PackageView>, a: Text) -> Set<Text> {
    packages.dom().filter(|b: Text| needs(packages, a, b) && needs(packages, b, a))
}

/// The packages that are entangled with others and are the first of them.
pub open spec fn cycle_heads(packages: Map<Text, PackageView>) -> Set<Text> {
    packages.dom().filter(
        |a: Text| entangled(packages, a).len() > 1 && sorted(entangled(packages, a))[0] == a,
    )
}

/// The groups of more than one package that depend on each other, each in order and in the order of
/// their first members.
pub open spec fn cycles(packages: Map<Text, PackageView>) -> Seq<Seq<Text>> {
    sorted(cycle_heads(packages)).map_values(|a: Text| sorted(entangled(packages, a)))
}

/// `edges` are the dependencies between packages, by their places in `ids`.
spec fn are_edges(packages: Map<Text, PackageView>, ids: Seq<Text>, edges: Seq<(usize, usize)>) -> bool {
    forall|i: usize, j: usize|
        #[trigger] edges.contains((i, j)) <==> i < ids.len() && j < ids.len() && depends(
            packages,
            ids[i as int],
            ids[j as int],
        )
}

proof fn leads_is_needs(packages: Map<Text, PackageView>, ids: Seq<Text>, edges: Seq<(usize, usize)>, a: usize, b: usize)
    requires
        are_edges(packages, ids, edges),
        ids == sorted(packages.dom()),
        packages.dom().finite(),
        ids.len() <= usize::MAX,
        a < ids.len(),
        b < ids.len(),
    ensures
        leads(edges, a, b) == needs(packages, ids[a as int], ids[b as int]),
{
    sorted_properties(packages.dom());
    let (x, y) = (ids[a as int], ids[b as int]);
    if leads(edges, a, b) {
        let walk = choose|walk: Seq<usize>| walks(edges, walk, a, b);
        let path = walk.map_values(|i: usize| ids[i as int]);
        assert forall|i: int| 0 <= i < path.len() - 1 implies depends(packages, #[trigger] path[i], path[i + 1]) by {
            assert(edges.contains((walk[i], walk[i + 1])));
        }
        assert(is_path(packages, path, x, y));
    }
    if needs(packages, x, y) {
        let path = choose|path: Seq<Text>| is_path(packages, path, x, y);
        assert forall|i: int| 0 <= i < path.len() implies ids.contains(#[trigger] path[i]) by {
            if path.len() == 1 {
                assert(ids[a as int] == path[i]);
            } else if i < path.len() - 1 {
                assert(depends(packages, path[i], path[i + 1]));
                assert(packages.dom().contains(path[i]));
            } else {
                assert(depends(packages, path[i - 1], path[i]));
                assert(packages.dom().contains(path[i]));
            }
        }
        let walk = path.map_values(|id: Text| ids.index_of(id) as usize);
        assert forall|i: int| 0 <= i < path.len() implies (#[trigger] walk[i]) < ids.len() && ids[walk[i] as int]
            == path[i] by {
            assert(ids.contains(path[i]));
        }
        assert forall|i: int| 0 <= i < walk.len() - 1 implies edges.contains((#[trigger] walk[i], walk[i + 1])) by {
            assert(depends(packages, path[i], path[i + 1]));
            assert(ids[walk[i] as int] == path[i] && ids[walk[i + 1] as int] == path[i + 1]);
        }
        assert(walk[0] == a && walk.last() == b);
        assert(walks(edges, walk, a, b));
    }
}

/// What depends on each other is entangled with the same packages.
proof fn needs_on(packages: Map<Text, PackageView>, a: Text, b: Text, c: Text)
    requires
        needs(packages, a, b),
        needs(packages, b, c),
    ensures
        needs(packages, a, c),
{
    let v = choose|path: Seq<Text>| is_path(packages, path, a, b);
    let w = choose|path: Seq<Text>| is_path(packages, path, b, c);
    let joint = v + w.skip(1);
    assert forall|i: int| 0 <= i < joint.len() - 1 implies depends(packages, #[trigger] joint[i], joint[i + 1]) by {
        if i < v.len() - 1 {
            assert(joint[i] == v[i] && joint[i + 1] == v[i + 1]);
        } else {
            let j = i - v.len() + 1;
            assert(joint[i] == w[j] && joint[i + 1] == w[j + 1]);
        }
    }
    assert(joint.last() == c) by {
        if w.len() == 1 {
            assert(joint =~= v);
        } else {
            assert(joint.last() == w.last());
        }
    }
    assert(is_path(packages, joint, a, c));
}

/// A package is entangled with itself, and what is entangled with it is entangled with the same.
pub proof fn entangled_is_equivalence(packages: Map<Text, PackageView>, a: Text, b: Text)
    requires
        packages.contains_key(a),
        packages.contains_key(b),
    ensures
        entangled(packages, a).contains(a),
        entangled(packages, a).contains(b) == entangled(packages, b).contains(a),
        entangled(packages, a).contains(b) ==> entangled(packages, a) == entangled(packages, b),
{
    assert(is_path(packages, seq![a], a, a));
    if entangled(packages, a).contains(b) {
        assert forall|x: Text| entangled(packages, a).contains(x) == entangled(packages, b).contains(x) by {
            if entangled(packages, a).contains(x) {
                needs_on(packages, b, a, x);
                needs_on(packages, x, a, b);
            }
            if entangled(packages, b).contains(x) {
                needs_on(packages, a, b, x);
                needs_on(packages, x, b, a);
            }
        }
        assert(entangled(packages, a) =~= entangled(packages, b));
    }
}

fn add_edges(packages: &Dict<Package>, from: usize, deps: &Dict<String>, edges: &mut Vec<(usize, usize)>)
    ensures
        forall|i: usize, j: usize|
            #[trigger] final(edges)@.contains((i, j)) <==> old(edges)@.contains((i, j)) || (i == from && j < sorted(
                packages@.dom(),
            ).len() && deps@.values().contains(sorted(packages@.dom())[j as int])),
{
    let ghost ids = sorted(packages@.dom());
    let ghost before = edges@;
    let count: usize = packages.len();
    let n: usize = deps.len();
    let ghost aliases = sorted(deps@.dom());
    proof {
        sorted_properties(packages@.dom());
        sorted_properties(deps@.dom());
    }
    let mut k: usize = 0;
    while k < n
        invariant
            k <= n,
            n == aliases.len(),
            aliases == sorted(deps@.dom()),
            ids == sorted(packages@.dom()),
            ids.no_duplicates(),
            forall|x: Text| #[trigger] ids.contains(x) == packages@.dom().contains(x),
            forall|i: usize, j: usize|
                #[trigger] edges@.contains((i, j)) <==> before.contains((i, j)) || (i == from && j < ids.len() && exists|
                    m: int,
                |
                    0 <= m < k && deps@[#[trigger] aliases[m]] == ids[j as int]),
        decreases n - k,
    {
        let target = deps.value(k);
        let ghost old_edges = edges@;
        match packages.find(target.as_str()) {
            Some(to) => {
                edges.push((from, to));
                assert forall|i: usize, j: usize| #[trigger]
                    edges@.contains((i, j)) <==> before.contains((i, j)) || (i == from && j < ids.len() && exists|m: int|
                        0 <= m < k + 1 && deps@[#[trigger] aliases[m]] == ids[j as int]) by {
                    assert(edges@.last() == (from, to));
                    if edges@.contains((i, j)) {
                        let e = edges@.index_of((i, j));
                        if e < old_edges.len() {
                            assert(old_edges[e] == (i, j));
                            assert(old_edges.contains((i, j)));
                        } else {
                            assert(deps@[aliases[k as int]] == ids[j as int]);
                        }
                    }
                    if old_edges.contains((i, j)) {
                        assert(edges@[old_edges.index_of((i, j))] == (i, j));
                    }
                    if i == from && j < ids.len() && deps@[aliases[k as int]] == ids[j as int] {
                        assert(j == to);
                        assert(edges@[old_edges.len() as int] == (i, j));
                    }
                }
            },
            None => {
                assert forall|i: usize, j: usize| #[trigger]
                    edges@.contains((i, j)) <==> before.contains((i, j)) || (i == from && j < ids.len() && exists|m: int|
                        0 <= m < k + 1 && deps@[#[trigger] aliases[m]] == ids[j as int]) by {
                    if j < ids.len() {
                        assert(ids.contains(ids[j as int]));
                    }
                }
            },
        }
        k += 1;
    }
    assert forall|i: usize, j: usize| #[trigger]
        edges@.contains((i, j)) <==> before.contains((i, j)) || (i == from && j < ids.len() && deps@.values().contains(
            ids[j as int],
        )) by {
        if j < ids.len() && deps@.values().contains(ids[j as int]) {
            let alias = choose|alias: Text| #[trigger]
                deps@.dom().contains(alias) && deps@[alias] == ids[j as int];
            assert(aliases.contains(alias));
            let m = aliases.index_of(alias);
            assert(deps@[aliases[m]] == ids[j as int]);
        }
        if j < ids.len() && exists|m: int| 0 <= m < n && deps@[#[trigger] aliases[m]] == ids[j as int] {
            let m = choose|m: int| 0 <= m < n && deps@[#[trigger] aliases[m]] == ids[j as int];
            assert(aliases.contains(aliases[m]));
            assert(deps@.dom().contains(aliases[m]));
        }
    }
}

proof fn component_is_entangled(
    packages: Map<Text, PackageView>,
    ids: Seq<Text>,
    edges: Seq<(usize, usize)>,
    group: Seq<usize>,
    names: Set<Text>,
)
    requires
        are_edges(packages, ids, edges),
        ids == sorted(packages.dom()),
        packages.dom().finite(),
        ids.len() <= usize::MAX,
        group.len() > 1,
        group.no_duplicates(),
        forall|a: usize, b: usize| #[trigger] group.contains(a) ==> (#[trigger] group.contains(b) <==> mutual(edges, a, b)),
        forall|i: int| 0 <= i < group.len() ==> #[trigger] group[i] < ids.len(),
        names == group.map_values(|i: usize| ids[i as int]).to_set(),
    ensures
        forall|a: Text| #[trigger] names.contains(a) ==> packages.contains_key(a) && names == entangled(packages, a),
        names.len() > 1,
        names.finite(),
{
    sorted_properties(packages.dom());
    let all = group.map_values(|i: usize| ids[i as int]);
    assert(all.no_duplicates()) by {
        assert forall|i: int, j: int| 0 <= i < all.len() && 0 <= j < all.len() && i != j implies all[i] != all[j] by {
            assert(group[i] != group[j]);
            assert(group[i] < ids.len() && group[j] < ids.len());
        }
    }
    all.unique_seq_to_set();
    assert forall|a: Text| #[trigger] names.contains(a) implies packages.contains_key(a) && names == entangled(
        packages,
        a,
    ) by {
        let i = all.index_of(a);
        let x = group[i];
        assert(group.contains(x));
        assert(ids.contains(a)) by {
            assert(ids[x as int] == a);
        }
        assert forall|b: Text| names.contains(b) == entangled(packages, a).contains(b) by {
            if names.contains(b) {
                let y = group[all.index_of(b)];
                assert(group.contains(y));
                assert(mutual(edges, x, y));
                leads_is_needs(packages, ids, edges, x, y);
                leads_is_needs(packages, ids, edges, y, x);
                assert(ids.contains(b)) by {
                    assert(ids[y as int] == b);
                }
            }
            if entangled(packages, a).contains(b) {
                assert(ids.contains(b));
                let y = ids.index_of(b) as usize;
                leads_is_needs(packages, ids, edges, x, y);
                leads_is_needs(packages, ids, edges, y, x);
                assert(group.contains(y));
                assert(all[group.index_of(y)] == b);
            }
        }
        assert(names =~= entangled(packages, a));
    }
}

proof fn group_in_range(edges: Seq<(usize, usize)>, group: Seq<usize>, count: usize)
    requires
        forall|m: int| 0 <= m < edges.len() ==> (#[trigger] edges[m]).0 < count && edges[m].1 < count,
        group.len() > 1,
        group.no_duplicates(),
        forall|a: usize, b: usize| #[trigger] group.contains(a) ==> (#[trigger] group.contains(b) <==> mutual(edges, a, b)),
    ensures
        forall|j: int| 0 <= j < group.len() ==> #[trigger] group[j] < count,
{
    assert forall|j: int| 0 <= j < group.len() implies #[trigger] group[j] < count by {
        let other = if j == 0 {
            group[1]
        } else {
            group[0]
        };
        assert(group.contains(group[j]) && group.contains(other));
        leads_from_edge(edges, group[j], other);
    }
}

/// The ids of the packages at the places `group`.
fn member_names(packages: &Dict<Package>, group: &Vec<usize>) -> (result: Names)
    requires
        forall|j: int| 0 <= j < group@.len() ==> #[trigger] group@[j] < sorted(packages@.dom()).len(),
    ensures
        result@ == group@.map_values(|x: usize| sorted(packages@.dom())[x as int]).to_set(),
{
    let mut names = Names::new();
    let ghost ids = sorted(packages@.dom());
    let ghost all = group@.map_values(|x: usize| ids[x as int]);
    let mut j: usize = 0;
    assert(all.take(0).to_set() =~= Set::<Text>::empty());
    while j < group.len()
        invariant
            j <= group.len(),
            ids == sorted(packages@.dom()),
            all == group@.map_values(|x: usize| ids[x as int]),
            forall|m: int| 0 <= m < group@.len() ==> #[trigger] group@[m] < ids.len(),
            names@ == all.take(j as int).to_set(),
        decreases group.len() - j,
    {
        assert(group@[j as int] < ids.len());
        names.insert(packages.key(group[j]).clone());
        proof {
            taken_one_more(all, j as int);
        }
        j += 1;
    }
    assert(all.take(j as int) =~= all);
    names
}

/// The groups of packages that depend on each other in a circle.
pub fn find_cycles(packages: &Dict<Package>) -> (result: Vec<Vec<String>>)
    ensures
        result.deep_view() == cycles(packages@),
{
    let count: usize = packages.len();
    let ghost ids = sorted(packages@.dom());
    proof {
        sorted_properties(packages@.dom());
    }
    let mut edges: Vec<(usize, usize)> = Vec::new();
    let mut i: usize = 0;
    while i < count
        invariant
            i <= count,
            count == ids.len(),
            ids == sorted(packages@.dom()),
            forall|x: Text| #[trigger] ids.contains(x) == packages@.dom().contains(x),
            forall|a: usize, b: usize|
                #[trigger] edges@.contains((a, b)) <==> a < i && b < ids.len() && depends(
                    packages@,
                    ids[a as int],
                    ids[b as int],
                ),
        decreases count - i,
    {
        let package = packages.value(i);
        assert(package@ == packages@[ids[i as int]]);
        add_edges(packages, i, &package.deps, &mut edges);
        add_edges(packages, i, &package.optional_deps, &mut edges);
        assert forall|a: usize, b: usize| #[trigger]
            edges@.contains((a, b)) <==> a < i + 1 && b < ids.len() && depends(
                packages@,
                ids[a as int],
                ids[b as int],
            ) by {
            assert(ids.contains(ids[i as int]));
            if b < ids.len() {
                assert(ids.contains(ids[b as int]));
            }
        }
        i += 1;
    }
    assert(are_edges(packages@, ids, edges@));
    assert forall|k: int| 0 <= k < edges@.len() implies (#[trigger] edges@[k]).0 < count && edges@[k].1 < count by {
        assert(edges@.contains((edges@[k].0, edges@[k].1)));
    }
    let groups = components(count, &edges);
    let mut found: Dict<Vec<String>> = Dict::new();
    let mut k: usize = 0;
    while k < groups.len()
        invariant
            k <= groups.len(),
            count == ids.len(),
            ids == sorted(packages@.dom()),
            packages@.dom().finite(),
            are_edges(packages@, ids, edges@),
            forall|m: int| 0 <= m < edges@.len() ==> (#[trigger] edges@[m]).0 < count && edges@[m].1 < count,
            forall|m: int, a: usize, b: usize|
                0 <= m < groups@.len() && #[trigger] groups@[m]@.contains(a) ==> (#[trigger] groups@[m]@.contains(b)
                    <==> mutual(edges@, a, b)),
            forall|m: int| 0 <= m < groups@.len() ==> (#[trigger] groups@[m])@.no_duplicates(),
            forall|a: Text|
                #[trigger] found@.contains_key(a) ==> cycle_heads(packages@).contains(a) && found@[a] == sorted(
                    entangled(packages@, a),
                ),
            forall|m: int, x: usize|
                0 <= m < k && (#[trigger] groups@[m])@.len() > 1 && #[trigger] groups@[m]@.contains(x) && x < count
                    ==> found@.contains_key(sorted(entangled(packages@, ids[x as int]))[0]),
        decreases groups.len() - k,
    {
        let group = &groups[k];
        assert(groups@[k as int]@.no_duplicates());
        assert forall|a: usize, b: usize| #[trigger] group@.contains(a) implies (#[trigger] group@.contains(b)
            <==> mutual(edges@, a, b)) by {
            assert(groups@[k as int]@.contains(a));
            assert(groups@[k as int]@.contains(b) <==> mutual(edges@, a, b));
        }
        let ghost found_before = found@;
        if group.len() > 1 {
            proof {
                group_in_range(edges@, group@, count);
            }
            let names = member_names(packages, group);
            let ghost all = group@.map_values(|x: usize| ids[x as int]);
            proof {
                component_is_entangled(packages@, ids, edges@, group@, names@);
                sorted_properties(names@);
            }
            let head = names.at(0).clone();
            let members = names.to_vec();
            found.insert(head, members);
            proof {
                assert(names@.contains(head@));
                assert forall|x: usize| #[trigger] groups@[k as int]@.contains(x) && x < count implies found@.contains_key(
                    sorted(entangled(packages@, ids[x as int]))[0],
                ) by {
                    assert(all[group@.index_of(x)] == ids[x as int]);
                    assert(names@.contains(ids[x as int]));
                }
            }
        }
        assert forall|m: int, x: usize|
            0 <= m < k + 1 && (#[trigger] groups@[m])@.len() > 1 && #[trigger] groups@[m]@.contains(x) && x
                < count implies found@.contains_key(sorted(entangled(packages@, ids[x as int]))[0]) by {
            if m < k {
                assert(found_before.contains_key(sorted(entangled(packages@, ids[x as int]))[0]));
            }
        }
        k += 1;
    }
    proof {
        sorted_properties(packages@.dom());
        assert forall|a: Text| cycle_heads(packages@).contains(a) implies #[trigger] found@.contains_key(a) by {
            let tangle = entangled(packages@, a);
            sorted_properties(tangle);
            let b = sorted(tangle)[1];
            assert(sorted(tangle).contains(b));
            assert(b != a);
            assert(ids.contains(a) && ids.contains(b));
            let (x, y) = (ids.index_of(a) as usize, ids.index_of(b) as usize);
            leads_is_needs(packages@, ids, edges@, x, y);
            leads_is_needs(packages@, ids, edges@, y, x);
            leads_from_edge(edges@, x, y);
            assert(touched(edges@, x));
            let m = choose|m: int| 0 <= m < groups@.len() && (#[trigger] groups@[m])@.contains(x);
            assert(groups@[m]@.contains(y));
            assert(groups@[m]@.len() > 1) by {
                assert(groups@[m]@.index_of(x) != groups@[m]@.index_of(y));
            }
        }
        assert(found@.dom() =~= cycle_heads(packages@));
    }
    let mut result: Vec<Vec<String>> = Vec::new();
    let n: usize = found.len();
    let mut at: usize = 0;
    while at < n
        invariant
            at <= n,
            n == sorted(found@.dom()).len(),
            found@.dom() == cycle_heads(packages@),
            forall|a: Text| #[trigger] found@.contains_key(a) ==> found@[a] == sorted(entangled(packages@, a)),
            result.deep_view() == cycles(packages@).take(at as int),
        decreases n - at,
    {
        let ghost before = result.deep_view();
        result.push(found.value(at).duplicate());
        assert(result.deep_view() =~= before.push(cycles(packages@)[at as int]));
        at += 1;
        assert(result.deep_view() =~= cycles(packages@).take(at as int));
    }
    assert(result.deep_view() =~= cycles(packages@));
    result
}

proof fn no_first_invalid(names: Seq<Text>)
    requires
        first_invalid(names) is None,
    ensures
        forall|i: int| 0 <= i < names.len() ==> valid_name(#[trigger] names[i]),
    decreases names.len(),
{
    if names.len() > 0 {
        no_first_invalid(names.skip(1));
        assert forall|i: int| 0 <= i < names.len() implies valid_name(#[trigger] names[i]) by {
            if i > 0 {
                assert(names.skip(1)[i - 1] == names[i]);
            }
        }
    }
}

proof fn keys_valid(edges: Map<Text, Text>)
    requires
        edges.dom().finite(),
        first_invalid(sorted(edges.dom())) is None,
    ensures
        forall|name: Text| #[trigger] edges.contains_key(name) ==> valid_name(name),
{
    let names = sorted(edges.dom());
    sorted_properties(edges.dom());
    no_first_invalid(names);
    assert forall|name: Text| #[trigger] edges.contains_key(name) implies valid_name(name) by {
        assert(names.contains(name));
        assert(names[names.index_of(name)] == name);
    }
}

proof fn no_first_fault<V>(keys: Seq<Text>, all: Map<Text, V>, fault: spec_fn(Text, V) -> Option<Text>)
    requires
        first_fault(keys, all, fault) is None,
    ensures
        forall|i: int| 0 <= i < keys.len() ==> fault(#[trigger] keys[i], all[keys[i]]) is None,
    decreases keys.len(),
{
    if keys.len() > 0 {
        no_first_fault(keys.skip(1), all, fault);
        assert forall|i: int| 0 <= i < keys.len() implies fault(#[trigger] keys[i], all[keys[i]]) is None by {
            if i > 0 {
                assert(keys.skip(1)[i - 1] == keys[i]);
            }
        }
    }
}

/// Every key of a map in a lock is one of finitely many.
pub open spec fn is_finite(lock: LockView) -> bool {
    &&& lock.packages.dom().finite()
    &&& lock.importers.dom().finite()
    &&& forall|id: Text| #[trigger]
        lock.packages.contains_key(id) ==> lock.packages[id].deps.dom().finite()
            && lock.packages[id].optional_deps.dom().finite()
    &&& forall|path: Text| #[trigger]
        lock.importers.contains_key(path) ==> {
            let importer = lock.importers[path];
            importer.dependencies.dom().finite() && importer.dev_dependencies.dom().finite()
                && importer.optional_dependencies.dom().finite() && importer.links.dom().finite()
        }
}

/// Whatever of a lock that was found valid ends up in paths and build scripts is valid: the names of
/// packages, the names under which they and projects depend on others, and integrity hashes.
pub proof fn validated_names(lock: LockView)
    requires
        is_finite(lock),
        lock_fault(lock) is None,
    ensures
        forall|id: Text| #[trigger]
            lock.packages.contains_key(id) ==> {
                let package = lock.packages[id];
                &&& valid_name(package.name)
                &&& forall|name: Text| #[trigger] package.deps.contains_key(name) ==> valid_name(name)
                &&& forall|name: Text| #[trigger] package.optional_deps.contains_key(name) ==> valid_name(name)
                &&& "sha512-"@.is_prefix_of(package.integrity) || "sha256-"@.is_prefix_of(package.integrity)
            },
        forall|path: Text| #[trigger]
            lock.importers.contains_key(path) ==> {
                let importer = lock.importers[path];
                &&& forall|name: Text| #[trigger] importer.dependencies.contains_key(name) ==> valid_name(name)
                &&& forall|name: Text| #[trigger] importer.dev_dependencies.contains_key(name) ==> valid_name(name)
                &&& forall|name: Text| #[trigger]
                    importer.optional_dependencies.contains_key(name) ==> valid_name(name)
                &&& forall|name: Text| #[trigger] importer.links.contains_key(name) ==> valid_name(name)
            },
{
    let package_rule = |id: Text, package: PackageView| package_fault(id, package);
    let importer_rule = |path: Text, importer: ImporterView| importer_fault(path, importer);
    let (ids, paths) = (sorted(lock.packages.dom()), sorted(lock.importers.dom()));
    sorted_properties(lock.packages.dom());
    sorted_properties(lock.importers.dom());
    no_first_fault(ids, lock.packages, package_rule);
    no_first_fault(paths, lock.importers, importer_rule);
    assert forall|id: Text| #[trigger] lock.packages.contains_key(id) implies {
        let package = lock.packages[id];
        &&& valid_name(package.name)
        &&& forall|name: Text| #[trigger] package.deps.contains_key(name) ==> valid_name(name)
        &&& forall|name: Text| #[trigger] package.optional_deps.contains_key(name) ==> valid_name(name)
        &&& "sha512-"@.is_prefix_of(package.integrity) || "sha256-"@.is_prefix_of(package.integrity)
    } by {
        assert(ids.contains(id));
        let i = ids.index_of(id);
        assert(package_rule(ids[i], lock.packages[ids[i]]) is None);
        assert(package_fault(id, lock.packages[id]) is None);
        keys_valid(lock.packages[id].deps);
        keys_valid(lock.packages[id].optional_deps);
    }
    assert forall|path: Text| #[trigger] lock.importers.contains_key(path) implies {
        let importer = lock.importers[path];
        &&& forall|name: Text| #[trigger] importer.dependencies.contains_key(name) ==> valid_name(name)
        &&& forall|name: Text| #[trigger] importer.dev_dependencies.contains_key(name) ==> valid_name(name)
        &&& forall|name: Text| #[trigger] importer.optional_dependencies.contains_key(name) ==> valid_name(name)
        &&& forall|name: Text| #[trigger] importer.links.contains_key(name) ==> valid_name(name)
    } by {
        assert(paths.contains(path));
        let i = paths.index_of(path);
        assert(importer_rule(paths[i], lock.importers[paths[i]]) is None);
        assert(importer_fault(path, lock.importers[path]) is None);
        keys_valid(lock.importers[path].dependencies);
        keys_valid(lock.importers[path].dev_dependencies);
        keys_valid(lock.importers[path].optional_dependencies);
        keys_valid(lock.importers[path].links);
    }
}

/// Packages that depend on each other, however indirectly, are in one group, which is the only one
/// that either of them is in. So no circle of dependencies is left between groups and packages that
/// are in none.
pub proof fn cycles_cover(packages: Map<Text, PackageView>, a: Text, b: Text)
    requires
        packages.dom().finite(),
        packages.contains_key(a),
        packages.contains_key(b),
        a != b,
        needs(packages, a, b),
        needs(packages, b, a),
    ensures
        exists|i: int|
            0 <= i < cycles(packages).len() && (#[trigger] cycles(packages)[i]).contains(a) && cycles(
                packages,
            )[i].contains(b),
        forall|i: int, j: int|
            0 <= i < cycles(packages).len() && 0 <= j < cycles(packages).len() && (#[trigger] cycles(
                packages,
            )[i]).contains(a) && (#[trigger] cycles(packages)[j]).contains(a) ==> i == j,
{
    let heads = cycle_heads(packages);
    let tangle = entangled(packages, a);
    let all = cycles(packages);
    packages.dom().lemma_len_filter(|x: Text| needs(packages, a, x) && needs(packages, x, a));
    packages.dom().lemma_len_filter(
        |x: Text| entangled(packages, x).len() > 1 && sorted(entangled(packages, x))[0] == x,
    );
    sorted_properties(heads);
    sorted_properties(tangle);
    entangled_is_equivalence(packages, a, b);
    assert(tangle.contains(a) && tangle.contains(b));
    assert(tangle.len() > 1) by {
        assert(set![a, b].subset_of(tangle));
        vstd::set_lib::lemma_len_subset(set![a, b], tangle);
    }
    let order = sorted(tangle);
    let head = order[0];
    assert(order.contains(head));
    entangled_is_equivalence(packages, a, head);
    assert(entangled(packages, head) == tangle);
    assert(heads.contains(head));
    assert(sorted(heads).contains(head));
    let i = sorted(heads).index_of(head);
    assert(all[i] == order);
    assert(order.contains(a) && order.contains(b));
    assert forall|i: int, j: int|
        0 <= i < all.len() && 0 <= j < all.len() && (#[trigger] all[i]).contains(a) && (#[trigger] all[j]).contains(
            a,
        ) implies i == j by {
        head_of_group(packages, a, i);
        head_of_group(packages, a, j);
    }
}

proof fn head_of_group(packages: Map<Text, PackageView>, a: Text, i: int)
    requires
        packages.dom().finite(),
        packages.contains_key(a),
        0 <= i < cycles(packages).len(),
        cycles(packages)[i].contains(a),
    ensures
        sorted(cycle_heads(packages))[i] == sorted(entangled(packages, a))[0],
{
    let heads = cycle_heads(packages);
    packages.dom().lemma_len_filter(
        |x: Text| entangled(packages, x).len() > 1 && sorted(entangled(packages, x))[0] == x,
    );
    sorted_properties(heads);
    let head = sorted(heads)[i];
    assert(sorted(heads).contains(head));
    assert(heads.contains(head));
    packages.dom().lemma_len_filter(|x: Text| needs(packages, head, x) && needs(packages, x, head));
    sorted_properties(entangled(packages, head));
    assert(entangled(packages, head).contains(a));
    entangled_is_equivalence(packages, head, a);
}

/// No group holds fewer than two packages.
pub proof fn cycles_have_members(packages: Map<Text, PackageView>, i: int)
    requires
        packages.dom().finite(),
        0 <= i < cycles(packages).len(),
    ensures
        cycles(packages)[i].len() > 1,
{
    let heads = cycle_heads(packages);
    packages.dom().lemma_len_filter(
        |x: Text| entangled(packages, x).len() > 1 && sorted(entangled(packages, x))[0] == x,
    );
    sorted_properties(heads);
    let head = sorted(heads)[i];
    assert(sorted(heads).contains(head));
    packages.dom().lemma_len_filter(|x: Text| needs(packages, head, x) && needs(packages, x, head));
    sorted_properties(entangled(packages, head));
}

proof fn valid_keys_pass(names: Seq<Text>)
    requires
        forall|i: int| 0 <= i < names.len() ==> valid_name(#[trigger] names[i]),
    ensures
        first_invalid(names) is None,
    decreases names.len(),
{
    if names.len() > 0 {
        let rest = names.skip(1);
        assert(valid_name(names[0]));
        assert forall|i: int| 0 <= i < rest.len() implies valid_name(#[trigger] rest[i]) by {
            assert(rest[i] == names[i + 1]);
        }
        valid_keys_pass(rest);
    }
}

proof fn valid_edges_pass(edges: Map<Text, Text>)
    requires
        edges.dom().finite(),
        forall|name: Text| #[trigger] edges.contains_key(name) ==> valid_name(name),
    ensures
        first_invalid(sorted(edges.dom())) is None,
{
    let names = sorted(edges.dom());
    sorted_properties(edges.dom());
    assert forall|i: int| 0 <= i < names.len() implies valid_name(#[trigger] names[i]) by {
        assert(names.contains(names[i]));
        assert(edges.contains_key(names[i]));
    }
    valid_keys_pass(names);
}

proof fn faultless_pass<V>(keys: Seq<Text>, all: Map<Text, V>, fault: spec_fn(Text, V) -> Option<Text>)
    requires
        forall|i: int| 0 <= i < keys.len() ==> fault(#[trigger] keys[i], all[keys[i]]) is None,
    ensures
        first_fault(keys, all, fault) is None,
    decreases keys.len(),
{
    if keys.len() > 0 {
        let rest = keys.skip(1);
        assert(fault(keys[0], all[keys[0]]) is None);
        assert forall|i: int| 0 <= i < rest.len() implies fault(#[trigger] rest[i], all[rest[i]]) is None by {
            assert(rest[i] == keys[i + 1]);
        }
        faultless_pass(rest, all, fault);
    }
}

/// A lock in which all names and hashes are valid is never refused.
pub proof fn valid_lock_is_accepted(lock: LockView)
    requires
        is_finite(lock),
        forall|id: Text| #[trigger]
            lock.packages.contains_key(id) ==> {
                let package = lock.packages[id];
                &&& valid_name(package.name)
                &&& forall|name: Text| #[trigger] package.deps.contains_key(name) ==> valid_name(name)
                &&& forall|name: Text| #[trigger] package.optional_deps.contains_key(name) ==> valid_name(name)
                &&& "sha512-"@.is_prefix_of(package.integrity) || "sha256-"@.is_prefix_of(package.integrity)
            },
        forall|path: Text| #[trigger]
            lock.importers.contains_key(path) ==> {
                let importer = lock.importers[path];
                &&& forall|name: Text| #[trigger] importer.dependencies.contains_key(name) ==> valid_name(name)
                &&& forall|name: Text| #[trigger] importer.dev_dependencies.contains_key(name) ==> valid_name(name)
                &&& forall|name: Text| #[trigger]
                    importer.optional_dependencies.contains_key(name) ==> valid_name(name)
                &&& forall|name: Text| #[trigger] importer.links.contains_key(name) ==> valid_name(name)
            },
    ensures
        lock_fault(lock) is None,
{
    let package_rule = |id: Text, package: PackageView| package_fault(id, package);
    let importer_rule = |path: Text, importer: ImporterView| importer_fault(path, importer);
    let (ids, paths) = (sorted(lock.packages.dom()), sorted(lock.importers.dom()));
    sorted_properties(lock.packages.dom());
    sorted_properties(lock.importers.dom());
    assert forall|i: int| 0 <= i < ids.len() implies package_rule(#[trigger] ids[i], lock.packages[ids[i]]) is None by {
        assert(ids.contains(ids[i]));
        assert(lock.packages.contains_key(ids[i]));
        valid_edges_pass(lock.packages[ids[i]].deps);
        valid_edges_pass(lock.packages[ids[i]].optional_deps);
    }
    faultless_pass(ids, lock.packages, package_rule);
    assert forall|i: int| 0 <= i < paths.len() implies importer_rule(
        #[trigger] paths[i],
        lock.importers[paths[i]],
    ) is None by {
        assert(paths.contains(paths[i]));
        assert(lock.importers.contains_key(paths[i]));
        let importer = lock.importers[paths[i]];
        valid_edges_pass(importer.dependencies);
        valid_edges_pass(importer.dev_dependencies);
        valid_edges_pass(importer.optional_dependencies);
        valid_edges_pass(importer.links);
    }
    faultless_pass(paths, lock.importers, importer_rule);
}

/// A name in a scope is valid just where both parts are, and a name in none where it is itself such a
/// part, unless it is too long. No part begins with a dot or an underscore, and none holds a slash.
pub proof fn names_have_parts(scope: Text, name: Text)
    requires
        !scope.contains('/'),
    ensures
        valid_name("@"@ + scope + "/"@ + name) <==> is_name_segment(scope) && is_name_segment(name) && encode_utf8(
            "@"@ + scope + "/"@ + name,
        ).len() <= 214,
        !"@"@.is_prefix_of(name) ==> (valid_name(name) <==> is_name_segment(name) && encode_utf8(name).len() <= 214),
        valid_name(name) && !"@"@.is_prefix_of(name) ==> name.len() > 0 && name[0] != '.' && name[0] != '_'
            && !name.contains('/'),
        valid_name("@"@ + scope + "/"@ + name) ==> scope.len() > 0 && scope[0] != '.' && name.len() > 0 && name[0] != '.'
            && !name.contains('/'),
{
    reveal_strlit("@");
    reveal_strlit("/");
    let full = "@"@ + scope + "/"@ + name;
    assert(full.skip(1) =~= scope + seq!['/'] + name);
    cuts_give_parts(scope, name, '/');
    if name.len() > 0 && name[0] == '@' {
        assert(name.subrange(0, 1) =~= "@"@);
    }
    if "@"@.is_prefix_of(name) {
        assert(name.subrange(0, 1)[0] == name[0]);
    }
    if is_name_segment(name) && name.contains('/') {
        let i = name.index_of('/');
        assert(is_name_char(name[i]));
    }
}

/// Packages need what they depend on, in either group, and whatever that needs.
pub proof fn dependencies_are_needed(packages: Map<Text, PackageView>, a: Text, alias: Text, b: Text)
    requires
        packages.contains_key(a),
    ensures
        packages[a].deps.contains_key(alias) && packages.contains_key(packages[a].deps[alias]) ==> needs(
            packages,
            a,
            packages[a].deps[alias],
        ) && (needs(packages, packages[a].deps[alias], b) ==> needs(packages, a, b)),
        packages[a].optional_deps.contains_key(alias) && packages.contains_key(packages[a].optional_deps[alias])
            ==> needs(packages, a, packages[a].optional_deps[alias]) && (needs(
            packages,
            packages[a].optional_deps[alias],
            b,
        ) ==> needs(packages, a, b)),
{
    let (deps, optional_deps) = (packages[a].deps, packages[a].optional_deps);
    if deps.contains_key(alias) && packages.contains_key(deps[alias]) {
        assert(deps.values().contains(deps[alias])) by {
            assert(deps.dom().contains(alias));
        }
        edge_is_needed(packages, a, deps[alias], b);
    }
    if optional_deps.contains_key(alias) && packages.contains_key(optional_deps[alias]) {
        assert(optional_deps.values().contains(optional_deps[alias])) by {
            assert(optional_deps.dom().contains(alias));
        }
        edge_is_needed(packages, a, optional_deps[alias], b);
    }
}

proof fn edge_is_needed(packages: Map<Text, PackageView>, a: Text, c: Text, b: Text)
    requires
        depends(packages, a, c),
    ensures
        needs(packages, a, c),
        needs(packages, c, b) ==> needs(packages, a, b),
{
    let short = seq![a, c];
    assert(is_path(packages, short, a, c));
    if needs(packages, c, b) {
        let path = choose|path: Seq<Text>| is_path(packages, path, c, b);
        let longer = seq![a] + path;
        assert forall|i: int| 0 <= i < longer.len() - 1 implies depends(packages, #[trigger] longer[i], longer[i + 1]) by {
            if i > 0 {
                assert(longer[i] == path[i - 1] && longer[i + 1] == path[i]);
            }
        }
        assert(longer.last() == path.last());
        assert(is_path(packages, longer, a, b));
    }
}

} // verus!
