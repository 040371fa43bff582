//! What a project says of itself in package.json and pnpm-workspace.yaml.
use vstd::prelude::*;
use vstd::slice::*;
use vstd::string::*;
use vstd::utf8::*;

use crate::dict::{sorted, sorted_properties, taken_one_more, Dict, Duplicate, Names};
use crate::error::Error;
use crate::lock::{Patch, PatchView, Specifiers, SpecifiersView};
use crate::resolve::{path_parts, Project, ProjectView};
use crate::text::{
    cat, cat3, cat5, contains, pieces, same, split, starts_with, strip_prefix, trim, trimmed, without_prefix, Text,
};
use crate::util::{hash, hex_of, sha256_of};

verus! {

/// How install scripts run.
#[derive(Debug, Clone, Copy, PartialEq, Eq, Structural)]
pub enum BuildMode {
    Sandboxed,
    /// Runs after linking, outside the Nix sandbox, so that the scripts can download things.
    Impure,
}

impl DeepView for BuildMode {
    type V = BuildMode;

    open spec fn deep_view(&self) -> BuildMode {
        *self
    }
}

impl Duplicate for BuildMode {
    fn duplicate(&self) -> (result: Self) {
        *self
    }
}

/// Whether and how the install scripts of a package run.
#[derive(Debug, Clone, Copy, PartialEq, Eq, Structural)]
pub enum AllowBuild {
    Allowed(bool),
    Mode(BuildMode),
}

impl DeepView for AllowBuild {
    type V = AllowBuild;

    open spec fn deep_view(&self) -> AllowBuild {
        *self
    }
}

impl Duplicate for AllowBuild {
    fn duplicate(&self) -> (result: Self) {
        *self
    }
}

/// The packages whose install scripts run, as a list or as a map.
#[derive(Debug, PartialEq, Eq)]
pub enum AllowBuilds {
    Names(Names),
    Entries(Dict<AllowBuild>),
}

/// What an `AllowBuilds` means.
pub enum AllowBuildsView {
    Names(Set<Text>),
    Entries(Map<Text, AllowBuild>),
}

impl View for AllowBuilds {
    type V = AllowBuildsView;

    open spec fn view(&self) -> AllowBuildsView {
        match self {
            AllowBuilds::Names(names) => AllowBuildsView::Names(names@),
            AllowBuilds::Entries(entries) => AllowBuildsView::Entries(entries@),
        }
    }
}

impl DeepView for AllowBuilds {
    type V = AllowBuildsView;

    open spec fn deep_view(&self) -> AllowBuildsView {
        self@
    }
}

/// What is configured under `hinata` in package.json.
#[derive(Debug, PartialEq, Eq)]
pub struct HinataConfig {
    pub allow_builds: AllowBuilds,
    pub build_inputs: Dict<Vec<String>>,
    pub patched_dependencies: Dict<String>,
    pub substituters: Dict<String>,
    pub nixpkgs: Option<String>,
    pub overrides: Dict<String>,
    /// In minutes.
    pub minimum_release_age: u64,
}

/// What a `HinataConfig` means.
#[verifier::ext_equal]
pub struct HinataConfigView {
    pub allow_builds: AllowBuildsView,
    pub build_inputs: Map<Text, Seq<Text>>,
    pub patched_dependencies: Map<Text, Text>,
    pub substituters: Map<Text, Text>,
    pub nixpkgs: Option<Text>,
    pub overrides: Map<Text, Text>,
    pub minimum_release_age: u64,
}

impl View for HinataConfig {
    type V = HinataConfigView;

    open spec fn view(&self) -> HinataConfigView {
        HinataConfigView {
            allow_builds: self.allow_builds.deep_view(),
            build_inputs: self.build_inputs.deep_view(),
            patched_dependencies: self.patched_dependencies.deep_view(),
            substituters: self.substituters.deep_view(),
            nixpkgs: self.nixpkgs.deep_view(),
            overrides: self.overrides.deep_view(),
            minimum_release_age: self.minimum_release_age.deep_view(),
        }
    }
}

impl DeepView for HinataConfig {
    type V = HinataConfigView;

    open spec fn deep_view(&self) -> HinataConfigView {
        self@
    }
}

/// What is configured in pnpm-workspace.yaml.
#[derive(Debug, PartialEq, Eq)]
pub struct PnpmWorkspace {
    pub packages: Vec<String>,
    pub allow_builds: Dict<bool>,
    pub build_inputs: Dict<Vec<String>>,
    pub patched_dependencies: Dict<String>,
}

/// What a `PnpmWorkspace` means.
#[verifier::ext_equal]
pub struct PnpmWorkspaceView {
    pub packages: Seq<Text>,
    pub allow_builds: Map<Text, bool>,
    pub build_inputs: Map<Text, Seq<Text>>,
    pub patched_dependencies: Map<Text, Text>,
}

impl View for PnpmWorkspace {
    type V = PnpmWorkspaceView;

    open spec fn view(&self) -> PnpmWorkspaceView {
        PnpmWorkspaceView {
            packages: self.packages.deep_view(),
            allow_builds: self.allow_builds.deep_view(),
            build_inputs: self.build_inputs.deep_view(),
            patched_dependencies: self.patched_dependencies.deep_view(),
        }
    }
}

impl DeepView for PnpmWorkspace {
    type V = PnpmWorkspaceView;

    open spec fn deep_view(&self) -> PnpmWorkspaceView {
        self@
    }
}

/// What a project says of itself.
#[derive(Debug, PartialEq, Eq)]
pub struct Manifest {
    pub name: Option<String>,
    pub version: Option<String>,
    pub specifiers: Specifiers,
    pub scripts: Dict<String>,
    pub hinata: HinataConfig,
    pub workspace: PnpmWorkspace,
    /// The versions of Node.js that `devEngines` asks for.
    pub node: Option<String>,
}

/// What a `Manifest` means.
#[verifier::ext_equal]
pub struct ManifestView {
    pub name: Option<Text>,
    pub version: Option<Text>,
    pub specifiers: SpecifiersView,
    pub scripts: Map<Text, Text>,
    pub hinata: HinataConfigView,
    pub workspace: PnpmWorkspaceView,
    pub node: Option<Text>,
}

impl View for Manifest {
    type V = ManifestView;

    open spec fn view(&self) -> ManifestView {
        ManifestView {
            name: self.name.deep_view(),
            version: self.version.deep_view(),
            specifiers: self.specifiers.deep_view(),
            scripts: self.scripts.deep_view(),
            hinata: self.hinata.deep_view(),
            workspace: self.workspace.deep_view(),
            node: self.node.deep_view(),
        }
    }
}

impl DeepView for Manifest {
    type V = ManifestView;

    open spec fn deep_view(&self) -> ManifestView {
        self@
    }
}

impl ManifestView {
    /// Whether and how the install scripts of `name` run. The project's own configuration takes
    /// precedence over that of the workspace.
    pub open spec fn build_mode(self, name: Text) -> Option<BuildMode> {
        let workspace = if self.workspace.allow_builds.contains_key(name) && self.workspace.allow_builds[name] {
            Some(BuildMode::Sandboxed)
        } else {
            None
        };
        match self.hinata.allow_builds {
            AllowBuildsView::Names(names) => if names.contains(name) {
                Some(BuildMode::Sandboxed)
            } else {
                workspace
            },
            AllowBuildsView::Entries(entries) => if entries.contains_key(name) {
                match entries[name] {
                    AllowBuild::Allowed(true) => Some(BuildMode::Sandboxed),
                    AllowBuild::Allowed(false) => None,
                    AllowBuild::Mode(mode) => Some(mode),
                }
            } else {
                workspace
            },
        }
    }

    /// The packages whose install scripts run.
    pub open spec fn builds(self) -> Map<Text, BuildMode> {
        Map::new(|name: Text| self.build_mode(name) is Some, |name: Text| self.build_mode(name)->0)
    }

    /// What is added to the builds of each package.
    pub open spec fn inputs(self) -> Map<Text, Seq<Text>> {
        let all = self.workspace.build_inputs.union_prefer_right(self.hinata.build_inputs);
        all.restrict(Set::new(|name: Text| all.contains_key(name) && all[name].len() > 0))
    }

    /// What is wrong with the build inputs of `name`.
    pub open spec fn input_problem(self, name: Text) -> Option<Text> {
        match self.build_mode(name) {
            Some(BuildMode::Sandboxed) => None,
            Some(BuildMode::Impure) => Some(
                name
                    + " has build inputs, but its install scripts run outside the Nix sandbox, where build inputs do not apply"@,
            ),
            None => Some(
                name
                    + " has build inputs, but its install scripts are not allowed to run; add it to hinata.allowBuilds"@,
            ),
        }
    }

    /// What is wrong with the build inputs of the first of `names` with which anything is wrong.
    pub open spec fn first_input_problem(self, names: Seq<Text>) -> Option<Text>
        decreases names.len(),
    {
        if names.len() == 0 {
            None
        } else {
            match self.input_problem(names[0]) {
                Some(problem) => Some(problem),
                None => self.first_input_problem(names.skip(1)),
            }
        }
    }
}

impl Manifest {
    pub fn project(&self) -> (result: Project)
        ensures
            result@ == (ProjectView {
                name: self@.name,
                version: self@.version,
                specifiers: self@.specifiers,
            }),
    {
        Project {
            name: self.name.duplicate(),
            version: self.version.duplicate(),
            specifiers: self.specifiers.duplicate(),
        }
    }

    /// The packages whose install scripts run in the builds of the workspace.
    fn workspace_builds(&self) -> (result: Dict<BuildMode>)
        ensures
            forall|name: Text| #[trigger]
                result@.contains_key(name) <==> self@.workspace.allow_builds.contains_key(name)
                    && self@.workspace.allow_builds[name],
            forall|name: Text| #[trigger] result@.contains_key(name) ==> result@[name] == BuildMode::Sandboxed,
    {
        let mut builds: Dict<BuildMode> = Dict::new();
        let source = &self.workspace.allow_builds;
        let n: usize = source.len();
        let ghost keys = sorted(source@.dom());
        proof {
            sorted_properties(source@.dom());
        }
        let mut i: usize = 0;
        while i < n
            invariant
                i <= n,
                n == keys.len(),
                keys == sorted(source@.dom()),
                forall|x: Text| #[trigger] keys.contains(x) == source@.dom().contains(x),
                forall|name: Text| #[trigger]
                    builds@.contains_key(name) ==> source@.contains_key(name) && source@[name] && builds@[name]
                        == BuildMode::Sandboxed,
                forall|j: int| 0 <= j < i && source@[#[trigger] keys[j]] ==> builds@.contains_key(keys[j]),
            decreases n - i,
        {
            assert(keys.contains(keys[i as int]));
            if *source.value(i) {
                builds.insert(source.key(i).clone(), BuildMode::Sandboxed);
            }
            i += 1;
        }
        assert forall|name: Text| source@.contains_key(name) && source@[name] implies #[trigger] builds@.contains_key(
            name,
        ) by {
            assert(keys.contains(name));
            assert(keys[keys.index_of(name)] == name);
        }
        builds
    }

    /// The packages whose install scripts run, and how.
    pub fn allow_builds(&self) -> (result: Dict<BuildMode>)
        ensures
            result@ == self@.builds(),
    {
        let mut builds = self.workspace_builds();
        let ghost base = builds@;
        match &self.hinata.allow_builds {
            AllowBuilds::Names(names) => {
                let n: usize = names.len();
                let ghost list = sorted(names@);
                proof {
                    sorted_properties(names@);
                }
                let mut i: usize = 0;
                while i < n
                    invariant
                        i <= n,
                        n == list.len(),
                        list == sorted(names@),
                        forall|x: Text| #[trigger] list.contains(x) == names@.contains(x),
                        forall|name: Text| #[trigger]
                            builds@.contains_key(name) ==> builds@[name] == BuildMode::Sandboxed && (
                            base.contains_key(name) || names@.contains(name)),
                        forall|name: Text| base.contains_key(name) ==> #[trigger] builds@.contains_key(name),
                        forall|j: int| 0 <= j < i ==> builds@.contains_key(#[trigger] list[j]),
                    decreases n - i,
                {
                    assert(list.contains(list[i as int]));
                    builds.insert(names.at(i).clone(), BuildMode::Sandboxed);
                    i += 1;
                }
                proof {
                    let expected = self@.builds();
                    assert forall|name: Text| builds@.contains_key(name) == #[trigger] expected.contains_key(name) by {
                        if names@.contains(name) {
                            assert(list.contains(name));
                            assert(list[list.index_of(name)] == name);
                        }
                        assert(base.contains_key(name) ==> builds@.contains_key(name));
                    }
                    assert(builds@ =~= expected);
                }
            },
            AllowBuilds::Entries(entries) => {
                let n: usize = entries.len();
                let ghost list = sorted(entries@.dom());
                proof {
                    sorted_properties(entries@.dom());
                }
                let mut i: usize = 0;
                while i < n
                    invariant
                        i <= n,
                        n == list.len(),
                        list == sorted(entries@.dom()),
                        list.no_duplicates(),
                        forall|name: Text|
                            !list.take(i as int).contains(name) ==> (#[trigger] builds@.contains_key(name)
                                <==> base.contains_key(name)) && (base.contains_key(name) ==> builds@[name]
                                == base[name]),
                        forall|j: int|
                            0 <= j < i ==> match entries@[#[trigger] list[j]] {
                                AllowBuild::Allowed(true) => builds@.contains_key(list[j]) && builds@[list[j]]
                                    == BuildMode::Sandboxed,
                                AllowBuild::Allowed(false) => !builds@.contains_key(list[j]),
                                AllowBuild::Mode(mode) => builds@.contains_key(list[j]) && builds@[list[j]] == mode,
                            },
                    decreases n - i,
                {
                    let name = entries.key(i);
                    let ghost before = builds@;
                    match *entries.value(i) {
                        AllowBuild::Allowed(true) => {
                            builds.insert(name.clone(), BuildMode::Sandboxed);
                        },
                        AllowBuild::Allowed(false) => {
                            let _ = builds.remove(name.as_str());
                        },
                        AllowBuild::Mode(mode) => {
                            builds.insert(name.clone(), mode);
                        },
                    }
                    proof {
                        assert forall|other: Text|
                            !list.take(i + 1).contains(other) implies (#[trigger] builds@.contains_key(other)
                            <==> base.contains_key(other)) && (base.contains_key(other) ==> builds@[other]
                            == base[other]) by {
                            assert(list.take(i + 1)[i as int] == name@);
                            assert(!list.take(i as int).contains(other)) by {
                                if list.take(i as int).contains(other) {
                                    let k = list.take(i as int).index_of(other);
                                    assert(list.take(i + 1)[k] == other);
                                }
                            }
                            assert(before.contains_key(other) <==> base.contains_key(other));
                        }
                        assert forall|j: int| 0 <= j < i + 1 implies match entries@[#[trigger] list[j]] {
                            AllowBuild::Allowed(true) => builds@.contains_key(list[j]) && builds@[list[j]]
                                == BuildMode::Sandboxed,
                            AllowBuild::Allowed(false) => !builds@.contains_key(list[j]),
                            AllowBuild::Mode(mode) => builds@.contains_key(list[j]) && builds@[list[j]] == mode,
                        } by {
                            if j < i {
                                assert(list[j] != list[i as int]);
                            }
                        }
                    }
                    i += 1;
                }
                proof {
                    assert(list.take(i as int) =~= list);
                    let expected = self@.builds();
                    assert forall|name: Text|
                        builds@.contains_key(name) == #[trigger] expected.contains_key(name) && (
                        expected.contains_key(name) ==> builds@[name] == expected[name]) by {
                        if entries@.contains_key(name) {
                            assert(list.contains(name));
                            assert(list[list.index_of(name)] == name);
                        } else {
                            assert(!list.contains(name));
                            assert(builds@.contains_key(name) <==> base.contains_key(name));
                        }
                    }
                    assert(builds@ =~= expected);
                }
            },
        }
        builds
    }

    /// Nixpkgs attribute paths added to the sandboxed builds of each package.
    pub fn build_inputs(&self) -> (result: Result<Dict<Vec<String>>, Error>)
        ensures
            match result {
                Ok(inputs) => self@.first_input_problem(sorted(self@.inputs().dom())) is None && inputs@
                    == self@.inputs(),
                Err(error) => self@.first_input_problem(sorted(self@.inputs().dom())) is Some && error@ == seq![
                    self@.first_input_problem(sorted(self@.inputs().dom()))->0,
                ],
            },
    {
        let mut all = self.workspace.build_inputs.duplicate();
        all.extend(&self.hinata.build_inputs);
        let ghost expected = self@.inputs();
        let mut inputs: Dict<Vec<String>> = Dict::new();
        let n: usize = all.len();
        let ghost keys = sorted(all@.dom());
        proof {
            sorted_properties(all@.dom());
            assert(inputs@ =~= expected.restrict(keys.take(0).to_set()));
        }
        let mut i: usize = 0;
        while i < n
            invariant
                i <= n,
                n == keys.len(),
                keys == sorted(all@.dom()),
                all@ == self@.workspace.build_inputs.union_prefer_right(self@.hinata.build_inputs),
                expected == self@.inputs(),
                inputs@ == expected.restrict(keys.take(i as int).to_set()),
            decreases n - i,
        {
            let attrs = all.value(i);
            proof {
                taken_one_more(keys, i as int);
                assert(attrs.deep_view().len() == attrs@.len());
            }
            if attrs.len() > 0 {
                inputs.insert(all.key(i).clone(), attrs.duplicate());
            }
            assert(inputs@ =~= expected.restrict(keys.take(i + 1).to_set()));
            i += 1;
        }
        proof {
            assert(keys.take(i as int) =~= keys);
            assert forall|x: Text| expected.contains_key(x) implies keys.to_set().contains(x) by {
                assert(keys.contains(x));
            }
            assert(inputs@ =~= expected);
        }
        let builds = self.allow_builds();
        let ghost names = sorted(expected.dom());
        let m: usize = inputs.len();
        let mut k: usize = 0;
        assert(names.skip(0) =~= names);
        while k < m
            invariant
                k <= m,
                m == names.len(),
                inputs@ == expected,
                expected == self@.inputs(),
                names == sorted(expected.dom()),
                builds@ == self@.builds(),
                self@.first_input_problem(names) == self@.first_input_problem(names.skip(k as int)),
            decreases m - k,
        {
            let name = inputs.key(k);
            assert(names.skip(k as int)[0] == name@);
            assert(names.skip(k as int).skip(1) =~= names.skip(k + 1));
            match builds.get(name.as_str()) {
                Some(BuildMode::Sandboxed) => {},
                Some(BuildMode::Impure) => {
                    return Err(
                        Error::new(
                            cat(
                                name.as_str(),
                                " has build inputs, but its install scripts run outside the Nix sandbox, where build inputs do not apply",
                            ),
                        ),
                    );
                },
                None => {
                    return Err(
                        Error::new(
                            cat(
                                name.as_str(),
                                " has build inputs, but its install scripts are not allowed to run; add it to hinata.allowBuilds",
                            ),
                        ),
                    );
                },
            }
            k += 1;
        }
        Ok(inputs)
    }

    /// Binary cache URLs and their public keys.
    pub fn substituters(&self) -> (result: &Dict<String>)
        ensures
            *result == self.hinata.substituters,
    {
        &self.hinata.substituters
    }

    /// The flake reference that Nixpkgs is locked from, if one is given.
    pub fn nixpkgs(&self) -> (result: Option<&str>)
        ensures
            result.deep_view() == self@.hinata.nixpkgs,
    {
        match &self.hinata.nixpkgs {
            Some(reference) => Some(reference.as_str()),
            None => None,
        }
    }

    /// The versions of Node.js that are asked for.
    pub fn node(&self) -> (result: Option<&str>)
        ensures
            result.deep_view() == self@.node,
    {
        match &self.node {
            Some(range) => Some(range.as_str()),
            None => None,
        }
    }
}

/// What came of reading a file.
pub enum Reading {
    Contents(Vec<u8>),
    Failed(Error),
}

/// What a `Reading` means.
pub enum ReadingView {
    Contents(Seq<u8>),
    Failed(Seq<Text>),
}

impl DeepView for Reading {
    type V = ReadingView;

    open spec fn deep_view(&self) -> ReadingView {
        match self {
            Reading::Contents(bytes) => ReadingView::Contents(bytes@),
            Reading::Failed(error) => ReadingView::Failed(error@),
        }
    }
}

/// A relative path that does not go up.
pub open spec fn is_inside(path: Text) -> bool {
    !"/"@.is_prefix_of(path) && !pieces(path, '/').contains(".."@)
}

/// Whether `path` is a relative path that does not go up.
pub fn stays_inside(path: &str) -> (result: bool)
    ensures
        result == is_inside(path@),
{
    if starts_with(path, "/") {
        return false;
    }
    let parts = split(path, '/');
    let ghost all = parts.deep_view();
    let mut i: usize = 0;
    while i < parts.len()
        invariant
            i <= parts.len(),
            all == parts.deep_view(),
            all == pieces(path@, '/'),
            forall|j: int| 0 <= j < i ==> #[trigger] all[j] != ".."@,
        decreases parts.len() - i,
    {
        assert(all[i as int] == parts@[i as int]@);
        if same(parts[i].as_str(), "..") {
            assert(all.contains(".."@));
            return false;
        }
        i += 1;
    }
    true
}

impl ManifestView {
    /// The paths of the patches, by what they are applied to.
    pub open spec fn patch_paths(self) -> Map<Text, Text> {
        self.workspace.patched_dependencies.union_prefer_right(self.hinata.patched_dependencies)
    }

    /// What is wrong with the patch for `key`, where reading the files came to `files`.
    pub open spec fn patch_problem(self, files: Map<Text, ReadingView>, key: Text) -> Option<Seq<Text>> {
        let path = self.patch_paths()[key];
        if !is_inside(path) {
            Some(
                seq![
                    "the patch "@ + path + " for "@ + key + " must be a relative path inside the project"@,
                ],
            )
        } else if !files.contains_key(path) {
            Some(seq!["the patch "@ + path + " was not read"@])
        } else {
            match files[path] {
                ReadingView::Contents(_) => None,
                ReadingView::Failed(problem) => Some(problem),
            }
        }
    }

    /// What is wrong with the first of the patches for `keys` with which anything is wrong.
    pub open spec fn first_patch_problem(self, files: Map<Text, ReadingView>, keys: Seq<Text>) -> Option<Seq<Text>>
        decreases keys.len(),
    {
        if keys.len() == 0 {
            None
        } else {
            match self.patch_problem(files, keys[0]) {
                Some(problem) => Some(problem),
                None => self.first_patch_problem(files, keys.skip(1)),
            }
        }
    }

    /// The patches, with the hashes of their files.
    pub open spec fn patches(self, files: Map<Text, ReadingView>) -> Map<Text, PatchView> {
        self.patch_paths().map_values(
            |path: Text| PatchView { path, hash: hex_of(sha256_of(files[path]->Contents_0)) },
        )
    }
}

impl Manifest {
    /// The paths of the patches, by what they are applied to: `name@version` or `name`.
    pub fn patch_paths(&self) -> (result: Dict<String>)
        ensures
            result@ == self@.patch_paths(),
    {
        let mut paths = self.workspace.patched_dependencies.duplicate();
        paths.extend(&self.hinata.patched_dependencies);
        paths
    }

    /// The patches by what they are applied to, once the files at their paths have been read.
    pub fn patches(&self, files: &Dict<Reading>) -> (result: Result<Dict<Patch>, Error>)
        ensures
            ({
                let problem = self@.first_patch_problem(files@, sorted(self@.patch_paths().dom()));
                match result {
                    Ok(patches) => problem is None && patches@ == self@.patches(files@),
                    Err(error) => problem == Some(error@),
                }
            }),
    {
        let paths = self.patch_paths();
        let ghost expected = self@.patches(files@);
        let mut patches: Dict<Patch> = Dict::new();
        let n: usize = paths.len();
        let ghost keys = sorted(paths@.dom());
        proof {
            sorted_properties(paths@.dom());
            assert(keys.skip(0) =~= keys);
            assert(patches@ =~= expected.restrict(keys.take(0).to_set()));
        }
        let mut i: usize = 0;
        while i < n
            invariant
                i <= n,
                n == keys.len(),
                paths@ == self@.patch_paths(),
                keys == sorted(paths@.dom()),
                expected == self@.patches(files@),
                patches@ == expected.restrict(keys.take(i as int).to_set()),
                self@.first_patch_problem(files@, keys) == self@.first_patch_problem(files@, keys.skip(i as int)),
            decreases n - i,
        {
            let key = paths.key(i);
            let path = paths.value(i);
            proof {
                taken_one_more(keys, i as int);
                assert(keys.skip(i as int)[0] == key@);
                assert(keys.skip(i as int).skip(1) =~= keys.skip(i + 1));
            }
            if !stays_inside(path.as_str()) {
                let error = Error::new(
                    cat5(
                        "the patch ",
                        path.as_str(),
                        " for ",
                        key.as_str(),
                        " must be a relative path inside the project",
                    ),
                );
                return Err(error);
            }
            match files.get(path.as_str()) {
                Some(Reading::Contents(bytes)) => {
                    let patch = Patch { path: path.clone(), hash: hash(bytes.as_slice()) };
                    patches.insert(key.clone(), patch);
                },
                Some(Reading::Failed(error)) => {
                    return Err(error.duplicate());
                },
                None => {
                    return Err(Error::new(cat3("the patch ", path.as_str(), " was not read")));
                },
            }
            assert(patches@ =~= expected.restrict(keys.take(i + 1).to_set()));
            i += 1;
        }
        proof {
            assert(keys.take(i as int) =~= keys);
            assert forall|x: Text| expected.contains_key(x) implies keys.to_set().contains(x) by {
                assert(keys.contains(x));
            }
            assert(patches@ =~= expected);
        }
        Ok(patches)
    }
}

/// `name` matches `pattern`, in which `*` stands for any bytes and `?` for one.
pub open spec fn segment_matches(pattern: Seq<u8>, name: Seq<u8>) -> bool
    decreases pattern.len(), name.len(),
{
    if pattern.len() == 0 {
        name.len() == 0
    } else if pattern[0] == 42 {
        segment_matches(pattern.skip(1), name) || (name.len() > 0 && segment_matches(pattern, name.skip(1)))
    } else {
        &&& name.len() > 0
        &&& pattern[0] == 63 || pattern[0] == name[0]
        &&& segment_matches(pattern.skip(1), name.skip(1))
    }
}

/// Whether `name` matches `pattern`, in which `*` stands for any bytes and `?` for one.
pub fn matches_segment(pattern: &[u8], name: &[u8]) -> (result: bool)
    ensures
        result == segment_matches(pattern@, name@),
    decreases pattern@.len(),
{
    let n: usize = pattern.len();
    let m: usize = name.len();
    if n == 0 {
        return m == 0;
    }
    let rest = slice_subrange(pattern, 1, n);
    assert(rest@ =~= pattern@.skip(1));
    if pattern[0] == 42 {
        let mut at: usize = 0;
        assert(name@.skip(0) =~= name@);
        loop
            invariant
                at <= m,
                m == name@.len(),
                n == pattern@.len(),
                n > 0,
                pattern@[0] == 42,
                rest@ == pattern@.skip(1),
                segment_matches(pattern@, name@) == segment_matches(pattern@, name@.skip(at as int)),
            decreases m - at,
        {
            let below = slice_subrange(name, at, m);
            assert(below@ =~= name@.skip(at as int));
            if matches_segment(rest, below) {
                return true;
            }
            if at == m {
                return false;
            }
            assert(name@.skip(at as int).skip(1) =~= name@.skip(at + 1));
            at += 1;
        }
    }
    if m == 0 || (pattern[0] != 63 && pattern[0] != name[0]) {
        return false;
    }
    let below = slice_subrange(name, 1, m);
    assert(below@ =~= name@.skip(1));
    matches_segment(rest, below)
}

/// `path` matches `pattern`, in which `**` stands for any segments. With `prefix`, so do paths that a
/// longer path below them could match.
pub open spec fn path_matches(pattern: Seq<Text>, path: Seq<Text>, prefix: bool) -> bool
    decreases pattern.len() + path.len(),
{
    if pattern.len() == 0 {
        path.len() == 0
    } else if pattern[0] == "**"@ {
        path_matches(pattern.skip(1), path, prefix) || (path.len() > 0 && path_matches(pattern, path.skip(1), prefix))
    } else if path.len() == 0 {
        prefix
    } else {
        segment_matches(encode_utf8(pattern[0]), encode_utf8(path[0])) && path_matches(
            pattern.skip(1),
            path.skip(1),
            prefix,
        )
    }
}

/// Whether `path` matches `pattern`, in which `**` stands for any segments. With `prefix`, also
/// matches paths that a longer path below them could match.
pub fn matches_path(pattern: &[&str], path: &[&str], prefix: bool) -> (result: bool)
    ensures
        result == path_matches(pattern.deep_view(), path.deep_view(), prefix),
    decreases pattern@.len() + path@.len(),
{
    let n: usize = pattern.len();
    let m: usize = path.len();
    assert(pattern.deep_view().len() == n && path.deep_view().len() == m);
    if n == 0 {
        return m == 0;
    }
    assert(pattern.deep_view()[0] == pattern@[0]@);
    let rest = slice_subrange(pattern, 1, n);
    assert(rest.deep_view() =~= pattern.deep_view().skip(1));
    if same(pattern[0], "**") {
        if matches_path(rest, path, prefix) {
            return true;
        }
        if m == 0 {
            return false;
        }
        let below = slice_subrange(path, 1, m);
        assert(below.deep_view() =~= path.deep_view().skip(1));
        return matches_path(pattern, below, prefix);
    }
    if m == 0 {
        return prefix;
    }
    assert(path.deep_view()[0] == path@[0]@);
    let below = slice_subrange(path, 1, m);
    assert(below.deep_view() =~= path.deep_view().skip(1));
    matches_segment(pattern[0].as_bytes(), path[0].as_bytes()) && matches_path(rest, below, prefix)
}

proof fn empty_path_is_prefix(pattern: Seq<Text>)
    ensures
        path_matches(pattern, Seq::empty(), true),
    decreases pattern.len(),
{
    if pattern.len() > 0 && pattern[0] == "**"@ {
        empty_path_is_prefix(pattern.skip(1));
    }
}

/// Where a path matches, so do all paths above it as prefixes: nothing that matches is missed by
/// descending only into directories that match as prefixes.
pub proof fn match_is_reached(pattern: Seq<Text>, path: Seq<Text>, n: int)
    requires
        path_matches(pattern, path, false),
        0 <= n <= path.len(),
    ensures
        path_matches(pattern, path.take(n), true),
    decreases pattern.len() + path.len(),
{
    if n == 0 {
        empty_path_is_prefix(pattern);
        assert(path.take(n) =~= Seq::empty());
    } else if pattern[0] == "**"@ {
        if path_matches(pattern.skip(1), path, false) {
            match_is_reached(pattern.skip(1), path, n);
        } else {
            match_is_reached(pattern, path.skip(1), n - 1);
            assert(path.take(n).skip(1) =~= path.skip(1).take(n - 1));
        }
    } else {
        match_is_reached(pattern.skip(1), path.skip(1), n - 1);
        assert(path.take(n).skip(1) =~= path.skip(1).take(n - 1));
    }
}

proof fn segment_matches_itself(pattern: Seq<u8>)
    ensures
        segment_matches(pattern, pattern),
    decreases pattern.len(),
{
    if pattern.len() > 0 {
        let rest = pattern.skip(1);
        segment_matches_itself(rest);
        if pattern[0] == 42 {
            assert(segment_matches(pattern, rest));
        }
    }
}

proof fn some_path_matches(pattern: Seq<Text>) -> (path: Seq<Text>)
    ensures
        path_matches(pattern, path, false),
    decreases pattern.len(),
{
    if pattern.len() == 0 {
        Seq::empty()
    } else {
        let below = some_path_matches(pattern.skip(1));
        if pattern[0] == "**"@ {
            below
        } else {
            let path = seq![pattern[0]] + below;
            assert(path.skip(1) =~= below);
            segment_matches_itself(encode_utf8(pattern[0]));
            path
        }
    }
}

/// A path matches as a prefix only where some path that begins with it matches: no directory is
/// descended into in vain.
pub proof fn prefix_leads_to_match(pattern: Seq<Text>, path: Seq<Text>) -> (below: Seq<Text>)
    requires
        path_matches(pattern, path, true),
    ensures
        path_matches(pattern, path + below, false),
    decreases pattern.len() + path.len(),
{
    if path.len() == 0 {
        let below = some_path_matches(pattern);
        assert(path + below =~= below);
        below
    } else if pattern[0] == "**"@ && path_matches(pattern.skip(1), path, true) {
        prefix_leads_to_match(pattern.skip(1), path)
    } else {
        let rest = if pattern[0] == "**"@ {
            pattern
        } else {
            pattern.skip(1)
        };
        let below = prefix_leads_to_match(rest, path.skip(1));
        assert((path + below).skip(1) =~= path.skip(1) + below);
        below
    }
}

/// One of `patterns` matches `path`.
pub open spec fn any_path_matches(patterns: Seq<Seq<Text>>, path: Seq<Text>, prefix: bool) -> bool {
    exists|i: int| 0 <= i < patterns.len() && path_matches(#[trigger] patterns[i], path, prefix)
}

/// The segments of `pattern`.
pub open spec fn pattern_parts(pattern: Text) -> Seq<Text> {
    path_parts(trimmed(pattern))
}

/// The patterns of `patterns` that name packages, or that leave some out.
pub open spec fn chosen_patterns(patterns: Seq<Text>, excluded: bool) -> Seq<Seq<Text>>
    decreases patterns.len(),
{
    if patterns.len() == 0 {
        Seq::empty()
    } else {
        let before = chosen_patterns(patterns.drop_last(), excluded);
        match (without_prefix(patterns.last(), "!"@), excluded) {
            (Some(rest), true) => before.push(pattern_parts(rest)),
            (None, false) => before.push(pattern_parts(patterns.last())),
            _ => before,
        }
    }
}

/// Which directories of the workspace are packages.
pub struct WorkspacePatterns {
    pub included: Vec<Vec<String>>,
    pub excluded: Vec<Vec<String>>,
}

impl ManifestView {
    /// The directory at `path` may hold packages.
    pub open spec fn descends_into(self, path: Seq<Text>) -> bool {
        any_path_matches(chosen_patterns(self.workspace.packages, false), path, true)
    }

    /// The directory at `path` is a package, if it has a manifest.
    pub open spec fn is_package(self, path: Seq<Text>) -> bool {
        any_path_matches(chosen_patterns(self.workspace.packages, false), path, false) && !any_path_matches(
            chosen_patterns(self.workspace.packages, true),
            path,
            false,
        )
    }
}

/// Every directory above a package is descended into.
pub proof fn package_is_reached(manifest: ManifestView, path: Seq<Text>, n: int)
    requires
        manifest.is_package(path),
        0 <= n <= path.len(),
    ensures
        manifest.descends_into(path.take(n)),
{
    let patterns = chosen_patterns(manifest.workspace.packages, false);
    let i = choose|i: int| 0 <= i < patterns.len() && path_matches(#[trigger] patterns[i], path, false);
    match_is_reached(patterns[i], path, n);
}

fn any_matches(patterns: &Vec<Vec<String>>, path: &[&str], prefix: bool) -> (result: bool)
    ensures
        result == any_path_matches(patterns.deep_view(), path.deep_view(), prefix),
{
    let mut i: usize = 0;
    while i < patterns.len()
        invariant
            i <= patterns.len(),
            forall|j: int|
                0 <= j < i ==> !path_matches(#[trigger] patterns.deep_view()[j], path.deep_view(), prefix),
        decreases patterns.len() - i,
    {
        let mut pattern: Vec<&str> = Vec::new();
        let mut k: usize = 0;
        while k < patterns[i].len()
            invariant
                i < patterns.len(),
                k <= patterns@[i as int].len(),
                pattern@.len() == k,
                forall|j: int| 0 <= j < k ==> (#[trigger] pattern@[j])@ == patterns@[i as int]@[j]@,
            decreases patterns@[i as int].len() - k,
        {
            pattern.push(patterns[i][k].as_str());
            k += 1;
        }
        let pattern = pattern.as_slice();
        assert(pattern.deep_view() =~= patterns.deep_view()[i as int]);
        if matches_path(pattern, path, prefix) {
            return true;
        }
        i += 1;
    }
    false
}

impl Manifest {
    /// Whether to look for packages at all, and which.
    pub fn workspace_packages(&self) -> (result: Option<WorkspacePatterns>)
        ensures
            match result {
                Some(patterns) => patterns.included.deep_view() == chosen_patterns(self@.workspace.packages, false)
                    && patterns.excluded.deep_view() == chosen_patterns(self@.workspace.packages, true)
                    && patterns.included@.len() > 0,
                None => chosen_patterns(self@.workspace.packages, false).len() == 0,
            },
    {
        let mut included: Vec<Vec<String>> = Vec::new();
        let mut excluded: Vec<Vec<String>> = Vec::new();
        let ghost all = self@.workspace.packages;
        let mut i: usize = 0;
        assert(included.deep_view() =~= Seq::<Seq<Text>>::empty());
        assert(excluded.deep_view() =~= Seq::<Seq<Text>>::empty());
        while i < self.workspace.packages.len()
            invariant
                i <= self.workspace.packages.len(),
                all == self.workspace.packages.deep_view(),
                included.deep_view() == chosen_patterns(all.take(i as int), false),
                excluded.deep_view() == chosen_patterns(all.take(i as int), true),
            decreases self.workspace.packages.len() - i,
        {
            let pattern = self.workspace.packages[i].as_str();
            let ghost (had, had_not) = (included.deep_view(), excluded.deep_view());
            proof {
                assert(all.take(i + 1).drop_last() =~= all.take(i as int));
                assert(all[i as int] == pattern@);
            }
            match strip_prefix(pattern, "!") {
                Some(rest) => {
                    excluded.push(pattern_segments(rest));
                    assert(excluded.deep_view() =~= had_not.push(pattern_parts(rest@)));
                },
                None => {
                    included.push(pattern_segments(pattern));
                    assert(included.deep_view() =~= had.push(pattern_parts(pattern@)));
                },
            }
            i += 1;
        }
        assert(all.take(i as int) =~= all);
        assert(included.deep_view().len() == included@.len());
        if included.len() == 0 {
            None
        } else {
            Some(WorkspacePatterns { included, excluded })
        }
    }
}

/// The segments of `pattern`.
pub fn pattern_segments(pattern: &str) -> (result: Vec<String>)
    ensures
        result.deep_view() == pattern_parts(pattern@),
{
    crate::resolve::components(trim(pattern))
}

impl WorkspacePatterns {
    /// Whether a directory may hold packages, by the names on the way to it.
    pub fn descends_into(&self, path: &[&str]) -> (result: bool)
        ensures
            result == any_path_matches(self.included.deep_view(), path.deep_view(), true),
    {
        any_matches(&self.included, path, true)
    }

    /// Whether a directory is a package, if it has a manifest.
    pub fn is_package(&self, path: &[&str]) -> (result: bool)
        ensures
            result == (any_path_matches(self.included.deep_view(), path.deep_view(), false) && !any_path_matches(
                self.excluded.deep_view(),
                path.deep_view(),
                false,
            )),
    {
        any_matches(&self.included, path, false) && !any_matches(&self.excluded, path, false)
    }
}

/// Whether a directory is never looked into: other packages' dependencies, and hidden directories.
pub fn is_skipped_directory(name: &str) -> (result: bool)
    ensures
        result == (name@ == "node_modules"@ || "."@.is_prefix_of(name@)),
{
    same(name, "node_modules") || starts_with(name, ".")
}

/// A group of dependencies in package.json.
#[derive(Debug, Clone, Copy, PartialEq, Eq, Structural)]
pub enum Group {
    Prod,
    Dev,
    Optional,
}

impl Group {
    /// The member of package.json that holds this group.
    pub open spec fn member(self) -> Text {
        match self {
            Group::Prod => "dependencies"@,
            Group::Dev => "devDependencies"@,
            Group::Optional => "optionalDependencies"@,
        }
    }

    /// The member of package.json that holds this group.
    pub fn key(self) -> (result: &'static str)
        ensures
            result@ == self.member(),
    {
        match self {
            Group::Prod => "dependencies",
            Group::Dev => "devDependencies",
            Group::Optional => "optionalDependencies",
        }
    }
}

/// What package.json says takes precedence over what pnpm-workspace.yaml says: packages that it allows
/// or forbids to build, build inputs that it gives and patches that it lists are what it says.
pub proof fn own_configuration_counts(manifest: ManifestView, name: Text)
    ensures
        manifest.hinata.allow_builds matches AllowBuildsView::Names(names) ==> names.contains(name)
            ==> manifest.builds().contains_key(name) && manifest.builds()[name] == BuildMode::Sandboxed,
        manifest.hinata.allow_builds matches AllowBuildsView::Entries(entries) ==> entries.contains_key(name) ==> {
            &&& entries[name] == AllowBuild::Allowed(false) ==> !manifest.builds().contains_key(name)
            &&& entries[name] == AllowBuild::Allowed(true) ==> manifest.builds().contains_key(name)
                && manifest.builds()[name] == BuildMode::Sandboxed
            &&& entries[name] matches AllowBuild::Mode(mode) ==> manifest.builds().contains_key(name)
                && manifest.builds()[name] == mode
        },
        manifest.hinata.build_inputs.contains_key(name) ==> if manifest.hinata.build_inputs[name].len() > 0 {
            manifest.inputs().contains_key(name) && manifest.inputs()[name] == manifest.hinata.build_inputs[name]
        } else {
            !manifest.inputs().contains_key(name)
        },
        manifest.hinata.patched_dependencies.contains_key(name) ==> manifest.patch_paths().contains_key(name)
            && manifest.patch_paths()[name] == manifest.hinata.patched_dependencies[name],
{
}

/// Where package.json says nothing of a package, what pnpm-workspace.yaml says counts: a package that it
/// allows to build is built in the sandbox, and one that it does not is not built. Its build inputs and
/// patches count too. Nothing else is built, and nothing else has inputs or patches.
pub proof fn workspace_configuration_counts(manifest: ManifestView, name: Text)
    ensures
        ({
            let is_said = match manifest.hinata.allow_builds {
                AllowBuildsView::Names(names) => names.contains(name),
                AllowBuildsView::Entries(entries) => entries.contains_key(name),
            };
            let workspace = manifest.workspace;
            &&& !is_said && workspace.allow_builds.contains_key(name) && workspace.allow_builds[name]
                ==> manifest.builds().contains_key(name) && manifest.builds()[name] == BuildMode::Sandboxed
            &&& !is_said && !(workspace.allow_builds.contains_key(name) && workspace.allow_builds[name])
                ==> !manifest.builds().contains_key(name)
        }),
        !manifest.hinata.build_inputs.contains_key(name) ==> {
            let inputs = manifest.workspace.build_inputs;
            &&& inputs.contains_key(name) && inputs[name].len() > 0 ==> manifest.inputs().contains_key(name)
                && manifest.inputs()[name] == inputs[name]
            &&& !inputs.contains_key(name) ==> !manifest.inputs().contains_key(name)
        },
        !manifest.hinata.patched_dependencies.contains_key(name) ==> {
            let patches = manifest.workspace.patched_dependencies;
            &&& patches.contains_key(name) <==> manifest.patch_paths().contains_key(name)
            &&& patches.contains_key(name) ==> manifest.patch_paths()[name] == patches[name]
        },
{
}

/// Build inputs are accepted just where all packages that have some are built in the sandbox.
pub proof fn inputs_need_sandbox(manifest: ManifestView, names: Seq<Text>)
    ensures
        manifest.first_input_problem(names) is None <==> forall|i: int|
            0 <= i < names.len() ==> manifest.builds().contains_key(#[trigger] names[i]) && manifest.builds()[names[i]]
                == BuildMode::Sandboxed,
    decreases names.len(),
{
    if names.len() > 0 {
        let rest = names.skip(1);
        inputs_need_sandbox(manifest, rest);
        if manifest.first_input_problem(names) is None {
            assert forall|i: int| 0 <= i < names.len() implies manifest.builds().contains_key(#[trigger] names[i])
                && manifest.builds()[names[i]] == BuildMode::Sandboxed by {
                if i > 0 {
                    assert(rest[i - 1] == names[i]);
                }
            }
        }
        if forall|i: int|
            0 <= i < names.len() ==> manifest.builds().contains_key(#[trigger] names[i]) && manifest.builds()[names[i]]
                == BuildMode::Sandboxed {
            assert(manifest.builds().contains_key(names[0]));
            assert forall|i: int| 0 <= i < rest.len() implies manifest.builds().contains_key(#[trigger] rest[i])
                && manifest.builds()[rest[i]] == BuildMode::Sandboxed by {
                assert(rest[i] == names[i + 1]);
            }
        }
    }
}

/// Patches are accepted just where all of their files are inside the project and could be read. Each is
/// then known by its path and by the hash of what its file holds.
pub proof fn patches_are_read(manifest: ManifestView, files: Map<Text, ReadingView>, keys: Seq<Text>)
    ensures
        manifest.first_patch_problem(files, keys) is None <==> forall|i: int|
            0 <= i < keys.len() ==> is_inside(manifest.patch_paths()[#[trigger] keys[i]]) && files.contains_key(
                manifest.patch_paths()[keys[i]],
            ) && files[manifest.patch_paths()[keys[i]]] is Contents,
        forall|key: Text| #[trigger]
            manifest.patch_paths().contains_key(key) ==> manifest.patches(files).contains_key(key) && {
                let path = manifest.patch_paths()[key];
                &&& manifest.patches(files)[key].path == path
                &&& files[path] matches ReadingView::Contents(contents) ==> manifest.patches(files)[key].hash == hex_of(
                    sha256_of(contents),
                )
            },
    decreases keys.len(),
{
    if keys.len() > 0 {
        let rest = keys.skip(1);
        patches_are_read(manifest, files, rest);
        if manifest.first_patch_problem(files, keys) is None {
            assert forall|i: int| 0 <= i < keys.len() implies is_inside(manifest.patch_paths()[#[trigger] keys[i]])
                && files.contains_key(manifest.patch_paths()[keys[i]]) && files[manifest.patch_paths()[keys[i]]] is Contents by {
                if i > 0 {
                    assert(rest[i - 1] == keys[i]);
                }
            }
        }
        if forall|i: int|
            0 <= i < keys.len() ==> is_inside(manifest.patch_paths()[#[trigger] keys[i]]) && files.contains_key(
                manifest.patch_paths()[keys[i]],
            ) && files[manifest.patch_paths()[keys[i]]] is Contents {
            assert(is_inside(manifest.patch_paths()[keys[0]]));
            assert forall|i: int| 0 <= i < rest.len() implies is_inside(manifest.patch_paths()[#[trigger] rest[i]])
                && files.contains_key(manifest.patch_paths()[rest[i]]) && files[manifest.patch_paths()[rest[i]]] is Contents by {
                assert(rest[i] == keys[i + 1]);
            }
        }
    }
}

proof fn patterns_are_chosen(patterns: Seq<Text>, excluded: bool, path: Seq<Text>, prefix: bool)
    ensures
        any_path_matches(chosen_patterns(patterns, excluded), path, prefix) <==> exists|i: int|
            0 <= i < patterns.len() && "!"@.is_prefix_of(#[trigger] patterns[i]) == excluded && path_matches(
                pattern_parts(
                    if excluded {
                        patterns[i].skip(1)
                    } else {
                        patterns[i]
                    },
                ),
                path,
                prefix,
            ),
    decreases patterns.len(),
{
    reveal_strlit("!");
    if patterns.len() > 0 {
        let shorter = patterns.drop_last();
        let last = patterns.last();
        patterns_are_chosen(shorter, excluded, path, prefix);
        let (before, after) = (chosen_patterns(shorter, excluded), chosen_patterns(patterns, excluded));
        assert(patterns[patterns.len() - 1] == last);
        assert forall|i: int| 0 <= i < shorter.len() implies #[trigger] shorter[i] == patterns[i] by {}
        assert forall|i: int| 0 <= i < before.len() implies #[trigger] before[i] == after[i] by {}
        let parts = pattern_parts(
            if excluded {
                last.skip(1)
            } else {
                last
            },
        );
        if "!"@.is_prefix_of(last) == excluded {
            assert(after == before.push(parts));
            assert(after[before.len() as int] == parts);
        } else {
            assert(after == before);
        }
        if any_path_matches(after, path, prefix) {
            let k = choose|k: int| 0 <= k < after.len() && path_matches(#[trigger] after[k], path, prefix);
            if k < before.len() {
                assert(path_matches(before[k], path, prefix));
                let i = choose|i: int|
                    0 <= i < shorter.len() && "!"@.is_prefix_of(#[trigger] shorter[i]) == excluded && path_matches(
                        pattern_parts(
                            if excluded {
                                shorter[i].skip(1)
                            } else {
                                shorter[i]
                            },
                        ),
                        path,
                        prefix,
                    );
                assert(patterns[i] == shorter[i]);
            }
        }
        if any_path_matches(before, path, prefix) {
            let k = choose|k: int| 0 <= k < before.len() && path_matches(#[trigger] before[k], path, prefix);
            assert(path_matches(after[k], path, prefix));
        }
        if exists|i: int|
            0 <= i < patterns.len() && "!"@.is_prefix_of(#[trigger] patterns[i]) == excluded && path_matches(
                pattern_parts(
                    if excluded {
                        patterns[i].skip(1)
                    } else {
                        patterns[i]
                    },
                ),
                path,
                prefix,
            ) {
            let i = choose|i: int|
                0 <= i < patterns.len() && "!"@.is_prefix_of(#[trigger] patterns[i]) == excluded && path_matches(
                    pattern_parts(
                        if excluded {
                            patterns[i].skip(1)
                        } else {
                            patterns[i]
                        },
                    ),
                    path,
                    prefix,
                );
            if i < shorter.len() {
                assert(shorter[i] == patterns[i]);
            }
        }
    }
}

/// A directory is a package just where some pattern matches it and none matches it that begins with an
/// exclamation mark, wherever these stand.
pub proof fn packages_match_patterns(manifest: ManifestView, path: Seq<Text>)
    ensures
        manifest.is_package(path) <==> {
            let patterns = manifest.workspace.packages;
            &&& exists|i: int|
                0 <= i < patterns.len() && !"!"@.is_prefix_of(#[trigger] patterns[i]) && path_matches(
                    pattern_parts(patterns[i]),
                    path,
                    false,
                )
            &&& !exists|i: int|
                0 <= i < patterns.len() && "!"@.is_prefix_of(#[trigger] patterns[i]) && path_matches(
                    pattern_parts(patterns[i].skip(1)),
                    path,
                    false,
                )
        },
{
    patterns_are_chosen(manifest.workspace.packages, false, path, false);
    patterns_are_chosen(manifest.workspace.packages, true, path, false);
}

/// What holds neither `*` nor `?` matches itself alone. A `?` in front stands for any one byte, and a `*`
/// in front for any bytes, none included.
pub proof fn segments_match(pattern: Seq<u8>, name: Seq<u8>, front: Seq<u8>)
    ensures
        (forall|i: int| 0 <= i < pattern.len() ==> #[trigger] pattern[i] != 42 && pattern[i] != 63) ==> (
        segment_matches(pattern, name) <==> pattern == name),
        segment_matches(pattern, name) ==> segment_matches(seq![42u8] + pattern, front + name),
        segment_matches(pattern, name) && front.len() == 1 ==> segment_matches(seq![63u8] + pattern, front + name),
        segment_matches(seq![63u8] + pattern, name) ==> name.len() > 0 && segment_matches(pattern, name.skip(1)),
    decreases pattern.len() + front.len(),
{
    let (star, mark) = (seq![42u8] + pattern, seq![63u8] + pattern);
    assert(star.skip(1) =~= pattern && mark.skip(1) =~= pattern);
    if pattern.len() > 0 {
        let rest = pattern.skip(1);
        if name.len() > 0 {
            segments_match(rest, name.skip(1), Seq::empty());
        }
        if forall|i: int| 0 <= i < pattern.len() ==> #[trigger] pattern[i] != 42 && pattern[i] != 63 {
            assert(pattern[0] != 42);
            assert forall|i: int| 0 <= i < rest.len() implies #[trigger] rest[i] != 42 && rest[i] != 63 by {
                assert(rest[i] == pattern[i + 1]);
            }
            if segment_matches(pattern, name) {
                assert(pattern =~= seq![pattern[0]] + rest);
                assert(name =~= seq![name[0]] + name.skip(1));
            }
            if pattern == name {
                assert(rest == name.skip(1));
            }
        }
    } else {
        if segment_matches(pattern, name) {
            assert(pattern =~= name);
        }
    }
    if segment_matches(pattern, name) {
        if front.len() == 0 {
            assert(front + name =~= name);
        } else {
            let less = front.skip(1);
            segments_match(pattern, name, less);
            assert((front + name).skip(1) =~= less + name);
        }
        if front.len() == 1 {
            assert((front + name).skip(1) =~= name);
        }
    }
}

/// A `**` in front of a pattern stands for any segments, none included. Without one, each segment is
/// matched by its own.
pub proof fn paths_match(pattern: Seq<Text>, path: Seq<Text>, front: Seq<Text>, segment: Text, name: Text)
    ensures
        path_matches(pattern, path, false) ==> path_matches(seq!["**"@] + pattern, front + path, false),
        segment != "**"@ ==> (path_matches(seq![segment] + pattern, seq![name] + path, false) <==> segment_matches(
            encode_utf8(segment),
            encode_utf8(name),
        ) && path_matches(pattern, path, false)),
        path_matches(Seq::empty(), path, false) <==> path.len() == 0,
    decreases front.len(),
{
    let deep = seq!["**"@] + pattern;
    assert(deep.skip(1) =~= pattern);
    assert((seq![segment] + pattern).skip(1) =~= pattern);
    assert((seq![name] + path).skip(1) =~= path);
    if path_matches(pattern, path, false) {
        if front.len() == 0 {
            assert(front + path =~= path);
        } else {
            paths_match(pattern, path, front.skip(1), segment, name);
            assert((front + path).skip(1) =~= front.skip(1) + path);
        }
    }
}

} // verus!
