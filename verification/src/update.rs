//! Bringing the lock up to date, step by step.
use vstd::prelude::*;

use crate::dict::{Dict, Duplicate, Names};
use crate::error::Error;
use crate::install::{
    choose_packages, is_chosen, mark_builds, mark_patches, marked_build, marked_patch, nixpkgs_planned, node_for,
    node_planned, outdated, pick_nixpkgs, pick_node, plan_node, planned, skipped_scripts, unused_patches, Chosen,
    Lockfile, NixpkgsPlan, NixpkgsPlanView, NodePlan, NodePlanView, Update,
};
use crate::lock::{
    lock_fault, validate, Lock, LockView, Nixpkgs, NixpkgsView, Node, NodeView, PackageView, Patch, LOCKFILE,
};
use crate::manifest::BuildMode;
use crate::registry::Registry;
use crate::resolve::Project;
use crate::pnpm;
use crate::text::{cat, Text};
use crate::time::Timestamp;

verus! {

/// What a project asks of its lock.
pub struct Request {
    pub projects: Dict<Project>,
    pub overrides: Dict<String>,
    pub allow_builds: Dict<BuildMode>,
    pub build_inputs: Dict<Vec<String>>,
    pub patches: Dict<Patch>,
    /// The flake reference that Nixpkgs is locked from, if one is given.
    pub nixpkgs: Option<String>,
    /// The versions of Node.js that are asked for.
    pub node: Option<String>,
    pub update: Update,
    pub update_nixpkgs: bool,
    pub lockfile: Lockfile,
    pub cutoff: Option<Timestamp>,
}

/// What was found of earlier installs.
pub struct Earlier {
    /// hinata.lock.
    pub existing: Option<Lock>,
    /// pnpm-lock.yaml, which counts only where there is no hinata.lock.
    pub pnpm: Option<Lock>,
    /// What installs from pnpm-lock.yaml recorded beside it.
    pub nixpkgs: Option<Nixpkgs>,
    pub node: Option<Node>,
}

impl Earlier {
    /// The lock that was found.
    pub open spec fn found(self) -> Option<LockView> {
        if self.existing is Some {
            self.existing.deep_view()
        } else {
            self.pnpm.deep_view()
        }
    }

    /// What is wrong with the lock that was found.
    pub open spec fn fault(self) -> Option<Seq<Text>> {
        match self.found() {
            Some(lock) => match lock_fault(lock) {
                Some(fault) => Some(
                    seq![
                        "reading "@ + (if self.existing is Some {
                            "hinata.lock"@
                        } else {
                            "pnpm-lock.yaml"@
                        }),
                        fault,
                    ],
                ),
                None => None,
            },
            None => None,
        }
    }

    /// The Nixpkgs that was locked.
    pub open spec fn locked_nixpkgs(self) -> Option<NixpkgsView> {
        match self.existing {
            Some(lock) => lock@.nixpkgs,
            None => self.nixpkgs.deep_view(),
        }
    }

    /// The Node.js that was locked.
    pub open spec fn locked_node(self) -> Option<NodeView> {
        match self.existing {
            Some(lock) => lock@.node,
            None => self.node.deep_view(),
        }
    }
}

impl Earlier {
    fn check(&self) -> (result: Result<(), Error>)
        ensures
            match result {
                Ok(()) => self.fault() is None,
                Err(error) => self.fault() == Some(error@),
            },
    {
        let (file, lock) = match (&self.existing, &self.pnpm) {
            (Some(lock), _) => (LOCKFILE, lock),
            (None, Some(lock)) => (pnpm::LOCKFILE, lock),
            (None, None) => {
                return Ok(());
            },
        };
        match validate(lock) {
            Ok(()) => Ok(()),
            Err(error) => {
                let ghost fault = error@;
                let error = error.within(cat("reading ", file));
                assert(error@ =~= seq!["reading "@ + file@, fault[0]]);
                Err(error)
            },
        }
    }
}

/// A valid lock whose packages are known, but not what they are built with.
pub struct Pending {
    lock: Lock,
    pnpm_only: bool,
    locked_nixpkgs: Option<Nixpkgs>,
    locked_node: Option<Node>,
    skipped: Names,
    unused_patches: Names,
    unused_overrides: Vec<String>,
}

/// What a `Pending` means.
#[verifier::ext_equal]
pub struct PendingView {
    pub lock: LockView,
    pub pnpm_only: bool,
    pub locked_nixpkgs: Option<NixpkgsView>,
    pub locked_node: Option<NodeView>,
    /// The names of packages whose install scripts are skipped.
    pub skipped: Set<Text>,
    /// The keys of patches that apply to no package.
    pub unused_patches: Set<Text>,
    /// The keys of overrides that nothing matched.
    pub unused_overrides: Seq<Text>,
}

impl View for Pending {
    type V = PendingView;

    closed spec fn view(&self) -> PendingView {
        PendingView {
            lock: self.lock@,
            pnpm_only: self.pnpm_only,
            locked_nixpkgs: self.locked_nixpkgs.deep_view(),
            locked_node: self.locked_node.deep_view(),
            skipped: self.skipped@,
            unused_patches: self.unused_patches@,
            unused_overrides: self.unused_overrides.deep_view(),
        }
    }
}

impl Pending {
    #[verifier::type_invariant]
    spec fn is_valid(&self) -> bool {
        lock_fault(self.lock@) is None
    }
}

/// A lock that is up to date, and what to tell about it.
pub struct Updated {
    pub lock: Lock,
    pub pnpm_only: bool,
    /// The names of packages whose install scripts are skipped.
    pub skipped: Names,
    /// The keys of patches that apply to no package.
    pub unused_patches: Names,
    /// The keys of overrides that nothing matched.
    pub unused_overrides: Vec<String>,
}

/// What comes next.
pub enum Step {
    /// flake.lock is read.
    ReadFlake(Pending),
    /// Nixpkgs is locked from this flake reference.
    LockNixpkgs(Pending, String),
    /// The versions of Node.js in this Nixpkgs are listed, for this range.
    ListNode(Pending, Nixpkgs, String),
    /// The lock is up to date.
    Done(Updated),
}

impl Step {
    /// The lock as it is known so far.
    pub open spec fn lock(self) -> LockView {
        match self {
            Step::ReadFlake(pending) => pending@.lock,
            Step::LockNixpkgs(pending, _) => pending@.lock,
            Step::ListNode(pending, _, _) => pending@.lock,
            Step::Done(updated) => updated.lock@,
        }
    }
}

/// `result` has no lock that is not valid: whatever names and hashes were found in lockfiles or come
/// from the registry, only valid ones are handed on.
pub open spec fn hands_on_valid(result: Result<Step, Error>) -> bool {
    result matches Ok(step) ==> lock_fault(step.lock()) is None
}

/// `packages`, marked with how they are built and patched.
pub open spec fn marked(packages: Map<Text, PackageView>, request: Request, pnpm_only: bool) -> Map<
    Text,
    PackageView,
> {
    packages.map_values(
        |package: PackageView|
            marked_build(package, request.allow_builds@, request.build_inputs@, pnpm_only),
    ).map_values(|package: PackageView| marked_patch(package, request.patches@))
}

/// The packages of `chosen`, marked, with what was locked before.
pub open spec fn pending_from(chosen: Chosen, request: Request, earlier: Earlier) -> PendingView {
    PendingView {
        lock: LockView {
            packages: marked(chosen.lock@.packages, request, chosen.pnpm_only),
            ..chosen.lock@
        },
        pnpm_only: chosen.pnpm_only,
        locked_nixpkgs: earlier.locked_nixpkgs(),
        locked_node: earlier.locked_node(),
        skipped: skipped_scripts(chosen.lock@.packages, request.allow_builds@, chosen.pnpm_only),
        unused_patches: unused_patches(
            chosen.lock@.packages.map_values(
                |package: PackageView|
                    marked_build(package, request.allow_builds@, request.build_inputs@, chosen.pnpm_only),
            ),
            request.patches@,
        ),
        unused_overrides: chosen.unused_overrides.deep_view(),
    }
}

/// `updated` is `pending` with its lock built with `nixpkgs` and `node`.
pub open spec fn is_done(updated: Updated, pending: PendingView, nixpkgs: NixpkgsView, node: Option<NodeView>) -> bool {
    &&& updated.lock@ == (LockView { nixpkgs: Some(nixpkgs), node, ..pending.lock })
    &&& updated.pnpm_only == pending.pnpm_only
    &&& updated.skipped@ == pending.skipped
    &&& updated.unused_patches@ == pending.unused_patches
    &&& updated.unused_overrides.deep_view() == pending.unused_overrides
}

/// `result` is what follows once it is known that `pending` is built with `nixpkgs`.
pub open spec fn follows_nixpkgs(
    result: Result<Step, Error>,
    pending: PendingView,
    request: Request,
    nixpkgs: NixpkgsView,
) -> bool {
    match (
        node_planned(
            request.node.deep_view(),
            pending.locked_node,
            pending.locked_nixpkgs,
            nixpkgs,
            request.lockfile,
        ),
        result,
    ) {
        (None, Err(error)) => error@ == seq![outdated()],
        (Some(NodePlanView::Omit), Ok(Step::Done(done))) => is_done(done, pending, nixpkgs, None),
        (Some(NodePlanView::Use(node)), Ok(Step::Done(done))) => is_done(done, pending, nixpkgs, Some(node)),
        (Some(NodePlanView::Choose(range)), Ok(Step::ListNode(next, chosen, asked))) => next@ == pending
            && chosen@ == nixpkgs && asked@ == range,
        _ => false,
    }
}

/// `result` is what follows once it is known that flake.lock has `flake`.
pub open spec fn follows_flake(
    result: Result<Step, Error>,
    pending: PendingView,
    request: Request,
    flake: Option<NixpkgsView>,
) -> bool {
    match nixpkgs_planned(
        request.nixpkgs.deep_view(),
        flake,
        pending.locked_nixpkgs,
        request.update_nixpkgs,
        request.lockfile,
    ) {
        None => result matches Err(error) && error@ == seq![outdated()],
        Some(NixpkgsPlanView::Use(nixpkgs)) => follows_nixpkgs(result, pending, request, nixpkgs),
        Some(NixpkgsPlanView::Lock(reference)) => result matches Ok(Step::LockNixpkgs(next, asked)) && next@ == pending
            && asked@ == reference,
    }
}

/// `result` is what follows once the packages wait in `pending`. flake.lock counts only where no
/// Nixpkgs is configured.
pub open spec fn follows_packages(result: Result<Step, Error>, pending: PendingView, request: Request) -> bool {
    if request.nixpkgs is None {
        result matches Ok(Step::ReadFlake(next)) && next@ == pending
    } else {
        follows_flake(result, pending, request, None)
    }
}

fn text_of(text: &Option<String>) -> (result: Option<&str>)
    ensures
        result.deep_view() == text.deep_view(),
{
    match text {
        Some(text) => Some(text.as_str()),
        None => None,
    }
}

/// Chooses the packages and marks how they are built and patched.
pub fn begin<R: Registry>(request: &Request, earlier: Earlier, registry: &R) -> (result: Result<Step, Error>)
    ensures
        match earlier.fault() {
            Some(problem) => result matches Err(error) && error@ == problem,
            None => exists|chosen: Result<Chosen, Error>| #[trigger]
                is_chosen(
                    chosen,
                    planned(
                        earlier.existing.deep_view(),
                        earlier.pnpm.deep_view(),
                        request.projects@,
                        request.overrides@,
                        request.update@ is Keep,
                        request.lockfile,
                    ),
                    earlier.found(),
                    request.projects@,
                    *registry,
                    request.update@,
                    request.cutoff,
                    request.overrides@,
                ) && match chosen {
                    Err(problem) => result matches Err(error) && error@ == problem@,
                    Ok(chosen) => {
                        let pending = pending_from(chosen, *request, earlier);
                        match lock_fault(pending.lock) {
                            Some(fault) => result matches Err(error) && error@ == seq![fault],
                            None => follows_packages(result, pending, *request),
                        }
                    },
                },
        },
        hands_on_valid(result),
{
    let ghost before = earlier;
    if let Err(error) = earlier.check() {
        return Err(error);
    }
    let (locked_nixpkgs, locked_node) = match &earlier.existing {
        Some(lock) => (lock.nixpkgs.duplicate(), lock.node.duplicate()),
        None => (earlier.nixpkgs, earlier.node),
    };
    let chosen = choose_packages(
        earlier.existing,
        earlier.pnpm,
        &request.projects,
        registry,
        &request.update,
        request.lockfile,
        request.cutoff,
        &request.overrides,
    );
    let ghost outcome = chosen;
    let chosen = match chosen {
        Ok(chosen) => chosen,
        Err(error) => {
            return Err(error);
        },
    };
    let ghost waiting = pending_from(chosen, *request, before);
    let mut lock = chosen.lock;
    let skipped = mark_builds(&mut lock, &request.allow_builds, &request.build_inputs, chosen.pnpm_only);
    let unused_patches = mark_patches(&mut lock, &request.patches);
    assert(lock@ =~= waiting.lock);
    if let Err(error) = validate(&lock) {
        return Err(error);
    }
    let pending = Pending {
        lock,
        pnpm_only: chosen.pnpm_only,
        locked_nixpkgs,
        locked_node,
        skipped,
        unused_patches,
        unused_overrides: chosen.unused_overrides,
    };
    assert(pending@ =~= waiting);
    if request.nixpkgs.is_none() {
        return Ok(Step::ReadFlake(pending));
    }
    flake_read(request, pending, None)
}

/// Goes on once flake.lock has been read.
pub fn flake_read(request: &Request, pending: Pending, flake: Option<Nixpkgs>) -> (result: Result<Step, Error>)
    ensures
        follows_flake(result, pending@, *request, flake.deep_view()),
        hands_on_valid(result),
{
    proof {
        use_type_invariant(&pending);
    }
    let plan = pick_nixpkgs(
        text_of(&request.nixpkgs),
        flake,
        pending.locked_nixpkgs.duplicate(),
        request.update_nixpkgs,
        request.lockfile,
    );
    match plan {
        Ok(NixpkgsPlan::Use(nixpkgs)) => nixpkgs_known(request, pending, nixpkgs),
        Ok(NixpkgsPlan::Lock(reference)) => Ok(Step::LockNixpkgs(pending, reference)),
        Err(error) => Err(error),
    }
}

/// Goes on once Nixpkgs is known.
pub fn nixpkgs_known(request: &Request, pending: Pending, nixpkgs: Nixpkgs) -> (result: Result<Step, Error>)
    ensures
        follows_nixpkgs(result, pending@, *request, nixpkgs@),
        hands_on_valid(result),
{
    proof {
        use_type_invariant(&pending);
    }
    let plan = plan_node(
        text_of(&request.node),
        pending.locked_node.duplicate(),
        match &pending.locked_nixpkgs {
            Some(locked) => Some(locked),
            None => None,
        },
        &nixpkgs,
        request.lockfile,
    );
    match plan {
        Ok(NodePlan::Omit) => Ok(Step::Done(settle(pending, nixpkgs, None))),
        Ok(NodePlan::Use(node)) => Ok(Step::Done(settle(pending, nixpkgs, Some(node)))),
        Ok(NodePlan::Choose(range)) => Ok(Step::ListNode(pending, nixpkgs, range)),
        Err(error) => Err(error),
    }
}

/// Goes on once it is known which versions of Node.js there are.
pub fn node_listed(pending: Pending, nixpkgs: Nixpkgs, range: &str, available: &Dict<String>) -> (result: Result<
    Step,
    Error,
>)
    ensures
        match node_for(range@, available@) {
            Ok(node) => result matches Ok(Step::Done(updated)) && is_done(updated, pending@, nixpkgs@, Some(node)),
            Err(problem) => result matches Err(error) && error@ == seq![problem],
        },
        hands_on_valid(result),
{
    match pick_node(range, available) {
        Ok(node) => Ok(Step::Done(settle(pending, nixpkgs, Some(node)))),
        Err(error) => {
            assert(error@ =~= seq![error@[0]]);
            Err(error)
        },
    }
}

fn settle(pending: Pending, nixpkgs: Nixpkgs, node: Option<Node>) -> (result: Updated)
    ensures
        is_done(result, pending@, nixpkgs@, node.deep_view()),
        lock_fault(result.lock@) is None,
{
    proof {
        use_type_invariant(&pending);
    }
    let ghost before = pending.lock@;
    let mut lock = pending.lock;
    lock.nixpkgs = Some(nixpkgs);
    lock.node = node;
    assert(lock@ =~= LockView { nixpkgs: Some(nixpkgs@), node: node.deep_view(), ..before });
    Updated {
        lock,
        pnpm_only: pending.pnpm_only,
        skipped: pending.skipped,
        unused_patches: pending.unused_patches,
        unused_overrides: pending.unused_overrides,
    }
}

/// Every package is marked both with how it is built and with its patch, and none is added or lost.
pub proof fn packages_are_marked(packages: Map<Text, PackageView>, request: Request, pnpm_only: bool)
    ensures
        marked(packages, request, pnpm_only).dom() == packages.dom(),
        forall|id: Text| #[trigger]
            packages.contains_key(id) ==> {
                let package = marked(packages, request, pnpm_only)[id];
                let built = marked_build(packages[id], request.allow_builds@, request.build_inputs@, pnpm_only);
                &&& package.build == built.build && package.impure_build == built.impure_build
                &&& package.build_inputs == built.build_inputs
                &&& package.patch == marked_patch(packages[id], request.patches@).patch
                &&& package.name == packages[id].name && package.version == packages[id].version
                &&& package.deps == packages[id].deps && package.optional_deps == packages[id].optional_deps
                &&& package.url == packages[id].url && package.integrity == packages[id].integrity
            },
{
    assert(marked(packages, request, pnpm_only).dom() =~= packages.dom());
}

} // verus!
