//! The routes by which importers reach a package.
use vstd::prelude::*;

use crate::dict::{sorted, sorted_properties, taken_one_more, Dict, Names};
use crate::error::Error;
use crate::lock::{ImporterView, Lock, LockView, Package, PackageView};
use crate::resolve::{cut_version, split_version};
use crate::text::{
    cat, cat5, join, joined, less, same, text_less, text_less_irreflexive, text_less_total, text_less_transitive,
    Text,
};

verus! {

/// How far a package is from another one, and which package to go to next to reach it.
pub struct Step {
    pub distance: usize,
    pub next: Option<String>,
}

/// What a `Step` means.
#[verifier::ext_equal]
pub struct StepView {
    pub distance: nat,
    pub next: Option<Text>,
}

impl DeepView for Step {
    type V = StepView;

    open spec fn deep_view(&self) -> StepView {
        StepView { distance: self.distance as nat, next: self.next.deep_view() }
    }
}

/// How far each package is from one instance.
pub type Steps = Map<Text, StepView>;

/// `id` depends on `child` directly.
#[verifier::opaque]
pub open spec fn needs_directly(packages: Map<Text, PackageView>, id: Text, child: Text) -> bool {
    packages.contains_key(id) && (packages[id].deps.values().contains(child)
        || packages[id].optional_deps.values().contains(child))
}

/// The packages that depend on `child` directly.
pub open spec fn dependents(packages: Map<Text, PackageView>, child: Text) -> Set<Text> {
    packages.dom().filter(|id: Text| needs_directly(packages, id, child))
}

/// The packages that depend on `child` directly and are not in `steps` yet, in order.
pub open spec fn new_dependents(packages: Map<Text, PackageView>, child: Text, steps: Steps) -> Seq<Text> {
    sorted(dependents(packages, child).difference(steps.dom()))
}

/// `steps` with `ids`, from each of which `next` is the next package.
pub open spec fn with_steps(steps: Steps, ids: Set<Text>, next: Text) -> Steps {
    let distance = steps[next].distance + 1;
    steps.union_prefer_right(
        Map::new(|id: Text| ids.contains(id), |id: Text| StepView { distance, next: Some(next) }),
    )
}

/// `steps` with all packages that lead to those in `queue`, the nearest first.
pub open spec fn explored(packages: Map<Text, PackageView>, steps: Steps, queue: Seq<Text>) -> Steps
    decreases packages.dom().difference(steps.dom()).len(), queue.len(),
        when packages.dom().finite()
        via explored_ends
{
    if queue.len() == 0 {
        steps
    } else {
        let new = dependents(packages, queue[0]).difference(steps.dom());
        explored(
            packages,
            with_steps(steps, new, queue[0]),
            queue.skip(1) + new_dependents(packages, queue[0], steps),
        )
    }
}

proof fn with_steps_facts(steps: Steps, ids: Set<Text>, next: Text)
    ensures
        with_steps(steps, ids, next).dom() == steps.dom().union(ids),
        forall|id: Text| #[trigger] ids.contains(id) ==> with_steps(steps, ids, next)[id] == (StepView {
            distance: steps[next].distance + 1,
            next: Some(next),
        }),
        forall|id: Text| steps.contains_key(id) && !ids.contains(id) ==> #[trigger] with_steps(steps, ids, next)[id]
            == steps[id],
{
    assert(with_steps(steps, ids, next).dom() =~= steps.dom().union(ids));
}

/// Either more packages are known after a step, or fewer wait.
proof fn exploring_ends(packages: Map<Text, PackageView>, steps: Steps, queue: Seq<Text>)
    requires
        packages.dom().finite(),
        queue.len() > 0,
    ensures
        ({
            let new = dependents(packages, queue[0]).difference(steps.dom());
            let (left, fewer) = (
                packages.dom().difference(steps.dom()).len(),
                packages.dom().difference(with_steps(steps, new, queue[0]).dom()).len(),
            );
            fewer < left || (fewer == left && new_dependents(packages, queue[0], steps).len() == 0)
        }),
{
    let new = dependents(packages, queue[0]).difference(steps.dom());
    let after = with_steps(steps, new, queue[0]);
    let (left, fewer) = (packages.dom().difference(steps.dom()), packages.dom().difference(after.dom()));
    packages.dom().lemma_len_filter(|id: Text| needs_directly(packages, id, queue[0]));
    vstd::set_lib::lemma_len_difference(dependents(packages, queue[0]), steps.dom());
    if new.len() > 0 {
        with_steps_facts(steps, new, queue[0]);
        let id = new.choose();
        assert(new.contains(id));
        assert(dependents(packages, queue[0]).contains(id));
        assert(after.dom().contains(id));
        assert(left.contains(id) && !fewer.contains(id));
        assert(fewer.subset_of(left.remove(id)));
        vstd::set_lib::lemma_len_subset(fewer, left.remove(id));
    } else {
        with_steps_facts(steps, new, queue[0]);
        new.lemma_len0_is_empty();
        assert(fewer =~= left);
        sorted_properties(new);
    }
}

#[via_fn]
proof fn explored_ends(packages: Map<Text, PackageView>, steps: Steps, queue: Seq<Text>) {
    if queue.len() > 0 {
        exploring_ends(packages, steps, queue);
    }
}

/// How far each package is from `target`, and where it leads next.
pub open spec fn steps_to(packages: Map<Text, PackageView>, target: Text) -> Steps {
    explored(packages, map![target => StepView { distance: 0, next: None }], seq![target])
}

/// The packages on the way from `at`, that one first.
pub open spec fn chain_from(steps: Steps, at: Text) -> Seq<Text>
    decreases steps[at].distance,
{
    match steps[at].next {
        None => seq![at],
        Some(next) => if steps[next].distance < steps[at].distance {
            seq![at] + chain_from(steps, next)
        } else {
            seq![at]
        },
    }
}

/// The step from `id` leads one nearer, along a dependency.
#[verifier::opaque]
spec fn step_sound(packages: Map<Text, PackageView>, target: Text, steps: Steps, id: Text) -> bool {
    match steps[id].next {
        None => id == target && steps[id].distance == 0,
        Some(next) => steps.contains_key(next) && steps[id].distance == steps[next].distance + 1 && needs_directly(
            packages,
            id,
            next,
        ),
    }
}

/// Every step leads one nearer, along a dependency.
spec fn steps_sound(packages: Map<Text, PackageView>, target: Text, steps: Steps) -> bool {
    &&& steps.contains_key(target)
    &&& steps[target] == StepView { distance: 0, next: None }
    &&& forall|id: Text| #[trigger] steps.contains_key(id) ==> step_sound(packages, target, steps, id)
}

/// What waits in `queue` is in order of distance, and nothing is much farther than the first of it.
spec fn queue_sound(steps: Steps, queue: Seq<Text>) -> bool {
    &&& forall|i: int| 0 <= i < queue.len() ==> steps.contains_key(#[trigger] queue[i])
    &&& forall|i: int, j: int|
        0 <= i < j < queue.len() ==> steps[#[trigger] queue[i]].distance <= steps[#[trigger] queue[j]].distance
    &&& queue.len() > 0 ==> forall|id: Text| #[trigger]
        steps.contains_key(id) ==> steps[id].distance <= steps[queue[0]].distance + 1
}

/// What is no longer in `queue` has passed on its distance.
spec fn passed_on(packages: Map<Text, PackageView>, steps: Steps, queue: Seq<Text>) -> bool {
    forall|id: Text, child: Text|
        steps.contains_key(child) && !queue.contains(child) && #[trigger] needs_directly(packages, id, child)
            ==> steps.contains_key(id) && steps[id].distance <= steps[child].distance + 1
}

/// Taking the first package out of the queue keeps the queue in order.
proof fn queue_stays_sound(packages: Map<Text, PackageView>, steps: Steps, queue: Seq<Text>)
    requires
        packages.dom().finite(),
        queue.len() > 0,
        queue_sound(steps, queue),
    ensures
        ({
            let new = dependents(packages, queue[0]).difference(steps.dom());
            let after = with_steps(steps, new, queue[0]);
            queue_sound(after, queue.skip(1) + new_dependents(packages, queue[0], steps))
        }),
{
    let head = queue[0];
    let new = dependents(packages, head).difference(steps.dom());
    let list = new_dependents(packages, head, steps);
    let after = with_steps(steps, new, head);
    let rest = queue.skip(1) + list;
    let d = steps[head].distance;
    new_in_order(packages, head, steps);
    with_steps_facts(steps, new, head);
    assert(steps.contains_key(head));
    assert forall|i: int| 0 <= i < rest.len() implies after.contains_key(#[trigger] rest[i]) && d
        <= after[rest[i]].distance <= d + 1 && (i >= queue.len() - 1 ==> after[rest[i]].distance == d + 1) by {
        if i < queue.len() - 1 {
            assert(rest[i] == queue[i + 1]);
            assert(steps.contains_key(queue[i + 1]));
            assert(steps[queue[0]].distance <= steps[queue[i + 1]].distance);
        } else {
            assert(rest[i] == list[i - (queue.len() - 1)]);
            assert(new.contains(rest[i]));
        }
    }
    assert forall|i: int, j: int| 0 <= i < j < rest.len() implies after[#[trigger] rest[i]].distance
        <= after[#[trigger] rest[j]].distance by {
        if j < queue.len() - 1 {
            assert(rest[i] == queue[i + 1] && rest[j] == queue[j + 1]);
            assert(steps.contains_key(queue[i + 1]) && steps.contains_key(queue[j + 1]));
            assert(steps[queue[i + 1]].distance <= steps[queue[j + 1]].distance);
        }
    }
    if rest.len() > 0 {
        assert forall|id: Text| #[trigger] after.contains_key(id) implies after[id].distance <= after[rest[0]].distance
            + 1 by {
            if !new.contains(id) {
                assert(steps.contains_key(id));
            }
        }
    }
}

proof fn new_in_order(packages: Map<Text, PackageView>, head: Text, steps: Steps)
    requires
        packages.dom().finite(),
    ensures
        ({
            let new = dependents(packages, head).difference(steps.dom());
            let list = new_dependents(packages, head, steps);
            &&& forall|i: int| 0 <= i < list.len() ==> new.contains(#[trigger] list[i])
            &&& forall|id: Text| #[trigger] new.contains(id) ==> list.contains(id) && needs_directly(packages, id, head)
                && !steps.contains_key(id)
            &&& forall|id: Text| #[trigger] needs_directly(packages, id, head) ==> new.contains(id) || steps.contains_key(id)
            &&& new.finite()
        }),
{
    let new = dependents(packages, head).difference(steps.dom());
    let list = new_dependents(packages, head, steps);
    packages.dom().lemma_len_filter(|id: Text| needs_directly(packages, id, head));
    vstd::set_lib::lemma_len_difference(dependents(packages, head), steps.dom());
    sorted_properties(new);
    assert forall|i: int| 0 <= i < list.len() implies new.contains(#[trigger] list[i]) by {
        assert(list.contains(list[i]));
    }
    assert forall|id: Text| #[trigger] needs_directly(packages, id, head) implies new.contains(id) || steps.contains_key(
        id,
    ) by {
        reveal(needs_directly);
        assert(dependents(packages, head).contains(id));
    }
}

/// Taking the first package out of the queue keeps every step sound.
proof fn steps_stay_sound(packages: Map<Text, PackageView>, target: Text, steps: Steps, head: Text)
    requires
        packages.dom().finite(),
        steps_sound(packages, target, steps),
        steps.contains_key(head),
    ensures
        steps_sound(
            packages,
            target,
            with_steps(steps, dependents(packages, head).difference(steps.dom()), head),
        ),
{
    let new = dependents(packages, head).difference(steps.dom());
    let after = with_steps(steps, new, head);
    new_in_order(packages, head, steps);
    with_steps_facts(steps, new, head);
    assert forall|id: Text| #[trigger] after.contains_key(id) implies step_sound(packages, target, after, id) by {
        reveal(step_sound);
        assert(!new.contains(head));
        if !new.contains(id) {
            assert(steps.contains_key(id));
            assert(step_sound(packages, target, steps, id));
            if let Some(next) = steps[id].next {
                assert(!new.contains(next));
            }
        }
    }
    assert(!new.contains(target));
}

/// Taking the first package out of the queue passes on its distance.
proof fn step_passes_on(packages: Map<Text, PackageView>, steps: Steps, queue: Seq<Text>)
    requires
        packages.dom().finite(),
        queue.len() > 0,
        queue_sound(steps, queue),
        passed_on(packages, steps, queue),
    ensures
        ({
            let new = dependents(packages, queue[0]).difference(steps.dom());
            let after = with_steps(steps, new, queue[0]);
            passed_on(packages, after, queue.skip(1) + new_dependents(packages, queue[0], steps))
        }),
{
    let head = queue[0];
    let new = dependents(packages, head).difference(steps.dom());
    let list = new_dependents(packages, head, steps);
    let after = with_steps(steps, new, head);
    let rest = queue.skip(1) + list;
    new_in_order(packages, head, steps);
    with_steps_facts(steps, new, head);
    assert(steps.contains_key(head));
    assert forall|id: Text, child: Text|
        after.contains_key(child) && !rest.contains(child) && #[trigger] needs_directly(
            packages,
            id,
            child,
        ) implies after.contains_key(id) && after[id].distance <= after[child].distance + 1 by {
        if new.contains(child) {
            assert(list.contains(child));
            let k = list.index_of(child);
            assert(rest[queue.len() - 1 + k] == child);
        } else if child == head {
            if new.contains(id) {
                assert(after[id].distance == steps[head].distance + 1);
            } else {
                assert(steps.contains_key(id));
            }
        } else {
            assert(steps.contains_key(child));
            if queue.contains(child) {
                let k = queue.index_of(child);
                assert(rest[k - 1] == child);
            }
            assert(steps.contains_key(id));
            assert(!new.contains(id));
        }
    }
}

proof fn explored_is_shortest(packages: Map<Text, PackageView>, target: Text, steps: Steps, queue: Seq<Text>)
    requires
        packages.dom().finite(),
        steps_sound(packages, target, steps),
        queue_sound(steps, queue),
        passed_on(packages, steps, queue),
    ensures
        steps_sound(packages, target, explored(packages, steps, queue)),
        passed_on(packages, explored(packages, steps, queue), Seq::empty()),
    decreases packages.dom().difference(steps.dom()).len(), queue.len(),
{
    if queue.len() == 0 {
        assert(queue =~= Seq::empty());
    } else {
        exploring_ends(packages, steps, queue);
        assert(steps.contains_key(queue[0]));
        steps_stay_sound(packages, target, steps, queue[0]);
        queue_stays_sound(packages, steps, queue);
        step_passes_on(packages, steps, queue);
        let new = dependents(packages, queue[0]).difference(steps.dom());
        explored_is_shortest(
            packages,
            target,
            with_steps(steps, new, queue[0]),
            queue.skip(1) + new_dependents(packages, queue[0], steps),
        );
    }
}

/// `path` goes from dependency to dependency.
pub open spec fn is_route(packages: Map<Text, PackageView>, path: Seq<Text>) -> bool {
    forall|i: int, j: int|
        0 <= i && j == i + 1 && j < path.len() ==> needs_directly(packages, #[trigger] path[i], #[trigger] path[j])
}

proof fn distance_is_least(packages: Map<Text, PackageView>, target: Text, steps: Steps, path: Seq<Text>)
    requires
        steps_sound(packages, target, steps),
        passed_on(packages, steps, Seq::empty()),
        path.len() > 0,
        path.last() == target,
        is_route(packages, path),
    ensures
        steps.contains_key(path[0]),
        steps[path[0]].distance < path.len(),
    decreases path.len(),
{
    if path.len() == 1 {
        assert(steps.contains_key(target));
    } else {
        let rest = path.skip(1);
        assert forall|i: int, j: int| 0 <= i && j == i + 1 && j < rest.len() implies needs_directly(
            packages,
            #[trigger] rest[i],
            #[trigger] rest[j],
        ) by {
            assert(rest[i] == path[i + 1] && rest[j] == path[j + 1]);
        }
        distance_is_least(packages, target, steps, rest);
        assert(needs_directly(packages, path[0], path[1]));
        assert(!Seq::<Text>::empty().contains(path[1]));
    }
}

proof fn chain_is_route(packages: Map<Text, PackageView>, target: Text, steps: Steps, at: Text)
    requires
        steps_sound(packages, target, steps),
        steps.contains_key(at),
    ensures
        chain_from(steps, at).len() == steps[at].distance + 1,
        chain_from(steps, at)[0] == at,
        chain_from(steps, at).last() == target,
        is_route(packages, chain_from(steps, at)),
    decreases steps[at].distance,
{
    assert(step_sound(packages, target, steps, at));
    reveal(step_sound);
    if let Some(next) = steps[at].next {
        chain_is_route(packages, target, steps, next);
        let rest = chain_from(steps, next);
        let chain = seq![at] + rest;
        assert forall|i: int, j: int| 0 <= i && j == i + 1 && j < chain.len() implies needs_directly(
            packages,
            #[trigger] chain[i],
            #[trigger] chain[j],
        ) by {
            if i > 0 {
                assert(chain[i] == rest[i - 1] && chain[j] == rest[j - 1]);
            } else {
                assert(chain[1] == rest[0]);
            }
        }
        assert(chain.last() == rest.last());
    }
}

/// The steps towards a package are those of shortest routes: whatever leads to it is among them, and
/// the chain from there is a route to it that no other route is shorter than.
pub proof fn steps_are_shortest(packages: Map<Text, PackageView>, target: Text, path: Seq<Text>)
    requires
        packages.dom().finite(),
        path.len() > 0,
        path.last() == target,
        is_route(packages, path),
    ensures
        ({
            let steps = steps_to(packages, target);
            let chain = chain_from(steps, path[0]);
            &&& steps.contains_key(path[0])
            &&& chain.len() > 0
            &&& chain[0] == path[0]
            &&& chain.last() == target
            &&& is_route(packages, chain)
            &&& chain.len() <= path.len()
        }),
{
    steps_to_sound(packages, target);
    let steps = steps_to(packages, target);
    distance_is_least(packages, target, steps, path);
    chain_is_route(packages, target, steps, path[0]);
}

/// No package is among the steps that does not lead to the target.
pub proof fn steps_lead_there(packages: Map<Text, PackageView>, target: Text, at: Text)
    requires
        packages.dom().finite(),
        steps_to(packages, target).contains_key(at),
    ensures
        chain_from(steps_to(packages, target), at)[0] == at,
        chain_from(steps_to(packages, target), at).last() == target,
        is_route(packages, chain_from(steps_to(packages, target), at)),
{
    steps_to_sound(packages, target);
    chain_is_route(packages, target, steps_to(packages, target), at);
}

/// `id` is noted as one of the parents of `child`.
spec fn is_noted(parents: Map<Text, Set<Text>>, child: Text, id: Text) -> bool {
    parents.contains_key(child) && parents[child].contains(id)
}

/// Which packages depend on each child directly.
spec fn are_parents(packages: Map<Text, PackageView>, parents: Map<Text, Set<Text>>) -> bool {
    forall|id: Text, child: Text|
        #[trigger] needs_directly(packages, id, child) <==> is_noted(parents, child, id)
}

/// Notes that the package at place `i` depends on what `edges` lead to.
fn note_parents(packages: &Dict<Package>, i: usize, edges: &Dict<String>, parents: &mut Dict<Names>)
    requires
        i < sorted(packages@.dom()).len(),
    ensures
        forall|id: Text, child: Text|
            #[trigger] is_noted(final(parents)@, child, id) <==> is_noted(old(parents)@, child, id) || (id == sorted(
                packages@.dom(),
            )[i as int] && edges@.values().contains(child)),
{
    let ghost me = sorted(packages@.dom())[i as int];
    let ghost before = parents@;
    let n: usize = edges.len();
    let ghost aliases = sorted(edges@.dom());
    proof {
        sorted_properties(edges@.dom());
    }
    let mut k: usize = 0;
    while k < n
        invariant
            k <= n,
            n == aliases.len(),
            aliases == sorted(edges@.dom()),
            i < sorted(packages@.dom()).len(),
            me == sorted(packages@.dom())[i as int],
            forall|x: Text| #[trigger] aliases.contains(x) == edges@.dom().contains(x),
            forall|id: Text, child: Text|
                #[trigger] is_noted(parents@, child, id) <==> is_noted(before, child, id) || (id == me && exists|m: int|
                    0 <= m < k && edges@[#[trigger] aliases[m]] == child),
        decreases n - k,
    {
        let target = edges.value(k);
        let ghost here = parents@;
        assert(edges@[aliases[k as int]] == target@);
        let mut names = match parents.remove(target.as_str()) {
            Some(names) => names,
            None => Names::new(),
        };
        names.insert(packages.key(i).clone());
        let ghost more = names@;
        parents.insert(target.clone(), names);
        proof {
            assert(parents@ =~= here.insert(target@, more));
            assert forall|id: Text, child: Text|
                #[trigger] is_noted(parents@, child, id) <==> is_noted(before, child, id) || (id == me && exists|m: int|
                    0 <= m < k + 1 && edges@[#[trigger] aliases[m]] == child) by {
                if child == target@ && id == me {
                    assert(edges@[aliases[k as int]] == child);
                }
                assert(is_noted(parents@, child, id) <==> is_noted(here, child, id) || (child == target@ && id == me));
                if exists|m: int| 0 <= m < k + 1 && edges@[#[trigger] aliases[m]] == child {
                    let m = choose|m: int| 0 <= m < k + 1 && edges@[#[trigger] aliases[m]] == child;
                    if m < k {
                        assert(edges@[aliases[m]] == child);
                    }
                }
            }
        }
        k += 1;
    }
    assert forall|id: Text, child: Text|
        #[trigger] is_noted(parents@, child, id) <==> is_noted(before, child, id) || (id == me && edges@.values().contains(child)) by {
        if edges@.values().contains(child) {
            let alias = choose|alias: Text| #[trigger] edges@.dom().contains(alias) && edges@[alias] == child;
            assert(aliases.contains(alias));
            let m = aliases.index_of(alias);
            assert(edges@[aliases[m]] == child);
        }
        if exists|m: int| 0 <= m < n && edges@[#[trigger] aliases[m]] == child {
            let m = choose|m: int| 0 <= m < n && edges@[#[trigger] aliases[m]] == child;
            assert(aliases.contains(aliases[m]));
            assert(edges@.dom().contains(aliases[m]));
        }
    }
}

fn find_parents(packages: &Dict<Package>) -> (result: Dict<Names>)
    ensures
        are_parents(packages@, result@),
{
    let mut parents: Dict<Names> = Dict::new();
    let n: usize = packages.len();
    let ghost ids = sorted(packages@.dom());
    proof {
        sorted_properties(packages@.dom());
    }
    let mut i: usize = 0;
    while i < n
        invariant
            i <= n,
            n == ids.len(),
            ids == sorted(packages@.dom()),
            ids.no_duplicates(),
            forall|x: Text| #[trigger] ids.contains(x) == packages@.dom().contains(x),
            forall|id: Text, child: Text|
                #[trigger] is_noted(parents@, child, id) <==> exists|j: int|
                    0 <= j < i && #[trigger] ids[j] == id && needs_directly(packages@, id, child),
        decreases n - i,
    {
        let package = packages.value(i);
        let ghost me = ids[i as int];
        let ghost before = parents@;
        assert(ids.contains(me));
        note_parents(packages, i, &package.deps, &mut parents);
        note_parents(packages, i, &package.optional_deps, &mut parents);
        assert forall|id: Text, child: Text|
            #[trigger] is_noted(parents@, child, id) <==> exists|j: int|
                0 <= j < i + 1 && #[trigger] ids[j] == id && needs_directly(packages@, id, child) by {
            reveal(needs_directly);
            if is_noted(before, child, id) {
                let j = choose|j: int| 0 <= j < i && #[trigger] ids[j] == id && needs_directly(packages@, id, child);
                assert(ids[j] == id);
            }
            if id == me && needs_directly(packages@, id, child) {
                assert(ids[i as int] == id);
            }
            if exists|j: int| 0 <= j < i + 1 && #[trigger] ids[j] == id && needs_directly(packages@, id, child) {
                let j = choose|j: int|
                    0 <= j < i + 1 && #[trigger] ids[j] == id && needs_directly(packages@, id, child);
                if j < i {
                    assert(is_noted(before, child, id));
                }
            }
        }
        i += 1;
    }
    assert forall|id: Text, child: Text| #[trigger]
        needs_directly(packages@, id, child) <==> is_noted(parents@, child, id) by {
        if needs_directly(packages@, id, child) {
            reveal(needs_directly);
            assert(ids.contains(id));
            assert(ids[ids.index_of(id)] == id);
            assert(is_noted(parents@, child, id));
        }
        if is_noted(parents@, child, id) {
            let j = choose|j: int| 0 <= j < n && #[trigger] ids[j] == id && needs_directly(packages@, id, child);
        }
    }
    parents
}

/// The packages that depend on `id` directly and are not in `steps` yet.
fn find_new(
    parents: &Dict<Names>,
    steps: &Dict<Step>,
    id: &str,
    Ghost(packages): Ghost<Map<Text, PackageView>>,
) -> (result: Names)
    requires
        are_parents(packages, parents@),
    ensures
        result@ == dependents(packages, id@).difference(steps@.dom()),
{
    let ghost wanted = dependents(packages, id@).difference(steps@.dom());
    let mut new = Names::new();
    if let Some(names) = parents.get(id) {
        let n: usize = names.len();
        let ghost list = sorted(names@);
        proof {
            sorted_properties(names@);
            assert(new@ =~= list.take(0).to_set().difference(steps@.dom()));
        }
        let mut i: usize = 0;
        while i < n
            invariant
                i <= n,
                n == list.len(),
                list == sorted(names@),
                new@ == list.take(i as int).to_set().difference(steps@.dom()),
            decreases n - i,
        {
            let parent = names.at(i);
            proof {
                taken_one_more(list, i as int);
            }
            if !steps.contains_key(parent.as_str()) {
                new.insert(parent.clone());
            }
            assert(new@ =~= list.take(i + 1).to_set().difference(steps@.dom()));
            i += 1;
        }
        assert(list.take(i as int) =~= list);
        assert(new@ =~= names@.difference(steps@.dom()));
    }
    assert forall|x: Text| new@.contains(x) == wanted.contains(x) by {
        reveal(needs_directly);
        assert(needs_directly(packages, x, id@) <==> is_noted(parents@, id@, x));
    }
    assert(new@ =~= wanted);
    new
}

/// How far each package is from `target`, and which one to go to next to reach it.
fn steps_towards(
    parents: &Dict<Names>,
    target: &str,
    Ghost(packages): Ghost<Map<Text, PackageView>>,
) -> (result: Dict<Step>)
    requires
        packages.dom().finite(),
        are_parents(packages, parents@),
    ensures
        result@ == steps_to(packages, target@),
{
    let mut steps: Dict<Step> = Dict::new();
    steps.insert(target.to_owned(), Step { distance: 0, next: None });
    let mut queue: Vec<String> = Vec::new();
    queue.push(target.to_owned());
    let mut head: usize = 0;
    let _ = steps.len();
    proof {
        assert(steps@ =~= map![target@ => StepView { distance: 0, next: None::<Text> }]);
        assert(queue.deep_view() =~= seq![target@]);
        assert(queue.deep_view().skip(0) =~= seq![target@]);
    }
    while head < queue.len()
        invariant
            head <= queue.len(),
            packages.dom().finite(),
            are_parents(packages, parents@),
            steps@.dom().finite(),
            explored(packages, steps@, queue.deep_view().skip(head as int)) == steps_to(packages, target@),
            forall|i: int| 0 <= i < queue@.len() ==> steps@.contains_key((#[trigger] queue@[i])@),
            forall|id: Text| #[trigger] steps@.contains_key(id) ==> steps@[id].distance < steps@.dom().len(),
        decreases packages.dom().difference(steps@.dom()).len(), queue.len() - head,
    {
        let ghost here = steps@;
        let ghost waiting = queue.deep_view().skip(head as int);
        let id = queue[head].clone();
        assert(waiting[0] == id@);
        assert(steps@.contains_key(queue@[head as int]@));
        let new = find_new(parents, &steps, id.as_str(), Ghost(packages));
        let distance: usize = steps.get(id.as_str()).unwrap().distance;
        let count: usize = new.len();
        let ghost list = sorted(new@);
        let ghost queued = queue.deep_view();
        let _ = steps.len();
        proof {
            sorted_properties(new@);
            assert(list.take(0).to_set() =~= Set::<Text>::empty());
            with_steps_facts(here, Set::empty(), id@);
            assert(steps@ =~= with_steps(here, list.take(0).to_set(), id@));
            assert(queue.deep_view() =~= queued + list.take(0));
            exploring_ends(packages, here, waiting);
        }
        let mut k: usize = 0;
        while k < count
            invariant
                k <= count,
                count == list.len(),
                list == sorted(new@),
                list.no_duplicates(),
                new@ == dependents(packages, id@).difference(here.dom()),
                forall|x: Text| #[trigger] list.contains(x) == new@.contains(x),
                here.contains_key(id@),
                here[id@].distance == distance,
                here.dom().finite(),
                distance < here.dom().len() <= usize::MAX,
                steps@.dom().finite(),
                steps@ == with_steps(here, list.take(k as int).to_set(), id@),
                steps@.dom().len() == here.dom().len() + k,
                queue.deep_view() == queued + list.take(k as int),
                forall|i: int| 0 <= i < queue@.len() ==> steps@.contains_key((#[trigger] queue@[i])@),
                forall|id: Text| #[trigger] steps@.contains_key(id) ==> steps@[id].distance < steps@.dom().len(),
            decreases count - k,
        {
            let parent = new.at(k);
            let ghost before = steps@;
            let ghost had = queue.deep_view();
            proof {
                taken_one_more(list, k as int);
                with_steps_facts(here, list.take(k as int).to_set(), id@);
                with_steps_facts(here, list.take(k + 1).to_set(), id@);
                assert(!here.contains_key(parent@));
                assert(!before.contains_key(parent@));
            }
            steps.insert(parent.clone(), Step { distance: distance + 1, next: Some(id.clone()) });
            queue.push(parent.clone());
            proof {
                assert(steps@ =~= with_steps(here, list.take(k + 1).to_set(), id@));
                assert(steps@.dom() =~= before.dom().insert(parent@));
                assert(queue.deep_view() =~= had.push(list[k as int]));
                assert(queue.deep_view() =~= queued + list.take(k + 1));
                assert forall|i: int| 0 <= i < queue@.len() implies steps@.contains_key((#[trigger] queue@[i])@) by {
                    if i < had.len() {
                        assert(had[i] == queue.deep_view()[i]);
                    }
                }
                assert forall|x: Text| #[trigger] steps@.contains_key(x) implies steps@[x].distance
                    < steps@.dom().len() by {
                    if x != parent@ {
                        assert(before.contains_key(x));
                    }
                }
            }
            k += 1;
        }
        head += 1;
        proof {
            assert(list.take(k as int) =~= list);
            assert(list.to_set() =~= new@);
            assert(queue.deep_view().skip(head as int) =~= waiting.skip(1) + list);
        }
    }
    assert(queue.deep_view().skip(head as int) =~= Seq::<Text>::empty());
    steps
}

/// `root`, one of `roots`, is the nearest to the target, or the first of several as near.
pub open spec fn is_nearest(steps: Steps, roots: Map<Text, Text>, root: Text) -> bool {
    &&& roots.values().contains(root)
    &&& steps.contains_key(root)
    &&& forall|other: Text| #[trigger]
        roots.values().contains(other) && steps.contains_key(other) ==> steps[root].distance < steps[other].distance
            || (steps[root].distance == steps[other].distance && !text_less(other, root))
}

/// The line on the route from a group of dependencies to the target, if there is one.
pub open spec fn route_of(steps: Steps, path: Text, group: Text, roots: Map<Text, Text>) -> Option<Text> {
    if exists|root: Text| is_nearest(steps, roots, root) {
        let root = choose|root: Text| is_nearest(steps, roots, root);
        Some(path + " ("@ + group + ") → "@ + joined(chain_from(steps, root), " → "@))
    } else {
        None
    }
}

fn find_nearest<'a>(steps: &Dict<Step>, roots: &'a Dict<String>) -> (result: Option<&'a String>)
    ensures
        match result {
            Some(root) => is_nearest(steps@, roots@, root@),
            None => forall|root: Text| !is_nearest(steps@, roots@, root),
        },
{
    let n: usize = roots.len();
    let ghost aliases = sorted(roots@.dom());
    proof {
        sorted_properties(roots@.dom());
    }
    let mut best: Option<usize> = None;
    let mut i: usize = 0;
    while i < n
        invariant
            i <= n,
            n == aliases.len(),
            aliases == sorted(roots@.dom()),
            match best {
                Some(b) => b < i && steps@.contains_key(roots@[aliases[b as int]]) && forall|j: int|
                    0 <= j < i && steps@.contains_key(roots@[#[trigger] aliases[j]])
                        ==> steps@[roots@[aliases[b as int]]].distance < steps@[roots@[aliases[j]]].distance || (
                    steps@[roots@[aliases[b as int]]].distance == steps@[roots@[aliases[j]]].distance && !text_less(
                        roots@[aliases[j]],
                        roots@[aliases[b as int]],
                    )),
                None => forall|j: int| 0 <= j < i ==> !steps@.contains_key(roots@[#[trigger] aliases[j]]),
            },
        decreases n - i,
    {
        let root = roots.value(i);
        let ghost at = roots@[aliases[i as int]];
        let ghost had = best;
        if let Some(step) = steps.get(root.as_str()) {
            let nearer = match best {
                Some(b) => {
                    let other = roots.value(b);
                    let distance: usize = steps.get(other.as_str()).unwrap().distance;
                    step.distance < distance || (step.distance == distance && less(root.as_str(), other.as_str()))
                },
                None => true,
            };
            proof {
                text_less_irreflexive(at);
                if let Some(b) = had {
                    let was = roots@[aliases[b as int]];
                    text_less_total(at, was);
                    assert forall|j: int| nearer && 0 <= j < i && steps@.contains_key(roots@[#[trigger] aliases[j]]) implies steps@[at].distance
                        < steps@[roots@[aliases[j]]].distance || (steps@[at].distance
                        == steps@[roots@[aliases[j]]].distance && !text_less(roots@[aliases[j]], at)) by {
                        let other = roots@[aliases[j]];
                        if text_less(other, at) && text_less(at, was) {
                            text_less_transitive(other, at, was);
                        }
                    }
                }
            }
            if nearer {
                best = Some(i);
            }
        }
        i += 1;
    }
    assert forall|other: Text| #[trigger] roots@.values().contains(other) implies exists|j: int|
        0 <= j < n && roots@[#[trigger] aliases[j]] == other by {
        let alias = choose|alias: Text| #[trigger] roots@.dom().contains(alias) && roots@[alias] == other;
        assert(aliases.contains(alias));
        assert(roots@[aliases[aliases.index_of(alias)]] == other);
    }
    match best {
        Some(b) => {
            let root = roots.value(b);
            assert(roots@.dom().contains(aliases[b as int])) by {
                assert(aliases.contains(aliases[b as int]));
            }
            assert(roots@.values().contains(root@));
            Some(root)
        },
        None => None,
    }
}

/// The packages on the way from `root`.
fn walk(steps: &Dict<Step>, root: &str, Ghost(packages): Ghost<Map<Text, PackageView>>, Ghost(target): Ghost<Text>) -> (result:
    Vec<String>)
    requires
        packages.dom().finite(),
        steps@ == steps_to(packages, target),
        steps@.contains_key(root@),
    ensures
        result.deep_view() == chain_from(steps@, root@),
{
    proof {
        steps_to_sound(packages, target);
    }
    let mut chain: Vec<String> = Vec::new();
    let mut at: String = root.to_owned();
    assert(chain.deep_view() + chain_from(steps@, at@) =~= chain_from(steps@, root@));
    loop
        invariant
            steps_sound(packages, target, steps@),
            steps@.contains_key(at@),
            chain.deep_view() + chain_from(steps@, at@) == chain_from(steps@, root@),
        decreases steps@[at@].distance,
    {
        let ghost had = chain.deep_view();
        let ghost here = at@;
        proof {
            assert(step_sound(packages, target, steps@, here));
            reveal(step_sound);
        }
        chain.push(at.clone());
        assert(chain.deep_view() =~= had.push(here));
        match &steps.get(at.as_str()).unwrap().next {
            Some(next) => {
                let next = next.clone();
                proof {
                    assert(chain.deep_view() + chain_from(steps@, next@) =~= had + chain_from(steps@, here));
                }
                at = next;
            },
            None => {
                assert(chain.deep_view() =~= had + chain_from(steps@, here));
                return chain;
            },
        }
    }
}

proof fn steps_to_sound(packages: Map<Text, PackageView>, target: Text)
    requires
        packages.dom().finite(),
    ensures
        steps_sound(packages, target, steps_to(packages, target)),
        passed_on(packages, steps_to(packages, target), Seq::empty()),
{
    let first = map![target => StepView { distance: 0, next: None::<Text> }];
    let queue = seq![target];
    assert(steps_sound(packages, target, first)) by {
        reveal(step_sound);
    }
    assert(queue_sound(first, queue));
    assert(passed_on(packages, first, queue)) by {
        assert(queue[0] == target);
        assert(queue.contains(target));
    }
    explored_is_shortest(packages, target, first, queue);
}

/// The packages that are versions of `name`, or that version of it.
pub open spec fn target_ids(packages: Map<Text, PackageView>, name: Text, version: Option<Text>) -> Set<Text> {
    packages.dom().filter(
        |id: Text| packages[id].name == name && (version is None || packages[id].version == version->0),
    )
}

/// The lines on the routes from a group of dependencies to `targets`.
pub open spec fn group_routes(
    packages: Map<Text, PackageView>,
    targets: Seq<Text>,
    path: Text,
    group: Text,
    roots: Map<Text, Text>,
) -> Seq<Text>
    decreases targets.len(),
{
    if targets.len() == 0 {
        Seq::empty()
    } else {
        let before = group_routes(packages, targets.drop_last(), path, group, roots);
        match route_of(steps_to(packages, targets.last()), path, group, roots) {
            Some(line) => before.push(line),
            None => before,
        }
    }
}

/// The lines on the routes from an importer to `targets`.
pub open spec fn importer_routes(
    packages: Map<Text, PackageView>,
    targets: Seq<Text>,
    path: Text,
    importer: ImporterView,
) -> Seq<Text> {
    group_routes(packages, targets, path, "dependencies"@, importer.dependencies) + group_routes(
        packages,
        targets,
        path,
        "devDependencies"@,
        importer.dev_dependencies,
    ) + group_routes(packages, targets, path, "optionalDependencies"@, importer.optional_dependencies)
}

/// The lines on the routes from the importers at `paths` to `targets`.
pub open spec fn all_routes(lock: LockView, targets: Seq<Text>, paths: Seq<Text>) -> Seq<Text>
    decreases paths.len(),
{
    if paths.len() == 0 {
        Seq::empty()
    } else {
        all_routes(lock, targets, paths.drop_last()) + importer_routes(
            lock.packages,
            targets,
            paths.last(),
            lock.importers[paths.last()],
        )
    }
}

/// One line per importer, dependency group and matching instance, along a shortest route.
pub open spec fn routes_to(lock: LockView, name: Text, version: Option<Text>) -> Seq<Text> {
    all_routes(lock, sorted(target_ids(lock.packages, name, version)), sorted(lock.importers.dom()))
}

fn push_group_routes(
    targets: &Vec<Dict<Step>>,
    path: &str,
    group: &str,
    roots: &Dict<String>,
    routes: &mut Vec<String>,
    Ghost(packages): Ghost<Map<Text, PackageView>>,
    Ghost(ids): Ghost<Seq<Text>>,
)
    requires
        packages.dom().finite(),
        targets@.len() == ids.len(),
        forall|i: int| 0 <= i < ids.len() ==> (#[trigger] targets@[i])@ == steps_to(packages, ids[i]),
    ensures
        final(routes).deep_view() == old(routes).deep_view() + group_routes(packages, ids, path@, group@, roots@),
{
    let ghost before = routes.deep_view();
    let mut i: usize = 0;
    assert(routes.deep_view() =~= before + group_routes(packages, ids.take(0), path@, group@, roots@));
    while i < targets.len()
        invariant
            i <= targets.len(),
            packages.dom().finite(),
            targets@.len() == ids.len(),
            forall|i: int| 0 <= i < ids.len() ==> (#[trigger] targets@[i])@ == steps_to(packages, ids[i]),
            routes.deep_view() == before + group_routes(packages, ids.take(i as int), path@, group@, roots@),
        decreases targets.len() - i,
    {
        let steps = &targets[i];
        let ghost had = routes.deep_view();
        proof {
            assert(targets@[i as int]@ == steps_to(packages, ids[i as int]));
            assert(ids.take(i + 1).drop_last() =~= ids.take(i as int));
        }
        if let Some(root) = find_nearest(steps, roots) {
            let chain = walk(steps, root.as_str(), Ghost(packages), Ghost(ids[i as int]));
            proof {
                let other = choose|other: Text| is_nearest(steps@, roots@, other);
                text_less_total(root@, other);
                assert(root@ == other);
            }
            let line = cat5(path, " (", group, ") → ", join(&chain, " → ").as_str());
            let ghost meaning = line@;
            routes.push(line);
            assert(routes.deep_view() =~= had.push(meaning));
            assert(routes.deep_view() =~= before + group_routes(packages, ids.take(i + 1), path@, group@, roots@));
        }
        i += 1;
    }
    assert(ids.take(i as int) =~= ids);
}

/// One line per importer, dependency group and matching instance, along a shortest route.
pub fn routes(lock: &Lock, name: &str, version: Option<&str>) -> (result: Vec<String>)
    ensures
        result.deep_view() == routes_to(lock@, name@, version.deep_view()),
{
    let parents = find_parents(&lock.packages);
    let ghost packages = lock@.packages;
    let ghost wanted = target_ids(packages, name@, version.deep_view());
    let mut matching = Names::new();
    let n: usize = lock.packages.len();
    let ghost ids = sorted(packages.dom());
    proof {
        sorted_properties(packages.dom());
        assert(matching@ =~= wanted.intersect(ids.take(0).to_set()));
    }
    let mut i: usize = 0;
    while i < n
        invariant
            i <= n,
            n == ids.len(),
            packages == lock@.packages,
            ids == sorted(packages.dom()),
            wanted == target_ids(packages, name@, version.deep_view()),
            matching@ == wanted.intersect(ids.take(i as int).to_set()),
        decreases n - i,
    {
        let package = lock.packages.value(i);
        proof {
            taken_one_more(ids, i as int);
        }
        if same(package.name.as_str(), name) && match version {
            Some(version) => same(package.version.as_str(), version),
            None => true,
        } {
            matching.insert(lock.packages.key(i).clone());
        }
        assert(matching@ =~= wanted.intersect(ids.take(i + 1).to_set()));
        i += 1;
    }
    proof {
        assert(ids.take(i as int) =~= ids);
        assert forall|x: Text| wanted.contains(x) implies ids.to_set().contains(x) by {
            assert(ids.contains(x));
        }
        assert(matching@ =~= wanted);
    }
    let ghost list = sorted(wanted);
    let mut targets: Vec<Dict<Step>> = Vec::new();
    let count: usize = matching.len();
    let mut k: usize = 0;
    while k < count
        invariant
            k <= count,
            count == list.len(),
            packages.dom().finite(),
            are_parents(packages, parents@),
            matching@ == wanted,
            list == sorted(wanted),
            targets@.len() == k,
            forall|i: int| 0 <= i < k ==> (#[trigger] targets@[i])@ == steps_to(packages, list[i]),
        decreases count - k,
    {
        targets.push(steps_towards(&parents, matching.at(k).as_str(), Ghost(packages)));
        k += 1;
    }
    let mut routes: Vec<String> = Vec::new();
    let m: usize = lock.importers.len();
    let ghost paths = sorted(lock@.importers.dom());
    let mut j: usize = 0;
    assert(routes.deep_view() =~= Seq::<Text>::empty());
    while j < m
        invariant
            j <= m,
            m == paths.len(),
            packages == lock@.packages,
            packages.dom().finite(),
            paths == sorted(lock@.importers.dom()),
            targets@.len() == list.len(),
            forall|i: int| 0 <= i < list.len() ==> (#[trigger] targets@[i])@ == steps_to(packages, list[i]),
            routes.deep_view() == all_routes(lock@, list, paths.take(j as int)),
        decreases m - j,
    {
        let path = lock.importers.key(j).as_str();
        let importer = lock.importers.value(j);
        let ghost had = routes.deep_view();
        push_group_routes(
            &targets,
            path,
            "dependencies",
            &importer.dependencies,
            &mut routes,
            Ghost(packages),
            Ghost(list),
        );
        push_group_routes(
            &targets,
            path,
            "devDependencies",
            &importer.dev_dependencies,
            &mut routes,
            Ghost(packages),
            Ghost(list),
        );
        push_group_routes(
            &targets,
            path,
            "optionalDependencies",
            &importer.optional_dependencies,
            &mut routes,
            Ghost(packages),
            Ghost(list),
        );
        proof {
            assert(paths.take(j + 1).drop_last() =~= paths.take(j as int));
            assert(routes.deep_view() =~= had + importer_routes(packages, list, path@, importer@));
        }
        j += 1;
    }
    assert(paths.take(j as int) =~= paths);
    routes
}

/// The name and the version that are asked for.
pub open spec fn asked_package(package: Text) -> (Text, Option<Text>) {
    match cut_version(package) {
        Some((name, version)) => (name, Some(version)),
        None => (package, None),
    }
}

/// Why `package` is there: the routes that lead to it.
pub fn run(lock: &Lock, package: &str) -> (result: Result<Vec<String>, Error>)
    ensures
        ({
            let (name, version) = asked_package(package@);
            let routes = routes_to(lock@, name, version);
            match result {
                Ok(lines) => routes.len() > 0 && lines.deep_view() == routes,
                Err(error) => routes.len() == 0 && error@ == seq!["nothing depends on "@ + package@],
            }
        }),
{
    let (name, version) = match split_version(package) {
        Some((name, version)) => (name, Some(version)),
        None => (package, None),
    };
    let lines = routes(lock, name, version);
    if lines.len() == 0 {
        assert(lines.deep_view().len() == 0);
        return Err(Error::new(cat("nothing depends on ", package)));
    }
    assert(lines.deep_view().len() > 0);
    Ok(lines)
}

/// Of the first `n` of `ids`, the one at `i` is the nearest, or the first of several as near.
spec fn is_best(steps: Steps, ids: Seq<Text>, n: int, i: int) -> bool {
    &&& 0 <= i < n
    &&& forall|j: int|
        0 <= j < n ==> steps[ids[i]].distance < steps[#[trigger] ids[j]].distance || (steps[ids[i]].distance
            == steps[ids[j]].distance && i <= j)
}

proof fn best_exists(steps: Steps, ids: Seq<Text>, n: int) -> (i: int)
    requires
        0 < n <= ids.len(),
    ensures
        is_best(steps, ids, n, i),
    decreases n,
{
    if n == 1 {
        0
    } else {
        let before = best_exists(steps, ids, n - 1);
        if steps[ids[n - 1]].distance < steps[ids[before]].distance {
            assert forall|j: int| 0 <= j < n implies steps[ids[n - 1]].distance < steps[#[trigger] ids[j]].distance || (
            steps[ids[n - 1]].distance == steps[ids[j]].distance && n - 1 <= j) by {
                if j < n - 1 {
                    assert(steps[ids[before]].distance <= steps[ids[j]].distance);
                }
            }
            n - 1
        } else {
            before
        }
    }
}

proof fn nearest_exists(steps: Steps, roots: Map<Text, Text>, root: Text)
    requires
        roots.dom().finite(),
        roots.values().contains(root),
        steps.contains_key(root),
    ensures
        exists|nearest: Text| is_nearest(steps, roots, nearest),
{
    let all = roots.values();
    roots.lemma_values_len();
    let able = all.filter(|id: Text| steps.contains_key(id));
    all.lemma_len_filter(|id: Text| steps.contains_key(id));
    sorted_properties(able);
    let ids = sorted(able);
    assert(able.contains(root));
    assert(ids.contains(root));
    let i = best_exists(steps, ids, ids.len() as int);
    let nearest = ids[i];
    assert(ids.contains(nearest));
    assert forall|other: Text| #[trigger]
        roots.values().contains(other) && steps.contains_key(other) implies steps[nearest].distance
        < steps[other].distance || (steps[nearest].distance == steps[other].distance && !text_less(other, nearest)) by {
        assert(able.contains(other));
        assert(ids.contains(other));
        let j = ids.index_of(other);
        assert(ids[j] == other);
        if i < j {
            assert(text_less(ids[i], ids[j]));
            if text_less(other, nearest) {
                text_less_transitive(nearest, other, nearest);
                text_less_irreflexive(nearest);
            }
        } else if i == j {
            text_less_irreflexive(nearest);
        }
    }
    assert(is_nearest(steps, roots, nearest));
}

/// `line` tells of `chain`, which goes from one of the dependencies `roots` of an importer to `target`
/// along dependencies.
pub open spec fn tells_of(
    packages: Map<Text, PackageView>,
    line: Text,
    path: Text,
    group: Text,
    roots: Map<Text, Text>,
    chain: Seq<Text>,
    target: Text,
) -> bool {
    &&& line == path + " ("@ + group + ") → "@ + joined(chain, " → "@)
    &&& chain.len() > 0
    &&& roots.values().contains(chain[0])
    &&& chain.last() == target
    &&& is_route(packages, chain)
}

/// Some of `lines` tells of a route to `target` of at most `length` packages.
pub open spec fn is_explained(
    packages: Map<Text, PackageView>,
    lines: Seq<Text>,
    path: Text,
    group: Text,
    roots: Map<Text, Text>,
    target: Text,
    length: nat,
) -> bool {
    exists|line: Text, chain: Seq<Text>|
        lines.contains(line) && #[trigger] tells_of(packages, line, path, group, roots, chain, target) && chain.len()
            <= length
}

proof fn group_is_explained(
    packages: Map<Text, PackageView>,
    targets: Seq<Text>,
    path: Text,
    group: Text,
    roots: Map<Text, Text>,
    route: Seq<Text>,
)
    requires
        packages.dom().finite(),
        roots.dom().finite(),
        route.len() > 0,
        roots.values().contains(route[0]),
        targets.contains(route.last()),
        is_route(packages, route),
    ensures
        is_explained(
            packages,
            group_routes(packages, targets, path, group, roots),
            path,
            group,
            roots,
            route.last(),
            route.len(),
        ),
    decreases targets.len(),
{
    let target = route.last();
    let shorter = targets.drop_last();
    let (before, after) = (
        group_routes(packages, shorter, path, group, roots),
        group_routes(packages, targets, path, group, roots),
    );
    if targets.last() == target {
        let steps = steps_to(packages, target);
        steps_are_shortest(packages, target, route);
        steps_to_sound(packages, target);
        distance_is_least(packages, target, steps, route);
        nearest_exists(steps, roots, route[0]);
        let root = choose|root: Text| is_nearest(steps, roots, root);
        let chain = chain_from(steps, root);
        let line = path + " ("@ + group + ") → "@ + joined(chain, " → "@);
        steps_lead_there(packages, target, root);
        chain_is_short(steps, root);
        assert(after == before.push(line));
        assert(after[before.len() as int] == line);
        assert(tells_of(packages, line, path, group, roots, chain, target));
    } else {
        let i = targets.index_of(target);
        assert(shorter[i] == target);
        group_is_explained(packages, shorter, path, group, roots, route);
        let (line, chain) = choose|line: Text, chain: Seq<Text>|
            before.contains(line) && #[trigger] tells_of(packages, line, path, group, roots, chain, target)
                && chain.len() <= route.len();
        assert(after[before.index_of(line)] == line);
    }
}

proof fn chain_is_short(steps: Steps, at: Text)
    ensures
        0 < chain_from(steps, at).len() <= steps[at].distance + 1,
    decreases steps[at].distance,
{
    if let Some(next) = steps[at].next {
        if steps[next].distance < steps[at].distance {
            chain_is_short(steps, next);
        }
    }
}

proof fn more_lines_explain(
    packages: Map<Text, PackageView>,
    before: Seq<Text>,
    lines: Seq<Text>,
    after: Seq<Text>,
    path: Text,
    group: Text,
    roots: Map<Text, Text>,
    target: Text,
    length: nat,
)
    requires
        is_explained(packages, lines, path, group, roots, target, length),
    ensures
        is_explained(packages, before + lines + after, path, group, roots, target, length),
{
    let (line, chain) = choose|line: Text, chain: Seq<Text>|
        lines.contains(line) && #[trigger] tells_of(packages, line, path, group, roots, chain, target) && chain.len()
            <= length;
    assert((before + lines + after)[before.len() + lines.index_of(line)] == line);
}

/// Whatever depends on a package is told: for every importer and every group of its dependencies from
/// which there is a route to a package of that name and version, there is a line with such a route, and
/// one that is no longer.
pub proof fn every_route_is_told(
    lock: LockView,
    name: Text,
    version: Option<Text>,
    path: Text,
    route: Seq<Text>,
)
    requires
        lock.packages.dom().finite(),
        lock.importers.dom().finite(),
        lock.importers.contains_key(path),
        lock.importers[path].dependencies.dom().finite(),
        lock.importers[path].dev_dependencies.dom().finite(),
        lock.importers[path].optional_dependencies.dom().finite(),
        route.len() > 0,
        is_route(lock.packages, route),
        lock.packages.contains_key(route.last()),
        lock.packages[route.last()].name == name,
        version is None || version == Some(lock.packages[route.last()].version),
    ensures
        ({
            let lines = routes_to(lock, name, version);
            let importer = lock.importers[path];
            let (packages, target) = (lock.packages, route.last());
            &&& importer.dependencies.values().contains(route[0]) ==> is_explained(
                packages,
                lines,
                path,
                "dependencies"@,
                importer.dependencies,
                target,
                route.len(),
            )
            &&& importer.dev_dependencies.values().contains(route[0]) ==> is_explained(
                packages,
                lines,
                path,
                "devDependencies"@,
                importer.dev_dependencies,
                target,
                route.len(),
            )
            &&& importer.optional_dependencies.values().contains(route[0]) ==> is_explained(
                packages,
                lines,
                path,
                "optionalDependencies"@,
                importer.optional_dependencies,
                target,
                route.len(),
            )
        }),
{
    let (packages, target) = (lock.packages, route.last());
    let wanted = target_ids(packages, name, version);
    let rule = |id: Text| packages[id].name == name && (version is None || packages[id].version == version->0);
    packages.dom().lemma_len_filter(rule);
    sorted_properties(wanted);
    sorted_properties(lock.importers.dom());
    let (targets, paths) = (sorted(wanted), sorted(lock.importers.dom()));
    assert(wanted.contains(target));
    assert(targets.contains(target));
    assert(paths.contains(path));
    let importer = lock.importers[path];
    let (a, b, c) = (importer.dependencies, importer.dev_dependencies, importer.optional_dependencies);
    let (x, y, z) = ("dependencies"@, "devDependencies"@, "optionalDependencies"@);
    let (p, q, r) = (
        group_routes(packages, targets, path, x, a),
        group_routes(packages, targets, path, y, b),
        group_routes(packages, targets, path, z, c),
    );
    let none = Seq::<Text>::empty();
    let all = importer_routes(packages, targets, path, importer);
    if a.values().contains(route[0]) {
        group_is_explained(packages, targets, path, x, a, route);
        more_lines_explain(packages, none, p, q + r, path, x, a, target, route.len());
        assert(none + p + (q + r) =~= all);
        importers_are_told(lock, targets, paths, path, x, a, target, route.len());
    }
    if b.values().contains(route[0]) {
        group_is_explained(packages, targets, path, y, b, route);
        more_lines_explain(packages, p, q, r, path, y, b, target, route.len());
        assert(p + q + r =~= all);
        importers_are_told(lock, targets, paths, path, y, b, target, route.len());
    }
    if c.values().contains(route[0]) {
        group_is_explained(packages, targets, path, z, c, route);
        more_lines_explain(packages, p + q, r, none, path, z, c, target, route.len());
        assert(p + q + r + none =~= all);
        importers_are_told(lock, targets, paths, path, z, c, target, route.len());
    }
}

proof fn importers_are_told(
    lock: LockView,
    targets: Seq<Text>,
    paths: Seq<Text>,
    path: Text,
    group: Text,
    roots: Map<Text, Text>,
    target: Text,
    length: nat,
)
    requires
        paths.contains(path),
        is_explained(
            lock.packages,
            importer_routes(lock.packages, targets, path, lock.importers[path]),
            path,
            group,
            roots,
            target,
            length,
        ),
    ensures
        is_explained(lock.packages, all_routes(lock, targets, paths), path, group, roots, target, length),
    decreases paths.len(),
{
    let shorter = paths.drop_last();
    let none = Seq::<Text>::empty();
    let before = all_routes(lock, targets, shorter);
    let last = importer_routes(lock.packages, targets, paths.last(), lock.importers[paths.last()]);
    if paths.last() == path {
        more_lines_explain(lock.packages, before, last, none, path, group, roots, target, length);
        assert(before + last + none =~= all_routes(lock, targets, paths));
    } else {
        assert(shorter[paths.index_of(path)] == path);
        importers_are_told(lock, targets, shorter, path, group, roots, target, length);
        more_lines_explain(lock.packages, none, before, last, path, group, roots, target, length);
        assert(none + before + last =~= all_routes(lock, targets, paths));
    }
}

/// A package needs directly what it has among its dependencies, optional or not, and nothing else.
pub proof fn dependencies_are_direct(packages: Map<Text, PackageView>, id: Text, alias: Text)
    requires
        packages.contains_key(id),
    ensures
        packages[id].deps.contains_key(alias) ==> needs_directly(packages, id, packages[id].deps[alias]),
        packages[id].optional_deps.contains_key(alias) ==> needs_directly(
            packages,
            id,
            packages[id].optional_deps[alias],
        ),
        forall|child: Text| #[trigger]
            needs_directly(packages, id, child) ==> packages[id].deps.values().contains(child)
                || packages[id].optional_deps.values().contains(child),
{
    reveal(needs_directly);
    if packages[id].deps.contains_key(alias) {
        assert(packages[id].deps.dom().contains(alias));
    }
    if packages[id].optional_deps.contains_key(alias) {
        assert(packages[id].optional_deps.dom().contains(alias));
    }
}

} // verus!
