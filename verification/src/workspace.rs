//! Whether a workspace is built again, and what follows once it is linked.
use vstd::prelude::*;

use crate::dict::{sorted, sorted_properties, Dict};
use crate::error::Error;
use crate::install::{cache_key, key_of};
use crate::lock::{Lock, LockView};
use crate::logging::{counted, plural};
use crate::text::{cat, cat3, same, Text};

verus! {

/// The workspace that `link` leads to, if it `exists` and was built from what `key` stands for.
pub open spec fn kept_workspace(link: Option<Text>, recorded: Option<Text>, exists: bool, key: Text) -> Option<Text> {
    if exists && recorded == Some(key) {
        link
    } else {
        None
    }
}

/// The workspace of the last install, if it is still there and `key` stands for what it was built
/// from. `link` is where the GC root leads, and `recorded` is the key that the install left behind.
pub fn cached_workspace(link: Option<&str>, recorded: Option<&str>, exists: bool, key: &str) -> (result: Option<String>)
    ensures
        result.deep_view() == kept_workspace(link.deep_view(), recorded.deep_view(), exists, key@),
{
    match (link, recorded) {
        (Some(link), Some(recorded)) => if exists && same(recorded, key) {
            Some(link.to_owned())
        } else {
            None
        },
        _ => None,
    }
}

/// The workspace of the last install, if it still matches the project, with or without what is only
/// needed for development.
pub fn current_workspace(
    link: Option<&str>,
    recorded: Option<&str>,
    exists: bool,
    lock_json: &str,
    node_major: Option<u32>,
    library: &Vec<(String, String)>,
) -> (result: Option<String>)
    ensures
        ({
            let with_dev = key_of(lock_json@, true, node_major, library.deep_view());
            let without_dev = key_of(lock_json@, false, node_major, library.deep_view());
            let kept = kept_workspace(link.deep_view(), recorded.deep_view(), exists, with_dev);
            result.deep_view() == if kept is Some {
                kept
            } else {
                kept_workspace(link.deep_view(), recorded.deep_view(), exists, without_dev)
            }
        }),
{
    let key = cache_key(lock_json, true, node_major, library);
    let kept = cached_workspace(link, recorded, exists, key.as_str());
    if kept.is_some() {
        return kept;
    }
    let key = cache_key(lock_json, false, node_major, library);
    cached_workspace(link, recorded, exists, key.as_str())
}

/// What is done for a workspace.
pub enum Build {
    /// The one of the last install is used again.
    Reuse(String),
    /// It is built. A key left behind would vouch for whichever workspace comes next, so it is removed
    /// before that.
    Anew,
}

/// Decides whether the workspace is built. One that is kept is used again unless it is to be
/// refreshed.
pub fn plan_build(kept: Option<String>, refresh: bool) -> (result: Build)
    ensures
        match result {
            Build::Reuse(workspace) => !refresh && kept.deep_view() == Some(workspace@),
            Build::Anew => refresh || kept is None,
        },
{
    match kept {
        Some(workspace) => if refresh {
            Build::Anew
        } else {
            Build::Reuse(workspace)
        },
        None => Build::Anew,
    }
}

/// What is left to do once a workspace is linked.
#[derive(Debug, PartialEq, Eq)]
pub enum Task {
    /// Nixpkgs and Node.js are recorded beside pnpm-lock.yaml, which has no place for them.
    RecordCompat,
    /// The install scripts of a package run outside the Nix sandbox, in the directory `dir`.
    RunScripts { name: String, version: String, dir: String },
    /// The key of the workspace is recorded.
    RecordKey,
}

/// What a `Task` means.
pub enum TaskView {
    RecordCompat,
    RunScripts { name: Text, version: Text, dir: Text },
    RecordKey,
}

impl View for Task {
    type V = TaskView;

    open spec fn view(&self) -> TaskView {
        match self {
            Task::RecordCompat => TaskView::RecordCompat,
            Task::RunScripts { name, version, dir } => TaskView::RunScripts {
                name: name@,
                version: version@,
                dir: dir@,
            },
            Task::RecordKey => TaskView::RecordKey,
        }
    }
}

impl DeepView for Task {
    type V = TaskView;

    open spec fn deep_view(&self) -> TaskView {
        self@
    }
}

/// Running the install scripts of the packages `ids`.
pub open spec fn script_tasks(lock: LockView, dirs: Map<Text, Text>, ids: Seq<Text>) -> Seq<TaskView> {
    ids.map_values(
        |id: Text|
            TaskView::RunScripts {
                name: lock.packages[id].name,
                version: lock.packages[id].version,
                dir: dirs[id],
            },
    )
}

/// The first of `ids` that is no package of `lock`.
pub open spec fn first_unknown(lock: LockView, ids: Seq<Text>) -> Option<Text>
    decreases ids.len(),
{
    if ids.len() == 0 {
        None
    } else if !lock.packages.contains_key(ids[0]) {
        Some(ids[0])
    } else {
        first_unknown(lock, ids.skip(1))
    }
}

/// What is left to do, in order. The key is recorded last, so that install scripts that fail run again
/// on the next install.
pub open spec fn tasks_of(lock: LockView, pnpm_only: bool, built: bool, dirs: Map<Text, Text>) -> Seq<TaskView> {
    (if pnpm_only {
        seq![TaskView::RecordCompat]
    } else {
        Seq::empty()
    }) + (if built {
        script_tasks(lock, dirs, sorted(dirs.dom())).push(TaskView::RecordKey)
    } else {
        Seq::empty()
    })
}

/// What is left to do once a workspace is linked. `dirs` are the directories of the packages whose
/// install scripts run outside the Nix sandbox, by their ids; the scripts run only for workspaces that
/// were just `built`.
pub fn tasks(lock: &Lock, pnpm_only: bool, built: bool, dirs: &Dict<String>) -> (result: Result<Vec<Task>, Error>)
    ensures
        match result {
            Ok(tasks) => (built ==> first_unknown(lock@, sorted(dirs@.dom())) is None) && tasks.deep_view() == tasks_of(
                lock@,
                pnpm_only,
                built,
                dirs@,
            ),
            Err(error) => built && first_unknown(lock@, sorted(dirs@.dom())) is Some && error@ == seq![
                "the Nix build has "@ + first_unknown(lock@, sorted(dirs@.dom()))->0
                    + ", which is not in the lockfile"@,
            ],
        },
{
    let mut tasks: Vec<Task> = Vec::new();
    if pnpm_only {
        tasks.push(Task::RecordCompat);
    }
    let ghost first = tasks.deep_view();
    assert(first =~= if pnpm_only {
        seq![TaskView::RecordCompat]
    } else {
        Seq::empty()
    });
    if !built {
        assert(tasks.deep_view() =~= tasks_of(lock@, pnpm_only, built, dirs@));
        return Ok(tasks);
    }
    let n: usize = dirs.len();
    let ghost ids = sorted(dirs@.dom());
    let ghost all = script_tasks(lock@, dirs@, ids);
    proof {
        sorted_properties(dirs@.dom());
        assert(ids.skip(0) =~= ids);
        assert(tasks.deep_view() =~= first + all.take(0));
    }
    let mut i: usize = 0;
    while i < n
        invariant
            i <= n,
            n == ids.len(),
            ids == sorted(dirs@.dom()),
            all == script_tasks(lock@, dirs@, ids),
            built,
            first_unknown(lock@, ids) == first_unknown(lock@, ids.skip(i as int)),
            tasks.deep_view() == first + all.take(i as int),
        decreases n - i,
    {
        let id = dirs.key(i);
        assert(ids.skip(i as int)[0] == id@);
        assert(ids.skip(i as int).skip(1) =~= ids.skip(i + 1));
        let ghost before = tasks.deep_view();
        match lock.packages.get(id.as_str()) {
            Some(package) => {
                let task = Task::RunScripts {
                    name: package.name.clone(),
                    version: package.version.clone(),
                    dir: dirs.value(i).clone(),
                };
                assert(task@ == all[i as int]);
                tasks.push(task);
            },
            None => {
                return Err(Error::new(cat3("the Nix build has ", id.as_str(), ", which is not in the lockfile")));
            },
        }
        assert(tasks.deep_view() =~= before.push(all[i as int]));
        assert(all.take(i + 1) =~= all.take(i as int).push(all[i as int]));
        i += 1;
        assert(tasks.deep_view() =~= first + all.take(i as int));
    }
    assert(ids.skip(i as int).len() == 0);
    assert(all.take(i as int) =~= all);
    let ghost scripts = tasks.deep_view();
    tasks.push(Task::RecordKey);
    assert(tasks.deep_view() =~= scripts.push(TaskView::RecordKey));
    assert(tasks.deep_view() =~= first + all.push(TaskView::RecordKey));
    Ok(tasks)
}

/// No key vouches for a workspace before all install scripts have run, and none run for a workspace
/// that was not just built.
pub proof fn key_is_recorded_last(lock: LockView, pnpm_only: bool, built: bool, dirs: Map<Text, Text>, i: int)
    requires
        0 <= i < tasks_of(lock, pnpm_only, built, dirs).len(),
    ensures
        tasks_of(lock, pnpm_only, built, dirs)[i] == TaskView::RecordKey ==> built && i == tasks_of(
            lock,
            pnpm_only,
            built,
            dirs,
        ).len() - 1,
        tasks_of(lock, pnpm_only, built, dirs)[i] is RunScripts ==> built,
{
}

/// What the user is told in the end.
pub open spec fn installed_text(packages: nat, importers: nat) -> Text {
    "installed "@ + counted(packages, "package"@, "packages"@) + if importers == 1 {
        ""@
    } else {
        " into "@ + counted(importers, "workspace"@, "workspaces"@)
    }
}

/// What the user is told in the end.
pub fn installed(lock: &Lock) -> (result: String)
    ensures
        result@ == installed_text(lock@.packages.dom().len(), lock@.importers.dom().len()),
{
    let packages = plural(lock.packages.len(), "package", "packages");
    if lock.importers.len() == 1 {
        cat3("installed ", packages.as_str(), "")
    } else {
        let importers = plural(lock.importers.len(), "workspace", "workspaces");
        cat3("installed ", packages.as_str(), cat(" into ", importers.as_str()).as_str())
    }
}

/// Once a workspace was built, the install scripts of every package that has a directory run there, and
/// the key is recorded. What pnpm-lock.yaml has no place for is recorded beside it whether or not the
/// workspace was built. Nothing else is done.
pub proof fn everything_is_done(lock: LockView, pnpm_only: bool, built: bool, dirs: Map<Text, Text>)
    requires
        dirs.dom().finite(),
    ensures
        ({
            let tasks = tasks_of(lock, pnpm_only, built, dirs);
            &&& forall|id: Text| #[trigger]
                dirs.contains_key(id) && built ==> tasks.contains(
                    TaskView::RunScripts {
                        name: lock.packages[id].name,
                        version: lock.packages[id].version,
                        dir: dirs[id],
                    },
                )
            &&& tasks.contains(TaskView::RecordKey) <==> built
            &&& tasks.contains(TaskView::RecordCompat) <==> pnpm_only
            &&& forall|i: int|
                0 <= i < tasks.len() && (#[trigger] tasks[i]) is RunScripts ==> exists|id: Text| #[trigger]
                    dirs.contains_key(id) && tasks[i] == (TaskView::RunScripts {
                        name: lock.packages[id].name,
                        version: lock.packages[id].version,
                        dir: dirs[id],
                    })
        }),
{
    let tasks = tasks_of(lock, pnpm_only, built, dirs);
    let ids = sorted(dirs.dom());
    sorted_properties(dirs.dom());
    let start: int = if pnpm_only {
        1
    } else {
        0
    };
    if pnpm_only {
        assert(tasks[0] == TaskView::RecordCompat);
    }
    if built {
        assert(tasks[start + ids.len()] == TaskView::RecordKey);
        assert forall|id: Text| #[trigger] dirs.contains_key(id) implies tasks.contains(
            TaskView::RunScripts { name: lock.packages[id].name, version: lock.packages[id].version, dir: dirs[id] },
        ) by {
            assert(ids.contains(id));
            let i = ids.index_of(id);
            assert(tasks[start + i] == script_tasks(lock, dirs, ids)[i]);
        }
    }
    assert forall|i: int| 0 <= i < tasks.len() && (#[trigger] tasks[i]) is RunScripts implies exists|id: Text| #[trigger]
        dirs.contains_key(id) && tasks[i] == (TaskView::RunScripts {
            name: lock.packages[id].name,
            version: lock.packages[id].version,
            dir: dirs[id],
        }) by {
        let id = ids[i - start];
        assert(tasks[i] == script_tasks(lock, dirs, ids)[i - start]);
        assert(ids.contains(id));
        assert(dirs.contains_key(id));
    }
}

} // verus!
