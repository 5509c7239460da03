//! The jobs that running, cleaning, checking tools or using build
//! environments takes, and the dependencies between them.
use vstd::prelude::*;
use crate::execute::execute::{
    get_clean_task_name, get_env_action_job_id, get_tool_check_job_id, clean_task_name, env_action_job_id,
    tool_check_job_id, graph_view, acyclic, on_cycle, deps_below, has_edge, is_walk, GraphError, JobScheduler,
};
use crate::text::str_eq;

verus! {

/// Whether a task is a project's task that stands for its whole project.
#[derive(PartialEq, Eq, Structural, Clone, Copy, Debug)]
pub enum TaskType {
    Task,
    Project,
}

/// What the job graph reads of a task: the tasks it depends on, for each
/// file it depends on the task that provides it (if any), the build
/// environments it runs in, its calculated dependencies that are still
/// unresolved, the build environments of each of its clean actions, the
/// tasks it runs after when they run too, and its type.
#[derive(Debug)]
pub struct Task {
    pub task_deps: Vec<String>,
    pub file_deps: Vec<Option<String>>,
    pub build_envs: Vec<String>,
    pub calc_deps: Vec<String>,
    pub clean_actions: Vec<Vec<String>>,
    pub execute_after: Vec<String>,
    pub task_type: TaskType,
}

/// What the job graph reads of a build environment: the task that sets it
/// up, if any.
#[derive(Debug)]
pub struct BuildEnv {
    pub setup_task: Option<String>,
}

/// What the job graph reads of an external tool: the tools its action uses,
/// and the tools its check uses when it has a check.
#[derive(Debug)]
pub struct ExternalTool {
    pub action_tools: Vec<String>,
    pub check_tools: Option<Vec<String>>,
}

/// The tasks, build environments and tools of a workspace, by full name.
#[derive(Debug)]
pub struct Workspace {
    pub tasks: Vec<(String, Task)>,
    pub build_envs: Vec<(String, BuildEnv)>,
    pub tools: Vec<(String, ExternalTool)>,
}

/// A job of the job graph.
#[derive(Debug)]
pub enum ExecutorJob {
    Task { task_name: String },
    Clean { job_id: String, task_name: String },
    ToolCheck { job_id: String, tool_name: String },
    EnvAction { job_id: String, env_name: String, args: Vec<String> },
}

/// Why the jobs could not be put together.
#[derive(Debug)]
pub enum JobGraphError {
    TaskLookupError(String),
    ToolLookupError(String),
    EnvLookupError(String),
    UnresolvedCalcDependencyError(String),
}

pub open spec fn names(v: Seq<String>) -> Seq<Seq<char>> {
    v.map_values(|s: String| s@)
}

/// The index of the first entry of `name`.
pub open spec fn first_index<T>(entries: Seq<(String, T)>, name: Seq<char>, i: int) -> bool {
    &&& 0 <= i < entries.len()
    &&& entries[i].0@ == name
    &&& forall|j: int| 0 <= j < i ==> (#[trigger] entries[j]).0@ != name
}

pub open spec fn has_entry<T>(entries: Seq<(String, T)>, name: Seq<char>) -> bool {
    exists|i: int| 0 <= i < entries.len() && (#[trigger] entries[i]).0@ == name
}

pub(crate) fn find_entry<T>(entries: &Vec<(String, T)>, name: &str) -> (r: Option<usize>)
    ensures
        match r {
            Some(i) => first_index(entries@, name@, i as int),
            None => !has_entry(entries@, name@),
        },
{
    let mut i: usize = 0;
    while i < entries.len()
        invariant
            i <= entries@.len(),
            forall|j: int| 0 <= j < i ==> (#[trigger] entries@[j]).0@ != name@,
        decreases entries@.len() - i,
    {
        if str_eq(entries[i].0.as_str(), name) {
            return Some(i);
        }
        i = i + 1;
    }
    None
}

/// `o` names the job `x`.
pub open spec fn names_job(o: Option<String>, x: Seq<char>) -> bool {
    match o {
        Some(p) => p@ == x,
        None => false,
    }
}

/// The set-up task of the build environment named `env`, when the
/// workspace has that environment: its first entry decides.
pub open spec fn env_setup(ws: &Workspace, env: Seq<char>, x: Seq<char>) -> bool {
    exists|i: int|
        #[trigger] first_index(ws.build_envs@, env, i) && names_job(ws.build_envs@[i].1.setup_task, x)
}

/// Job `x` is one that the job of task `task` depends on: a task it depends
/// on, the provider of a file it depends on, or the set-up task of a build
/// environment it runs in.
pub open spec fn task_job_dep(ws: &Workspace, task: &Task, x: Seq<char>) -> bool {
    ||| names(task.task_deps@).contains(x)
    ||| exists|i: int| 0 <= i < task.file_deps@.len() && names_job(task.file_deps@[i], x)
    ||| exists|i: int| 0 <= i < task.build_envs@.len() && env_setup(ws, #[trigger] task.build_envs@[i]@, x)
}

/// Each task of the path waits for the job of the next.
pub open spec fn task_dep_path(ws: &Workspace, path: Seq<Seq<char>>) -> bool
    decreases path.len(),
{
    path.len() <= 1 || (task_job_dep(ws, &task_named(ws, path[0]), path[1]) && task_dep_path(ws, path.drop_first()))
}

/// Job `to` is reached from task `from` by following what task jobs wait
/// for.
pub open spec fn task_reaches(ws: &Workspace, from: Seq<char>, to: Seq<char>) -> bool {
    exists|path: Seq<Seq<char>>|
        #[trigger] task_dep_path(ws, path) && path.len() > 0 && path[0] == from && path.last() == to
}

proof fn lemma_task_reaches_self(ws: &Workspace, a: Seq<char>)
    ensures
        task_reaches(ws, a, a),
{
    assert(task_dep_path(ws, seq![a]));
}

proof fn lemma_task_reaches_step(ws: &Workspace, a: Seq<char>, b: Seq<char>, x: Seq<char>)
    requires
        task_job_dep(ws, &task_named(ws, a), b),
        task_reaches(ws, b, x),
    ensures
        task_reaches(ws, a, x),
{
    let p = choose|p: Seq<Seq<char>>| #[trigger] task_dep_path(ws, p) && p.len() > 0 && p[0] == b && p.last() == x;
    let q = seq![a] + p;
    assert(q.drop_first() =~= p);
    assert(q[1] == b);
    assert(task_dep_path(ws, q));
    assert(q.last() == x);
}

/// Every build environment that the task runs in is in the workspace.
pub open spec fn envs_found(ws: &Workspace, task: &Task) -> bool {
    forall|i: int| 0 <= i < task.build_envs@.len() ==> has_entry(ws.build_envs@, #[trigger] task.build_envs@[i]@)
}

pub(crate) fn push_unique(v: &mut Vec<String>, x: String)
    ensures
        forall|y: Seq<char>| names(final(v)@).contains(y) <==> (names(old(v)@).contains(y) || y == x@),
        names(old(v)@).no_duplicates() ==> names(final(v)@).no_duplicates(),
{
    let ghost xv = x@;
    let mut i: usize = 0;
    while i < v.len()
        invariant
            i <= v@.len(),
            xv == x@,
            v@ == old(v)@,
            forall|j: int| 0 <= j < i ==> v@[j]@ != xv,
        decreases v@.len() - i,
    {
        if str_eq(v[i].as_str(), x.as_str()) {
            proof {
                assert(names(v@)[i as int] == xv);
                assert forall|y: Seq<char>| names(v@).contains(y) <==> (names(v@).contains(y) || y == xv) by {}
            }
            return;
        }
        i = i + 1;
    }
    let ghost before = v@;
    v.push(x);
    proof {
        assert(names(v@) =~= names(before).push(xv));
        assert(!names(before).contains(xv)) by {
            if names(before).contains(xv) {
                let j = choose|j: int| 0 <= j < names(before).len() && names(before)[j] == xv;
                assert(before[j]@ == xv);
            }
        }
        assert forall|y: Seq<char>| names(v@).contains(y) <==> (names(before).contains(y) || y == xv) by {
            if names(v@).contains(y) {
                let j = choose|j: int| 0 <= j < names(v@).len() && names(v@)[j] == y;
                if j < before.len() {
                    assert(names(before)[j] == y);
                }
            }
            if names(before).contains(y) {
                let j = choose|j: int| 0 <= j < names(before).len() && names(before)[j] == y;
                assert(names(v@)[j] == y);
            }
            if y == xv {
                assert(names(v@)[before.len() as int] == y);
            }
        }
    }
}

/// The jobs that the job of `task` depends on, each once; a build
/// environment that the workspace does not have is an error, the first one
/// in the task's list.
pub fn get_task_job_dependencies(task: &Task, ws: &Workspace) -> (r: Result<Vec<String>, JobGraphError>)
    ensures
        match r {
            Ok(deps) => envs_found(ws, task) && names(deps@).no_duplicates() && forall|x: Seq<char>|
                #[trigger] names(deps@).contains(x) <==> task_job_dep(ws, task, x),
            Err(e) => !envs_found(ws, task) && exists|i: int|
                0 <= i < task.build_envs@.len() && !has_entry(ws.build_envs@, #[trigger] task.build_envs@[i]@)
                    && (forall|j: int| 0 <= j < i ==> has_entry(ws.build_envs@, #[trigger] task.build_envs@[j]@))
                    && (e matches JobGraphError::EnvLookupError(n) && n@ == task.build_envs@[i]@),
        },
{
    let mut deps: Vec<String> = Vec::new();
    let mut i: usize = 0;
    while i < task.task_deps.len()
        invariant
            i <= task.task_deps@.len(),
            names(deps@).no_duplicates(),
            forall|x: Seq<char>|
                names(deps@).contains(x) <==> names(task.task_deps@.take(i as int)).contains(x),
        decreases task.task_deps@.len() - i,
    {
        push_unique(&mut deps, task.task_deps[i].clone());
        proof {
            let t = names(task.task_deps@.take(i as int + 1));
            assert(t =~= names(task.task_deps@.take(i as int)).push(task.task_deps@[i as int]@));
            assert forall|x: Seq<char>| t.contains(x) <==> (names(task.task_deps@.take(i as int)).contains(x)
                || x == task.task_deps@[i as int]@) by {
                if t.contains(x) {
                    let j = choose|j: int| 0 <= j < t.len() && t[j] == x;
                    if j < i {
                        assert(names(task.task_deps@.take(i as int))[j] == x);
                    }
                }
                if names(task.task_deps@.take(i as int)).contains(x) {
                    let j = choose|j: int|
                        0 <= j < names(task.task_deps@.take(i as int)).len() && names(
                            task.task_deps@.take(i as int),
                        )[j] == x;
                    assert(t[j] == x);
                }
                if x == task.task_deps@[i as int]@ {
                    assert(t[i as int] == x);
                }
            }
        }
        i = i + 1;
    }
    proof {
        assert(task.task_deps@.take(i as int) =~= task.task_deps@);
    }
    let mut k: usize = 0;
    while k < task.file_deps.len()
        invariant
            k <= task.file_deps@.len(),
            names(deps@).no_duplicates(),
            forall|x: Seq<char>|
                names(deps@).contains(x) <==> (names(task.task_deps@).contains(x) || exists|j: int|
                    0 <= j < k && names_job(task.file_deps@[j], x)),
        decreases task.file_deps@.len() - k,
    {
        if let Some(p) = &task.file_deps[k] {
            push_unique(&mut deps, p.clone());
        }
        proof {
            assert forall|x: Seq<char>|
                names(deps@).contains(x) <==> (names(task.task_deps@).contains(x) || exists|j: int|
                    0 <= j < k + 1 && names_job(task.file_deps@[j], x)) by {
                if exists|j: int| 0 <= j < k + 1 && names_job(task.file_deps@[j], x) {
                    let j = choose|j: int| 0 <= j < k + 1 && names_job(task.file_deps@[j], x);
                    if j < k {
                        assert(exists|j2: int| 0 <= j2 < k && names_job(task.file_deps@[j2], x));
                    }
                }
            }
        }
        k = k + 1;
    }
    let mut m: usize = 0;
    while m < task.build_envs.len()
        invariant
            m <= task.build_envs@.len(),
            names(deps@).no_duplicates(),
            forall|j: int| 0 <= j < m ==> has_entry(ws.build_envs@, #[trigger] task.build_envs@[j]@),
            forall|x: Seq<char>|
                names(deps@).contains(x) <==> (names(task.task_deps@).contains(x) || (exists|j: int|
                    0 <= j < task.file_deps@.len() && names_job(task.file_deps@[j], x)) || exists|
                    j: int,
                | 0 <= j < m && env_setup(ws, #[trigger] task.build_envs@[j]@, x)),
        decreases task.build_envs@.len() - m,
    {
        match find_entry(&ws.build_envs, task.build_envs[m].as_str()) {
            None => {
                return Err(JobGraphError::EnvLookupError(task.build_envs[m].clone()));
            },
            Some(e) => {
                let ghost before = deps@;
                if let Some(setup) = &ws.build_envs[e].1.setup_task {
                    push_unique(&mut deps, setup.clone());
                }
                proof {
                    let env = task.build_envs@[m as int]@;
                    assert(first_index(ws.build_envs@, env, e as int));
                    assert forall|x: Seq<char>| env_setup(ws, env, x) <==> names_job(
                        ws.build_envs@[e as int].1.setup_task,
                        x,
                    ) by {
                        if env_setup(ws, env, x) {
                            let w = choose|w: int|
                                #[trigger] first_index(ws.build_envs@, env, w)
                                    && names_job(ws.build_envs@[w].1.setup_task, x);
                            if w < e {
                                assert(ws.build_envs@[w].0@ != env);
                            }
                            if w > e {
                                assert(ws.build_envs@[e as int].0@ != env);
                            }
                        }
                    }
                    assert(has_entry(ws.build_envs@, env));
                    assert forall|x: Seq<char>|
                        names(deps@).contains(x) <==> (names(task.task_deps@).contains(x) || (exists|j: int|
                            0 <= j < task.file_deps@.len() && names_job(task.file_deps@[j], x))
                            || exists|j: int| 0 <= j < m + 1 && env_setup(ws, #[trigger] task.build_envs@[j]@, x)) by {
                        if exists|j: int| 0 <= j < m + 1 && env_setup(ws, #[trigger] task.build_envs@[j]@, x) {
                            let j = choose|j: int| 0 <= j < m + 1 && env_setup(ws, #[trigger] task.build_envs@[j]@, x);
                            if j < m {
                                assert(exists|j2: int| 0 <= j2 < m && env_setup(ws, #[trigger] task.build_envs@[j2]@, x));
                            }
                        }
                        if env_setup(ws, env, x) {
                            assert(env_setup(ws, task.build_envs@[m as int]@, x));
                        }
                    }
                }
            },
        }
        m = m + 1;
    }
    proof {
        assert forall|x: Seq<char>| #[trigger] names(deps@).contains(x) <==> task_job_dep(ws, task, x) by {
            if exists|j: int| 0 <= j < task.build_envs@.len() && env_setup(ws, #[trigger] task.build_envs@[j]@, x) {
                let j = choose|j: int|
                    0 <= j < task.build_envs@.len() && env_setup(ws, #[trigger] task.build_envs@[j]@, x);
                assert(j < m);
            }
        }
    }
    Ok(deps)
}

/// The ids of the jobs.
pub open spec fn job_keys(jobs: Seq<(String, ExecutorJob)>) -> Seq<Seq<char>> {
    jobs.map_values(|e: (String, ExecutorJob)| e.0@)
}

/// The full names of the tasks of the workspace.
pub open spec fn task_names(ws: &Workspace) -> Seq<Seq<char>> {
    ws.tasks@.map_values(|e: (String, Task)| e.0@)
}

/// The task named `name`: its first entry.
pub open spec fn task_named(ws: &Workspace, name: Seq<char>) -> Task {
    ws.tasks@[choose|i: int| first_index(ws.tasks@, name, i)].1
}

/// How many of the names are not among the keys.
pub open spec fn absent_count(names: Seq<Seq<char>>, keys: Seq<Seq<char>>) -> nat
    decreases names.len(),
{
    if names.len() == 0 {
        0
    } else {
        absent_count(names.drop_last(), keys) + if keys.contains(names.last()) {
            0nat
        } else {
            1nat
        }
    }
}

pub(crate) proof fn lemma_absent_mono(names: Seq<Seq<char>>, k1: Seq<Seq<char>>, k2: Seq<Seq<char>>)
    requires
        forall|x: Seq<char>| k1.contains(x) ==> k2.contains(x),
    ensures
        absent_count(names, k2) <= absent_count(names, k1),
    decreases names.len(),
{
    if names.len() > 0 {
        lemma_absent_mono(names.drop_last(), k1, k2);
    }
}

pub(crate) proof fn lemma_absent_strict(names: Seq<Seq<char>>, k1: Seq<Seq<char>>, k2: Seq<Seq<char>>, y: Seq<char>)
    requires
        forall|x: Seq<char>| k1.contains(x) ==> k2.contains(x),
        names.contains(y),
        !k1.contains(y),
        k2.contains(y),
    ensures
        absent_count(names, k2) < absent_count(names, k1),
    decreases names.len(),
{
    let rest = names.drop_last();
    if names.last() == y {
        lemma_absent_mono(rest, k1, k2);
    } else {
        let j = choose|j: int| 0 <= j < names.len() && names[j] == y;
        assert(rest[j] == y);
        lemma_absent_strict(rest, k1, k2, y);
    }
}

/// Every key of the first list is a key of the second.
pub open spec fn keys_grow(old_jobs: Seq<(String, ExecutorJob)>, new_jobs: Seq<(String, ExecutorJob)>) -> bool {
    forall|x: Seq<char>| job_keys(old_jobs).contains(x) ==> job_keys(new_jobs).contains(x)
}

/// Entry `e` is the job of a task of the workspace that has no unresolved
/// calculated dependencies.
pub open spec fn is_task_job(ws: &Workspace, e: (String, ExecutorJob)) -> bool {
    &&& e.1 matches ExecutorJob::Task { task_name } && task_name@ == e.0@
    &&& has_entry(ws.tasks@, e.0@)
    &&& task_named(ws, e.0@).calc_deps@.len() == 0
}

/// The task jobs from index `from` on have all the jobs they depend on.
pub open spec fn task_jobs_closed(ws: &Workspace, jobs: Seq<(String, ExecutorJob)>, from: int) -> bool {
    forall|i: int, x: Seq<char>|
        from <= i < jobs.len() && #[trigger] task_job_dep(ws, &task_named(ws, jobs[i].0@), x) ==> job_keys(
            jobs,
        ).contains(x)
}

/// The error names a real problem of the workspace.
pub open spec fn genuine_error(ws: &Workspace, e: JobGraphError) -> bool {
    match e {
        JobGraphError::TaskLookupError(n) => !has_entry(ws.tasks@, n@),
        JobGraphError::ToolLookupError(n) => !has_entry(ws.tools@, n@),
        JobGraphError::EnvLookupError(n) => !has_entry(ws.build_envs@, n@),
        JobGraphError::UnresolvedCalcDependencyError(n) => has_entry(ws.tasks@, n@) && task_named(
            ws,
            n@,
        ).calc_deps@.len() > 0,
    }
}

fn has_job(jobs: &Vec<(String, ExecutorJob)>, id: &str) -> (b: bool)
    ensures
        b == job_keys(jobs@).contains(id@),
{
    let mut i: usize = 0;
    while i < jobs.len()
        invariant
            i <= jobs@.len(),
            forall|j: int| 0 <= j < i ==> jobs@[j].0@ != id@,
        decreases jobs@.len() - i,
    {
        if str_eq(jobs[i].0.as_str(), id) {
            proof {
                assert(job_keys(jobs@)[i as int] == id@);
            }
            return true;
        }
        i = i + 1;
    }
    proof {
        if job_keys(jobs@).contains(id@) {
            let j = choose|j: int| 0 <= j < job_keys(jobs@).len() && job_keys(jobs@)[j] == id@;
            assert(jobs@[j].0@ == id@);
        }
    }
    false
}

proof fn lemma_prefix_keys(a: Seq<(String, ExecutorJob)>, b: Seq<(String, ExecutorJob)>)
    requires
        a.len() <= b.len(),
        b.subrange(0, a.len() as int) == a,
    ensures
        keys_grow(a, b),
{
    assert forall|x: Seq<char>| job_keys(a).contains(x) implies job_keys(b).contains(x) by {
        let j = choose|j: int| 0 <= j < job_keys(a).len() && job_keys(a)[j] == x;
        assert(b[j] == a[j]);
        assert(job_keys(b)[j] == x);
    }
}

pub(crate) proof fn lemma_first_index_unique<T>(entries: Seq<(String, T)>, name: Seq<char>, i: int, j: int)
    requires
        first_index(entries, name, i),
        first_index(entries, name, j),
    ensures
        i == j,
{
    if i < j {
        assert(entries[i].0@ != name);
    }
    if j < i {
        assert(entries[j].0@ != name);
    }
}

/// Adds the job of task `task_name` and, for a task not yet among the jobs,
/// the jobs of everything it depends on, task after task.
pub fn add_task_jobs(task_name: &str, ws: &Workspace, jobs: &mut Vec<(String, ExecutorJob)>) -> (r: Result<
    (),
    JobGraphError,
>)
    ensures
        old(jobs)@.len() <= final(jobs)@.len(),
        final(jobs)@.subrange(0, old(jobs)@.len() as int) == old(jobs)@,
        job_keys(old(jobs)@).no_duplicates() ==> job_keys(final(jobs)@).no_duplicates(),
        forall|i: int| old(jobs)@.len() <= i < final(jobs)@.len() ==> is_task_job(ws, #[trigger] final(jobs)@[i]),
        r is Ok ==> job_keys(final(jobs)@).contains(task_name@),
        r is Ok ==> task_jobs_closed(ws, final(jobs)@, old(jobs)@.len() as int),
        job_keys(old(jobs)@).contains(task_name@) ==> r is Ok && final(jobs)@ == old(jobs)@,
        r matches Err(e) ==> genuine_error(ws, e),
        forall|i: int|
            old(jobs)@.len() <= i < final(jobs)@.len() ==> task_reaches(ws, task_name@, #[trigger] final(jobs)@[i].0@),
    decreases absent_count(task_names(ws), job_keys(old(jobs)@)),
{
    if has_job(jobs, task_name) {
        return Ok(());
    }
    let t = match find_entry(&ws.tasks, task_name) {
        Some(t) => t,
        None => {
            return Err(JobGraphError::TaskLookupError(String::from_str(task_name)));
        },
    };
    proof {
        lemma_first_index_exact(ws, task_name@, t as int);
    }
    if ws.tasks[t].1.calc_deps.len() > 0 {
        return Err(JobGraphError::UnresolvedCalcDependencyError(String::from_str(task_name)));
    }
    let ghost j0 = jobs@;
    jobs.push((String::from_str(task_name), ExecutorJob::Task { task_name: String::from_str(task_name) }));
    let ghost j1 = jobs@;
    proof {
        assert(j1.subrange(0, j0.len() as int) =~= j0);
        assert(job_keys(j1) =~= job_keys(j0).push(task_name@));
        assert(job_keys(j1)[j0.len() as int] == task_name@);
        assert(task_names(ws)[t as int] == task_name@);
        lemma_prefix_keys(j0, j1);
        lemma_absent_strict(task_names(ws), job_keys(j0), job_keys(j1), task_name@);
        assert(is_task_job(ws, j1[j0.len() as int]));
        lemma_task_reaches_self(ws, task_name@);
    }
    let deps = match get_task_job_dependencies(&ws.tasks[t].1, ws) {
        Ok(d) => d,
        Err(e) => {
            proof {
                let i = choose|i: int|
                    0 <= i < ws.tasks@[t as int].1.build_envs@.len() && !has_entry(
                        ws.build_envs@,
                        #[trigger] ws.tasks@[t as int].1.build_envs@[i]@,
                    ) && (forall|j: int|
                        0 <= j < i ==> has_entry(ws.build_envs@, #[trigger] ws.tasks@[t as int].1.build_envs@[j]@))
                        && (e matches JobGraphError::EnvLookupError(n) && n@ == ws.tasks@[t as int].1.build_envs@[i]@);
                assert(j1.subrange(0, j0.len() as int) =~= j0);
                if job_keys(j0).no_duplicates() {
                    assert(!job_keys(j0).contains(task_name@));
                    assert(job_keys(j1).no_duplicates());
                }
            }
            return Err(e);
        },
    };
    let mut d: usize = 0;
    while d < deps.len()
        invariant
            d <= deps@.len(),
            j0 == old(jobs)@,
            j0.len() < jobs@.len(),
            jobs@.subrange(0, j1.len() as int) == j1,
            j1.len() == j0.len() + 1,
            j1.subrange(0, j0.len() as int) == j0,
            j1[j0.len() as int].0@ == task_name@,
            !job_keys(j0).contains(task_name@),
            task_names(ws).contains(task_name@),
            first_index(ws.tasks@, task_name@, t as int),
            task_named(ws, task_name@) == ws.tasks@[t as int].1,
            forall|x: Seq<char>|
                #[trigger] names(deps@).contains(x) <==> task_job_dep(ws, &ws.tasks@[t as int].1, x),
            forall|k: int| 0 <= k < d ==> job_keys(jobs@).contains(#[trigger] names(deps@)[k]),
            job_keys(j0).no_duplicates() ==> job_keys(jobs@).no_duplicates(),
            forall|i: int| j0.len() <= i < jobs@.len() ==> is_task_job(ws, #[trigger] jobs@[i]),
            task_jobs_closed(ws, jobs@, j1.len() as int),
            absent_count(task_names(ws), job_keys(jobs@)) < absent_count(task_names(ws), job_keys(j0)),
            forall|i: int| j0.len() <= i < jobs@.len() ==> task_reaches(ws, task_name@, #[trigger] jobs@[i].0@),
        decreases deps@.len() - d,
    {
        let ghost before = jobs@;
        proof {
            assert(before.subrange(0, j0.len() as int) =~= j0) by {
                assert(before.subrange(0, j0.len() as int) =~= before.subrange(0, j1.len() as int).subrange(
                    0,
                    j0.len() as int,
                ));
            }
            lemma_prefix_keys(j0, before);
        }
        let res = add_task_jobs(deps[d].as_str(), ws, jobs);
        proof {
            lemma_prefix_keys(before, jobs@);
            assert(jobs@.subrange(0, j1.len() as int) =~= j1) by {
                assert(jobs@.subrange(0, j1.len() as int) =~= jobs@.subrange(0, before.len() as int).subrange(
                    0,
                    j1.len() as int,
                ));
            }
            lemma_absent_mono(task_names(ws), job_keys(before), job_keys(jobs@));
            assert forall|i: int| j0.len() <= i < jobs@.len() implies is_task_job(ws, #[trigger] jobs@[i]) by {
                if i < before.len() {
                    assert(jobs@[i] == jobs@.subrange(0, before.len() as int)[i]);
                }
            }
            assert(task_job_dep(ws, &task_named(ws, task_name@), deps@[d as int]@)) by {
                assert(names(deps@)[d as int] == deps@[d as int]@);
                assert(names(deps@).contains(deps@[d as int]@));
            }
            assert forall|i: int| j0.len() <= i < jobs@.len() implies task_reaches(
                ws,
                task_name@,
                #[trigger] jobs@[i].0@,
            ) by {
                if i < before.len() {
                    assert(jobs@[i] == jobs@.subrange(0, before.len() as int)[i]);
                } else {
                    lemma_task_reaches_step(ws, task_name@, deps@[d as int]@, jobs@[i].0@);
                }
            }
        }
        if let Err(e) = res {
            return Err(e);
        }
        proof {
            assert forall|k: int| 0 <= k < d + 1 implies job_keys(jobs@).contains(#[trigger] names(deps@)[k]) by {
                if k < d {
                    assert(job_keys(before).contains(names(deps@)[k]));
                }
            }
            assert forall|i: int, x: Seq<char>|
                j1.len() <= i < jobs@.len() && #[trigger] task_job_dep(ws, &task_named(ws, jobs@[i].0@), x)
                    implies job_keys(jobs@).contains(x) by {
                if i < before.len() {
                    assert(jobs@[i] == jobs@.subrange(0, before.len() as int)[i]);
                    assert(job_keys(before).contains(x));
                }
            }
        }
        d = d + 1;
    }
    proof {
        lemma_prefix_keys(j1, jobs@);
        assert(jobs@.subrange(0, j0.len() as int) =~= j0) by {
            assert(jobs@.subrange(0, j0.len() as int) =~= jobs@.subrange(0, j1.len() as int).subrange(
                0,
                j0.len() as int,
            ));
        }
        assert(job_keys(j1).contains(task_name@));
        assert forall|i: int, x: Seq<char>|
            j0.len() <= i < jobs@.len() && #[trigger] task_job_dep(ws, &task_named(ws, jobs@[i].0@), x) implies job_keys(
                jobs@,
            ).contains(x) by {
            if i == j0.len() {
                assert(jobs@[i] == j1[i]);
                assert(names(deps@).contains(x));
                let k = choose|k: int| 0 <= k < names(deps@).len() && names(deps@)[k] == x;
                assert(job_keys(jobs@).contains(names(deps@)[k]));
            }
        }
    }
    Ok(())
}

pub(crate) proof fn lemma_first_index_exact(ws: &Workspace, name: Seq<char>, t: int)
    requires
        first_index(ws.tasks@, name, t),
    ensures
        task_named(ws, name) == ws.tasks@[t].1,
        has_entry(ws.tasks@, name),
{
    let c = choose|i: int| first_index(ws.tasks@, name, i);
    lemma_first_index_unique(ws.tasks@, name, c, t);
}

/// No task, tool or build environment name occurs twice in the workspace:
/// each table of the workspace is a map from names.
pub open spec fn workspace_wf(ws: &Workspace) -> bool {
    &&& names_distinct(ws.tasks@)
    &&& names_distinct(ws.tools@)
    &&& names_distinct(ws.build_envs@)
}

pub open spec fn names_distinct<T>(entries: Seq<(String, T)>) -> bool {
    forall|i: int, j: int| 0 <= i < j < entries.len() ==> (#[trigger] entries[i]).0@ != (#[trigger] entries[j]).0@
}

/// In a workspace whose task names are distinct, the task found by a name
/// is the task of the entry with that name, whichever entry it is.
pub proof fn law_task_lookup_is_by_name(ws: &Workspace, i: int)
    requires
        workspace_wf(ws),
        0 <= i < ws.tasks@.len(),
    ensures
        has_entry(ws.tasks@, ws.tasks@[i].0@),
        task_named(ws, ws.tasks@[i].0@) == ws.tasks@[i].1,
{
    assert(first_index(ws.tasks@, ws.tasks@[i].0@, i)) by {
        assert forall|j: int| 0 <= j < i implies (#[trigger] ws.tasks@[j]).0@ != ws.tasks@[i].0@ by {
            assert(ws.tasks@[j].0@ != ws.tasks@[i].0@);
        }
    }
    lemma_first_index_exact(ws, ws.tasks@[i].0@, i);
}

/// The ids of the check jobs of the workspace's tools.
pub open spec fn tool_job_ids(ws: &Workspace) -> Seq<Seq<char>> {
    ws.tools@.map_values(|e: (String, ExternalTool)| tool_check_job_id(e.0@))
}

/// The tool named `name`: its first entry.
pub open spec fn tool_named(ws: &Workspace, name: Seq<char>) -> ExternalTool {
    ws.tools@[choose|i: int| first_index(ws.tools@, name, i)].1
}

/// The tools that the check job of `tool` waits for: those its action uses,
/// and those its check uses.
pub open spec fn tool_job_dep(tool: ExternalTool, x: Seq<char>) -> bool {
    ||| names(tool.action_tools@).contains(x)
    ||| (tool.check_tools matches Some(c) && names(c@).contains(x))
}

/// Entry `e` is the check job of a tool of the workspace.
pub open spec fn is_tool_job(ws: &Workspace, e: (String, ExecutorJob)) -> bool {
    exists|t: Seq<char>|
        #[trigger] has_entry(ws.tools@, t) && e.0@ == tool_check_job_id(t) && (e.1 matches ExecutorJob::ToolCheck {
            job_id,
            tool_name,
        } && job_id@ == e.0@ && tool_name@ == t)
}

/// The tool check jobs from index `from` on have the check jobs of all the
/// tools they need.
pub open spec fn tool_jobs_closed(ws: &Workspace, jobs: Seq<(String, ExecutorJob)>, from: int) -> bool {
    forall|i: int, x: Seq<char>|
        from <= i < jobs.len() && #[trigger] tool_job_dep(tool_named(ws, job_tool(jobs[i])), x) ==> job_keys(
            jobs,
        ).contains(tool_check_job_id(x))
}

/// The tool that a tool check job checks.
pub open spec fn job_tool(e: (String, ExecutorJob)) -> Seq<char> {
    match e.1 {
        ExecutorJob::ToolCheck { tool_name, .. } => tool_name@,
        _ => e.0@,
    }
}

/// Each tool of the path needs the check of the next.
pub open spec fn tool_dep_path(ws: &Workspace, path: Seq<Seq<char>>) -> bool
    decreases path.len(),
{
    path.len() <= 1 || (tool_job_dep(tool_named(ws, path[0]), path[1]) && tool_dep_path(ws, path.drop_first()))
}

/// Tool `to` is reached from tool `from` by following the tools that tool
/// checks need.
pub open spec fn tool_reaches(ws: &Workspace, from: Seq<char>, to: Seq<char>) -> bool {
    exists|path: Seq<Seq<char>>|
        #[trigger] tool_dep_path(ws, path) && path.len() > 0 && path[0] == from && path.last() == to
}

proof fn lemma_tool_reaches_self(ws: &Workspace, a: Seq<char>)
    ensures
        tool_reaches(ws, a, a),
{
    assert(tool_dep_path(ws, seq![a]));
}

proof fn lemma_tool_reaches_step(ws: &Workspace, a: Seq<char>, b: Seq<char>, x: Seq<char>)
    requires
        tool_job_dep(tool_named(ws, a), b),
        tool_reaches(ws, b, x),
    ensures
        tool_reaches(ws, a, x),
{
    let p = choose|p: Seq<Seq<char>>| #[trigger] tool_dep_path(ws, p) && p.len() > 0 && p[0] == b && p.last() == x;
    let q = seq![a] + p;
    assert(q.drop_first() =~= p);
    assert(q[1] == b);
    assert(tool_dep_path(ws, q));
    assert(q.last() == x);
}

proof fn lemma_first_tool(ws: &Workspace, name: Seq<char>, t: int)
    requires
        first_index(ws.tools@, name, t),
    ensures
        tool_named(ws, name) == ws.tools@[t].1,
        has_entry(ws.tools@, name),
{
    let c = choose|i: int| first_index(ws.tools@, name, i);
    lemma_first_index_unique(ws.tools@, name, c, t);
}

/// Adds the check job of tool `tool_name` and, for a tool whose check job is
/// not yet among the jobs, the check jobs of the tools it uses.
pub fn add_tool_check_jobs(tool_name: &str, ws: &Workspace, jobs: &mut Vec<(String, ExecutorJob)>) -> (r: Result<
    (),
    JobGraphError,
>)
    ensures
        old(jobs)@.len() <= final(jobs)@.len(),
        final(jobs)@.subrange(0, old(jobs)@.len() as int) == old(jobs)@,
        job_keys(old(jobs)@).no_duplicates() ==> job_keys(final(jobs)@).no_duplicates(),
        forall|i: int| old(jobs)@.len() <= i < final(jobs)@.len() ==> is_tool_job(ws, #[trigger] final(jobs)@[i]),
        r is Ok ==> job_keys(final(jobs)@).contains(tool_check_job_id(tool_name@)),
        r is Ok ==> tool_jobs_closed(ws, final(jobs)@, old(jobs)@.len() as int),
        job_keys(old(jobs)@).contains(tool_check_job_id(tool_name@)) ==> r is Ok && final(jobs)@ == old(jobs)@,
        r matches Err(e) ==> genuine_error(ws, e),
        forall|i: int|
            old(jobs)@.len() <= i < final(jobs)@.len() ==> tool_reaches(ws, tool_name@, job_tool(#[trigger] final(jobs)@[i])),
    decreases absent_count(tool_job_ids(ws), job_keys(old(jobs)@)),
{
    let id = get_tool_check_job_id(tool_name);
    if has_job(jobs, id.as_str()) {
        return Ok(());
    }
    let t = match find_entry(&ws.tools, tool_name) {
        Some(t) => t,
        None => {
            return Err(JobGraphError::ToolLookupError(String::from_str(tool_name)));
        },
    };
    proof {
        lemma_first_tool(ws, tool_name@, t as int);
    }
    let ghost j0 = jobs@;
    jobs.push((id.clone(), ExecutorJob::ToolCheck { job_id: id, tool_name: String::from_str(tool_name) }));
    let ghost j1 = jobs@;
    let ghost idv = tool_check_job_id(tool_name@);
    proof {
        assert(j1.subrange(0, j0.len() as int) =~= j0);
        assert(job_keys(j1) =~= job_keys(j0).push(idv));
        assert(job_keys(j1)[j0.len() as int] == idv);
        assert(tool_job_ids(ws)[t as int] == idv);
        lemma_prefix_keys(j0, j1);
        lemma_absent_strict(tool_job_ids(ws), job_keys(j0), job_keys(j1), idv);
        assert(is_tool_job(ws, j1[j0.len() as int]));
        lemma_tool_reaches_self(ws, tool_name@);
        assert(job_tool(j1[j0.len() as int]) == tool_name@);
    }
    let ghost tool = ws.tools@[t as int].1;
    let mut phase: usize = 0;
    while phase < 2
        invariant
            phase <= 2,
            j0 == old(jobs)@,
            j0.len() < jobs@.len(),
            jobs@.subrange(0, j1.len() as int) == j1,
            j1.len() == j0.len() + 1,
            j1.subrange(0, j0.len() as int) == j0,
            j1[j0.len() as int].0@ == idv,
            idv == tool_check_job_id(tool_name@),
            !job_keys(j0).contains(idv),
            first_index(ws.tools@, tool_name@, t as int),
            tool == ws.tools@[t as int].1,
            tool_named(ws, tool_name@) == tool,
            has_entry(ws.tools@, tool_name@),
            phase >= 1 ==> forall|x: Seq<char>|
                names(tool.action_tools@).contains(x) ==> job_keys(jobs@).contains(#[trigger] tool_check_job_id(x)),
            phase >= 2 ==> forall|x: Seq<char>|
                (tool.check_tools matches Some(c) && names(c@).contains(x)) ==> job_keys(jobs@).contains(
                    #[trigger] tool_check_job_id(x),
                ),
            job_keys(j0).no_duplicates() ==> job_keys(jobs@).no_duplicates(),
            forall|i: int| j0.len() <= i < jobs@.len() ==> is_tool_job(ws, #[trigger] jobs@[i]),
            tool_jobs_closed(ws, jobs@, j1.len() as int),
            absent_count(tool_job_ids(ws), job_keys(jobs@)) < absent_count(tool_job_ids(ws), job_keys(j0)),
            forall|i: int| j0.len() <= i < jobs@.len() ==> tool_reaches(ws, tool_name@, job_tool(#[trigger] jobs@[i])),
        decreases 2 - phase,
    {
        let list: &Vec<String> = if phase == 0 {
            &ws.tools[t].1.action_tools
        } else {
            match &ws.tools[t].1.check_tools {
                Some(c) => c,
                None => &ws.tools[t].1.action_tools,
            }
        };
        let ghost phase_jobs = jobs@;
        proof {
            assert forall|k: int| 0 <= k < list@.len() implies tool_job_dep(tool, #[trigger] names(list@)[k]) by {
                assert(names(list@).contains(names(list@)[k]));
            }
        }
        let mut d: usize = 0;
        while d < list.len()
            invariant
                d <= list@.len(),
                j0 == old(jobs)@,
                j0.len() < jobs@.len(),
                jobs@.subrange(0, j1.len() as int) == j1,
                j1.len() == j0.len() + 1,
                j1.subrange(0, j0.len() as int) == j0,
                keys_grow(phase_jobs, jobs@),
                idv == tool_check_job_id(tool_name@),
                !job_keys(j0).contains(idv),
                forall|k: int| 0 <= k < d ==> job_keys(jobs@).contains(tool_check_job_id(#[trigger] names(list@)[k])),
                job_keys(j0).no_duplicates() ==> job_keys(jobs@).no_duplicates(),
                forall|i: int| j0.len() <= i < jobs@.len() ==> is_tool_job(ws, #[trigger] jobs@[i]),
                tool_jobs_closed(ws, jobs@, j1.len() as int),
                absent_count(tool_job_ids(ws), job_keys(jobs@)) < absent_count(tool_job_ids(ws), job_keys(j0)),
                forall|i: int| j0.len() <= i < jobs@.len() ==> tool_reaches(ws, tool_name@, job_tool(#[trigger] jobs@[i])),
                forall|k: int| 0 <= k < list@.len() ==> tool_job_dep(tool, #[trigger] names(list@)[k]),
                tool_named(ws, tool_name@) == tool,
            decreases list@.len() - d,
        {
            let ghost before = jobs@;
            proof {
                assert(before.subrange(0, j0.len() as int) =~= j0) by {
                    assert(before.subrange(0, j0.len() as int) =~= before.subrange(0, j1.len() as int).subrange(
                        0,
                        j0.len() as int,
                    ));
                }
                lemma_prefix_keys(j0, before);
            }
            let res = add_tool_check_jobs(list[d].as_str(), ws, jobs);
            proof {
                lemma_prefix_keys(before, jobs@);
                assert(jobs@.subrange(0, j1.len() as int) =~= j1) by {
                    assert(jobs@.subrange(0, j1.len() as int) =~= jobs@.subrange(0, before.len() as int).subrange(
                        0,
                        j1.len() as int,
                    ));
                }
                lemma_absent_mono(tool_job_ids(ws), job_keys(before), job_keys(jobs@));
                assert forall|i: int| j0.len() <= i < jobs@.len() implies is_tool_job(ws, #[trigger] jobs@[i]) by {
                    if i < before.len() {
                        assert(jobs@[i] == jobs@.subrange(0, before.len() as int)[i]);
                    }
                }
                assert(tool_job_dep(tool, list@[d as int]@)) by {
                    assert(names(list@)[d as int] == list@[d as int]@);
                }
                assert forall|i: int| j0.len() <= i < jobs@.len() implies tool_reaches(
                    ws,
                    tool_name@,
                    job_tool(#[trigger] jobs@[i]),
                ) by {
                    if i < before.len() {
                        assert(jobs@[i] == jobs@.subrange(0, before.len() as int)[i]);
                    } else {
                        lemma_tool_reaches_step(ws, tool_name@, list@[d as int]@, job_tool(jobs@[i]));
                    }
                }
            }
            if let Err(e) = res {
                return Err(e);
            }
            proof {
                assert forall|k: int| 0 <= k < d + 1 implies job_keys(jobs@).contains(
                    tool_check_job_id(#[trigger] names(list@)[k]),
                ) by {
                    if k < d {
                        assert(job_keys(before).contains(tool_check_job_id(names(list@)[k])));
                    }
                }
                assert forall|i: int, x: Seq<char>|
                    j1.len() <= i < jobs@.len() && #[trigger] tool_job_dep(tool_named(ws, job_tool(jobs@[i])), x) implies job_keys(
                        jobs@,
                    ).contains(tool_check_job_id(x)) by {
                    if i < before.len() {
                        assert(jobs@[i] == jobs@.subrange(0, before.len() as int)[i]);
                        assert(job_keys(before).contains(tool_check_job_id(x)));
                    }
                }
                assert(keys_grow(phase_jobs, jobs@)) by {
                    assert forall|x: Seq<char>| job_keys(phase_jobs).contains(x) implies job_keys(jobs@).contains(x) by {
                        assert(job_keys(before).contains(x));
                    }
                }
            }
            d = d + 1;
        }
        proof {
            assert forall|x: Seq<char>| names(list@).contains(x) implies job_keys(jobs@).contains(
                #[trigger] tool_check_job_id(x),
            ) by {
                let k = choose|k: int| 0 <= k < names(list@).len() && names(list@)[k] == x;
                assert(job_keys(jobs@).contains(tool_check_job_id(names(list@)[k])));
            }
            if phase >= 1 {
                assert forall|x: Seq<char>| names(tool.action_tools@).contains(x) implies job_keys(jobs@).contains(
                    #[trigger] tool_check_job_id(x),
                ) by {
                    assert(job_keys(phase_jobs).contains(tool_check_job_id(x)));
                }
            }
        }
        phase = phase + 1;
    }
    proof {
        lemma_prefix_keys(j1, jobs@);
        assert(jobs@.subrange(0, j0.len() as int) =~= j0) by {
            assert(jobs@.subrange(0, j0.len() as int) =~= jobs@.subrange(0, j1.len() as int).subrange(
                0,
                j0.len() as int,
            ));
        }
        assert(job_keys(j1).contains(idv));
        assert forall|i: int, x: Seq<char>|
            j0.len() <= i < jobs@.len() && #[trigger] tool_job_dep(tool_named(ws, job_tool(jobs@[i])), x) implies job_keys(
                jobs@,
            ).contains(tool_check_job_id(x)) by {
            if i == j0.len() {
                assert(jobs@[i] == j1[i]);
                assert(job_tool(jobs@[i]) == tool_name@);
            }
        }
    }
    Ok(())
}

/// `x` is a build environment of the task, or of one of its clean actions:
/// the jobs that cleaning the task waits for.
pub open spec fn clean_job_dep(task: &Task, x: Seq<char>) -> bool {
    ||| names(task.build_envs@).contains(x)
    ||| exists|i: int| 0 <= i < task.clean_actions@.len() && names(#[trigger] task.clean_actions@[i]@).contains(x)
}

fn push_all_unique(v: &mut Vec<String>, list: &Vec<String>)
    ensures
        forall|y: Seq<char>|
            #[trigger] names(final(v)@).contains(y) <==> (names(old(v)@).contains(y) || names(list@).contains(y)),
        names(old(v)@).no_duplicates() ==> names(final(v)@).no_duplicates(),
{
    let ghost start = v@;
    let mut k: usize = 0;
    while k < list.len()
        invariant
            k <= list@.len(),
            names(start).no_duplicates() ==> names(v@).no_duplicates(),
            forall|y: Seq<char>|
                #[trigger] names(v@).contains(y) <==> (names(start).contains(y) || names(list@.take(k as int)).contains(y)),
        decreases list@.len() - k,
    {
        push_unique(v, list[k].clone());
        proof {
            let t = names(list@.take(k as int + 1));
            let t0 = names(list@.take(k as int));
            assert(t =~= t0.push(list@[k as int]@));
            assert forall|y: Seq<char>| #[trigger] t.contains(y) <==> (t0.contains(y) || y == list@[k as int]@) by {
                if t.contains(y) {
                    let j = choose|j: int| 0 <= j < t.len() && t[j] == y;
                    if j < k {
                        assert(t0[j] == y);
                    }
                }
                if t0.contains(y) {
                    let j = choose|j: int| 0 <= j < t0.len() && t0[j] == y;
                    assert(t[j] == y);
                }
                if y == list@[k as int]@ {
                    assert(t[k as int] == y);
                }
            }
        }
        k = k + 1;
    }
    proof {
        assert(list@.take(k as int) =~= list@);
    }
}

/// The build environments of a task and of its clean actions, each once.
pub fn get_clean_job_task_dependencies(task: &Task) -> (r: Vec<String>)
    ensures
        names(r@).no_duplicates(),
        forall|x: Seq<char>| #[trigger] names(r@).contains(x) <==> clean_job_dep(task, x),
{
    let mut deps: Vec<String> = Vec::new();
    push_all_unique(&mut deps, &task.build_envs);
    let mut a: usize = 0;
    while a < task.clean_actions.len()
        invariant
            a <= task.clean_actions@.len(),
            names(deps@).no_duplicates(),
            forall|x: Seq<char>|
                #[trigger] names(deps@).contains(x) <==> (names(task.build_envs@).contains(x) || exists|j: int|
                    0 <= j < a && names(#[trigger] task.clean_actions@[j]@).contains(x)),
        decreases task.clean_actions@.len() - a,
    {
        let ghost before = deps@;
        push_all_unique(&mut deps, &task.clean_actions[a]);
        proof {
            assert forall|x: Seq<char>|
                #[trigger] names(deps@).contains(x) <==> (names(task.build_envs@).contains(x) || exists|j: int|
                    0 <= j < a + 1 && names(#[trigger] task.clean_actions@[j]@).contains(x)) by {
                assert(names(before).contains(x) <==> (names(task.build_envs@).contains(x) || exists|j: int|
                    0 <= j < a && names(#[trigger] task.clean_actions@[j]@).contains(x)));
                if exists|j: int| 0 <= j < a + 1 && names(#[trigger] task.clean_actions@[j]@).contains(x) {
                    let j = choose|j: int| 0 <= j < a + 1 && names(#[trigger] task.clean_actions@[j]@).contains(x);
                    if j < a {
                        assert(exists|j2: int| 0 <= j2 < a && names(#[trigger] task.clean_actions@[j2]@).contains(x));
                    }
                }
            }
        }
        a = a + 1;
    }
    deps
}

proof fn lemma_keys_grow_trans(a: Seq<(String, ExecutorJob)>, b: Seq<(String, ExecutorJob)>, c: Seq<(String, ExecutorJob)>)
    requires
        keys_grow(a, b),
        keys_grow(b, c),
    ensures
        keys_grow(a, c),
{
}

/// Puts job `job` under `id`: it replaces the job already under `id`, or
/// joins the jobs.
fn insert_job(jobs: &mut Vec<(String, ExecutorJob)>, id: String, job: ExecutorJob)
    ensures
        forall|x: Seq<char>|
            #[trigger] job_keys(final(jobs)@).contains(x) <==> (job_keys(old(jobs)@).contains(x) || x == id@),
        job_keys(old(jobs)@).no_duplicates() ==> job_keys(final(jobs)@).no_duplicates(),
{
    let ghost idv = id@;
    let ghost j0 = jobs@;
    let mut i: usize = 0;
    while i < jobs.len()
        invariant
            i <= jobs@.len(),
            jobs@ == j0,
            idv == id@,
            forall|k: int| 0 <= k < i ==> jobs@[k].0@ != idv,
        ensures
            i <= jobs@.len(),
            jobs@ == j0,
            idv == id@,
            forall|k: int| 0 <= k < i ==> jobs@[k].0@ != idv,
            i < jobs@.len() ==> jobs@[i as int].0@ == idv,
        decreases jobs@.len() - i,
    {
        if str_eq(jobs[i].0.as_str(), id.as_str()) {
            break;
        }
        i = i + 1;
    }
    if i < jobs.len() {
        let ghost old_key = jobs@[i as int].0@;
        jobs.set(i, (id, job));
        proof {
            assert(old_key == idv);
            assert(job_keys(jobs@) =~= job_keys(j0).update(i as int, idv));
            assert(job_keys(jobs@) =~= job_keys(j0));
            assert forall|x: Seq<char>| #[trigger] job_keys(jobs@).contains(x) <==> (job_keys(j0).contains(x) || x == idv) by {
                if job_keys(j0).contains(x) {
                    let k = choose|k: int| 0 <= k < job_keys(j0).len() && job_keys(j0)[k] == x;
                    assert(job_keys(jobs@)[k] == x);
                }
                if job_keys(jobs@).contains(x) {
                    let k = choose|k: int| 0 <= k < job_keys(jobs@).len() && job_keys(jobs@)[k] == x;
                    if k != i {
                        assert(job_keys(j0)[k] == x);
                    }
                }
                if x == idv {
                    assert(job_keys(jobs@)[i as int] == x);
                }
            }
        }
    } else {
        jobs.push((id, job));
        proof {
            assert(job_keys(jobs@) =~= job_keys(j0).push(idv));
            assert(!job_keys(j0).contains(idv)) by {
                if job_keys(j0).contains(idv) {
                    let k = choose|k: int| 0 <= k < job_keys(j0).len() && job_keys(j0)[k] == idv;
                    assert(j0[k].0@ == idv);
                }
            }
            assert forall|x: Seq<char>| #[trigger] job_keys(jobs@).contains(x) <==> (job_keys(j0).contains(x) || x == idv) by {
                if job_keys(j0).contains(x) {
                    let k = choose|k: int| 0 <= k < job_keys(j0).len() && job_keys(j0)[k] == x;
                    assert(job_keys(jobs@)[k] == x);
                }
                if job_keys(jobs@).contains(x) {
                    let k = choose|k: int| 0 <= k < job_keys(jobs@).len() && job_keys(jobs@)[k] == x;
                    if k < j0.len() {
                        assert(job_keys(j0)[k] == x);
                    }
                }
                if x == idv {
                    assert(job_keys(jobs@)[j0.len() as int] == x);
                }
            }
        }
    }
}

fn copy_strings(v: &Vec<String>) -> (r: Vec<String>)
    ensures
        names(r@) == names(v@),
{
    let mut r: Vec<String> = Vec::new();
    let mut i: usize = 0;
    while i < v.len()
        invariant
            i <= v@.len(),
            names(r@) == names(v@.take(i as int)),
        decreases v@.len() - i,
    {
        let ghost prev = r@;
        let item = v[i].clone();
        assert(item@ == v@[i as int]@);
        r.push(item);
        proof {
            assert(r@ == prev.push(item));
            assert(names(r@) =~= names(prev).push(v@[i as int]@));
            assert(v@.take(i as int + 1) =~= v@.take(i as int).push(v@[i as int]));
            assert(names(r@) =~= names(v@.take(i as int + 1)));
        }
        i = i + 1;
    }
    proof {
        assert(v@.take(i as int) =~= v@);
    }
    r
}

/// The job of an action of build environment `env_name`, with the job of
/// the task that sets the environment up, if it has one.
pub fn add_env_action_jobs(
    env_name: &str,
    args: &Vec<String>,
    ws: &Workspace,
    jobs: &mut Vec<(String, ExecutorJob)>,
) -> (r: Result<(), JobGraphError>)
    ensures
        keys_grow(old(jobs)@, final(jobs)@),
        job_keys(old(jobs)@).no_duplicates() ==> job_keys(final(jobs)@).no_duplicates(),
        r is Ok ==> job_keys(final(jobs)@).contains(env_action_job_id(env_name@)),
        r is Ok ==> forall|x: Seq<char>| env_setup(ws, env_name@, x) ==> job_keys(final(jobs)@).contains(x),
        !has_entry(ws.build_envs@, env_name@) ==> r is Err,
        r matches Err(e) ==> genuine_error(ws, e),
{
    let e = match find_entry(&ws.build_envs, env_name) {
        Some(e) => e,
        None => {
            return Err(JobGraphError::EnvLookupError(String::from_str(env_name)));
        },
    };
    let id = get_env_action_job_id(env_name);
    let job = ExecutorJob::EnvAction { job_id: id.clone(), env_name: String::from_str(env_name), args: copy_strings(args) };
    let ghost j0 = jobs@;
    insert_job(jobs, id, job);
    let ghost j1 = jobs@;
    proof {
        assert(has_entry(ws.build_envs@, env_name@));
        assert forall|x: Seq<char>| env_setup(ws, env_name@, x) <==> names_job(ws.build_envs@[e as int].1.setup_task, x) by {
            if env_setup(ws, env_name@, x) {
                let w = choose|w: int|
                    #[trigger] first_index(ws.build_envs@, env_name@, w) && names_job(ws.build_envs@[w].1.setup_task, x);
                lemma_first_index_unique(ws.build_envs@, env_name@, w, e as int);
            }
        }
    }
    match &ws.build_envs[e].1.setup_task {
        Some(setup) => {
            let res = add_task_jobs(setup.as_str(), ws, jobs);
            proof {
                lemma_prefix_keys(j1, jobs@);
            }
            match res {
                Ok(()) => {},
                Err(err) => {
                    return Err(err);
                },
            }
        },
        None => {},
    }
    Ok(())
}

/// The ranks of the tasks go down along the dependencies of the project
/// tasks: cleaning a project task, which cleans what it depends on, comes
/// to an end.
pub open spec fn clean_ranked(ws: &Workspace, rank: spec_fn(Seq<char>) -> nat) -> bool {
    forall|p: Seq<char>, x: Seq<char>|
        has_entry(ws.tasks@, p) && task_named(ws, p).task_type == TaskType::Project && #[trigger] task_job_dep(
            ws,
            &task_named(ws, p),
            x,
        ) ==> rank(x) < rank(p)
}

/// The dependencies of the project tasks form no cycle.
pub open spec fn project_deps_acyclic(ws: &Workspace) -> bool {
    exists|rank: spec_fn(Seq<char>) -> nat| clean_ranked(ws, rank)
}

pub open spec fn clean_rank(ws: &Workspace) -> spec_fn(Seq<char>) -> nat {
    choose|rank: spec_fn(Seq<char>) -> nat| clean_ranked(ws, rank)
}

/// The clean job of task `task_name`, with the jobs of the build
/// environments that cleaning it uses and, for a project task, the clean
/// jobs of what it depends on.
pub fn add_clean_jobs(task_name: &str, ws: &Workspace, jobs: &mut Vec<(String, ExecutorJob)>) -> (r: Result<
    (),
    JobGraphError,
>)
    requires
        project_deps_acyclic(ws),
    ensures
        keys_grow(old(jobs)@, final(jobs)@),
        job_keys(old(jobs)@).no_duplicates() ==> job_keys(final(jobs)@).no_duplicates(),
        r is Ok ==> job_keys(final(jobs)@).contains(clean_task_name(task_name@)),
        r is Ok ==> forall|x: Seq<char>|
            clean_job_dep(&task_named(ws, task_name@), x) ==> job_keys(final(jobs)@).contains(x),
        r is Ok ==> has_entry(ws.tasks@, task_name@),
        r matches Err(e) ==> genuine_error(ws, e),
    decreases clean_rank(ws)(task_name@),
{
    let t = match find_entry(&ws.tasks, task_name) {
        Some(t) => t,
        None => {
            return Err(JobGraphError::TaskLookupError(String::from_str(task_name)));
        },
    };
    proof {
        lemma_first_index_exact(ws, task_name@, t as int);
    }
    let id = get_clean_task_name(task_name);
    let job = ExecutorJob::Clean { job_id: id.clone(), task_name: String::from_str(task_name) };
    let ghost j0 = jobs@;
    insert_job(jobs, id, job);
    let ghost j1 = jobs@;
    let cdeps = get_clean_job_task_dependencies(&ws.tasks[t].1);
    let mut d: usize = 0;
    while d < cdeps.len()
        invariant
            d <= cdeps@.len(),
            j0 == old(jobs)@,
            keys_grow(j0, jobs@),
            keys_grow(j1, jobs@),
            job_keys(j1).contains(clean_task_name(task_name@)),
            job_keys(j0).no_duplicates() ==> job_keys(jobs@).no_duplicates(),
            forall|k: int| 0 <= k < d ==> job_keys(jobs@).contains(#[trigger] names(cdeps@)[k]),
        decreases cdeps@.len() - d,
    {
        let ghost before = jobs@;
        let res = add_task_jobs(cdeps[d].as_str(), ws, jobs);
        proof {
            lemma_prefix_keys(before, jobs@);
            lemma_keys_grow_trans(j0, before, jobs@);
            lemma_keys_grow_trans(j1, before, jobs@);
        }
        if let Err(e) = res {
            return Err(e);
        }
        proof {
            assert forall|k: int| 0 <= k < d + 1 implies job_keys(jobs@).contains(#[trigger] names(cdeps@)[k]) by {
                if k < d {
                    assert(job_keys(before).contains(names(cdeps@)[k]));
                }
            }
        }
        d = d + 1;
    }
    let ghost j2 = jobs@;
    proof {
        assert forall|x: Seq<char>| clean_job_dep(&task_named(ws, task_name@), x) implies job_keys(j2).contains(x) by {
            assert(names(cdeps@).contains(x));
            let k = choose|k: int| 0 <= k < names(cdeps@).len() && names(cdeps@)[k] == x;
            assert(job_keys(j2).contains(names(cdeps@)[k]));
        }
    }
    if ws.tasks[t].1.task_type == TaskType::Project {
        let deps = match get_task_job_dependencies(&ws.tasks[t].1, ws) {
            Ok(deps) => deps,
            Err(e) => {
                return Err(e);
            },
        };
        let mut k: usize = 0;
        while k < deps.len()
            invariant
                k <= deps@.len(),
                j0 == old(jobs)@,
                (t as int) < ws.tasks@.len(),
                keys_grow(j0, jobs@),
                keys_grow(j2, jobs@),
                job_keys(j0).no_duplicates() ==> job_keys(jobs@).no_duplicates(),
                project_deps_acyclic(ws),
                has_entry(ws.tasks@, task_name@),
                task_named(ws, task_name@) == ws.tasks@[t as int].1,
                task_named(ws, task_name@).task_type == TaskType::Project,
                forall|x: Seq<char>|
                    #[trigger] names(deps@).contains(x) <==> task_job_dep(ws, &ws.tasks@[t as int].1, x),
            decreases deps@.len() - k,
        {
            proof {
                let rank = clean_rank(ws);
                assert(clean_ranked(ws, rank));
                let x = deps@[k as int]@;
                assert(names(deps@)[k as int] == x);
                assert(names(deps@).contains(x));
                assert(task_job_dep(ws, &task_named(ws, task_name@), x));
                assert(rank(x) < rank(task_name@));
            }
            let ghost before = jobs@;
            let res = add_clean_jobs(deps[k].as_str(), ws, jobs);
            proof {
                lemma_keys_grow_trans(j0, before, jobs@);
                lemma_keys_grow_trans(j2, before, jobs@);
            }
            if let Err(e) = res {
                return Err(e);
            }
            k = k + 1;
        }
    }
    Ok(())
}

/// Every job refers to a task, tool or build environment of the workspace.
pub open spec fn jobs_valid(ws: &Workspace, jobs: Seq<(String, ExecutorJob)>) -> bool {
    forall|i: int|
        0 <= i < jobs.len() ==> match (#[trigger] jobs[i]).1 {
            ExecutorJob::Task { task_name } => has_entry(ws.tasks@, task_name@),
            ExecutorJob::Clean { task_name, .. } => has_entry(ws.tasks@, task_name@),
            ExecutorJob::ToolCheck { tool_name, .. } => has_entry(ws.tools@, tool_name@),
            ExecutorJob::EnvAction { env_name, .. } => has_entry(ws.build_envs@, env_name@),
        }
}

/// `x` is a job that job `i` depends on by its own kind: a task job on the
/// jobs its task depends on and on the jobs it runs after that are in the
/// graph; a clean job on the build environments of its task and on every
/// task job; a tool check job on the check jobs of the tools its check uses;
/// an environment action job on the set-up task of its environment.
pub open spec fn own_edge(ws: &Workspace, jobs: Seq<(String, ExecutorJob)>, i: int, x: Seq<char>) -> bool {
    match jobs[i].1 {
        ExecutorJob::Task { task_name } => task_job_dep(ws, &task_named(ws, task_name@), x) || (names(
            task_named(ws, task_name@).execute_after@,
        ).contains(x) && job_keys(jobs).contains(x)),
        ExecutorJob::Clean { task_name, .. } => clean_job_dep(&task_named(ws, task_name@), x) || exists|j: int|
            0 <= j < jobs.len() && (#[trigger] jobs[j]).1 is Task && jobs[j].0@ == x,
        ExecutorJob::ToolCheck { tool_name, .. } => match tool_named(ws, tool_name@).check_tools {
            Some(c) => exists|y: Seq<char>| #[trigger] names(c@).contains(y) && x == tool_check_job_id(y),
            None => false,
        },
        ExecutorJob::EnvAction { env_name, .. } => env_setup(ws, env_name@, x),
    }
}

/// Job `e` is the clean job of a task that cleans with build environment
/// `d`, and `target` is the clean job of `d`.
pub open spec fn clean_feeds(ws: &Workspace, e: (String, ExecutorJob), target: Seq<char>) -> bool {
    match e.1 {
        ExecutorJob::Clean { task_name, .. } => exists|d: Seq<char>|
            #[trigger] clean_job_dep(&task_named(ws, task_name@), d) && clean_task_name(d) == target,
        _ => false,
    }
}

/// `x` is a clean job, among the first `lim` jobs, that job `m` has to wait
/// for because `m` would clean what `x` still uses.
pub open spec fn incoming_edge(ws: &Workspace, jobs: Seq<(String, ExecutorJob)>, m: int, x: Seq<char>, lim: int) -> bool {
    exists|j: int| 0 <= j < lim && #[trigger] clean_feeds(ws, jobs[j], jobs[m].0@) && x == jobs[j].0@
}

/// The task of a task job has all its build environments in the workspace.
pub open spec fn task_job_ok(ws: &Workspace, e: (String, ExecutorJob)) -> bool {
    match e.1 {
        ExecutorJob::Task { task_name } => envs_found(ws, &task_named(ws, task_name@)),
        _ => true,
    }
}

fn task_index(ws: &Workspace, name: &String) -> (t: usize)
    requires
        has_entry(ws.tasks@, name@),
    ensures
        first_index(ws.tasks@, name@, t as int),
        task_named(ws, name@) == ws.tasks@[t as int].1,
{
    match find_entry(&ws.tasks, name.as_str()) {
        Some(t) => {
            proof {
                lemma_first_index_exact(ws, name@, t as int);
            }
            t
        },
        None => {
            proof {
                assert(false);
            }
            0
        },
    }
}

/// The jobs that job `i` depends on by its own kind.
fn own_job_deps(jobs: &Vec<(String, ExecutorJob)>, i: usize, ws: &Workspace) -> (r: Result<Vec<String>, JobGraphError>)
    requires
        (i as int) < jobs@.len(),
        jobs_valid(ws, jobs@),
    ensures
        match r {
            Ok(v) => task_job_ok(ws, jobs@[i as int]) && forall|x: Seq<char>|
                #[trigger] names(v@).contains(x) <==> own_edge(ws, jobs@, i as int, x),
            Err(e) => !task_job_ok(ws, jobs@[i as int]) && genuine_error(ws, e),
        },
{
    assert(match jobs@[i as int].1 {
        ExecutorJob::Task { task_name } => has_entry(ws.tasks@, task_name@),
        ExecutorJob::Clean { task_name, .. } => has_entry(ws.tasks@, task_name@),
        ExecutorJob::ToolCheck { tool_name, .. } => has_entry(ws.tools@, tool_name@),
        ExecutorJob::EnvAction { env_name, .. } => has_entry(ws.build_envs@, env_name@),
    });
    match &jobs[i].1 {
        ExecutorJob::Task { task_name } => {
            let t = task_index(ws, task_name);
            let mut deps = match get_task_job_dependencies(&ws.tasks[t].1, ws) {
                Ok(d) => d,
                Err(e) => {
                    return Err(e);
                },
            };
            let after = &ws.tasks[t].1.execute_after;
            let ghost d0 = deps@;
            let mut k: usize = 0;
            while k < after.len()
                invariant
                    k <= after@.len(),
                    forall|x: Seq<char>|
                        #[trigger] names(deps@).contains(x) <==> (names(d0).contains(x) || (names(after@.take(k as int)).contains(x)
                            && job_keys(jobs@).contains(x))),
                decreases after@.len() - k,
            {
                let ghost prev = deps@;
                if has_job(jobs, after[k].as_str()) {
                    push_unique(&mut deps, after[k].clone());
                }
                proof {
                    let tk = names(after@.take(k as int + 1));
                    let t0 = names(after@.take(k as int));
                    assert(tk =~= t0.push(after@[k as int]@));
                    assert forall|x: Seq<char>| #[trigger] tk.contains(x) <==> (t0.contains(x) || x == after@[k as int]@) by {
                        if tk.contains(x) {
                            let j = choose|j: int| 0 <= j < tk.len() && tk[j] == x;
                            if j < k {
                                assert(t0[j] == x);
                            }
                        }
                        if t0.contains(x) {
                            let j = choose|j: int| 0 <= j < t0.len() && t0[j] == x;
                            assert(tk[j] == x);
                        }
                        if x == after@[k as int]@ {
                            assert(tk[k as int] == x);
                        }
                    }
                }
                k = k + 1;
            }
            proof {
                assert(after@.take(k as int) =~= after@);
            }
            Ok(deps)
        },
        ExecutorJob::Clean { task_name, .. } => {
            let t = task_index(ws, task_name);
            let mut deps = get_clean_job_task_dependencies(&ws.tasks[t].1);
            let ghost d0 = deps@;
            let mut k: usize = 0;
            while k < jobs.len()
                invariant
                    k <= jobs@.len(),
                    forall|x: Seq<char>|
                        #[trigger] names(deps@).contains(x) <==> (names(d0).contains(x) || exists|j: int|
                            0 <= j < k && (#[trigger] jobs@[j]).1 is Task && jobs@[j].0@ == x),
                decreases jobs@.len() - k,
            {
                if let ExecutorJob::Task { .. } = &jobs[k].1 {
                    push_unique(&mut deps, jobs[k].0.clone());
                }
                proof {
                    assert forall|x: Seq<char>|
                        #[trigger] names(deps@).contains(x) <==> (names(d0).contains(x) || exists|j: int|
                            0 <= j < k + 1 && (#[trigger] jobs@[j]).1 is Task && jobs@[j].0@ == x) by {
                        if exists|j: int| 0 <= j < k + 1 && (#[trigger] jobs@[j]).1 is Task && jobs@[j].0@ == x {
                            let j = choose|j: int| 0 <= j < k + 1 && (#[trigger] jobs@[j]).1 is Task && jobs@[j].0@ == x;
                            if j < k {
                                assert(exists|j2: int| 0 <= j2 < k && (#[trigger] jobs@[j2]).1 is Task && jobs@[j2].0@ == x);
                            }
                        }
                    }
                }
                k = k + 1;
            }
            Ok(deps)
        },
        ExecutorJob::ToolCheck { tool_name, .. } => {
            let t = match find_entry(&ws.tools, tool_name.as_str()) {
                Some(t) => t,
                None => {
                    proof {
                        assert(false);
                    }
                    0
                },
            };
            proof {
                lemma_first_tool(ws, tool_name@, t as int);
            }
            let mut deps: Vec<String> = Vec::new();
            match &ws.tools[t].1.check_tools {
                Some(c) => {
                    let mut k: usize = 0;
                    while k < c.len()
                        invariant
                            k <= c@.len(),
                            forall|x: Seq<char>|
                                #[trigger] names(deps@).contains(x) <==> exists|y: Seq<char>|
                                    #[trigger] names(c@.take(k as int)).contains(y) && x == tool_check_job_id(y),
                        decreases c@.len() - k,
                    {
                        let id = get_tool_check_job_id(c[k].as_str());
                        let ghost idv = id@;
                        let ghost prev = deps@;
                        deps.push(id);
                        proof {
                            let tk = names(c@.take(k as int + 1));
                            let t0 = names(c@.take(k as int));
                            assert(tk =~= t0.push(c@[k as int]@));
                            assert(names(deps@) =~= names(prev).push(idv));
                            assert forall|x: Seq<char>|
                                #[trigger] names(deps@).contains(x) <==> exists|y: Seq<char>|
                                    #[trigger] tk.contains(y) && x == tool_check_job_id(y) by {
                                if names(deps@).contains(x) {
                                    let j = choose|j: int| 0 <= j < names(deps@).len() && names(deps@)[j] == x;
                                    if j < prev.len() {
                                        assert(names(prev)[j] == x);
                                        assert(names(prev).contains(x));
                                        assert(exists|y: Seq<char>| #[trigger] t0.contains(y) && x == tool_check_job_id(y));
                                        let y = choose|y: Seq<char>| #[trigger] t0.contains(y) && x == tool_check_job_id(y);
                                        let jj = choose|jj: int| 0 <= jj < t0.len() && t0[jj] == y;
                                        assert(tk[jj] == t0[jj]);
                                        assert(tk.contains(y));
                                    } else {
                                        assert(tk[k as int] == c@[k as int]@);
                                        assert(x == idv);
                                        assert(idv == tool_check_job_id(c@[k as int]@));
                                        assert(tk.contains(c@[k as int]@));
                                    }
                                }
                                if exists|y: Seq<char>| #[trigger] tk.contains(y) && x == tool_check_job_id(y) {
                                    let y = choose|y: Seq<char>| #[trigger] tk.contains(y) && x == tool_check_job_id(y);
                                    let jj = choose|jj: int| 0 <= jj < tk.len() && tk[jj] == y;
                                    if jj < k {
                                        assert(t0[jj] == y);
                                        assert(t0.contains(y));
                                        assert(names(prev).contains(x));
                                        let j = choose|j: int| 0 <= j < names(prev).len() && names(prev)[j] == x;
                                        assert(names(deps@)[j] == x);
                                    } else {
                                        assert(names(deps@)[prev.len() as int] == x);
                                    }
                                }
                            }
                        }
                        k = k + 1;
                    }
                    proof {
                        assert(c@.take(k as int) =~= c@);
                    }
                },
                None => {},
            }
            Ok(deps)
        },
        ExecutorJob::EnvAction { env_name, .. } => {
            let e = match find_entry(&ws.build_envs, env_name.as_str()) {
                Some(e) => e,
                None => {
                    proof {
                        assert(false);
                    }
                    0
                },
            };
            let mut deps: Vec<String> = Vec::new();
            if let Some(setup) = &ws.build_envs[e].1.setup_task {
                deps.push(setup.clone());
            }
            proof {
                assert forall|x: Seq<char>| #[trigger] names(deps@).contains(x) <==> env_setup(ws, env_name@, x) by {
                    if env_setup(ws, env_name@, x) {
                        let w = choose|w: int|
                            #[trigger] first_index(ws.build_envs@, env_name@, w) && names_job(ws.build_envs@[w].1.setup_task, x);
                        lemma_first_index_unique(ws.build_envs@, env_name@, w, e as int);
                        assert(names(deps@)[0] == x);
                    }
                    if names(deps@).contains(x) {
                        assert(names(deps@)[0] == x);
                        assert(first_index(ws.build_envs@, env_name@, e as int));
                    }
                }
            }
            Ok(deps)
        },
    }
}

fn push_edge(edges: &mut Vec<Vec<String>>, m: usize, x: String)
    requires
        (m as int) < old(edges)@.len(),
    ensures
        final(edges)@.len() == old(edges)@.len(),
        forall|k: int| 0 <= k < final(edges)@.len() && k != m ==> final(edges)@[k] == old(edges)@[k],
        forall|y: Seq<char>|
            #[trigger] names(final(edges)@[m as int]@).contains(y) <==> (names(old(edges)@[m as int]@).contains(y)
                || y == x@),
{
    let ghost xv = x@;
    let mut v: Vec<String> = Vec::new();
    std::mem::swap(&mut v, &mut edges[m]);
    let ghost v0 = v@;
    v.push(x);
    proof {
        assert(names(v@) =~= names(v0).push(xv));
        assert forall|y: Seq<char>| #[trigger] names(v@).contains(y) <==> (names(v0).contains(y) || y == xv) by {
            if names(v@).contains(y) {
                let j = choose|j: int| 0 <= j < names(v@).len() && names(v@)[j] == y;
                if j < v0.len() {
                    assert(names(v0)[j] == y);
                }
            }
            if names(v0).contains(y) {
                let j = choose|j: int| 0 <= j < names(v0).len() && names(v0)[j] == y;
                assert(names(v@)[j] == y);
            }
            if y == xv {
                assert(names(v@)[v0.len() as int] == y);
            }
        }
    }
    std::mem::swap(&mut v, &mut edges[m]);
}

fn job_index(jobs: &Vec<(String, ExecutorJob)>, id: &str) -> (r: Option<usize>)
    ensures
        match r {
            Some(m) => (m as int) < jobs@.len() && jobs@[m as int].0@ == id@,
            None => forall|k: int| 0 <= k < jobs@.len() ==> (#[trigger] jobs@[k]).0@ != id@,
        },
{
    let mut i: usize = 0;
    while i < jobs.len()
        invariant
            i <= jobs@.len(),
            forall|k: int| 0 <= k < i ==> (#[trigger] jobs@[k]).0@ != id@,
        decreases jobs@.len() - i,
    {
        if str_eq(jobs[i].0.as_str(), id) {
            return Some(i);
        }
        i = i + 1;
    }
    None
}

/// The jobs that each job waits for, by job: what it depends on by its own
/// kind, and, for the clean job of a build environment, the clean jobs that
/// still use that environment. A task job whose task runs in a build
/// environment that the workspace does not have is an error.
pub fn compute_dependency_edges(jobs: &Vec<(String, ExecutorJob)>, ws: &Workspace) -> (r: Result<
    Vec<Vec<String>>,
    JobGraphError,
>)
    requires
        job_keys(jobs@).no_duplicates(),
        jobs_valid(ws, jobs@),
    ensures
        match r {
            Ok(edges) => {
                &&& forall|i: int| 0 <= i < jobs@.len() ==> task_job_ok(ws, #[trigger] jobs@[i])
                &&& edges@.len() == jobs@.len()
                &&& forall|m: int, x: Seq<char>|
                    0 <= m < jobs@.len() ==> (#[trigger] names(edges@[m]@).contains(x) <==> (own_edge(
                        ws,
                        jobs@,
                        m,
                        x,
                    ) || incoming_edge(ws, jobs@, m, x, jobs@.len() as int)))
            },
            Err(e) => (exists|i: int| 0 <= i < jobs@.len() && !task_job_ok(ws, #[trigger] jobs@[i])) && genuine_error(
                ws,
                e,
            ),
        },
{
    let n = jobs.len();
    let mut edges: Vec<Vec<String>> = Vec::new();
    let mut i: usize = 0;
    while i < n
        invariant
            n == jobs@.len(),
            i <= n,
            jobs_valid(ws, jobs@),
            edges@.len() == i,
            forall|m: int| 0 <= m < i ==> task_job_ok(ws, #[trigger] jobs@[m]),
            forall|m: int, x: Seq<char>|
                0 <= m < i ==> (#[trigger] names(edges@[m]@).contains(x) <==> own_edge(ws, jobs@, m, x)),
        decreases n - i,
    {
        match own_job_deps(jobs, i, ws) {
            Ok(v) => {
                edges.push(v);
            },
            Err(e) => {
                return Err(e);
            },
        }
        i = i + 1;
    }
    proof {
        assert forall|m: int, x: Seq<char>|
            0 <= m < n implies (#[trigger] names(edges@[m]@).contains(x) <==> (own_edge(ws, jobs@, m, x)
                || incoming_edge(ws, jobs@, m, x, 0))) by {}
    }
    let mut i: usize = 0;
    while i < n
        invariant
            n == jobs@.len(),
            i <= n,
            jobs_valid(ws, jobs@),
            job_keys(jobs@).no_duplicates(),
            edges@.len() == n,
            forall|m: int, x: Seq<char>|
                0 <= m < n ==> (#[trigger] names(edges@[m]@).contains(x) <==> (own_edge(ws, jobs@, m, x)
                    || incoming_edge(ws, jobs@, m, x, i as int))),
        decreases n - i,
    {
        let ghost e0 = edges@;
        let ghost idi = jobs@[i as int].0@;
        if let ExecutorJob::Clean { task_name, .. } = &jobs[i].1 {
            assert(has_entry(ws.tasks@, task_name@)) by {
                assert(match jobs@[i as int].1 {
                    ExecutorJob::Clean { task_name, .. } => has_entry(ws.tasks@, task_name@),
                    _ => true,
                });
            }
            let t = task_index(ws, task_name);
            let cdeps = get_clean_job_task_dependencies(&ws.tasks[t].1);
            let mut k: usize = 0;
            while k < cdeps.len()
                invariant
                    n == jobs@.len(),
                    (i as int) < n,
                    edges@.len() == n,
                    e0.len() == n,
                    k <= cdeps@.len(),
                    idi == jobs@[i as int].0@,
                    job_keys(jobs@).no_duplicates(),
                    forall|m: int, x: Seq<char>|
                        0 <= m < n ==> (#[trigger] names(edges@[m]@).contains(x) <==> (names(e0[m]@).contains(x)
                            || (x == idi && exists|kk: int|
                            0 <= kk < k && jobs@[m].0@ == clean_task_name(#[trigger] names(cdeps@)[kk])))),
                decreases cdeps@.len() - k,
            {
                let cid = get_clean_task_name(cdeps[k].as_str());
                let ghost before = edges@;
                match job_index(jobs, cid.as_str()) {
                    Some(m) => {
                        let item = jobs[i].0.clone();
                        assert(item@ == idi);
                        push_edge(&mut edges, m, item);
                        proof {
                            assert forall|mm: int, x: Seq<char>|
                                0 <= mm < n implies (#[trigger] names(edges@[mm]@).contains(x) <==> (names(e0[mm]@).contains(x)
                                    || (x == idi && exists|kk: int|
                                    0 <= kk < k + 1 && jobs@[mm].0@ == clean_task_name(#[trigger] names(cdeps@)[kk])))) by {
                                assert(names(cdeps@)[k as int] == cdeps@[k as int]@);
                                if mm != m {
                                    assert(edges@[mm] == before[mm]);
                                    if jobs@[mm].0@ == clean_task_name(names(cdeps@)[k as int]) {
                                        assert(job_keys(jobs@)[mm] == job_keys(jobs@)[m as int]);
                                    }
                                    if exists|kk: int|
                                        0 <= kk < k + 1 && jobs@[mm].0@ == clean_task_name(#[trigger] names(cdeps@)[kk]) {
                                        let kk = choose|kk: int|
                                            0 <= kk < k + 1 && jobs@[mm].0@ == clean_task_name(#[trigger] names(cdeps@)[kk]);
                                        if kk == k {
                                            assert(job_keys(jobs@)[mm] == job_keys(jobs@)[m as int]);
                                        }
                                    }
                                } else {
                                    if exists|kk: int|
                                        0 <= kk < k + 1 && jobs@[mm].0@ == clean_task_name(#[trigger] names(cdeps@)[kk]) {
                                        let kk = choose|kk: int|
                                            0 <= kk < k + 1 && jobs@[mm].0@ == clean_task_name(#[trigger] names(cdeps@)[kk]);
                                        if kk < k {
                                            assert(exists|k2: int|
                                                0 <= k2 < k && jobs@[mm].0@ == clean_task_name(#[trigger] names(cdeps@)[k2]));
                                        }
                                    }
                                }
                            }
                        }
                    },
                    None => {
                        proof {
                            assert forall|mm: int, x: Seq<char>|
                                0 <= mm < n implies (#[trigger] names(edges@[mm]@).contains(x) <==> (names(e0[mm]@).contains(x)
                                    || (x == idi && exists|kk: int|
                                    0 <= kk < k + 1 && jobs@[mm].0@ == clean_task_name(#[trigger] names(cdeps@)[kk])))) by {
                                assert(names(cdeps@)[k as int] == cdeps@[k as int]@);
                                if exists|kk: int|
                                    0 <= kk < k + 1 && jobs@[mm].0@ == clean_task_name(#[trigger] names(cdeps@)[kk]) {
                                    let kk = choose|kk: int|
                                        0 <= kk < k + 1 && jobs@[mm].0@ == clean_task_name(#[trigger] names(cdeps@)[kk]);
                                    if kk == k {
                                        assert(jobs@[mm].0@ != cid@);
                                    } else {
                                        assert(exists|k2: int|
                                            0 <= k2 < k && jobs@[mm].0@ == clean_task_name(#[trigger] names(cdeps@)[k2]));
                                    }
                                }
                            }
                        }
                    },
                }
                k = k + 1;
            }
            proof {
                assert forall|m: int, x: Seq<char>|
                    0 <= m < n implies (#[trigger] names(edges@[m]@).contains(x) <==> (own_edge(ws, jobs@, m, x)
                        || incoming_edge(ws, jobs@, m, x, i as int + 1))) by {
                    let target = jobs@[m].0@;
                    let task = task_named(ws, task_name@);
                    assert((exists|kk: int| 0 <= kk < k && target == clean_task_name(#[trigger] names(cdeps@)[kk]))
                        <==> clean_feeds(ws, jobs@[i as int], target)) by {
                        if exists|kk: int| 0 <= kk < k && target == clean_task_name(#[trigger] names(cdeps@)[kk]) {
                            let kk = choose|kk: int| 0 <= kk < k && target == clean_task_name(#[trigger] names(cdeps@)[kk]);
                            assert(names(cdeps@).contains(names(cdeps@)[kk]));
                            assert(clean_job_dep(&task, names(cdeps@)[kk]));
                        }
                        if clean_feeds(ws, jobs@[i as int], target) {
                            let d = choose|d: Seq<char>| #[trigger] clean_job_dep(&task, d) && clean_task_name(d) == target;
                            assert(names(cdeps@).contains(d));
                            let kk = choose|kk: int| 0 <= kk < names(cdeps@).len() && names(cdeps@)[kk] == d;
                            assert(target == clean_task_name(names(cdeps@)[kk]));
                        }
                    }
                    if incoming_edge(ws, jobs@, m, x, i as int + 1) {
                        let j = choose|j: int| 0 <= j < i + 1 && #[trigger] clean_feeds(ws, jobs@[j], jobs@[m].0@) && x == jobs@[j].0@;
                        if j < i {
                            assert(incoming_edge(ws, jobs@, m, x, i as int));
                        }
                    }
                    if incoming_edge(ws, jobs@, m, x, i as int) {
                        let j = choose|j: int| 0 <= j < i && #[trigger] clean_feeds(ws, jobs@[j], jobs@[m].0@) && x == jobs@[j].0@;
                        assert(0 <= j < i + 1);
                    }
                    if x == idi && clean_feeds(ws, jobs@[i as int], target) {
                        assert(incoming_edge(ws, jobs@, m, x, i as int + 1));
                    }
                }
            }
        } else {
            proof {
                assert forall|m: int, x: Seq<char>|
                    0 <= m < n implies (#[trigger] names(edges@[m]@).contains(x) <==> (own_edge(ws, jobs@, m, x)
                        || incoming_edge(ws, jobs@, m, x, i as int + 1))) by {
                    assert(!clean_feeds(ws, jobs@[i as int], jobs@[m].0@));
                    if incoming_edge(ws, jobs@, m, x, i as int + 1) {
                        let j = choose|j: int| 0 <= j < i + 1 && #[trigger] clean_feeds(ws, jobs@[j], jobs@[m].0@) && x == jobs@[j].0@;
                        assert(incoming_edge(ws, jobs@, m, x, i as int));
                    }
                    if incoming_edge(ws, jobs@, m, x, i as int) {
                        let j = choose|j: int| 0 <= j < i && #[trigger] clean_feeds(ws, jobs@[j], jobs@[m].0@) && x == jobs@[j].0@;
                        assert(0 <= j < i + 1);
                    }
                }
            }
        }
        i = i + 1;
    }
    Ok(edges)
}

/// The index of the job with id `x`, or the number of jobs when there is
/// none.
pub open spec fn job_position(keys: Seq<Seq<char>>, x: Seq<char>) -> int {
    if keys.contains(x) {
        choose|i: int| 0 <= i < keys.len() && keys[i] == x
    } else {
        keys.len() as int
    }
}

/// The dependency lists with each job id replaced by the index of its job;
/// an id that is no job's becomes the number of jobs, an index past the
/// last job.
pub fn job_index_graph(jobs: &Vec<(String, ExecutorJob)>, edges: &Vec<Vec<String>>) -> (g: Vec<Vec<usize>>)
    requires
        job_keys(jobs@).no_duplicates(),
    ensures
        g@.len() == edges@.len(),
        forall|m: int|
            0 <= m < edges@.len() ==> (#[trigger] g@[m])@.len() == edges@[m]@.len() && forall|k: int|
                0 <= k < edges@[m]@.len() ==> g@[m]@[k] as int == job_position(job_keys(jobs@), edges@[m]@[k]@),
{
    let n = jobs.len();
    let ghost keys = job_keys(jobs@);
    let mut g: Vec<Vec<usize>> = Vec::new();
    let mut m: usize = 0;
    while m < edges.len()
        invariant
            m <= edges@.len(),
            n == jobs@.len(),
            keys == job_keys(jobs@),
            keys.no_duplicates(),
            g@.len() == m,
            forall|mm: int|
                0 <= mm < m ==> (#[trigger] g@[mm])@.len() == edges@[mm]@.len() && forall|k: int|
                    0 <= k < edges@[mm]@.len() ==> g@[mm]@[k] as int == job_position(keys, edges@[mm]@[k]@),
        decreases edges@.len() - m,
    {
        let mut row: Vec<usize> = Vec::new();
        let mut k: usize = 0;
        while k < edges[m].len()
            invariant
                k <= edges@[m as int]@.len(),
                (m as int) < edges@.len(),
                n == jobs@.len(),
                keys == job_keys(jobs@),
                keys.no_duplicates(),
                row@.len() == k,
                forall|kk: int| 0 <= kk < k ==> row@[kk] as int == job_position(keys, edges@[m as int]@[kk]@),
            decreases edges@[m as int]@.len() - k,
        {
            let x = &edges[m][k];
            let pos = match job_index(jobs, x.as_str()) {
                Some(p) => {
                    proof {
                        assert(keys[p as int] == x@);
                        assert(keys.contains(x@));
                        let c = choose|i: int| 0 <= i < keys.len() && keys[i] == x@;
                        if c != p as int {
                            assert(keys[c] != keys[p as int]);
                        }
                    }
                    p
                },
                None => {
                    proof {
                        if keys.contains(x@) {
                            let c = choose|i: int| 0 <= i < keys.len() && keys[i] == x@;
                            assert(jobs@[c].0@ == x@);
                        }
                    }
                    n
                },
            };
            row.push(pos);
            k = k + 1;
        }
        g.push(row);
        m = m + 1;
    }
    g
}

/// The first dependency of job `j` that is no job's id.
pub fn missing_dependency_name(jobs: &Vec<(String, ExecutorJob)>, edges: &Vec<Vec<String>>, j: usize) -> (r: Option<
    String,
>)
    requires
        (j as int) < edges@.len(),
    ensures
        match r {
            Some(x) => names(edges@[j as int]@).contains(x@) && !job_keys(jobs@).contains(x@),
            None => forall|x: Seq<char>| names(edges@[j as int]@).contains(x) ==> job_keys(jobs@).contains(x),
        },
{
    let mut k: usize = 0;
    while k < edges[j].len()
        invariant
            k <= edges@[j as int]@.len(),
            (j as int) < edges@.len(),
            forall|kk: int| 0 <= kk < k ==> job_keys(jobs@).contains(#[trigger] edges@[j as int]@[kk]@),
        decreases edges@[j as int]@.len() - k,
    {
        if !has_job(jobs, edges[j][k].as_str()) {
            proof {
                assert(names(edges@[j as int]@)[k as int] == edges@[j as int]@[k as int]@);
            }
            return Some(edges[j][k].clone());
        }
        k = k + 1;
    }
    proof {
        assert forall|x: Seq<char>| names(edges@[j as int]@).contains(x) implies job_keys(jobs@).contains(x) by {
            let kk = choose|kk: int| 0 <= kk < names(edges@[j as int]@).len() && names(edges@[j as int]@)[kk] == x;
            assert(job_keys(jobs@).contains(edges@[j as int]@[kk]@));
        }
    }
    None
}

/// The message that describes why the jobs could not be put together.
pub open spec fn job_graph_message(e: JobGraphError) -> Seq<char> {
    match e {
        JobGraphError::TaskLookupError(n) => "Task not found while creating jobs: "@ + n@,
        JobGraphError::ToolLookupError(n) => "Tool not found while creating jobs: "@ + n@,
        JobGraphError::EnvLookupError(n) => "Build env not found while creating jbos: "@ + n@,
        JobGraphError::UnresolvedCalcDependencyError(n) => "Encountered a task with unresolved calc dependencies: "@
            + n@,
    }
}

impl JobGraphError {
    /// The message that describes the error.
    pub fn message(&self) -> (r: String)
        ensures
            r@ == job_graph_message(*self),
    {
        let (prefix, name) = match self {
            JobGraphError::TaskLookupError(n) => ("Task not found while creating jobs: ", n),
            JobGraphError::ToolLookupError(n) => ("Tool not found while creating jobs: ", n),
            JobGraphError::EnvLookupError(n) => ("Build env not found while creating jbos: ", n),
            JobGraphError::UnresolvedCalcDependencyError(n) => (
                "Encountered a task with unresolved calc dependencies: ",
                n,
            ),
        };
        let mut r = String::from_str(prefix);
        r.append(name.as_str());
        r
    }
}

/// Job `m` waits for the job with id `x`: by its own kind, or because `x`
/// is a clean job that would clean what `m` still uses.
pub open spec fn job_waits_for(ws: &Workspace, jobs: Seq<(String, ExecutorJob)>, m: int, x: Seq<char>) -> bool {
    own_edge(ws, jobs, m, x) || incoming_edge(ws, jobs, m, x, jobs.len() as int)
}

/// Every task job's task has all its build environments.
pub open spec fn all_jobs_ok(ws: &Workspace, jobs: Seq<(String, ExecutorJob)>) -> bool {
    forall|i: int| 0 <= i < jobs.len() ==> task_job_ok(ws, #[trigger] jobs[i])
}

/// `p` is a walk through jobs, each waiting for the next, with at least one
/// step.
pub open spec fn job_walk(ws: &Workspace, jobs: Seq<(String, ExecutorJob)>, p: Seq<usize>) -> bool {
    &&& p.len() >= 2
    &&& forall|k: int| 0 <= k < p.len() ==> (#[trigger] p[k] as int) < jobs.len()
    &&& forall|k: int|
        0 <= k < p.len() - 1 ==> #[trigger] job_waits_for(ws, jobs, p[k] as int, job_keys(jobs)[p[k + 1] as int])
}

/// Job `i` waits for itself, directly or through other jobs.
pub open spec fn job_on_cycle(ws: &Workspace, jobs: Seq<(String, ExecutorJob)>, i: usize) -> bool {
    exists|p: Seq<usize>| #[trigger] job_walk(ws, jobs, p) && p[0] == i && p.last() == i
}

/// Some job waits for itself.
pub open spec fn job_graph_has_cycle(ws: &Workspace, jobs: Seq<(String, ExecutorJob)>) -> bool {
    exists|i: usize| #[trigger] job_on_cycle(ws, jobs, i)
}

/// Some job waits for an id that is no job's.
pub open spec fn job_dependency_missing(ws: &Workspace, jobs: Seq<(String, ExecutorJob)>) -> bool {
    exists|i: int, x: Seq<char>|
        0 <= i < jobs.len() && #[trigger] job_waits_for(ws, jobs, i, x) && !job_keys(jobs).contains(x)
}

/// The graph of job indices stands for the jobs' waits: an edge between two
/// jobs is a wait, a cycle of indices is a cycle of jobs, and an index past
/// the last job is a wait for an id that is no job's.
proof fn lemma_index_graph(
    ws: &Workspace,
    jobs: Seq<(String, ExecutorJob)>,
    edges: Seq<Vec<String>>,
    gv: Seq<Seq<usize>>,
)
    requires
        job_keys(jobs).no_duplicates(),
        edges.len() == jobs.len(),
        gv.len() == jobs.len(),
        forall|m: int, x: Seq<char>|
            0 <= m < jobs.len() ==> (#[trigger] names(edges[m]@).contains(x) <==> job_waits_for(ws, jobs, m, x)),
        forall|m: int| 0 <= m < gv.len() ==> (#[trigger] gv[m]).len() == edges[m]@.len(),
        forall|m: int, k: int|
            0 <= m < gv.len() && 0 <= k < gv[m].len() ==> #[trigger] gv[m][k] as int == job_position(
                job_keys(jobs),
                edges[m]@[k]@,
            ),
    ensures
        forall|a: usize, b: usize|
            (a as int) < jobs.len() && (b as int) < jobs.len() ==> (#[trigger] has_edge(gv, a, b) <==> job_waits_for(
                ws,
                jobs,
                a as int,
                job_keys(jobs)[b as int],
            )),
        forall|x: usize| #[trigger] on_cycle(gv, x) <==> job_on_cycle(ws, jobs, x),
        acyclic(gv) <==> !job_graph_has_cycle(ws, jobs),
        deps_below(gv, jobs.len()) <==> !job_dependency_missing(ws, jobs),
{
    let keys = job_keys(jobs);
    let n = jobs.len() as int;
    assert forall|a: usize, b: usize| (a as int) < n && (b as int) < n implies (#[trigger] has_edge(gv, a, b)
        <==> job_waits_for(ws, jobs, a as int, keys[b as int])) by {
        if has_edge(gv, a, b) {
            let k = choose|k: int| 0 <= k < gv[a as int].len() && gv[a as int][k] == b;
            let y = edges[a as int]@[k]@;
            assert(gv[a as int][k] as int == job_position(keys, y));
            if keys.contains(y) {
                let c = choose|i: int| 0 <= i < keys.len() && keys[i] == y;
                assert(c == b as int);
            }
            assert(names(edges[a as int]@)[k] == y);
            assert(names(edges[a as int]@).contains(y));
        }
        if job_waits_for(ws, jobs, a as int, keys[b as int]) {
            let x = keys[b as int];
            assert(names(edges[a as int]@).contains(x));
            let k = choose|k: int| 0 <= k < names(edges[a as int]@).len() && names(edges[a as int]@)[k] == x;
            assert(edges[a as int]@[k]@ == x);
            assert(keys.contains(x));
            let c = choose|i: int| 0 <= i < keys.len() && keys[i] == x;
            if c != b as int {
                assert(keys[c] != keys[b as int]);
            }
            assert(gv[a as int][k] as int == job_position(keys, x));
            assert(gv[a as int][k] == b);
        }
    }
    assert forall|x: usize| #[trigger] on_cycle(gv, x) <==> job_on_cycle(ws, jobs, x) by {
        if on_cycle(gv, x) {
            let p = choose|p: Seq<usize>| #[trigger] is_walk(gv, p) && p[0] == x && p.last() == x;
            assert forall|k: int| 0 <= k < p.len() implies (#[trigger] p[k] as int) < n by {
                if k < p.len() - 1 {
                    assert(has_edge(gv, p[k], p[k + 1]));
                } else {
                    let z = 0int;
                    assert(has_edge(gv, p[z], p[z + 1]));
                }
            }
            assert forall|k: int| 0 <= k < p.len() - 1 implies #[trigger] job_waits_for(
                ws,
                jobs,
                p[k] as int,
                keys[p[k + 1] as int],
            ) by {
                assert(has_edge(gv, p[k], p[k + 1]));
                assert((p[k] as int) < n);
                assert((p[k + 1] as int) < n);
            }
            assert(job_walk(ws, jobs, p));
        }
        if job_on_cycle(ws, jobs, x) {
            let p = choose|p: Seq<usize>| #[trigger] job_walk(ws, jobs, p) && p[0] == x && p.last() == x;
            assert forall|k: int| 0 <= k < p.len() - 1 implies #[trigger] has_edge(gv, p[k], p[k + 1]) by {
                assert((p[k] as int) < n);
                assert((p[k + 1] as int) < n);
                assert(job_waits_for(ws, jobs, p[k] as int, keys[p[k + 1] as int]));
            }
            assert(is_walk(gv, p));
        }
    }
    if !acyclic(gv) {
        let x = choose|x: usize| #[trigger] on_cycle(gv, x);
        assert(on_cycle(gv, x));
        assert(job_on_cycle(ws, jobs, x));
    }
    if job_graph_has_cycle(ws, jobs) {
        let x = choose|x: usize| #[trigger] job_on_cycle(ws, jobs, x);
        assert(on_cycle(gv, x));
    }
    if !deps_below(gv, jobs.len()) {
        let (a, k) = choose|a: int, k: int| 0 <= a < gv.len() && 0 <= k < gv[a].len() && !((#[trigger] gv[a][k] as int) < n);
        let y = edges[a]@[k]@;
        assert(gv[a][k] as int == job_position(keys, y));
        if keys.contains(y) {
            let c = choose|i: int| 0 <= i < keys.len() && keys[i] == y;
        }
        assert(names(edges[a]@)[k] == y);
        assert(names(edges[a]@).contains(y));
        assert(job_waits_for(ws, jobs, a, y));
    }
    if job_dependency_missing(ws, jobs) {
        let (i, x) = choose|i: int, x: Seq<char>|
            0 <= i < jobs.len() && #[trigger] job_waits_for(ws, jobs, i, x) && !job_keys(jobs).contains(x);
        assert(names(edges[i]@).contains(x));
        let k = choose|k: int| 0 <= k < names(edges[i]@).len() && names(edges[i]@)[k] == x;
        assert(edges[i]@[k]@ == x);
        assert(gv[i][k] as int == job_position(keys, x));
        assert(!((gv[i][k] as int) < n));
    }
}

/// Puts the jobs together to be run: works out what each waits for, refuses
/// a graph in which a task job's task lacks a build environment, then one
/// with a cycle (naming a job on it), then one with a dependency that is no
/// job (naming the job and the dependency), and otherwise gives the
/// scheduler with the jobs that can start at once.
pub fn start_job_graph(jobs: &Vec<(String, ExecutorJob)>, ws: &Workspace) -> (r: Result<
    (JobScheduler, Vec<usize>),
    String,
>)
    requires
        job_keys(jobs@).no_duplicates(),
        jobs_valid(ws, jobs@),
    ensures
        r is Ok <==> all_jobs_ok(ws, jobs@) && !job_graph_has_cycle(ws, jobs@) && !job_dependency_missing(
            ws,
            jobs@,
        ),
        r matches Ok((s, _)) ==> s.wf() && s.num_jobs() == jobs@.len(),
        r matches Ok((s, _)) ==> acyclic(s.graph()) && deps_below(s.graph(), jobs@.len()),
        r matches Ok((s, _)) ==> forall|m: int, x: Seq<char>|
            0 <= m < jobs@.len() ==> ((exists|k: int|
                0 <= k < s.graph()[m].len() && #[trigger] job_keys(jobs@)[s.graph()[m][k] as int] == x)
                <==> job_waits_for(ws, jobs@, m, x)),
        r matches Ok((s, first)) ==> forall|j: usize|
            (j as int) < s.num_jobs() ==> (#[trigger] first@.contains(j) <==> s.graph()[j as int].len() == 0),
        r matches Err(m) ==> if !all_jobs_ok(ws, jobs@) {
            exists|e: JobGraphError| #[trigger] genuine_error(ws, e) && m@ == job_graph_message(e)
        } else if job_graph_has_cycle(ws, jobs@) {
            exists|i: usize|
                #[trigger] job_on_cycle(ws, jobs@, i) && m@ == "Encountered cycle in dependency graph at "@
                    + job_keys(jobs@)[i as int]
        } else {
            exists|i: int, x: Seq<char>|
                0 <= i < jobs@.len() && #[trigger] job_waits_for(ws, jobs@, i, x) && !job_keys(jobs@).contains(x)
                    && m@ == job_keys(jobs@)[i] + " dependency "@ + x + " was not found"@
        },
{
    let edges = match compute_dependency_edges(jobs, ws) {
        Err(e) => {
            let m = e.message();
            proof {
                assert(genuine_error(ws, e) && m@ == job_graph_message(e));
            }
            return Err(m);
        },
        Ok(edges) => edges,
    };
    let ghost keys = job_keys(jobs@);
    let g = job_index_graph(jobs, &edges);
    let ghost gv = graph_view(&g);
    proof {
        assert forall|m: int| 0 <= m < gv.len() implies (#[trigger] gv[m]).len() == edges@[m]@.len() by {
            assert(gv[m] == g@[m]@);
        }
        assert forall|m: int, k: int| 0 <= m < gv.len() && 0 <= k < gv[m].len() implies #[trigger] gv[m][k] as int
            == job_position(keys, edges@[m]@[k]@) by {
            assert(gv[m] == g@[m]@);
        }
        lemma_index_graph(ws, jobs@, edges@, gv);
        assert forall|m: int, k: int| 0 <= m < gv.len() && 0 <= k < gv[m].len() implies #[trigger] gv[m][k] as int
            <= keys.len() by {
            let x = edges@[m]@[k]@;
            if keys.contains(x) {
                let c = choose|i: int| 0 <= i < keys.len() && keys[i] == x;
            }
        }
    }
    match JobScheduler::new(g) {
        Ok((s, first)) => {
            proof {
                assert forall|m: int, x: Seq<char>| 0 <= m < jobs@.len() implies ((exists|k: int|
                    0 <= k < s.graph()[m].len() && #[trigger] job_keys(jobs@)[s.graph()[m][k] as int] == x)
                    <==> (own_edge(ws, jobs@, m, x) || incoming_edge(ws, jobs@, m, x, jobs@.len() as int))) by {
                    assert(s.graph()[m] == gv[m]);
                    if exists|k: int| 0 <= k < s.graph()[m].len() && #[trigger] job_keys(jobs@)[s.graph()[m][k] as int]
                        == x {
                        let k = choose|k: int|
                            0 <= k < s.graph()[m].len() && #[trigger] job_keys(jobs@)[s.graph()[m][k] as int] == x;
                        let y = edges@[m]@[k]@;
                        assert(gv[m][k] as int == job_position(keys, y));
                        assert(deps_below(s.graph(), jobs@.len()));
                        assert((gv[m][k] as int) < keys.len());
                        if keys.contains(y) {
                            let c = choose|i: int| 0 <= i < keys.len() && keys[i] == y;
                            assert(keys[c] == y);
                        }
                        assert(names(edges@[m]@)[k] == y);
                        assert(names(edges@[m]@).contains(x));
                    }
                    if own_edge(ws, jobs@, m, x) || incoming_edge(ws, jobs@, m, x, jobs@.len() as int) {
                        assert(names(edges@[m]@).contains(x));
                        let k = choose|k: int| 0 <= k < names(edges@[m]@).len() && names(edges@[m]@)[k] == x;
                        assert(edges@[m]@[k]@ == x);
                        assert(gv[m][k] as int == job_position(keys, x));
                        assert(deps_below(s.graph(), jobs@.len()));
                        if keys.contains(x) {
                            let c = choose|i: int| 0 <= i < keys.len() && keys[i] == x;
                            assert(keys[c] == x);
                        } else {
                            assert(gv[m][k] as int == keys.len());
                        }
                        assert(job_keys(jobs@)[s.graph()[m][k] as int] == x);
                    }
                }
            }
            Ok((s, first))
        },
        Err(GraphError::Cycle(x)) => {
            proof {
                let p = choose|p: Seq<usize>| #[trigger] crate::execute::execute::is_walk(gv, p) && p[0] == x
                    && p.last() == x;
                assert(on_cycle(gv, x));
                assert(crate::execute::execute::is_walk(gv, p));
                let k = 0int;
                assert(has_edge(gv, p[k], p[k + 1]));
                assert(keys[x as int] == jobs@[x as int].0@);
                assert(job_on_cycle(ws, jobs@, x));
                assert(job_graph_has_cycle(ws, jobs@));
            }
            let mut m = String::from_str("Encountered cycle in dependency graph at ");
            m.append(jobs[x].0.as_str());
            Err(m)
        },
        Err(GraphError::MissingDependency(j, d)) => {
            proof {
                assert(has_edge(gv, j, d));
            }
            let missing = missing_dependency_name(jobs, &edges, j);
            proof {
                if missing is None {
                    let k = choose|k: int| 0 <= k < gv[j as int].len() && gv[j as int][k] == d;
                    let y = edges@[j as int]@[k]@;
                    assert(names(edges@[j as int]@)[k] == y);
                    assert(names(edges@[j as int]@).contains(y));
                    assert(keys.contains(y));
                    let c = choose|i: int| 0 <= i < keys.len() && keys[i] == y;
                    assert(gv[j as int][k] as int == job_position(keys, y));
                }
            }
            let name = missing.unwrap();
            let mut m = jobs[j].0.clone();
            m.append(" dependency ");
            m.append(name.as_str());
            m.append(" was not found");
            proof {
                assert(names(edges@[j as int]@).contains(name@));
                assert(keys[j as int] == jobs@[j as int].0@);
                assert(job_waits_for(ws, jobs@, j as int, name@));
                assert(!job_graph_has_cycle(ws, jobs@));
            }
            Err(m)
        },
    }
}

} // verus!
