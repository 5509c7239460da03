//! The task executor of the `cobl` front end: which tasks become jobs, and
//! which jobs can start as others complete.
use vstd::prelude::*;
use crate::execute::jobs::{
    absent_count, find_entry, first_index, genuine_error, has_entry, lemma_absent_mono, lemma_absent_strict,
    lemma_first_index_exact, names, names_job, task_named, task_names, JobGraphError, Task, Workspace,
};
use crate::text::str_eq;

verus! {

/// The tasks that provide the files, in order, leaving out files that no
/// task provides.
pub open spec fn providers(fd: Seq<Option<String>>) -> Seq<Seq<char>>
    decreases fd.len(),
{
    if fd.len() == 0 {
        seq![]
    } else {
        providers(fd.drop_last()) + match fd.last() {
            Some(p) => seq![p@],
            None => seq![],
        }
    }
}

/// The jobs that the job of a task waits for: the tasks it depends on, then
/// the providers of the files it depends on.
pub open spec fn job_deps(task: &Task) -> Seq<Seq<char>> {
    names(task.task_deps@) + providers(task.file_deps@)
}

proof fn lemma_providers_contains(fd: Seq<Option<String>>, x: Seq<char>)
    ensures
        providers(fd).contains(x) <==> exists|i: int| 0 <= i < fd.len() && names_job(#[trigger] fd[i], x),
    decreases fd.len(),
{
    if fd.len() > 0 {
        let d = fd.drop_last();
        lemma_providers_contains(d, x);
        let tail: Seq<Seq<char>> = match fd.last() {
            Some(p) => seq![p@],
            None => seq![],
        };
        if providers(fd).contains(x) {
            let k = choose|k: int| 0 <= k < providers(fd).len() && providers(fd)[k] == x;
            if k < providers(d).len() {
                assert(providers(d)[k] == x);
                let i = choose|i: int| 0 <= i < d.len() && names_job(#[trigger] d[i], x);
                assert(fd[i] == d[i]);
            } else {
                assert(tail[k - providers(d).len()] == x);
                assert(names_job(fd[fd.len() - 1], x));
            }
        }
        if exists|i: int| 0 <= i < fd.len() && names_job(#[trigger] fd[i], x) {
            let i = choose|i: int| 0 <= i < fd.len() && names_job(#[trigger] fd[i], x);
            if i < fd.len() - 1 {
                assert(d[i] == fd[i]);
                let k = choose|k: int| 0 <= k < providers(d).len() && providers(d)[k] == x;
                assert(providers(fd)[k] == x);
            } else {
                assert(providers(fd)[providers(d).len() as int] == x);
            }
        }
    }
}

/// The jobs that the job of a task waits for: the tasks it depends on, then
/// the providers of the files it depends on.
pub fn get_task_job_dependencies(task: &Task) -> (r: Vec<String>)
    ensures
        names(r@) == job_deps(task),
{
    let mut r: Vec<String> = Vec::new();
    let mut i: usize = 0;
    while i < task.task_deps.len()
        invariant
            i <= task.task_deps@.len(),
            names(r@) == names(task.task_deps@).take(i as int),
        decreases task.task_deps@.len() - i,
    {
        let ghost prev = r@;
        r.push(task.task_deps[i].clone());
        proof {
            assert(names(r@) =~= names(prev).push(task.task_deps@[i as int]@));
            assert(names(task.task_deps@).take(i + 1) =~= names(task.task_deps@).take(i as int).push(
                task.task_deps@[i as int]@,
            ));
        }
        i = i + 1;
    }
    proof {
        assert(names(task.task_deps@).take(i as int) =~= names(task.task_deps@));
    }
    let mut j: usize = 0;
    while j < task.file_deps.len()
        invariant
            j <= task.file_deps@.len(),
            names(r@) == names(task.task_deps@) + providers(task.file_deps@.take(j as int)),
        decreases task.file_deps@.len() - j,
    {
        proof {
            assert(task.file_deps@.take(j + 1).drop_last() =~= task.file_deps@.take(j as int));
            assert(task.file_deps@.take(j + 1).last() == task.file_deps@[j as int]);
        }
        match &task.file_deps[j] {
            Some(p) => {
                let ghost prev = r@;
                r.push(p.clone());
                proof {
                    assert(names(r@) =~= names(prev).push(p@));
                    assert(names(task.task_deps@) + providers(task.file_deps@.take(j + 1)) =~= names(
                        task.task_deps@,
                    ) + providers(task.file_deps@.take(j as int)) + seq![p@]);
                }
            },
            None => {
                proof {
                    assert(providers(task.file_deps@.take(j + 1)) =~= providers(task.file_deps@.take(j as int))
                        + Seq::<Seq<char>>::empty());
                }
            },
        }
        j = j + 1;
    }
    proof {
        assert(task.file_deps@.take(j as int) =~= task.file_deps@);
    }
    r
}

/// Every task of the workspace that the given jobs name has no unresolved
/// calculated dependencies, and the jobs from `from` on have every job they
/// wait for.
pub open spec fn jobs_closed(ws: &Workspace, jobs: Seq<Seq<char>>, from: int) -> bool {
    forall|i: int, x: Seq<char>|
        from <= i < jobs.len() && #[trigger] job_deps(&task_named(ws, jobs[i])).contains(x) ==> jobs.contains(x)
}

/// Job `x` names a task of the workspace that has no unresolved calculated
/// dependencies.
pub open spec fn runnable_task(ws: &Workspace, x: Seq<char>) -> bool {
    has_entry(ws.tasks@, x) && task_named(ws, x).calc_deps@.len() == 0
}

/// Each job of the path waits for the next.
pub open spec fn dep_path(ws: &Workspace, path: Seq<Seq<char>>) -> bool
    decreases path.len(),
{
    path.len() <= 1 || (job_deps(&task_named(ws, path[0])).contains(path[1]) && dep_path(ws, path.drop_first()))
}

/// Job `to` is reached from task `from` by following what jobs wait for.
pub open spec fn reaches(ws: &Workspace, from: Seq<char>, to: Seq<char>) -> bool {
    exists|path: Seq<Seq<char>>| #[trigger] dep_path(ws, path) && path.len() > 0 && path[0] == from && path.last() == to
}

/// Job `x` is reached from one of the tasks.
pub open spec fn reached_from(ws: &Workspace, tasks: Seq<String>, x: Seq<char>) -> bool {
    exists|k: int| 0 <= k < tasks.len() && reaches(ws, #[trigger] tasks[k]@, x)
}

/// A task reaches itself.
proof fn lemma_reaches_self(ws: &Workspace, a: Seq<char>)
    ensures
        reaches(ws, a, a),
{
    let p = seq![a];
    assert(dep_path(ws, p));
}

/// What a job waits for reaches, the job reaches too.
proof fn lemma_reaches_step(ws: &Workspace, a: Seq<char>, b: Seq<char>, x: Seq<char>)
    requires
        job_deps(&task_named(ws, a)).contains(b),
        reaches(ws, b, x),
    ensures
        reaches(ws, a, x),
{
    let p = choose|p: Seq<Seq<char>>| #[trigger] dep_path(ws, p) && p.len() > 0 && p[0] == b && p.last() == x;
    let q = seq![a] + p;
    assert(q.drop_first() =~= p);
    assert(q[1] == b);
    assert(dep_path(ws, q));
    assert(q.last() == x);
}

fn has_name(v: &Vec<String>, x: &str) -> (b: bool)
    ensures
        b == names(v@).contains(x@),
{
    let mut i: usize = 0;
    while i < v.len()
        invariant
            i <= v@.len(),
            forall|j: int| 0 <= j < i ==> v@[j]@ != x@,
        decreases v@.len() - i,
    {
        if str_eq(v[i].as_str(), x) {
            proof {
                assert(names(v@)[i as int] == x@);
            }
            return true;
        }
        i = i + 1;
    }
    proof {
        if names(v@).contains(x@) {
            let j = choose|j: int| 0 <= j < names(v@).len() && names(v@)[j] == x@;
            assert(v@[j]@ == x@);
        }
    }
    false
}

/// Adds the job of task `task_name` and, for a task not yet among the jobs,
/// the jobs of everything it waits for, task after task.
pub fn add_jobs_for_task(task_name: &str, ws: &Workspace, jobs: &mut Vec<String>) -> (r: Result<(), JobGraphError>)
    ensures
        old(jobs)@.len() <= final(jobs)@.len(),
        final(jobs)@.subrange(0, old(jobs)@.len() as int) == old(jobs)@,
        names(old(jobs)@).no_duplicates() ==> names(final(jobs)@).no_duplicates(),
        forall|i: int| old(jobs)@.len() <= i < final(jobs)@.len() ==> runnable_task(ws, #[trigger] final(jobs)@[i]@),
        r is Ok ==> names(final(jobs)@).contains(task_name@),
        r is Ok ==> jobs_closed(ws, names(final(jobs)@), old(jobs)@.len() as int),
        names(old(jobs)@).contains(task_name@) ==> r is Ok && final(jobs)@ == old(jobs)@,
        r matches Err(e) ==> genuine_error(ws, e),
        forall|i: int|
            old(jobs)@.len() <= i < final(jobs)@.len() ==> reaches(ws, task_name@, #[trigger] final(jobs)@[i]@),
    decreases absent_count(task_names(ws), names(old(jobs)@)),
{
    if has_name(jobs, task_name) {
        return Ok(());
    }
    let t = match find_entry(&ws.tasks, task_name) {
        Some(t) => t,
        None => {
            return Err(JobGraphError::TaskLookupError(String::from_str(task_name)));
        },
    };
    proof {
        lemma_first_index_exact(ws, task_name@, t as int);
    }
    if ws.tasks[t].1.calc_deps.len() > 0 {
        return Err(JobGraphError::UnresolvedCalcDependencyError(String::from_str(task_name)));
    }
    let ghost j0 = jobs@;
    jobs.push(String::from_str(task_name));
    let ghost j1 = jobs@;
    proof {
        assert(j1.subrange(0, j0.len() as int) =~= j0);
        assert(names(j1) =~= names(j0).push(task_name@));
        assert(task_names(ws)[t as int] == task_name@);
        assert forall|x: Seq<char>| names(j0).contains(x) implies names(j1).contains(x) by {
            let k = choose|k: int| 0 <= k < names(j0).len() && names(j0)[k] == x;
            assert(names(j1)[k] == x);
        }
        assert(names(j1)[j0.len() as int] == task_name@);
        lemma_absent_strict(task_names(ws), names(j0), names(j1), task_name@);
        if names(j0).no_duplicates() {
            assert(names(j1).no_duplicates());
        }
        lemma_reaches_self(ws, task_name@);
    }
    let deps = get_task_job_dependencies(&ws.tasks[t].1);
    let mut d: usize = 0;
    while d < deps.len()
        invariant
            d <= deps@.len(),
            j0 == old(jobs)@,
            j0.len() < jobs@.len(),
            jobs@.subrange(0, j1.len() as int) == j1,
            j1.len() == j0.len() + 1,
            j1.subrange(0, j0.len() as int) == j0,
            j1[j0.len() as int]@ == task_name@,
            !names(j0).contains(task_name@),
            first_index(ws.tasks@, task_name@, t as int),
            task_named(ws, task_name@) == ws.tasks@[t as int].1,
            runnable_task(ws, task_name@),
            names(deps@) == job_deps(&ws.tasks@[t as int].1),
            forall|k: int| 0 <= k < d ==> names(jobs@).contains(#[trigger] names(deps@)[k]),
            names(j0).no_duplicates() ==> names(jobs@).no_duplicates(),
            forall|i: int| j0.len() <= i < jobs@.len() ==> runnable_task(ws, #[trigger] jobs@[i]@),
            jobs_closed(ws, names(jobs@), j1.len() as int),
            absent_count(task_names(ws), names(jobs@)) < absent_count(task_names(ws), names(j0)),
            forall|i: int| j0.len() <= i < jobs@.len() ==> reaches(ws, task_name@, #[trigger] jobs@[i]@),
        decreases deps@.len() - d,
    {
        let ghost before = jobs@;
        let res = add_jobs_for_task(deps[d].as_str(), ws, jobs);
        proof {
            assert(jobs@.subrange(0, j1.len() as int) =~= j1) by {
                assert(jobs@.subrange(0, j1.len() as int) =~= jobs@.subrange(0, before.len() as int).subrange(
                    0,
                    j1.len() as int,
                ));
            }
            assert forall|x: Seq<char>| names(before).contains(x) implies names(jobs@).contains(x) by {
                let k = choose|k: int| 0 <= k < names(before).len() && names(before)[k] == x;
                assert(jobs@[k] == jobs@.subrange(0, before.len() as int)[k]);
                assert(names(jobs@)[k] == x);
            }
            lemma_absent_mono(task_names(ws), names(before), names(jobs@));
            assert forall|i: int| j0.len() <= i < jobs@.len() implies runnable_task(ws, #[trigger] jobs@[i]@) by {
                if i < before.len() {
                    assert(jobs@[i] == jobs@.subrange(0, before.len() as int)[i]);
                }
            }
            assert(job_deps(&task_named(ws, task_name@)).contains(deps@[d as int]@)) by {
                assert(names(deps@)[d as int] == deps@[d as int]@);
            }
            assert forall|i: int| j0.len() <= i < jobs@.len() implies reaches(ws, task_name@, #[trigger] jobs@[i]@) by {
                if i < before.len() {
                    assert(jobs@[i] == jobs@.subrange(0, before.len() as int)[i]);
                } else {
                    lemma_reaches_step(ws, task_name@, deps@[d as int]@, jobs@[i]@);
                }
            }
        }
        if let Err(e) = res {
            return Err(e);
        }
        proof {
            assert forall|k: int| 0 <= k < d + 1 implies names(jobs@).contains(#[trigger] names(deps@)[k]) by {
                if k < d {
                    assert(names(before).contains(names(deps@)[k]));
                }
            }
            assert forall|i: int, x: Seq<char>|
                j1.len() <= i < jobs@.len() && #[trigger] job_deps(&task_named(ws, names(jobs@)[i])).contains(x)
                    implies names(jobs@).contains(x) by {
                if i < before.len() {
                    assert(jobs@[i] == jobs@.subrange(0, before.len() as int)[i]);
                    assert(names(before)[i] == names(jobs@)[i]);
                    assert(names(before).contains(x));
                }
            }
        }
        d = d + 1;
    }
    proof {
        assert(jobs@.subrange(0, j0.len() as int) =~= j0) by {
            assert(jobs@.subrange(0, j0.len() as int) =~= jobs@.subrange(0, j1.len() as int).subrange(
                0,
                j0.len() as int,
            ));
        }
        assert(jobs@[j0.len() as int] == j1[j0.len() as int]);
        assert(names(jobs@)[j0.len() as int] == task_name@);
        assert forall|i: int, x: Seq<char>|
            j0.len() <= i < jobs@.len() && #[trigger] job_deps(&task_named(ws, names(jobs@)[i])).contains(x)
                implies names(jobs@).contains(x) by {
            if i == j0.len() {
                let k = choose|k: int| 0 <= k < names(deps@).len() && names(deps@)[k] == x;
                assert(names(jobs@).contains(names(deps@)[k]));
            }
        }
    }
    Ok(())
}

/// The jobs for the given tasks and everything they wait for, each once;
/// the first task that cannot become a job gives the error.
pub fn create_jobs_for_tasks(ws: &Workspace, tasks: &Vec<String>) -> (r: Result<Vec<String>, JobGraphError>)
    ensures
        match r {
            Ok(jobs) => {
                &&& names(jobs@).no_duplicates()
                &&& forall|i: int| 0 <= i < jobs@.len() ==> runnable_task(ws, #[trigger] jobs@[i]@)
                &&& forall|i: int| 0 <= i < tasks@.len() ==> names(jobs@).contains(#[trigger] tasks@[i]@)
                &&& jobs_closed(ws, names(jobs@), 0)
                &&& forall|m: int| 0 <= m < jobs@.len() ==> reached_from(ws, tasks@, #[trigger] jobs@[m]@)
            },
            Err(e) => genuine_error(ws, e),
        },
{
    let mut jobs: Vec<String> = Vec::new();
    let mut i: usize = 0;
    proof {
        assert(names(jobs@) =~= Seq::<Seq<char>>::empty());
    }
    while i < tasks.len()
        invariant
            i <= tasks@.len(),
            names(jobs@).no_duplicates(),
            forall|k: int| 0 <= k < jobs@.len() ==> runnable_task(ws, #[trigger] jobs@[k]@),
            forall|k: int| 0 <= k < i ==> names(jobs@).contains(#[trigger] tasks@[k]@),
            jobs_closed(ws, names(jobs@), 0),
            forall|m: int| 0 <= m < jobs@.len() ==> reached_from(ws, tasks@.take(i as int), #[trigger] jobs@[m]@),
        decreases tasks@.len() - i,
    {
        let ghost before = jobs@;
        let res = add_jobs_for_task(tasks[i].as_str(), ws, &mut jobs);
        if let Err(e) = res {
            return Err(e);
        }
        proof {
            assert forall|x: Seq<char>| names(before).contains(x) implies names(jobs@).contains(x) by {
                let k = choose|k: int| 0 <= k < names(before).len() && names(before)[k] == x;
                assert(jobs@[k] == jobs@.subrange(0, before.len() as int)[k]);
                assert(names(jobs@)[k] == x);
            }
            assert forall|k: int| 0 <= k < jobs@.len() implies runnable_task(ws, #[trigger] jobs@[k]@) by {
                if k < before.len() {
                    assert(jobs@[k] == jobs@.subrange(0, before.len() as int)[k]);
                }
            }
            assert forall|m: int| 0 <= m < jobs@.len() implies reached_from(ws, tasks@.take(i + 1), #[trigger] jobs@[m]@) by {
                let tk = tasks@.take(i + 1);
                if m < before.len() {
                    assert(jobs@[m] == jobs@.subrange(0, before.len() as int)[m]);
                    assert(reached_from(ws, tasks@.take(i as int), before[m]@));
                    let k = choose|k: int| 0 <= k < tasks@.take(i as int).len() && reaches(ws, #[trigger] tasks@.take(i as int)[k]@, before[m]@);
                    assert(tk[k] == tasks@.take(i as int)[k]);
                    assert(reaches(ws, tk[k]@, jobs@[m]@));
                } else {
                    assert(tk[i as int] == tasks@[i as int]);
                    assert(reaches(ws, tk[i as int]@, jobs@[m]@));
                }
            }
            assert forall|k: int| 0 <= k < i + 1 implies names(jobs@).contains(#[trigger] tasks@[k]@) by {
                if k < i {
                    assert(names(before).contains(tasks@[k]@));
                }
            }
            assert forall|m: int, x: Seq<char>|
                0 <= m < jobs@.len() && #[trigger] job_deps(&task_named(ws, names(jobs@)[m])).contains(x) implies names(
                    jobs@,
                ).contains(x) by {
                if m < before.len() {
                    assert(jobs@[m] == jobs@.subrange(0, before.len() as int)[m]);
                    assert(names(before)[m] == names(jobs@)[m]);
                    assert(names(before).contains(x));
                }
            }
        }
        i = i + 1;
    }
    proof {
        assert(tasks@.take(i as int) =~= tasks@);
    }
    Ok(jobs)
}

/// Task `t` waits for `d`: `d` is a job it waits for, or a task it runs
/// after.
pub open spec fn forward_rel(ws: &Workspace, d: Seq<char>, t: Seq<char>) -> bool {
    exists|i: int|
        0 <= i < ws.tasks@.len() && (#[trigger] ws.tasks@[i]).0@ == t && (job_deps(&ws.tasks@[i].1).contains(d)
            || names(ws.tasks@[i].1.execute_after@).contains(d))
}

/// The edge list holds `t` under the key `d`.
pub open spec fn edge_rel(edges: Seq<(String, Vec<String>)>, d: Seq<char>, t: Seq<char>) -> bool {
    exists|j: int| 0 <= j < edges.len() && (#[trigger] edges[j]).0@ == d && names(edges[j].1@).contains(t)
}

/// No key occurs twice, and no list holds a name twice.
pub open spec fn edges_wf(edges: Seq<(String, Vec<String>)>) -> bool {
    &&& forall|j: int, k: int| 0 <= j < k < edges.len() ==> (#[trigger] edges[j]).0@ != (#[trigger] edges[k]).0@
    &&& forall|j: int| 0 <= j < edges.len() ==> names((#[trigger] edges[j]).1@).no_duplicates()
}

fn copy_names(v: &Vec<String>) -> (r: Vec<String>)
    ensures
        names(r@) == names(v@),
{
    let mut r: Vec<String> = Vec::new();
    let mut i: usize = 0;
    while i < v.len()
        invariant
            i <= v@.len(),
            names(r@) == names(v@).take(i as int),
        decreases v@.len() - i,
    {
        let ghost prev = r@;
        r.push(v[i].clone());
        proof {
            assert(names(r@) =~= names(prev).push(v@[i as int]@));
            assert(names(v@).take(i + 1) =~= names(v@).take(i as int).push(v@[i as int]@));
        }
        i = i + 1;
    }
    proof {
        assert(names(v@).take(i as int) =~= names(v@));
    }
    r
}

fn add_edge(edges: &mut Vec<(String, Vec<String>)>, d: &str, t: &str)
    requires
        edges_wf(old(edges)@),
    ensures
        edges_wf(final(edges)@),
        forall|a: Seq<char>, b: Seq<char>|
            edge_rel(final(edges)@, a, b) <==> (edge_rel(old(edges)@, a, b) || (a == d@ && b == t@)),
{
    let ghost e0 = edges@;
    let mut j: usize = 0;
    while j < edges.len()
        invariant
            edges@ == e0,
            e0 == old(edges)@,
            edges_wf(e0),
            j <= e0.len(),
            forall|k: int| 0 <= k < j ==> (#[trigger] e0[k]).0@ != d@,
        decreases e0.len() - j,
    {
        if str_eq(edges[j].0.as_str(), d) {
            let mut list = copy_names(&edges[j].1);
            crate::execute::jobs::push_unique(&mut list, String::from_str(t));
            let key = edges[j].0.clone();
            let ghost nl = list@;
            edges.set(j, (key, list));
            proof {
                let e1 = edges@;
                assert(e1 == e0.update(j as int, (e1[j as int].0, e1[j as int].1)));
                assert forall|a: int, b: int| 0 <= a < b < e1.len() implies (#[trigger] e1[a]).0@ != (#[trigger] e1[b]).0@ by {
                    assert(e1[a].0@ == e0[a].0@ && e1[b].0@ == e0[b].0@);
                }
                assert forall|a: Seq<char>, b: Seq<char>|
                    edge_rel(e1, a, b) <==> (edge_rel(e0, a, b) || (a == d@ && b == t@)) by {
                    if edge_rel(e1, a, b) {
                        let k = choose|k: int| 0 <= k < e1.len() && (#[trigger] e1[k]).0@ == a && names(e1[k].1@).contains(b);
                        if k != j {
                            assert(e0[k] == e1[k]);
                        } else if b != t@ {
                            assert(names(e0[k].1@).contains(b));
                        }
                    }
                    if edge_rel(e0, a, b) {
                        let k = choose|k: int| 0 <= k < e0.len() && (#[trigger] e0[k]).0@ == a && names(e0[k].1@).contains(b);
                        if k != j {
                            assert(e1[k] == e0[k]);
                        } else {
                            assert(names(e1[k].1@).contains(b));
                        }
                    }
                    if a == d@ && b == t@ {
                        assert(e1[j as int].0@ == d@);
                        assert(names(e1[j as int].1@).contains(b));
                    }
                }
            }
            return;
        }
        j = j + 1;
    }
    let mut list: Vec<String> = Vec::new();
    list.push(String::from_str(t));
    edges.push((String::from_str(d), list));
    proof {
        let e1 = edges@;
        assert(names(list@) =~= seq![t@]);
        assert(e1.len() == e0.len() + 1);
        assert forall|a: int, b: int| 0 <= a < b < e1.len() implies (#[trigger] e1[a]).0@ != (#[trigger] e1[b]).0@ by {
            if b < e0.len() {
                assert(e1[a] == e0[a] && e1[b] == e0[b]);
            } else {
                assert(e1[a] == e0[a]);
            }
        }
        assert forall|k: int| 0 <= k < e1.len() implies names((#[trigger] e1[k]).1@).no_duplicates() by {
            if k < e0.len() {
                assert(e1[k] == e0[k]);
            }
        }
        assert forall|a: Seq<char>, b: Seq<char>|
            edge_rel(e1, a, b) <==> (edge_rel(e0, a, b) || (a == d@ && b == t@)) by {
            if edge_rel(e1, a, b) {
                let k = choose|k: int| 0 <= k < e1.len() && (#[trigger] e1[k]).0@ == a && names(e1[k].1@).contains(b);
                if k < e0.len() {
                    assert(e0[k] == e1[k]);
                } else {
                    assert(names(e1[k].1@) =~= seq![t@]);
                }
            }
            if edge_rel(e0, a, b) {
                let k = choose|k: int| 0 <= k < e0.len() && (#[trigger] e0[k]).0@ == a && names(e0[k].1@).contains(b);
                assert(e1[k] == e0[k]);
            }
            if a == d@ && b == t@ {
                assert(e1[e0.len() as int].0@ == d@);
                assert(names(e1[e0.len() as int].1@)[0] == t@);
            }
        }
    }
}

proof fn lemma_take_next_contains(s: Seq<Seq<char>>, k: int, x: Seq<char>)
    requires
        0 <= k < s.len(),
    ensures
        s.take(k + 1).contains(x) <==> (s.take(k).contains(x) || x == s[k]),
{
    assert(s.take(k + 1) =~= s.take(k).push(s[k]));
    if s.take(k + 1).contains(x) && x != s[k] {
        let m = choose|m: int| 0 <= m < s.take(k + 1).len() && #[trigger] s.take(k + 1)[m] == x;
        assert(s.take(k)[m] == x);
    }
    if s.take(k).contains(x) {
        let m = choose|m: int| 0 <= m < s.take(k).len() && #[trigger] s.take(k)[m] == x;
        assert(s.take(k + 1)[m] == x);
    }
    if x == s[k] {
        assert(s.take(k + 1)[k] == x);
    }
}

/// For each job, the tasks that wait for it: those that depend on it or
/// run after it.
pub fn compute_task_job_forward_edges(ws: &Workspace) -> (r: Vec<(String, Vec<String>)>)
    ensures
        edges_wf(r@),
        forall|d: Seq<char>, t: Seq<char>| edge_rel(r@, d, t) <==> forward_rel(ws, d, t),
{
    let mut edges: Vec<(String, Vec<String>)> = Vec::new();
    let mut i: usize = 0;
    while i < ws.tasks.len()
        invariant
            i <= ws.tasks@.len(),
            edges_wf(edges@),
            forall|d: Seq<char>, t: Seq<char>|
                #![trigger edge_rel(edges@, d, t)]
                edge_rel(edges@, d, t) <==> exists|k: int|
                    0 <= k < i && (#[trigger] ws.tasks@[k]).0@ == t && (job_deps(&ws.tasks@[k].1).contains(d)
                        || names(ws.tasks@[k].1.execute_after@).contains(d)),
        decreases ws.tasks@.len() - i,
    {
        let name = &ws.tasks[i].0;
        let deps = get_task_job_dependencies(&ws.tasks[i].1);
        let after = &ws.tasks[i].1.execute_after;
        let ghost base = edges@;
        let mut k: usize = 0;
        while k < deps.len()
            invariant
                k <= deps@.len(),
                i < ws.tasks@.len(),
                name@ == ws.tasks@[i as int].0@,
                names(deps@) == job_deps(&ws.tasks@[i as int].1),
                edges_wf(edges@),
                forall|d: Seq<char>, t: Seq<char>|
                    #![trigger edge_rel(edges@, d, t)]
                    edge_rel(edges@, d, t) <==> (edge_rel(base, d, t) || (t == name@ && names(deps@).take(
                        k as int,
                    ).contains(d))),
            decreases deps@.len() - k,
        {
            let ghost before = edges@;
            add_edge(&mut edges, deps[k].as_str(), name.as_str());
            proof {
                assert forall|d: Seq<char>, t: Seq<char>|
                    #![trigger edge_rel(edges@, d, t)]
                    edge_rel(edges@, d, t) <==> (edge_rel(base, d, t) || (t == name@ && names(deps@).take(
                        k + 1,
                    ).contains(d))) by {
                    lemma_take_next_contains(names(deps@), k as int, d);
                }
            }
            k = k + 1;
        }
        let ghost mid = edges@;
        let mut a: usize = 0;
        while a < after.len()
            invariant
                a <= after@.len(),
                i < ws.tasks@.len(),
                name@ == ws.tasks@[i as int].0@,
                *after == ws.tasks@[i as int].1.execute_after,
                edges_wf(edges@),
                forall|d: Seq<char>, t: Seq<char>|
                    #![trigger edge_rel(edges@, d, t)]
                    edge_rel(edges@, d, t) <==> (edge_rel(mid, d, t) || (t == name@ && names(after@).take(
                        a as int,
                    ).contains(d))),
            decreases after@.len() - a,
        {
            add_edge(&mut edges, after[a].as_str(), name.as_str());
            proof {
                assert forall|d: Seq<char>, t: Seq<char>|
                    #![trigger edge_rel(edges@, d, t)]
                    edge_rel(edges@, d, t) <==> (edge_rel(mid, d, t) || (t == name@ && names(after@).take(
                        a + 1,
                    ).contains(d))) by {
                    lemma_take_next_contains(names(after@), a as int, d);
                }
            }
            a = a + 1;
        }
        proof {
            assert(names(deps@).take(deps@.len() as int) =~= names(deps@));
            assert(names(after@).take(after@.len() as int) =~= names(after@));
            assert forall|d: Seq<char>, t: Seq<char>|
                #![trigger edge_rel(edges@, d, t)]
                edge_rel(edges@, d, t) <==> exists|k: int|
                    0 <= k < i + 1 && (#[trigger] ws.tasks@[k]).0@ == t && (job_deps(&ws.tasks@[k].1).contains(d)
                        || names(ws.tasks@[k].1.execute_after@).contains(d)) by {
                let here = t == name@ && (names(deps@).contains(d) || names(after@).contains(d));
                assert(edge_rel(edges@, d, t) <==> (edge_rel(base, d, t) || here));
                if here {
                    assert(ws.tasks@[i as int].0@ == t);
                }
                if exists|k: int|
                    0 <= k < i + 1 && (#[trigger] ws.tasks@[k]).0@ == t && (job_deps(&ws.tasks@[k].1).contains(d)
                        || names(ws.tasks@[k].1.execute_after@).contains(d)) {
                    let k = choose|k: int|
                        0 <= k < i + 1 && (#[trigger] ws.tasks@[k]).0@ == t && (job_deps(&ws.tasks@[k].1).contains(
                            d,
                        ) || names(ws.tasks@[k].1.execute_after@).contains(d));
                    if k < i {
                        assert(edge_rel(base, d, t));
                    } else {
                        assert(here);
                    }
                }
            }
        }
        i = i + 1;
    }
    edges
}

/// The tasks that wait for job `t`, as the edge list holds them.
pub open spec fn forward_of(edges: Seq<(String, Vec<String>)>, t: Seq<char>) -> Seq<Seq<char>> {
    if exists|j: int| 0 <= j < edges.len() && (#[trigger] edges[j]).0@ == t {
        names(edges[choose|j: int| 0 <= j < edges.len() && (#[trigger] edges[j]).0@ == t].1@)
    } else {
        seq![]
    }
}

/// Job `f` can start: it has not started, every job it waits for (the
/// tasks it depends on and the providers of its files) has completed, and
/// every task it runs after has neither still to start nor is running.
pub open spec fn available(
    ws: &Workspace,
    rem: Set<Seq<char>>,
    ip: Set<Seq<char>>,
    comp: Set<Seq<char>>,
    f: Seq<char>,
) -> bool {
    &&& rem.contains(f)
    &&& forall|x: Seq<char>| #[trigger] job_deps(&task_named(ws, f)).contains(x) ==> comp.contains(x)
    &&& forall|x: Seq<char>|
        #[trigger] names(task_named(ws, f).execute_after@).contains(x) ==> !rem.contains(x) && !ip.contains(x)
}

/// Going through the waiting tasks in order, each that can start starts:
/// the jobs still to start, the running jobs, and the jobs started.
pub open spec fn dispatch_fold(
    ws: &Workspace,
    rem: Set<Seq<char>>,
    ip: Set<Seq<char>>,
    comp: Set<Seq<char>>,
    fs: Seq<Seq<char>>,
) -> (Set<Seq<char>>, Set<Seq<char>>, Seq<Seq<char>>)
    decreases fs.len(),
{
    if fs.len() == 0 {
        (rem, ip, seq![])
    } else {
        let (r1, i1, d1) = dispatch_fold(ws, rem, ip, comp, fs.drop_last());
        let f = fs.last();
        if available(ws, r1, i1, comp, f) {
            (r1.remove(f), i1.insert(f), d1.push(f))
        } else {
            (r1, i1, d1)
        }
    }
}

/// A job starts only once every job it waits for has completed, it starts
/// only if it was still to start, and it starts once.
pub proof fn law_started_jobs_have_their_dependencies(
    ws: &Workspace,
    rem: Set<Seq<char>>,
    ip: Set<Seq<char>>,
    comp: Set<Seq<char>>,
    fs: Seq<Seq<char>>,
)
    ensures
        forall|f: Seq<char>, x: Seq<char>|
            #![trigger dispatch_fold(ws, rem, ip, comp, fs).2.contains(f), job_deps(&task_named(ws, f)).contains(x)]
            dispatch_fold(ws, rem, ip, comp, fs).2.contains(f) && job_deps(&task_named(ws, f)).contains(x)
                ==> comp.contains(x),
        forall|f: Seq<char>| #[trigger] dispatch_fold(ws, rem, ip, comp, fs).2.contains(f) ==> rem.contains(f),
        dispatch_fold(ws, rem, ip, comp, fs).2.no_duplicates(),
    decreases fs.len(),
{
    if fs.len() > 0 {
        law_started_jobs_have_their_dependencies(ws, rem, ip, comp, fs.drop_last());
        let (r1, i1, d1) = dispatch_fold(ws, rem, ip, comp, fs.drop_last());
        lemma_fold_shrinks(ws, rem, ip, comp, fs.drop_last());
        let f = fs.last();
        if available(ws, r1, i1, comp, f) {
            let d = d1.push(f);
            assert forall|g: Seq<char>| d.contains(g) implies d1.contains(g) || g == f by {
                let k = choose|k: int| 0 <= k < d.len() && d[k] == g;
                if k < d1.len() {
                    assert(d1[k] == g);
                }
            }
            assert(!d1.contains(f));
            assert forall|a: int, b: int| 0 <= a < b < d.len() implies d[a] != d[b] by {
                if b == d1.len() {
                    assert(d1[a] == d[a]);
                    assert(d1.contains(d[a]));
                }
            }
        }
    }
}

/// The jobs started by the fold are no longer among those still to start.
proof fn lemma_fold_shrinks(
    ws: &Workspace,
    rem: Set<Seq<char>>,
    ip: Set<Seq<char>>,
    comp: Set<Seq<char>>,
    fs: Seq<Seq<char>>,
)
    ensures
        forall|f: Seq<char>| #[trigger] dispatch_fold(ws, rem, ip, comp, fs).2.contains(f) ==> !dispatch_fold(
            ws,
            rem,
            ip,
            comp,
            fs,
        ).0.contains(f),
        forall|f: Seq<char>| #[trigger] dispatch_fold(ws, rem, ip, comp, fs).0.contains(f) ==> rem.contains(f),
    decreases fs.len(),
{
    if fs.len() > 0 {
        lemma_fold_shrinks(ws, rem, ip, comp, fs.drop_last());
        let (r1, i1, d1) = dispatch_fold(ws, rem, ip, comp, fs.drop_last());
        let f = fs.last();
        if available(ws, r1, i1, comp, f) {
            let d = d1.push(f);
            assert forall|g: Seq<char>| d.contains(g) implies !r1.remove(f).contains(g) by {
                let k = choose|k: int| 0 <= k < d.len() && d[k] == g;
                if k < d1.len() {
                    assert(d1[k] == g);
                    assert(d1.contains(g));
                    assert(!r1.contains(g));
                } else {
                    assert(g == f);
                }
            }
        }
    }
}

/// No job that waits could start now.
pub open spec fn none_ready_waits(
    ws: &Workspace,
    rem: Set<Seq<char>>,
    ip: Set<Seq<char>>,
    comp: Set<Seq<char>>,
) -> bool {
    forall|x: Seq<char>| #[trigger] rem.contains(x) ==> !available(ws, rem, ip, comp, x)
}

/// Going through the waiting tasks moves jobs from waiting to running
/// only, and leaves none of them waiting that could start.
proof fn lemma_fold_leaves_none_ready(
    ws: &Workspace,
    rem: Set<Seq<char>>,
    ip: Set<Seq<char>>,
    comp: Set<Seq<char>>,
    fs: Seq<Seq<char>>,
)
    ensures
        dispatch_fold(ws, rem, ip, comp, fs).0.union(dispatch_fold(ws, rem, ip, comp, fs).1) == rem.union(ip),
        forall|x: Seq<char>| #[trigger] dispatch_fold(ws, rem, ip, comp, fs).0.contains(x) ==> rem.contains(x),
        forall|f: Seq<char>|
            fs.contains(f) && #[trigger] dispatch_fold(ws, rem, ip, comp, fs).0.contains(f) ==> !available(
                ws,
                dispatch_fold(ws, rem, ip, comp, fs).0,
                dispatch_fold(ws, rem, ip, comp, fs).1,
                comp,
                f,
            ),
    decreases fs.len(),
{
    if fs.len() == 0 {
        assert(rem.union(ip) =~= rem.union(ip));
    } else {
        let fs1 = fs.drop_last();
        lemma_fold_leaves_none_ready(ws, rem, ip, comp, fs1);
        let (r1, i1, d1) = dispatch_fold(ws, rem, ip, comp, fs1);
        let f = fs.last();
        let (r, i, d) = dispatch_fold(ws, rem, ip, comp, fs);
        if available(ws, r1, i1, comp, f) {
            assert(r.union(i) =~= r1.union(i1));
        }
        assert(r.union(i) =~= rem.union(ip));
        assert forall|g: Seq<char>| fs.contains(g) && #[trigger] r.contains(g) implies !available(ws, r, i, comp, g) by {
            assert(r1.contains(g));
            if g != f {
                let k = choose|k: int| 0 <= k < fs.len() && fs[k] == g;
                assert(fs1[k] == g);
                assert(fs1.contains(g));
                assert(!available(ws, r1, i1, comp, g));
                if available(ws, r, i, comp, g) {
                    assert forall|x: Seq<char>|
                        #[trigger] names(task_named(ws, g).execute_after@).contains(x) implies !r1.contains(x)
                        && !i1.contains(x) by {
                        assert(!r.union(i).contains(x));
                    }
                }
            }
        }
    }
}

/// If no waiting job could start before task `task` completed, none can
/// after its completion, once the tasks waiting for it have been gone
/// through: a job waits only as long as it has to.
pub proof fn law_no_ready_job_waits(
    ws: &Workspace,
    edges: Seq<(String, Vec<String>)>,
    rem: Set<Seq<char>>,
    ip: Set<Seq<char>>,
    comp: Set<Seq<char>>,
    task: Seq<char>,
)
    requires
        none_ready_waits(ws, rem, ip, comp),
        edges_wf(edges),
        forall|d: Seq<char>, t: Seq<char>| edge_rel(edges, d, t) <==> forward_rel(ws, d, t),
        forall|x: Seq<char>| #[trigger] rem.contains(x) ==> has_entry(ws.tasks@, x),
    ensures
        ({
            let (r, i, d) = dispatch_fold(ws, rem, ip.remove(task), comp.insert(task), forward_of(edges, task));
            none_ready_waits(ws, r, i, comp.insert(task))
        }),
{
    let comp2 = comp.insert(task);
    let ip2 = ip.remove(task);
    let fs = forward_of(edges, task);
    lemma_fold_leaves_none_ready(ws, rem, ip2, comp2, fs);
    let (r, i, d) = dispatch_fold(ws, rem, ip2, comp2, fs);
    assert forall|x: Seq<char>| #[trigger] r.contains(x) implies !available(ws, r, i, comp2, x) by {
        if !fs.contains(x) {
            assert(rem.contains(x));
            assert(!available(ws, rem, ip, comp, x));
            lemma_has_first_index(ws.tasks@, x);
            let c = choose|c: int| first_index(ws.tasks@, x, c);
            lemma_first_index_exact(ws, x, c);
            assert(!forward_rel(ws, task, x)) by {
                if forward_rel(ws, task, x) {
                    assert(edge_rel(edges, task, x));
                    let j = choose|j: int|
                        0 <= j < edges.len() && (#[trigger] edges[j]).0@ == task && names(edges[j].1@).contains(x);
                    let w = choose|w: int| 0 <= w < edges.len() && (#[trigger] edges[w]).0@ == task;
                    if w != j {
                        if w < j {
                            assert(edges[w].0@ != edges[j].0@);
                        } else {
                            assert(edges[j].0@ != edges[w].0@);
                        }
                    }
                    assert(fs == names(edges[j].1@));
                }
            }
            let tx = task_named(ws, x);
            assert(!job_deps(&tx).contains(task)) by {
                if job_deps(&tx).contains(task) {
                    assert(ws.tasks@[c].0@ == x);
                }
            }
            assert(!names(tx.execute_after@).contains(task)) by {
                if names(tx.execute_after@).contains(task) {
                    assert(ws.tasks@[c].0@ == x);
                }
            }
            if available(ws, r, i, comp2, x) {
                assert forall|y: Seq<char>| #[trigger] job_deps(&tx).contains(y) implies comp.contains(y) by {
                    assert(comp2.contains(y));
                }
                assert forall|y: Seq<char>| #[trigger] names(tx.execute_after@).contains(y) implies !rem.contains(y)
                    && !ip.contains(y) by {
                    assert(!r.union(i).contains(y));
                    assert(!rem.union(ip2).contains(y));
                }
                assert(available(ws, rem, ip, comp, x));
            }
        }
    }
}

/// An entry of the name has a first entry of the name.
proof fn lemma_has_first_index<T>(entries: Seq<(String, T)>, name: Seq<char>)
    requires
        has_entry(entries, name),
    ensures
        exists|c: int| first_index(entries, name, c),
{
    let i = choose|i: int| 0 <= i < entries.len() && (#[trigger] entries[i]).0@ == name;
    lemma_first_index_below(entries, name, i);
}

proof fn lemma_first_index_below<T>(entries: Seq<(String, T)>, name: Seq<char>, i: int)
    requires
        0 <= i < entries.len(),
        entries[i].0@ == name,
    ensures
        exists|c: int| first_index(entries, name, c),
    decreases i,
{
    if exists|j: int| 0 <= j < i && (#[trigger] entries[j]).0@ == name {
        let j = choose|j: int| 0 <= j < i && (#[trigger] entries[j]).0@ == name;
        lemma_first_index_below(entries, name, j);
    } else {
        assert(first_index(entries, name, i));
    }
}

fn remove_name(v: &mut Vec<String>, x: &str)
    ensures
        names(final(v)@).to_set() == names(old(v)@).to_set().remove(x@),
        names(old(v)@).no_duplicates() ==> names(final(v)@).no_duplicates(),
{
    let ghost o = names(v@);
    let mut kept: Vec<String> = Vec::new();
    let mut i: usize = 0;
    while i < v.len()
        invariant
            o == names(v@),
            i <= v@.len(),
            forall|y: Seq<char>| names(kept@).contains(y) <==> (o.take(i as int).contains(y) && y != x@),
            o.no_duplicates() ==> names(kept@).no_duplicates(),
            forall|y: Seq<char>| names(kept@).contains(y) ==> o.take(i as int).contains(y),
        decreases v@.len() - i,
    {
        proof {
            assert(o.take(i + 1) =~= o.take(i as int).push(o[i as int]));
        }
        if !str_eq(v[i].as_str(), x) {
            let ghost prev = kept@;
            kept.push(v[i].clone());
            proof {
                assert(names(kept@) =~= names(prev).push(o[i as int]));
                assert forall|y: Seq<char>| names(kept@).contains(y) <==> (o.take(i + 1).contains(y) && y != x@) by {
                    lemma_take_next_contains(o, i as int, y);
                    if names(kept@).contains(y) {
                        let k = choose|k: int| 0 <= k < names(kept@).len() && names(kept@)[k] == y;
                        if k < prev.len() {
                            assert(names(prev)[k] == y);
                        }
                    }
                    if names(prev).contains(y) {
                        let k = choose|k: int| 0 <= k < names(prev).len() && names(prev)[k] == y;
                        assert(names(kept@)[k] == y);
                    }
                    if y == o[i as int] {
                        assert(names(kept@)[prev.len() as int] == y);
                    }
                }
                if o.no_duplicates() {
                    assert(!o.take(i as int).contains(o[i as int])) by {
                        if o.take(i as int).contains(o[i as int]) {
                            let k = choose|k: int| 0 <= k < i && o.take(i as int)[k] == o[i as int];
                            assert(o[k] == o[i as int]);
                        }
                    }
                    assert(!names(prev).contains(o[i as int]));
                    assert forall|a: int, b: int| 0 <= a < b < names(kept@).len() implies names(kept@)[a] != names(
                        kept@,
                    )[b] by {
                        if b == prev.len() {
                            assert(names(prev)[a] == names(kept@)[a]);
                        }
                    }
                }
                assert forall|y: Seq<char>| names(kept@).contains(y) implies o.take(i + 1).contains(y) by {
                    lemma_take_next_contains(o, i as int, y);
                }
            }
        } else {
            proof {
                assert forall|y: Seq<char>| names(kept@).contains(y) <==> (o.take(i + 1).contains(y) && y != x@) by {
                    lemma_take_next_contains(o, i as int, y);
                }
                assert forall|y: Seq<char>| names(kept@).contains(y) implies o.take(i + 1).contains(y) by {
                    lemma_take_next_contains(o, i as int, y);
                }
            }
        }
        i = i + 1;
    }
    proof {
        assert(o.take(i as int) =~= o);
        assert(names(kept@).to_set() =~= o.to_set().remove(x@));
    }
    *v = kept;
}

fn insert_name(v: &mut Vec<String>, x: String)
    ensures
        names(final(v)@).to_set() == names(old(v)@).to_set().insert(x@),
        names(old(v)@).no_duplicates() ==> names(final(v)@).no_duplicates(),
{
    let ghost xv = x@;
    crate::execute::jobs::push_unique(v, x);
    proof {
        assert(names(v@).to_set() =~= names(old(v)@).to_set().insert(xv));
    }
}

/// Decides which jobs of the `cobl` executor start as others complete.
pub struct CoblScheduler {
    remaining: Vec<String>,
    in_progress: Vec<String>,
    completed: Vec<String>,
}

impl CoblScheduler {
    /// The jobs still to start.
    pub closed spec fn remaining(&self) -> Set<Seq<char>> {
        names(self.remaining@).to_set()
    }

    /// The jobs running.
    pub closed spec fn in_progress(&self) -> Set<Seq<char>> {
        names(self.in_progress@).to_set()
    }

    /// The jobs completed.
    pub closed spec fn completed(&self) -> Set<Seq<char>> {
        names(self.completed@).to_set()
    }

    /// No job is counted twice among the completed ones.
    pub closed spec fn wf(&self) -> bool {
        names(self.completed@).no_duplicates()
    }

    /// Every job still to start is a task of the workspace.
    pub open spec fn tracks(&self, ws: &Workspace) -> bool {
        &&& self.wf()
        &&& forall|x: Seq<char>| #[trigger] self.remaining().contains(x) ==> has_entry(ws.tasks@, x)
    }

    /// Takes in the jobs and starts, going through them in order, each that
    /// can start: one that waits for no job and runs after no job of the
    /// run that has not completed. The others wait.
    pub fn start(jobs: &Vec<String>, ws: &Workspace) -> (r: (CoblScheduler, Vec<String>))
        requires
            forall|i: int| 0 <= i < jobs@.len() ==> has_entry(ws.tasks@, #[trigger] jobs@[i]@),
        ensures
            ({
                let (rem, ip, d) = dispatch_fold(
                    ws,
                    names(jobs@).to_set(),
                    Set::<Seq<char>>::empty(),
                    Set::<Seq<char>>::empty(),
                    names(jobs@),
                );
                &&& r.0.remaining() == rem
                &&& r.0.in_progress() == ip
                &&& names(r.1@) == d
            }),
            r.0.completed() == Set::<Seq<char>>::empty(),
            r.0.tracks(ws),
            none_ready_waits(ws, r.0.remaining(), r.0.in_progress(), r.0.completed()),
    {
        let remaining = copy_names(jobs);
        let mut s = CoblScheduler { remaining, in_progress: Vec::new(), completed: Vec::new() };
        let ghost js = names(jobs@);
        proof {
            assert(names(s.completed@) =~= Seq::<Seq<char>>::empty());
            assert(s.completed() =~= Set::<Seq<char>>::empty());
            assert(names(s.in_progress@) =~= Seq::<Seq<char>>::empty());
            assert(s.in_progress() =~= Set::<Seq<char>>::empty());
            assert(s.remaining() == js.to_set());
            assert forall|x: Seq<char>| #[trigger] s.remaining().contains(x) implies has_entry(ws.tasks@, x) by {
                assert(js.contains(x));
                let m = choose|m: int| 0 <= m < js.len() && js[m] == x;
                assert(has_entry(ws.tasks@, jobs@[m]@));
            }
        }
        let first = s.dispatch(jobs, ws);
        proof {
            let e = Set::<Seq<char>>::empty();
            lemma_fold_leaves_none_ready(ws, js.to_set(), e, e, js);
            assert forall|x: Seq<char>| #[trigger] s.remaining().contains(x) implies !available(
                ws,
                s.remaining(),
                s.in_progress(),
                s.completed(),
                x,
            ) by {
                assert(js.to_set().contains(x));
            }
        }
        (s, first)
    }

    /// Goes through the jobs `fs` in order and starts each that can start.
    fn dispatch(&mut self, fs: &Vec<String>, ws: &Workspace) -> (r: Vec<String>)
        requires
            old(self).tracks(ws),
        ensures
            final(self).completed() == old(self).completed(),
            ({
                let (rem, ip, d) = dispatch_fold(
                    ws,
                    old(self).remaining(),
                    old(self).in_progress(),
                    old(self).completed(),
                    names(fs@),
                );
                &&& final(self).remaining() == rem
                &&& final(self).in_progress() == ip
                &&& names(r@) == d
            }),
            final(self).tracks(ws),
    {
        let ghost comp = self.completed();
        let ghost rem0 = self.remaining();
        let ghost ip0 = self.in_progress();
        let ghost ns = names(fs@);
        let mut dispatched: Vec<String> = Vec::new();
        let mut i: usize = 0;
        proof {
            assert(ns.take(0) =~= Seq::<Seq<char>>::empty());
            assert(names(dispatched@) =~= Seq::<Seq<char>>::empty());
        }
        while i < fs.len()
            invariant
                ns == names(fs@),
                i <= fs@.len(),
                comp == self.completed(),
                self.wf(),
                forall|x: Seq<char>| #[trigger] rem0.contains(x) ==> has_entry(ws.tasks@, x),
                ({
                    let (rem, ip, d) = dispatch_fold(ws, rem0, ip0, comp, ns.take(i as int));
                    &&& self.remaining() == rem
                    &&& self.in_progress() == ip
                    &&& names(dispatched@) == d
                }),
            decreases fs@.len() - i,
        {
            proof {
                assert(ns.take(i + 1).drop_last() =~= ns.take(i as int));
                assert(ns.take(i + 1).last() == fs@[i as int]@);
                lemma_fold_shrinks(ws, rem0, ip0, comp, ns.take(i as int));
            }
            let f = fs[i].as_str();
            let can_start = self.can_start(f, ws);
            if can_start {
                remove_name(&mut self.remaining, f);
                insert_name(&mut self.in_progress, String::from_str(f));
                let ghost prev = dispatched@;
                dispatched.push(String::from_str(f));
                proof {
                    assert(names(dispatched@) =~= names(prev).push(f@));
                }
            }
            i = i + 1;
        }
        proof {
            assert(ns.take(i as int) =~= ns);
            lemma_fold_shrinks(ws, rem0, ip0, comp, ns);
            assert forall|x: Seq<char>| #[trigger] self.remaining().contains(x) implies has_entry(ws.tasks@, x) by {
                assert(rem0.contains(x));
            }
        }
        dispatched
    }

    /// Marks `task` completed, and starts each task that waits for it (in
    /// the order the edge list gives) and can start now.
    pub fn job_completed(&mut self, task: &str, ws: &Workspace, edges: &Vec<(String, Vec<String>)>) -> (r: Vec<String>)
        requires
            old(self).tracks(ws),
            edges_wf(edges@),
        ensures
            final(self).completed() == old(self).completed().insert(task@),
            ({
                let (rem, ip, d) = dispatch_fold(
                    ws,
                    old(self).remaining(),
                    old(self).in_progress().remove(task@),
                    old(self).completed().insert(task@),
                    forward_of(edges@, task@),
                );
                &&& final(self).remaining() == rem
                &&& final(self).in_progress() == ip
                &&& names(r@) == d
            }),
            final(self).tracks(ws),
    {
        insert_name(&mut self.completed, String::from_str(task));
        remove_name(&mut self.in_progress, task);
        proof {
            assert(self.remaining@ == old(self).remaining@);
            assert(self.remaining() == old(self).remaining());
            assert(self.wf());
        }
        let empty: Vec<String> = Vec::new();
        let mut pos: Option<usize> = None;
        let mut j: usize = 0;
        while j < edges.len()
            invariant
                j <= edges@.len(),
                pos is None ==> forall|k: int| 0 <= k < j ==> (#[trigger] edges@[k]).0@ != task@,
                pos matches Some(p) ==> p < edges@.len() && edges@[p as int].0@ == task@,
            decreases edges@.len() - j,
        {
            if pos.is_none() && str_eq(edges[j].0.as_str(), task) {
                pos = Some(j);
            }
            j = j + 1;
        }
        let fwd: &Vec<String> = match pos {
            Some(p) => &edges[p].1,
            None => &empty,
        };
        proof {
            match pos {
                Some(p) => {
                    let c = choose|k: int| 0 <= k < edges@.len() && (#[trigger] edges@[k]).0@ == task@;
                    if c != p as int {
                        if c < p as int {
                            assert(edges@[c].0@ != edges@[p as int].0@);
                        } else {
                            assert(edges@[p as int].0@ != edges@[c].0@);
                        }
                    }
                    assert(names(fwd@) == forward_of(edges@, task@));
                },
                None => {
                    assert(names(fwd@) =~= Seq::<Seq<char>>::empty());
                    assert(names(fwd@) == forward_of(edges@, task@));
                },
            }
        }
        self.dispatch(fwd, ws)
    }

    /// Whether job `f` can start now.
    fn can_start(&self, f: &str, ws: &Workspace) -> (b: bool)
        requires
            forall|x: Seq<char>| #[trigger] self.remaining().contains(x) ==> has_entry(ws.tasks@, x),
        ensures
            b == available(ws, self.remaining(), self.in_progress(), self.completed(), f@),
    {
        if !has_name(&self.remaining, f) {
            return false;
        }
        proof {
            assert(self.remaining().contains(f@));
        }
        let t = match find_entry(&ws.tasks, f) {
            Some(t) => t,
            None => {
                return false;
            },
        };
        proof {
            lemma_first_index_exact(ws, f@, t as int);
        }
        let task = &ws.tasks[t].1;
        let deps = get_task_job_dependencies(task);
        let mut k: usize = 0;
        while k < deps.len()
            invariant
                k <= deps@.len(),
                names(deps@) == job_deps(task),
                task_named(ws, f@) == *task,
                self.remaining().contains(f@),
                forall|m: int| 0 <= m < k ==> self.completed().contains(#[trigger] deps@[m]@),
            decreases deps@.len() - k,
        {
            if !has_name(&self.completed, deps[k].as_str()) {
                proof {
                    let d = deps@[k as int]@;
                    assert(names(deps@)[k as int] == d);
                    assert(job_deps(task).contains(d));
                    assert(!names(self.completed@).contains(d));
                    assert(!self.completed().contains(d));
                }
                return false;
            }
            k = k + 1;
        }
        let mut a: usize = 0;
        while a < task.execute_after.len()
            invariant
                a <= task.execute_after@.len(),
                task_named(ws, f@) == *task,
                self.remaining().contains(f@),
                forall|m: int|
                    0 <= m < a ==> !self.remaining().contains(#[trigger] task.execute_after@[m]@)
                        && !self.in_progress().contains(task.execute_after@[m]@),
            decreases task.execute_after@.len() - a,
        {
            let x = task.execute_after[a].as_str();
            if has_name(&self.remaining, x) || has_name(&self.in_progress, x) {
                proof {
                    assert(names(task.execute_after@)[a as int] == x@);
                    assert(names(task.execute_after@).contains(x@));
                    if names(self.remaining@).contains(x@) {
                        assert(self.remaining().contains(x@));
                    } else {
                        assert(self.in_progress().contains(x@));
                    }
                }
                return false;
            }
            a = a + 1;
        }
        proof {
            assert forall|x: Seq<char>| #[trigger] job_deps(task).contains(x) implies self.completed().contains(x) by {
                let m = choose|m: int| 0 <= m < names(deps@).len() && names(deps@)[m] == x;
                assert(self.completed().contains(deps@[m]@));
            }
            assert forall|x: Seq<char>| #[trigger] names(task.execute_after@).contains(x) implies !self.remaining().contains(
                x,
            ) && !self.in_progress().contains(x) by {
                let m = choose|m: int|
                    0 <= m < names(task.execute_after@).len() && names(task.execute_after@)[m] == x;
                assert(!self.remaining().contains(task.execute_after@[m]@));
            }
        }
        true
    }

    /// How many jobs have completed.
    pub fn completed_count(&self) -> (n: usize)
        requires
            self.wf(),
        ensures
            n == self.completed().len(),
    {
        proof {
            names(self.completed@).unique_seq_to_set();
        }
        self.completed.len()
    }
}

} // verus!
