//! Selecting tasks: those of a project directory, or those that a list of
//! names refers to.
use vstd::prelude::*;
use crate::cobble::resolve::{resolve_name, resolve_name_spec, NameResolutionError};
use crate::paths::{join_path, normalized_path, path_starts_with, path_join, path_normalized, path_has_prefix};
use crate::text::str_eq;

verus! {

/// Where a task is defined: the directory of its project, relative to the
/// workspace.
#[derive(Debug)]
pub struct TaskLocation {
    pub dir: String,
}

/// The tasks of a workspace, by full name.
#[derive(Debug)]
pub struct Workspace {
    pub tasks: Vec<(String, TaskLocation)>,
}

impl Workspace {
    /// The full names of the tasks, in order.
    pub open spec fn task_names(&self) -> Seq<Seq<char>> {
        self.tasks@.map_values(|e: (String, TaskLocation)| e.0@)
    }

    /// The project directories of the tasks, in order.
    pub open spec fn task_dirs(&self) -> Seq<Seq<char>> {
        self.tasks@.map_values(|e: (String, TaskLocation)| e.1.dir@)
    }
}

/// The names of the tasks whose directory, under the workspace directory
/// `ws`, lies in the directory `full`.
pub open spec fn tasks_under(names: Seq<Seq<char>>, dirs: Seq<Seq<char>>, ws: Seq<char>, full: Seq<char>) -> Seq<
    Seq<char>,
>
    decreases names.len(),
{
    if names.len() == 0 {
        seq![]
    } else {
        let rest = tasks_under(names.drop_last(), dirs.drop_last(), ws, full);
        if path_has_prefix(path_normalized(path_join(ws, dirs.last())), full) {
            rest.push(names.last())
        } else {
            rest
        }
    }
}

/// The tasks defined in the project directory `project_dir` or below it;
/// both directories are taken under the workspace directory.
pub fn find_tasks_for_dir(workspace: &Workspace, workspace_dir: &str, project_dir: &str) -> (r: Vec<String>)
    ensures
        r@.map_values(|s: String| s@) == tasks_under(
            workspace.task_names(),
            workspace.task_dirs(),
            workspace_dir@,
            path_normalized(path_join(workspace_dir@, project_dir@)),
        ),
{
    let full_project_dir = normalized_path(join_path(workspace_dir, project_dir).as_str());
    let ghost names = workspace.task_names();
    let ghost dirs = workspace.task_dirs();
    let mut r: Vec<String> = Vec::new();
    let mut i: usize = 0;
    proof {
        assert(names.take(0) =~= Seq::<Seq<char>>::empty());
        assert(r@.map_values(|s: String| s@) =~= Seq::<Seq<char>>::empty());
    }
    while i < workspace.tasks.len()
        invariant
            i <= workspace.tasks@.len(),
            names == workspace.task_names(),
            dirs == workspace.task_dirs(),
            full_project_dir@ == path_normalized(path_join(workspace_dir@, project_dir@)),
            r@.map_values(|s: String| s@) == tasks_under(
                names.take(i as int),
                dirs.take(i as int),
                workspace_dir@,
                full_project_dir@,
            ),
        decreases workspace.tasks@.len() - i,
    {
        let task_dir = normalized_path(join_path(workspace_dir, workspace.tasks[i].1.dir.as_str()).as_str());
        let ghost before = r@;
        proof {
            assert(names.take(i as int + 1).drop_last() =~= names.take(i as int));
            assert(dirs.take(i as int + 1).drop_last() =~= dirs.take(i as int));
            assert(dirs.take(i as int + 1).last() == workspace.tasks@[i as int].1.dir@);
            assert(names.take(i as int + 1).last() == workspace.tasks@[i as int].0@);
        }
        if path_starts_with(task_dir.as_str(), full_project_dir.as_str()) {
            r.push(workspace.tasks[i].0.clone());
            proof {
                assert(r@.map_values(|s: String| s@) =~= before.map_values(|s: String| s@).push(
                    workspace.tasks@[i as int].0@,
                ));
            }
        }
        i = i + 1;
    }
    proof {
        assert(names.take(i as int) =~= names);
        assert(dirs.take(i as int) =~= dirs);
    }
    r
}

/// Why a task query could not be answered.
pub enum QueryError {
    InvalidProjectName(Seq<char>),
    PathToStringError(Seq<char>),
    InvalidName(Seq<char>),
}

/// The tasks that the queries refer to, in order, each query resolved from
/// the project `project`; the first query that cannot be resolved, or that
/// names no task, gives the error.
pub open spec fn query_spec(names: Seq<Seq<char>>, project: Seq<char>, queries: Seq<Seq<char>>) -> Result<
    Seq<Seq<char>>,
    QueryError,
>
    decreases queries.len(),
{
    if queries.len() == 0 {
        Ok(seq![])
    } else {
        match resolve_name_spec(project, queries[0]) {
            None => Err(QueryError::InvalidProjectName(project)),
            Some(full) => if names.contains(full) {
                match query_spec(names, project, queries.drop_first()) {
                    Ok(rest) => Ok(seq![full] + rest),
                    Err(e) => Err(e),
                }
            } else {
                Err(QueryError::InvalidName(full))
            },
        }
    }
}

pub open spec fn query_result_view(r: Result<Vec<String>, NameResolutionError>) -> Result<Seq<Seq<char>>, QueryError> {
    match r {
        Ok(v) => Ok(v@.map_values(|s: String| s@)),
        Err(NameResolutionError::InvalidName(n)) => Err(QueryError::InvalidName(n@)),
        Err(NameResolutionError::InvalidProjectName(n)) => Err(QueryError::InvalidProjectName(n@)),
        Err(NameResolutionError::PathToStringError(n)) => Err(QueryError::PathToStringError(n@)),
    }
}

/// Prepends `acc` to the tasks of a successful answer.
pub open spec fn after(acc: Seq<Seq<char>>, r: Result<Seq<Seq<char>>, QueryError>) -> Result<Seq<Seq<char>>, QueryError> {
    match r {
        Ok(rest) => Ok(acc + rest),
        Err(e) => Err(e),
    }
}

fn has_task(workspace: &Workspace, name: &str) -> (b: bool)
    ensures
        b == workspace.task_names().contains(name@),
{
    let mut i: usize = 0;
    while i < workspace.tasks.len()
        invariant
            i <= workspace.tasks@.len(),
            forall|j: int| 0 <= j < i ==> workspace.tasks@[j].0@ != name@,
        decreases workspace.tasks@.len() - i,
    {
        if str_eq(workspace.tasks[i].0.as_str(), name) {
            proof {
                assert(workspace.task_names()[i as int] == name@);
            }
            return true;
        }
        i = i + 1;
    }
    proof {
        if workspace.task_names().contains(name@) {
            let j = choose|j: int| 0 <= j < workspace.task_names().len() && workspace.task_names()[j] == name@;
            assert(workspace.tasks@[j].0@ == name@);
        }
    }
    false
}

/// The tasks that the names in `task_queries` refer to, each resolved from
/// the project `project_name`.
pub fn find_tasks_for_query(workspace: &Workspace, project_name: &str, task_queries: &Vec<String>) -> (r: Result<
    Vec<String>,
    NameResolutionError,
>)
    ensures
        query_result_view(r) == query_spec(
            workspace.task_names(),
            project_name@,
            task_queries@.map_values(|s: String| s@),
        ),
{
    let ghost all = task_queries@.map_values(|s: String| s@);
    let ghost names = workspace.task_names();
    let mut result: Vec<String> = Vec::new();
    let mut i: usize = 0;
    proof {
        assert(all.skip(0) =~= all);
        assert(result@.map_values(|s: String| s@) =~= Seq::<Seq<char>>::empty());
        assert(Seq::<Seq<char>>::empty() + Seq::<Seq<char>>::empty() =~= Seq::<Seq<char>>::empty());
        match query_spec(names, project_name@, all) {
            Ok(l) => {
                assert(Seq::<Seq<char>>::empty() + l =~= l);
            },
            Err(_) => {},
        }
    }
    while i < task_queries.len()
        invariant
            i <= task_queries@.len(),
            all == task_queries@.map_values(|s: String| s@),
            names == workspace.task_names(),
            query_spec(names, project_name@, all) == after(
                result@.map_values(|s: String| s@),
                query_spec(names, project_name@, all.skip(i as int)),
            ),
        decreases task_queries@.len() - i,
    {
        let ghost acc = result@.map_values(|s: String| s@);
        let ghost rest = all.skip(i as int);
        proof {
            assert(rest[0] == task_queries@[i as int]@);
            assert(rest.drop_first() =~= all.skip(i as int + 1));
        }
        let resolved = match resolve_name(project_name, task_queries[i].as_str()) {
            Ok(q) => q,
            Err(e) => {
                return Err(e);
            },
        };
        if has_task(workspace, resolved.as_str()) {
            let ghost full = resolved@;
            result.push(resolved);
            proof {
                assert(result@.map_values(|s: String| s@) =~= acc.push(full));
                match query_spec(names, project_name@, rest.drop_first()) {
                    Ok(l) => {
                        assert(acc + (seq![full] + l) =~= acc.push(full) + l);
                    },
                    Err(_) => {},
                }
            }
        } else {
            return Err(NameResolutionError::InvalidName(resolved));
        }
        i = i + 1;
    }
    proof {
        assert(all.skip(i as int).len() == 0);
        assert(result@.map_values(|s: String| s@) + Seq::<Seq<char>>::empty() =~= result@.map_values(
            |s: String| s@,
        ));
    }
    Ok(result)
}

/// Every task that a query answer names is a task of the workspace.
pub proof fn law_queried_tasks_exist(names: Seq<Seq<char>>, project: Seq<char>, queries: Seq<Seq<char>>)
    ensures
        query_spec(names, project, queries) matches Ok(found) ==> forall|i: int|
            0 <= i < found.len() ==> names.contains(#[trigger] found[i]),
        query_spec(names, project, queries) matches Ok(found) ==> found.len() == queries.len(),
    decreases queries.len(),
{
    if queries.len() > 0 {
        law_queried_tasks_exist(names, project, queries.drop_first());
        if let Ok(found) = query_spec(names, project, queries) {
            let full = resolve_name_spec(project, queries[0])->0;
            let rest = query_spec(names, project, queries.drop_first())->Ok_0;
            assert(found == seq![full] + rest);
            assert forall|i: int| 0 <= i < found.len() implies names.contains(#[trigger] found[i]) by {
                if i > 0 {
                    assert(found[i] == rest[i - 1]);
                }
            }
        }
    }
}

} // verus!
