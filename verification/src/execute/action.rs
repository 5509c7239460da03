//! Running a task's actions: what an action is handed (its context), which
//! action runs next and with what arguments, and what a job starts with.
use vstd::prelude::*;
use crate::config::TaskOutputCondition;
use crate::datamodel::action::Action;
use crate::db::{entries_view, Entries};
use crate::task_input::{first_missing_entry, look_up_all, looked_up, self_keyed};
use crate::text::str_eq;

verus! {

/// What running a task's actions does next.
#[derive(Debug, PartialEq)]
pub enum ActionStep<V> {
    /// Runs the action at `index`, handing it `args` (nil when `None`).
    Run { index: usize, args: Option<V> },
    /// Every action ran: the task's result is the last action's (nil when
    /// there was none).
    Done(Option<V>),
    /// An action failed: the task fails with its message.
    Failed(String),
}

/// The step after `done` of the `n_actions` actions have run, `last` being
/// what the last of them gave (`None` before the first): the first action
/// gets nil arguments, each next one what the one before returned, an error
/// stops the run, and the last action's result is the task's.
pub open spec fn action_step_spec<V>(n_actions: nat, done: nat, last: Option<Result<V, String>>) -> ActionStep<V> {
    match last {
        None => if done < n_actions {
            ActionStep::Run { index: done as usize, args: None }
        } else {
            ActionStep::Done(None)
        },
        Some(Err(m)) => ActionStep::Failed(m),
        Some(Ok(v)) => if done < n_actions {
            ActionStep::Run { index: done as usize, args: Some(v) }
        } else {
            ActionStep::Done(Some(v))
        },
    }
}

/// Decides what running a task's actions does next, once `done` of its
/// `n_actions` actions have run and the last of them gave `last`.
pub fn next_action_step<V>(n_actions: usize, done: usize, last: Option<Result<V, String>>) -> (r: ActionStep<V>)
    ensures
        r == action_step_spec(n_actions as nat, done as nat, last),
{
    match last {
        None => if done < n_actions {
            ActionStep::Run { index: done, args: None }
        } else {
            ActionStep::Done(None)
        },
        Some(Err(m)) => ActionStep::Failed(m),
        Some(Ok(v)) => if done < n_actions {
            ActionStep::Run { index: done, args: Some(v) }
        } else {
            ActionStep::Done(Some(v))
        },
    }
}

/// When a job shows its standard output and error: a task's own setting
/// where it has one, else the workspace's.
pub fn job_output_conditions(
    own_stdout: Option<TaskOutputCondition>,
    own_stderr: Option<TaskOutputCondition>,
    workspace_stdout: TaskOutputCondition,
    workspace_stderr: TaskOutputCondition,
) -> (r: (TaskOutputCondition, TaskOutputCondition))
    ensures
        r.0 == (match own_stdout {
            Some(c) => c,
            None => workspace_stdout,
        }),
        r.1 == (match own_stderr {
            Some(c) => c,
            None => workspace_stderr,
        }),
{
    let out = match own_stdout {
        Some(c) => c,
        None => workspace_stdout,
    };
    let err = match own_stderr {
        Some(c) => c,
        None => workspace_stderr,
    };
    (out, err)
}

/// The table `t` with `k` set to `v`: the entry of `k` takes the new value,
/// or a new entry is added at the end.
pub open spec fn set_entry(t: Entries, k: Seq<char>, v: Seq<char>) -> Entries {
    if exists|i: int| 0 <= i < t.len() && #[trigger] t[i].0 == k {
        t.update(choose|i: int| 0 <= i < t.len() && #[trigger] t[i].0 == k, (k, v))
    } else {
        t.push((k, v))
    }
}

/// The table `t` with each entry of `pairs` set in turn: a later entry of a
/// key wins.
pub open spec fn set_entries(t: Entries, pairs: Entries) -> Entries
    decreases pairs.len(),
{
    if pairs.len() == 0 {
        t
    } else {
        set_entry(set_entries(t, pairs.drop_last()), pairs.last().0, pairs.last().1)
    }
}

/// No key occurs twice.
pub open spec fn distinct_keys(t: Entries) -> bool {
    forall|i: int, j: int| 0 <= i < j < t.len() ==> #[trigger] t[i].0 != #[trigger] t[j].0
}

/// Sets each entry of `pairs` in the table `t`, in turn.
fn set_all(t: &mut Vec<(String, String)>, pairs: &Vec<(String, String)>)
    requires
        distinct_keys(entries_view(old(t)@)),
    ensures
        distinct_keys(entries_view(final(t)@)),
        entries_view(final(t)@) == set_entries(entries_view(old(t)@), entries_view(pairs@)),
{
    let ghost t0 = entries_view(t@);
    let ghost pv = entries_view(pairs@);
    let mut i: usize = 0;
    proof {
        assert(pv.take(0) =~= Seq::<(Seq<char>, Seq<char>)>::empty());
    }
    while i < pairs.len()
        invariant
            i <= pairs@.len(),
            pv == entries_view(pairs@),
            distinct_keys(entries_view(t@)),
            entries_view(t@) == set_entries(t0, pv.take(i as int)),
        decreases pairs@.len() - i,
    {
        proof {
            assert(pv.take(i + 1).drop_last() =~= pv.take(i as int));
            assert(pv.take(i + 1).last() == pv[i as int]);
        }
        let k = &pairs[i].0;
        let v = &pairs[i].1;
        let ghost tv = entries_view(t@);
        let mut j: usize = 0;
        let mut found: Option<usize> = None;
        while j < t.len()
            invariant
                j <= t@.len(),
                tv == entries_view(t@),
                found is None ==> forall|m: int| 0 <= m < j ==> #[trigger] tv[m].0 != k@,
                found matches Some(f) ==> (f as int) < tv.len() && tv[f as int].0 == k@,
            decreases t@.len() - j,
        {
            if found.is_none() && str_eq(t[j].0.as_str(), k.as_str()) {
                found = Some(j);
            }
            j = j + 1;
        }
        match found {
            Some(f) => {
                t.set(f, (k.clone(), v.clone()));
                proof {
                    let c = choose|m: int| 0 <= m < tv.len() && #[trigger] tv[m].0 == k@;
                    if c != f as int {
                        if c < f as int {
                            assert(tv[c].0 != tv[f as int].0);
                        } else {
                            assert(tv[f as int].0 != tv[c].0);
                        }
                    }
                    assert(entries_view(t@) =~= tv.update(f as int, (k@, v@)));
                    assert forall|a: int, b: int| 0 <= a < b < entries_view(t@).len() implies #[trigger] entries_view(
                        t@,
                    )[a].0 != #[trigger] entries_view(t@)[b].0 by {
                        assert(tv[a].0 != tv[b].0);
                    }
                }
            },
            None => {
                t.push((k.clone(), v.clone()));
                proof {
                    assert(entries_view(t@) =~= tv.push((k@, v@)));
                    assert forall|a: int, b: int| 0 <= a < b < entries_view(t@).len() implies #[trigger] entries_view(
                        t@,
                    )[a].0 != #[trigger] entries_view(t@)[b].0 by {
                        if b < tv.len() {
                            assert(tv[a].0 != tv[b].0);
                        } else {
                            assert(tv[a].0 != k@);
                        }
                    }
                }
            },
        }
        i = i + 1;
    }
    proof {
        assert(pv.take(i as int) =~= pv);
    }
}

/// What an action is handed: the task it runs for (its `out` and `err`
/// write as that task's standard output and error), the action itself, its
/// tools and build environments by alias, the hashes and paths of its
/// task's files by alias, the outputs of the tasks it depends on by alias,
/// the values of its variables by name, its project's directory, and its
/// arguments.
#[derive(Debug)]
pub struct ActionContextData<V> {
    pub task_name: String,
    pub action: Action,
    pub args: V,
    pub tools: Vec<(String, String)>,
    pub envs: Vec<(String, String)>,
    pub file_hashes: Vec<(String, String)>,
    pub file_paths: Vec<(String, String)>,
    pub tasks: Vec<(String, String)>,
    pub vars: Vec<(String, String)>,
    pub project_dir: String,
}

/// Why an action's context could not be put together.
#[derive(Debug)]
pub enum ActionContextError {
    /// A file of the task has no hash: its alias and path.
    FileHashMissing(String, String),
    /// A task it depends on has no output yet.
    TaskOutputMissing(String),
    /// A variable it uses has no value.
    VarLookupError(String),
}

/// The model of an `ActionContextData`.
pub struct ActionContextView {
    pub tools: Entries,
    pub envs: Entries,
    pub file_hashes: Entries,
    pub file_paths: Entries,
    pub tasks: Entries,
    pub vars: Entries,
    pub project_dir: Seq<char>,
}

pub enum ActionContextErrorView {
    FileHashMissing(Seq<char>, Seq<char>),
    TaskOutputMissing(Seq<char>),
    VarLookupError(Seq<char>),
}

impl<V> ActionContextData<V> {
    pub open spec fn view(&self) -> ActionContextView {
        ActionContextView {
            tools: entries_view(self.tools@),
            envs: entries_view(self.envs@),
            file_hashes: entries_view(self.file_hashes@),
            file_paths: entries_view(self.file_paths@),
            tasks: entries_view(self.tasks@),
            vars: entries_view(self.vars@),
            project_dir: self.project_dir@,
        }
    }
}

pub open spec fn action_context_error_view(e: ActionContextError) -> ActionContextErrorView {
    match e {
        ActionContextError::FileHashMissing(a, p) => ActionContextErrorView::FileHashMissing(a@, p@),
        ActionContextError::TaskOutputMissing(t) => ActionContextErrorView::TaskOutputMissing(t@),
        ActionContextError::VarLookupError(v) => ActionContextErrorView::VarLookupError(v@),
    }
}

/// The context of an action of a task: the task's tools and build
/// environments with the action's own set over them; the hash of each file
/// of the task (looked up by its path) and its path, by alias; the output of
/// each task it depends on (looked up by task name), by alias; the value of
/// each variable it uses, by name; the project directory. A file without a
/// hash, then a task without output, then a variable without value is the
/// error.
pub open spec fn action_context_spec(
    task_tools: Entries,
    task_envs: Entries,
    action_tools: Entries,
    action_envs: Entries,
    file_deps: Entries,
    file_hashes: Entries,
    task_deps: Entries,
    task_outputs: Entries,
    var_deps: Seq<String>,
    vars: Entries,
    project_dir: Seq<char>,
) -> Result<ActionContextView, ActionContextErrorView> {
    match looked_up(file_deps, file_hashes) {
        None => Err(
            ActionContextErrorView::FileHashMissing(
                first_missing_entry(file_deps, file_hashes).0,
                first_missing_entry(file_deps, file_hashes).1,
            ),
        ),
        Some(fh) => match looked_up(task_deps, task_outputs) {
            None => Err(ActionContextErrorView::TaskOutputMissing(first_missing_entry(task_deps, task_outputs).1)),
            Some(tv) => match looked_up(self_keyed(var_deps), vars) {
                None => Err(ActionContextErrorView::VarLookupError(first_missing_entry(self_keyed(var_deps), vars).1)),
                Some(vv) => Ok(
                    ActionContextView {
                        tools: set_entries(set_entries(seq![], task_tools), action_tools),
                        envs: set_entries(set_entries(seq![], task_envs), action_envs),
                        file_hashes: fh,
                        file_paths: file_deps,
                        tasks: tv,
                        vars: vv,
                        project_dir,
                    },
                ),
            },
        },
    }
}

fn copy_entries(v: &Vec<(String, String)>) -> (r: Vec<(String, String)>)
    ensures
        entries_view(r@) == entries_view(v@),
{
    let mut r: Vec<(String, String)> = Vec::new();
    let mut i: usize = 0;
    while i < v.len()
        invariant
            i <= v@.len(),
            entries_view(r@) == entries_view(v@).take(i as int),
        decreases v@.len() - i,
    {
        let ghost prev = r@;
        r.push((v[i].0.clone(), v[i].1.clone()));
        proof {
            assert(entries_view(r@) =~= entries_view(prev).push((v@[i as int].0@, v@[i as int].1@)));
            assert(entries_view(v@).take(i + 1) =~= entries_view(v@).take(i as int).push(
                (v@[i as int].0@, v@[i as int].1@),
            ));
        }
        i = i + 1;
    }
    proof {
        assert(entries_view(v@).take(i as int) =~= entries_view(v@));
    }
    r
}

/// Puts together the context of `action`, an action of the task
/// `task_name` with the given tools, build environments, files (alias and
/// path), task dependencies (alias and task name) and variables (by name),
/// from the hashes of the files by path, the outputs of tasks by name and
/// the values of variables by name; the action is handed `args`.
pub fn action_context<V>(
    task_name: &str,
    task_tools: &Vec<(String, String)>,
    task_envs: &Vec<(String, String)>,
    action: Action,
    file_deps: &Vec<(String, String)>,
    file_hashes: &Vec<(String, String)>,
    task_deps: &Vec<(String, String)>,
    task_outputs: &Vec<(String, String)>,
    var_deps: &Vec<String>,
    vars: &Vec<(String, String)>,
    project_dir: &str,
    args: V,
) -> (r: Result<ActionContextData<V>, ActionContextError>)
    ensures
        r matches Ok(x) ==> x.task_name@ == task_name@ && x.action == action && x.args == args,
        match action_context_spec(
            entries_view(task_tools@),
            entries_view(task_envs@),
            entries_view(action.tools@),
            entries_view(action.build_envs@),
            entries_view(file_deps@),
            entries_view(file_hashes@),
            entries_view(task_deps@),
            entries_view(task_outputs@),
            var_deps@,
            entries_view(vars@),
            project_dir@,
        ) {
            Ok(c) => r matches Ok(x) && x.view() == c,
            Err(e) => r matches Err(x) && action_context_error_view(x) == e,
        },
{
    let fh = match look_up_all(file_deps, file_hashes) {
        Ok(v) => v,
        Err(k) => {
            return Err(ActionContextError::FileHashMissing(file_deps[k].0.clone(), file_deps[k].1.clone()));
        },
    };
    let tv = match look_up_all(task_deps, task_outputs) {
        Ok(v) => v,
        Err(k) => {
            return Err(ActionContextError::TaskOutputMissing(task_deps[k].1.clone()));
        },
    };
    let mut var_pairs: Vec<(String, String)> = Vec::new();
    let mut i: usize = 0;
    while i < var_deps.len()
        invariant
            i <= var_deps@.len(),
            entries_view(var_pairs@) == self_keyed(var_deps@.take(i as int)),
        decreases var_deps@.len() - i,
    {
        let n = &var_deps[i];
        let ghost prev = var_pairs@;
        var_pairs.push((n.clone(), n.clone()));
        proof {
            assert(entries_view(var_pairs@) =~= entries_view(prev).push((n@, n@)));
            assert(var_deps@.take(i + 1) =~= var_deps@.take(i as int).push(*n));
            assert(self_keyed(var_deps@.take(i + 1)) =~= self_keyed(var_deps@.take(i as int)).push((n@, n@)));
        }
        i = i + 1;
    }
    proof {
        assert(var_deps@.take(i as int) =~= var_deps@);
    }
    let vv = match look_up_all(&var_pairs, vars) {
        Ok(v) => v,
        Err(k) => {
            return Err(ActionContextError::VarLookupError(var_pairs[k].1.clone()));
        },
    };
    let mut tools: Vec<(String, String)> = Vec::new();
    let mut envs: Vec<(String, String)> = Vec::new();
    proof {
        assert(entries_view(tools@) =~= Seq::<(Seq<char>, Seq<char>)>::empty());
        assert(entries_view(envs@) =~= Seq::<(Seq<char>, Seq<char>)>::empty());
    }
    set_all(&mut tools, task_tools);
    set_all(&mut tools, &action.tools);
    set_all(&mut envs, task_envs);
    set_all(&mut envs, &action.build_envs);
    Ok(
        ActionContextData {
            task_name: String::from_str(task_name),
            action,
            args,
            tools,
            envs,
            file_hashes: fh,
            file_paths: copy_entries(file_deps),
            tasks: tv,
            vars: vv,
            project_dir: String::from_str(project_dir),
        },
    )
}

} // verus!
