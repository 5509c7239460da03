//! The build units of the projects (build environments, tools and tasks)
//! with every name they use made full.
use vstd::prelude::*;
use crate::cobble::datamodel::{Artifact, Dependency, DependencyView, dependency_view};
use crate::cobble::resolve::{
    resolve_name, resolve_name_spec, resolve_names_in_artifact, resolve_names_in_dependency, NameResolutionError,
};
use crate::paths::path_join;

verus! {

/// What an action runs: a command line, or the dumped source of a function.
#[derive(Debug)]
pub enum ActionCmd {
    Cmd(Vec<String>),
    Func(Vec<u8>),
}

/// An action: the tools and build environments it uses, each under an
/// alias, and what it runs.
#[derive(Debug)]
pub struct Action {
    pub tools: Vec<(String, String)>,
    pub build_envs: Vec<(String, String)>,
    pub cmd: ActionCmd,
}

/// A build environment: its name, the actions that install it, what it
/// depends on, and the action that runs in it.
#[derive(Debug)]
pub struct BuildEnv {
    pub name: String,
    pub install: Vec<Action>,
    pub deps: Vec<Dependency>,
    pub action: Action,
}

/// An external tool: its name, the actions that install and check it, and
/// the action that runs it.
#[derive(Debug)]
pub struct ExternalTool {
    pub name: String,
    pub install: Option<Action>,
    pub check: Option<Action>,
    pub action: Action,
}

/// A task: its name, the build environment it runs in (under an alias), its
/// actions, dependencies and artifacts.
#[derive(Debug)]
pub struct Task {
    pub name: String,
    pub build_env: Option<(String, String)>,
    pub actions: Vec<Action>,
    pub deps: Vec<Dependency>,
    pub artifacts: Vec<Artifact>,
}

/// A project: its full name, its directory, and what it defines.
#[derive(Debug)]
pub struct Project {
    pub name: String,
    pub path: String,
    pub build_envs: Vec<BuildEnv>,
    pub tasks: Vec<Task>,
    pub tools: Vec<ExternalTool>,
}

/// The build units of all projects.
#[derive(Debug)]
pub struct BuildUnitCollection {
    pub build_envs: Vec<BuildEnv>,
    pub tools: Vec<ExternalTool>,
    pub tasks: Vec<Task>,
}

pub enum CmdView {
    Cmd(Seq<Seq<char>>),
    Func(Seq<u8>),
}

pub struct ActionView {
    pub tools: Seq<(Seq<char>, Seq<char>)>,
    pub build_envs: Seq<(Seq<char>, Seq<char>)>,
    pub cmd: CmdView,
}

pub struct BuildEnvView {
    pub name: Seq<char>,
    pub install: Seq<ActionView>,
    pub deps: Seq<DependencyView>,
    pub action: ActionView,
}

pub struct ToolView {
    pub name: Seq<char>,
    pub install: Option<ActionView>,
    pub check: Option<ActionView>,
    pub action: ActionView,
}

pub struct TaskView {
    pub name: Seq<char>,
    pub build_env: Option<(Seq<char>, Seq<char>)>,
    pub actions: Seq<ActionView>,
    pub deps: Seq<DependencyView>,
    pub artifacts: Seq<Seq<char>>,
}

pub open spec fn pairs_view(v: Seq<(String, String)>) -> Seq<(Seq<char>, Seq<char>)> {
    v.map_values(|e: (String, String)| (e.0@, e.1@))
}

pub open spec fn cmd_view(c: ActionCmd) -> CmdView {
    match c {
        ActionCmd::Cmd(v) => CmdView::Cmd(v@.map_values(|s: String| s@)),
        ActionCmd::Func(b) => CmdView::Func(b@),
    }
}

pub open spec fn action_view(a: Action) -> ActionView {
    ActionView { tools: pairs_view(a.tools@), build_envs: pairs_view(a.build_envs@), cmd: cmd_view(a.cmd) }
}

pub open spec fn actions_view(v: Seq<Action>) -> Seq<ActionView> {
    v.map_values(|a: Action| action_view(a))
}

pub open spec fn deps_view(v: Seq<Dependency>) -> Seq<DependencyView> {
    v.map_values(|d: Dependency| dependency_view(d))
}

pub open spec fn opt_action_view(a: Option<Action>) -> Option<ActionView> {
    match a {
        Some(x) => Some(action_view(x)),
        None => None,
    }
}

pub open spec fn build_env_view(e: BuildEnv) -> BuildEnvView {
    BuildEnvView {
        name: e.name@,
        install: actions_view(e.install@),
        deps: deps_view(e.deps@),
        action: action_view(e.action),
    }
}

pub open spec fn tool_view(t: ExternalTool) -> ToolView {
    ToolView {
        name: t.name@,
        install: opt_action_view(t.install),
        check: opt_action_view(t.check),
        action: action_view(t.action),
    }
}

pub open spec fn task_view(t: Task) -> TaskView {
    TaskView {
        name: t.name@,
        build_env: match t.build_env {
            Some((a, e)) => Some((a@, e@)),
            None => None,
        },
        actions: actions_view(t.actions@),
        deps: deps_view(t.deps@),
        artifacts: t.artifacts@.map_values(|a: Artifact| a.filename@),
    }
}

/// `name` can be resolved from the project `project`.
pub open spec fn name_ok(project: Seq<char>, name: Seq<char>) -> bool {
    resolve_name_spec(project, name) is Some
}

pub open spec fn full(project: Seq<char>, name: Seq<char>) -> Seq<char> {
    resolve_name_spec(project, name)->0
}

/// The alias pairs with each name made full.
pub open spec fn resolved_pairs(project: Seq<char>, p: Seq<(Seq<char>, Seq<char>)>) -> Seq<(Seq<char>, Seq<char>)> {
    p.map_values(|e: (Seq<char>, Seq<char>)| (e.0, full(project, e.1)))
}

pub open spec fn pairs_ok(project: Seq<char>, p: Seq<(Seq<char>, Seq<char>)>) -> bool {
    forall|i: int| 0 <= i < p.len() ==> name_ok(project, #[trigger] p[i].1)
}

/// An action with its build environment names made full; tool names are
/// global and stay as they are.
pub open spec fn resolved_action(project: Seq<char>, a: ActionView) -> ActionView {
    ActionView { tools: a.tools, build_envs: resolved_pairs(project, a.build_envs), cmd: a.cmd }
}

pub open spec fn action_ok(project: Seq<char>, a: ActionView) -> bool {
    pairs_ok(project, a.build_envs)
}

pub open spec fn actions_ok(project: Seq<char>, v: Seq<ActionView>) -> bool {
    forall|i: int| 0 <= i < v.len() ==> action_ok(project, #[trigger] v[i])
}

pub open spec fn resolved_actions(project: Seq<char>, v: Seq<ActionView>) -> Seq<ActionView> {
    v.map_values(|a: ActionView| resolved_action(project, a))
}

/// A dependency with its name made full: a file is taken from the project
/// directory, a task name is resolved from the project.
pub open spec fn resolved_dep(project: Seq<char>, path: Seq<char>, d: DependencyView) -> DependencyView {
    match d {
        DependencyView::File(f) => DependencyView::File(path_join(path, f)),
        DependencyView::Task(t) => DependencyView::Task(full(project, t)),
    }
}

pub open spec fn dep_ok(project: Seq<char>, d: DependencyView) -> bool {
    match d {
        DependencyView::File(_) => true,
        DependencyView::Task(t) => name_ok(project, t),
    }
}

pub open spec fn deps_ok(project: Seq<char>, v: Seq<DependencyView>) -> bool {
    forall|i: int| 0 <= i < v.len() ==> dep_ok(project, #[trigger] v[i])
}

pub open spec fn resolved_deps(project: Seq<char>, path: Seq<char>, v: Seq<DependencyView>) -> Seq<DependencyView> {
    v.map_values(|d: DependencyView| resolved_dep(project, path, d))
}

pub open spec fn build_env_ok(project: Seq<char>, e: BuildEnvView) -> bool {
    &&& name_ok(project, e.name)
    &&& actions_ok(project, e.install)
    &&& deps_ok(project, e.deps)
    &&& action_ok(project, e.action)
}

pub open spec fn resolved_build_env(project: Seq<char>, path: Seq<char>, e: BuildEnvView) -> BuildEnvView {
    BuildEnvView {
        name: full(project, e.name),
        install: resolved_actions(project, e.install),
        deps: resolved_deps(project, path, e.deps),
        action: resolved_action(project, e.action),
    }
}

pub open spec fn opt_action_ok(project: Seq<char>, a: Option<ActionView>) -> bool {
    match a {
        Some(x) => action_ok(project, x),
        None => true,
    }
}

pub open spec fn resolved_opt_action(project: Seq<char>, a: Option<ActionView>) -> Option<ActionView> {
    match a {
        Some(x) => Some(resolved_action(project, x)),
        None => None,
    }
}

pub open spec fn tool_ok(project: Seq<char>, t: ToolView) -> bool {
    opt_action_ok(project, t.install) && opt_action_ok(project, t.check) && action_ok(project, t.action)
}

/// A tool with the names of its actions made full; its own name is global.
pub open spec fn resolved_tool(project: Seq<char>, t: ToolView) -> ToolView {
    ToolView {
        name: t.name,
        install: resolved_opt_action(project, t.install),
        check: resolved_opt_action(project, t.check),
        action: resolved_action(project, t.action),
    }
}

/// Each build environment that an action of a resolved tool (its main
/// action, and its install and check actions) uses keeps its alias and
/// names the environment by the full name that the tool's project resolves
/// it to; the tool names, the command and the tool's own name stay.
pub proof fn law_tool_actions_use_full_names(project: Seq<char>, t: ToolView)
    requires
        tool_ok(project, t),
    ensures
        ({
            let r = resolved_tool(project, t);
            &&& r.name == t.name
            &&& r.action.tools == t.action.tools
            &&& r.action.cmd == t.action.cmd
            &&& r.action.build_envs.len() == t.action.build_envs.len()
            &&& forall|k: int|
                0 <= k < t.action.build_envs.len() ==> {
                    &&& (#[trigger] r.action.build_envs[k]).0 == t.action.build_envs[k].0
                    &&& resolve_name_spec(project, t.action.build_envs[k].1) == Some(r.action.build_envs[k].1)
                }
            &&& (t.install matches Some(a) ==> (r.install matches Some(b) && forall|k: int|
                0 <= k < a.build_envs.len() ==> b.build_envs.len() == a.build_envs.len()
                    && (#[trigger] b.build_envs[k]).0 == a.build_envs[k].0
                    && resolve_name_spec(project, a.build_envs[k].1) == Some(b.build_envs[k].1)))
            &&& (t.check matches Some(a) ==> (r.check matches Some(b) && forall|k: int|
                0 <= k < a.build_envs.len() ==> b.build_envs.len() == a.build_envs.len()
                    && (#[trigger] b.build_envs[k]).0 == a.build_envs[k].0
                    && resolve_name_spec(project, a.build_envs[k].1) == Some(b.build_envs[k].1)))
            &&& (t.install is None ==> r.install is None)
            &&& (t.check is None ==> r.check is None)
        }),
{
    let r = resolved_tool(project, t);
    assert forall|k: int| 0 <= k < t.action.build_envs.len() implies {
        &&& (#[trigger] r.action.build_envs[k]).0 == t.action.build_envs[k].0
        &&& resolve_name_spec(project, t.action.build_envs[k].1) == Some(r.action.build_envs[k].1)
    } by {
        assert(name_ok(project, t.action.build_envs[k].1));
    }
    if let Some(a) = t.install {
        let b = r.install->0;
        assert forall|k: int| 0 <= k < a.build_envs.len() implies b.build_envs.len() == a.build_envs.len()
            && (#[trigger] b.build_envs[k]).0 == a.build_envs[k].0
            && resolve_name_spec(project, a.build_envs[k].1) == Some(b.build_envs[k].1) by {
            assert(name_ok(project, a.build_envs[k].1));
        }
    }
    if let Some(a) = t.check {
        let b = r.check->0;
        assert forall|k: int| 0 <= k < a.build_envs.len() implies b.build_envs.len() == a.build_envs.len()
            && (#[trigger] b.build_envs[k]).0 == a.build_envs[k].0
            && resolve_name_spec(project, a.build_envs[k].1) == Some(b.build_envs[k].1) by {
            assert(name_ok(project, a.build_envs[k].1));
        }
    }
}

pub open spec fn task_ok(project: Seq<char>, t: TaskView) -> bool {
    &&& name_ok(project, t.name)
    &&& (t.build_env matches Some((_, e)) ==> name_ok(project, e))
    &&& actions_ok(project, t.actions)
    &&& deps_ok(project, t.deps)
}

pub open spec fn resolved_task(project: Seq<char>, path: Seq<char>, t: TaskView) -> TaskView {
    TaskView {
        name: full(project, t.name),
        build_env: match t.build_env {
            Some((a, e)) => Some((a, full(project, e))),
            None => None,
        },
        actions: resolved_actions(project, t.actions),
        deps: resolved_deps(project, path, t.deps),
        artifacts: t.artifacts.map_values(|f: Seq<char>| path_join(path, f)),
    }
}

/// Pushing one item keeps a mapped prefix equal to the next mapped prefix.
proof fn lemma_mapped_prefix_push<A, B, C>(
    prev: Seq<A>,
    x: A,
    src: Seq<B>,
    i: int,
    f: spec_fn(A) -> C,
    g: spec_fn(B) -> C,
)
    requires
        0 <= i < src.len(),
        prev.map_values(f) == src.take(i).map_values(g),
        f(x) == g(src[i]),
    ensures
        prev.push(x).map_values(f) == src.take(i + 1).map_values(g),
{
    assert(src.take(i + 1) =~= src.take(i).push(src[i]));
    assert(prev.push(x).map_values(f) =~= prev.map_values(f).push(f(x)));
    assert(src.take(i).push(src[i]).map_values(g) =~= src.take(i).map_values(g).push(g(src[i])));
}

fn copy_strings(v: &Vec<String>) -> (r: Vec<String>)
    ensures
        r@.map_values(|s: String| s@) == v@.map_values(|s: String| s@),
{
    let mut r: Vec<String> = Vec::new();
    let mut i: usize = 0;
    while i < v.len()
        invariant
            i <= v@.len(),
            r@.map_values(|s: String| s@) == v@.take(i as int).map_values(|s: String| s@),
        decreases v@.len() - i,
    {
        let ghost prev = r@;
        let item = v[i].clone();
        r.push(item);
        proof {
            lemma_mapped_prefix_push(prev, item, v@, i as int, |s: String| s@, |s: String| s@);
        }
        i = i + 1;
    }
    proof {
        assert(v@.take(i as int) =~= v@);
    }
    r
}

fn copy_bytes(v: &Vec<u8>) -> (r: Vec<u8>)
    ensures
        r@ == v@,
{
    let mut r: Vec<u8> = Vec::new();
    let mut i: usize = 0;
    while i < v.len()
        invariant
            i <= v@.len(),
            r@ == v@.take(i as int),
        decreases v@.len() - i,
    {
        r.push(v[i]);
        proof {
            assert(v@.take(i as int + 1) =~= v@.take(i as int).push(v@[i as int]));
        }
        i = i + 1;
    }
    proof {
        assert(v@.take(i as int) =~= v@);
    }
    r
}

fn copy_pairs(v: &Vec<(String, String)>) -> (r: Vec<(String, String)>)
    ensures
        pairs_view(r@) == pairs_view(v@),
{
    let mut r: Vec<(String, String)> = Vec::new();
    let mut i: usize = 0;
    while i < v.len()
        invariant
            i <= v@.len(),
            pairs_view(r@) == pairs_view(v@.take(i as int)),
        decreases v@.len() - i,
    {
        let ghost prev = r@;
        let item = (v[i].0.clone(), v[i].1.clone());
        r.push(item);
        proof {
            lemma_mapped_prefix_push(
                prev,
                item,
                v@,
                i as int,
                |e: (String, String)| (e.0@, e.1@),
                |e: (String, String)| (e.0@, e.1@),
            );
        }
        i = i + 1;
    }
    proof {
        assert(v@.take(i as int) =~= v@);
    }
    r
}

fn invalid_project(project_name: &str) -> (e: NameResolutionError)
    ensures
        e matches NameResolutionError::InvalidProjectName(p) && p@ == project_name@,
{
    NameResolutionError::InvalidProjectName(String::from_str(project_name))
}

/// The alias pairs with each name resolved from the project.
fn resolve_pairs(project_name: &str, v: &Vec<(String, String)>) -> (r: Result<Vec<(String, String)>, NameResolutionError>)
    ensures
        r is Ok <==> pairs_ok(project_name@, pairs_view(v@)),
        r matches Ok(x) ==> pairs_view(x@) == resolved_pairs(project_name@, pairs_view(v@)),
        r matches Err(e) ==> (e matches NameResolutionError::InvalidProjectName(p) && p@ == project_name@),
{
    let ghost pv = pairs_view(v@);
    let mut r: Vec<(String, String)> = Vec::new();
    let mut i: usize = 0;
    while i < v.len()
        invariant
            i <= v@.len(),
            pv == pairs_view(v@),
            forall|j: int| 0 <= j < i ==> name_ok(project_name@, #[trigger] pv[j].1),
            pairs_view(r@) == resolved_pairs(project_name@, pv.take(i as int)),
        decreases v@.len() - i,
    {
        match resolve_name(project_name, v[i].1.as_str()) {
            Ok(name) => {
                let ghost prev = r@;
                let item = (v[i].0.clone(), name);
                r.push(item);
                proof {
                    lemma_mapped_prefix_push(
                        prev,
                        item,
                        pv,
                        i as int,
                        |e: (String, String)| (e.0@, e.1@),
                        |e: (Seq<char>, Seq<char>)| (e.0, full(project_name@, e.1)),
                    );
                }
            },
            Err(e) => {
                proof {
                    assert(!name_ok(project_name@, pv[i as int].1));
                }
                return Err(e);
            },
        }
        i = i + 1;
    }
    proof {
        assert(pv.take(i as int) =~= pv);
    }
    Ok(r)
}

fn copy_cmd(c: &ActionCmd) -> (r: ActionCmd)
    ensures
        cmd_view(r) == cmd_view(*c),
{
    match c {
        ActionCmd::Cmd(v) => ActionCmd::Cmd(copy_strings(v)),
        ActionCmd::Func(b) => ActionCmd::Func(copy_bytes(b)),
    }
}

/// An action with its build environment names resolved from the project.
pub fn resolve_names_in_action(project_name: &str, action: &Action) -> (r: Result<Action, NameResolutionError>)
    ensures
        r is Ok <==> action_ok(project_name@, action_view(*action)),
        r matches Ok(a) ==> action_view(a) == resolved_action(project_name@, action_view(*action)),
        r matches Err(e) ==> (e matches NameResolutionError::InvalidProjectName(p) && p@ == project_name@),
{
    let tools = copy_pairs(&action.tools);
    let build_envs = match resolve_pairs(project_name, &action.build_envs) {
        Ok(b) => b,
        Err(e) => {
            return Err(e);
        },
    };
    let cmd = copy_cmd(&action.cmd);
    Ok(Action { tools, build_envs, cmd })
}

fn resolve_action_list(project_name: &str, v: &Vec<Action>) -> (r: Result<Vec<Action>, NameResolutionError>)
    ensures
        r is Ok <==> actions_ok(project_name@, actions_view(v@)),
        r matches Ok(x) ==> actions_view(x@) == resolved_actions(project_name@, actions_view(v@)),
        r matches Err(e) ==> (e matches NameResolutionError::InvalidProjectName(p) && p@ == project_name@),
{
    let ghost av = actions_view(v@);
    let mut r: Vec<Action> = Vec::new();
    let mut i: usize = 0;
    while i < v.len()
        invariant
            i <= v@.len(),
            av == actions_view(v@),
            forall|j: int| 0 <= j < i ==> action_ok(project_name@, #[trigger] av[j]),
            actions_view(r@) == resolved_actions(project_name@, av.take(i as int)),
        decreases v@.len() - i,
    {
        match resolve_names_in_action(project_name, &v[i]) {
            Ok(a) => {
                let ghost prev = r@;
                r.push(a);
                proof {
                    lemma_mapped_prefix_push(
                        prev,
                        a,
                        av,
                        i as int,
                        |a: Action| action_view(a),
                        |a: ActionView| resolved_action(project_name@, a),
                    );
                }
            },
            Err(e) => {
                proof {
                    assert(av[i as int] == action_view(v@[i as int]));
                }
                return Err(e);
            },
        }
        i = i + 1;
    }
    proof {
        assert(av.take(i as int) =~= av);
    }
    Ok(r)
}

fn resolve_dependency_list(project_name: &str, project_path: &str, v: &Vec<Dependency>) -> (r: Result<
    Vec<Dependency>,
    NameResolutionError,
>)
    ensures
        r is Ok <==> deps_ok(project_name@, deps_view(v@)),
        r matches Ok(x) ==> deps_view(x@) == resolved_deps(project_name@, project_path@, deps_view(v@)),
        r matches Err(e) ==> (e matches NameResolutionError::InvalidProjectName(p) && p@ == project_name@),
{
    let ghost dv = deps_view(v@);
    let mut r: Vec<Dependency> = Vec::new();
    let mut i: usize = 0;
    while i < v.len()
        invariant
            i <= v@.len(),
            dv == deps_view(v@),
            forall|j: int| 0 <= j < i ==> dep_ok(project_name@, #[trigger] dv[j]),
            deps_view(r@) == resolved_deps(project_name@, project_path@, dv.take(i as int)),
        decreases v@.len() - i,
    {
        match resolve_names_in_dependency(project_name, project_path, &v[i]) {
            Ok(d) => {
                let ghost prev = r@;
                r.push(d);
                proof {
                    lemma_mapped_prefix_push(
                        prev,
                        d,
                        dv,
                        i as int,
                        |d: Dependency| dependency_view(d),
                        |d: DependencyView| resolved_dep(project_name@, project_path@, d),
                    );
                }
            },
            Err(e) => {
                proof {
                    assert(dv[i as int] == dependency_view(v@[i as int]));
                }
                return Err(e);
            },
        }
        i = i + 1;
    }
    proof {
        assert(dv.take(i as int) =~= dv);
    }
    Ok(r)
}

/// A build environment of a project with every name it uses made full.
pub fn resolve_names_in_build_env(project: &Project, build_env: &BuildEnv) -> (r: Result<
    BuildEnv,
    NameResolutionError,
>)
    ensures
        r is Ok <==> build_env_ok(project.name@, build_env_view(*build_env)),
        r matches Ok(e) ==> build_env_view(e) == resolved_build_env(
            project.name@,
            project.path@,
            build_env_view(*build_env),
        ),
        r matches Err(e) ==> (e matches NameResolutionError::InvalidProjectName(p) && p@ == project.name@),
{
    let name = match resolve_name(project.name.as_str(), build_env.name.as_str()) {
        Ok(n) => n,
        Err(e) => {
            return Err(e);
        },
    };
    let install = match resolve_action_list(project.name.as_str(), &build_env.install) {
        Ok(x) => x,
        Err(e) => {
            return Err(e);
        },
    };
    let deps = match resolve_dependency_list(project.name.as_str(), project.path.as_str(), &build_env.deps) {
        Ok(x) => x,
        Err(e) => {
            return Err(e);
        },
    };
    let action = match resolve_names_in_action(project.name.as_str(), &build_env.action) {
        Ok(x) => x,
        Err(e) => {
            return Err(e);
        },
    };
    Ok(BuildEnv { name, install, deps, action })
}

fn resolve_opt_action(project_name: &str, a: &Option<Action>) -> (r: Result<Option<Action>, NameResolutionError>)
    ensures
        r is Ok <==> opt_action_ok(project_name@, opt_action_view(*a)),
        r matches Ok(x) ==> opt_action_view(x) == resolved_opt_action(project_name@, opt_action_view(*a)),
        r matches Err(e) ==> (e matches NameResolutionError::InvalidProjectName(p) && p@ == project_name@),
{
    match a {
        Some(action) => match resolve_names_in_action(project_name, action) {
            Ok(x) => Ok(Some(x)),
            Err(e) => Err(e),
        },
        None => Ok(None),
    }
}

/// A tool of a project with the names its actions use made full.
pub fn resolve_names_in_tool(project: &Project, tool: &ExternalTool) -> (r: Result<
    ExternalTool,
    NameResolutionError,
>)
    ensures
        r is Ok <==> tool_ok(project.name@, tool_view(*tool)),
        r matches Ok(t) ==> tool_view(t) == resolved_tool(project.name@, tool_view(*tool)),
        r matches Err(e) ==> (e matches NameResolutionError::InvalidProjectName(p) && p@ == project.name@),
{
    let name = tool.name.clone();
    let install = match resolve_opt_action(project.name.as_str(), &tool.install) {
        Ok(x) => x,
        Err(e) => {
            return Err(e);
        },
    };
    let check = match resolve_opt_action(project.name.as_str(), &tool.check) {
        Ok(x) => x,
        Err(e) => {
            return Err(e);
        },
    };
    let action = match resolve_names_in_action(project.name.as_str(), &tool.action) {
        Ok(x) => x,
        Err(e) => {
            return Err(e);
        },
    };
    Ok(ExternalTool { name, install, check, action })
}

/// A task of a project with every name it uses made full.
pub fn resolve_names_in_task(project: &Project, task: &Task) -> (r: Result<Task, NameResolutionError>)
    ensures
        r is Ok <==> task_ok(project.name@, task_view(*task)),
        r matches Ok(t) ==> task_view(t) == resolved_task(project.name@, project.path@, task_view(*task)),
        r matches Err(e) ==> (e matches NameResolutionError::InvalidProjectName(p) && p@ == project.name@),
{
    let name = match resolve_name(project.name.as_str(), task.name.as_str()) {
        Ok(n) => n,
        Err(e) => {
            return Err(e);
        },
    };
    let build_env = match &task.build_env {
        Some((alias, env_name)) => match resolve_name(project.name.as_str(), env_name.as_str()) {
            Ok(full_env) => Some((alias.clone(), full_env)),
            Err(e) => {
                return Err(e);
            },
        },
        None => None,
    };
    let actions = match resolve_action_list(project.name.as_str(), &task.actions) {
        Ok(x) => x,
        Err(e) => {
            return Err(e);
        },
    };
    let deps = match resolve_dependency_list(project.name.as_str(), project.path.as_str(), &task.deps) {
        Ok(x) => x,
        Err(e) => {
            return Err(e);
        },
    };
    let ghost av = task.artifacts@.map_values(|a: Artifact| a.filename@);
    let mut artifacts: Vec<Artifact> = Vec::new();
    let mut i: usize = 0;
    while i < task.artifacts.len()
        invariant
            i <= task.artifacts@.len(),
            av == task.artifacts@.map_values(|a: Artifact| a.filename@),
            artifacts@.map_values(|a: Artifact| a.filename@) == av.take(i as int).map_values(
                |f: Seq<char>| path_join(project.path@, f),
            ),
        decreases task.artifacts@.len() - i,
    {
        match resolve_names_in_artifact(project.path.as_str(), &task.artifacts[i]) {
            Ok(a) => {
                let ghost prev = artifacts@;
                artifacts.push(a);
                proof {
                    lemma_mapped_prefix_push(
                        prev,
                        a,
                        av,
                        i as int,
                        |a: Artifact| a.filename@,
                        |f: Seq<char>| path_join(project.path@, f),
                    );
                }
            },
            Err(e) => {
                return Err(e);
            },
        }
        i = i + 1;
    }
    proof {
        assert(av.take(i as int) =~= av);
    }
    Ok(Task { name, build_env, actions, deps, artifacts })
}

/// Every build unit of the project can be resolved.
pub open spec fn project_ok(p: Project) -> bool {
    &&& forall|k: int|
        0 <= k < p.build_envs@.len() ==> build_env_ok(p.name@, build_env_view(#[trigger] p.build_envs@[k]))
    &&& forall|k: int| 0 <= k < p.tools@.len() ==> tool_ok(p.name@, tool_view(#[trigger] p.tools@[k]))
    &&& forall|k: int| 0 <= k < p.tasks@.len() ==> task_ok(p.name@, task_view(#[trigger] p.tasks@[k]))
}

/// The build environments of the project, resolved, in order.
pub open spec fn project_envs(p: Project) -> Seq<BuildEnvView> {
    p.build_envs@.map_values(|e: BuildEnv| resolved_build_env(p.name@, p.path@, build_env_view(e)))
}

/// The tools of the project, resolved, in order.
pub open spec fn project_tools(p: Project) -> Seq<ToolView> {
    p.tools@.map_values(|t: ExternalTool| resolved_tool(p.name@, tool_view(t)))
}

/// The tasks of the project, resolved, in order.
pub open spec fn project_tasks(p: Project) -> Seq<TaskView> {
    p.tasks@.map_values(|t: Task| resolved_task(p.name@, p.path@, task_view(t)))
}

/// The resolved build environments of all projects, project by project.
pub open spec fn all_envs(ps: Seq<Project>) -> Seq<BuildEnvView>
    decreases ps.len(),
{
    if ps.len() == 0 {
        seq![]
    } else {
        all_envs(ps.drop_last()) + project_envs(ps.last())
    }
}

/// The resolved tools of all projects, project by project.
pub open spec fn all_tools(ps: Seq<Project>) -> Seq<ToolView>
    decreases ps.len(),
{
    if ps.len() == 0 {
        seq![]
    } else {
        all_tools(ps.drop_last()) + project_tools(ps.last())
    }
}

/// The resolved tasks of all projects, project by project.
pub open spec fn all_tasks(ps: Seq<Project>) -> Seq<TaskView>
    decreases ps.len(),
{
    if ps.len() == 0 {
        seq![]
    } else {
        all_tasks(ps.drop_last()) + project_tasks(ps.last())
    }
}

/// Pushing one item onto a list that ends in a mapped prefix extends the prefix.
proof fn lemma_appended_prefix_push<A, B, C>(
    prev: Seq<A>,
    x: A,
    base: Seq<C>,
    src: Seq<B>,
    i: int,
    f: spec_fn(A) -> C,
    g: spec_fn(B) -> C,
)
    requires
        0 <= i < src.len(),
        prev.map_values(f) == base + src.take(i).map_values(g),
        f(x) == g(src[i]),
    ensures
        prev.push(x).map_values(f) == base + src.take(i + 1).map_values(g),
{
    assert(src.take(i + 1) =~= src.take(i).push(src[i]));
    assert(prev.push(x).map_values(f) =~= prev.map_values(f).push(f(x)));
    assert(src.take(i).push(src[i]).map_values(g) =~= src.take(i).map_values(g).push(g(src[i])));
    assert(base + src.take(i + 1).map_values(g) =~= (base + src.take(i).map_values(g)).push(g(src[i])));
}

fn push_project_envs(project: &Project, out: &mut Vec<BuildEnv>) -> (r: Result<(), NameResolutionError>)
    ensures
        r is Ok <==> (forall|k: int|
            0 <= k < project.build_envs@.len() ==> build_env_ok(
                project.name@,
                build_env_view(#[trigger] project.build_envs@[k]),
            )),
        r is Ok ==> final(out)@.map_values(|e: BuildEnv| build_env_view(e)) == old(out)@.map_values(
            |e: BuildEnv| build_env_view(e),
        ) + project_envs(*project),
        r matches Err(e) ==> (e matches NameResolutionError::InvalidProjectName(n) && n@ == project.name@),
{
    let ghost base = old(out)@.map_values(|e: BuildEnv| build_env_view(e));
    let ghost src = project.build_envs@;
    let mut k: usize = 0;
    proof {
        assert(src.take(0).map_values(
            |e: BuildEnv| resolved_build_env(project.name@, project.path@, build_env_view(e)),
        ) =~= seq![]);
        assert(base + seq![] =~= base);
    }
    while k < project.build_envs.len()
        invariant
            k <= src.len(),
            src == project.build_envs@,
            base == old(out)@.map_values(|e: BuildEnv| build_env_view(e)),
            forall|j: int| 0 <= j < k ==> build_env_ok(project.name@, build_env_view(#[trigger] src[j])),
            out@.map_values(|e: BuildEnv| build_env_view(e)) == base + src.take(k as int).map_values(
                |e: BuildEnv| resolved_build_env(project.name@, project.path@, build_env_view(e)),
            ),
        decreases src.len() - k,
    {
        match resolve_names_in_build_env(project, &project.build_envs[k]) {
            Ok(e) => {
                let ghost prev = out@;
                out.push(e);
                proof {
                    lemma_appended_prefix_push(
                        prev,
                        e,
                        base,
                        src,
                        k as int,
                        |e: BuildEnv| build_env_view(e),
                        |e: BuildEnv| resolved_build_env(project.name@, project.path@, build_env_view(e)),
                    );
                }
            },
            Err(e) => {
                return Err(e);
            },
        }
        k = k + 1;
    }
    proof {
        assert(src.take(k as int) =~= src);
    }
    Ok(())
}

fn push_project_tools(project: &Project, out: &mut Vec<ExternalTool>) -> (r: Result<(), NameResolutionError>)
    ensures
        r is Ok <==> (forall|k: int|
            0 <= k < project.tools@.len() ==> tool_ok(project.name@, tool_view(#[trigger] project.tools@[k]))),
        r is Ok ==> final(out)@.map_values(|t: ExternalTool| tool_view(t)) == old(out)@.map_values(
            |t: ExternalTool| tool_view(t),
        ) + project_tools(*project),
        r matches Err(e) ==> (e matches NameResolutionError::InvalidProjectName(n) && n@ == project.name@),
{
    let ghost base = old(out)@.map_values(|t: ExternalTool| tool_view(t));
    let ghost src = project.tools@;
    let mut k: usize = 0;
    proof {
        assert(src.take(0).map_values(|t: ExternalTool| resolved_tool(project.name@, tool_view(t))) =~= seq![]);
        assert(base + seq![] =~= base);
    }
    while k < project.tools.len()
        invariant
            k <= src.len(),
            src == project.tools@,
            base == old(out)@.map_values(|t: ExternalTool| tool_view(t)),
            forall|j: int| 0 <= j < k ==> tool_ok(project.name@, tool_view(#[trigger] src[j])),
            out@.map_values(|t: ExternalTool| tool_view(t)) == base + src.take(k as int).map_values(
                |t: ExternalTool| resolved_tool(project.name@, tool_view(t)),
            ),
        decreases src.len() - k,
    {
        match resolve_names_in_tool(project, &project.tools[k]) {
            Ok(t) => {
                let ghost prev = out@;
                out.push(t);
                proof {
                    lemma_appended_prefix_push(
                        prev,
                        t,
                        base,
                        src,
                        k as int,
                        |t: ExternalTool| tool_view(t),
                        |t: ExternalTool| resolved_tool(project.name@, tool_view(t)),
                    );
                }
            },
            Err(e) => {
                return Err(e);
            },
        }
        k = k + 1;
    }
    proof {
        assert(src.take(k as int) =~= src);
    }
    Ok(())
}

fn push_project_tasks(project: &Project, out: &mut Vec<Task>) -> (r: Result<(), NameResolutionError>)
    ensures
        r is Ok <==> (forall|k: int|
            0 <= k < project.tasks@.len() ==> task_ok(project.name@, task_view(#[trigger] project.tasks@[k]))),
        r is Ok ==> final(out)@.map_values(|t: Task| task_view(t)) == old(out)@.map_values(
            |t: Task| task_view(t),
        ) + project_tasks(*project),
        r matches Err(e) ==> (e matches NameResolutionError::InvalidProjectName(n) && n@ == project.name@),
{
    let ghost base = old(out)@.map_values(|t: Task| task_view(t));
    let ghost src = project.tasks@;
    let mut k: usize = 0;
    proof {
        assert(src.take(0).map_values(|t: Task| resolved_task(project.name@, project.path@, task_view(t)))
            =~= seq![]);
        assert(base + seq![] =~= base);
    }
    while k < project.tasks.len()
        invariant
            k <= src.len(),
            src == project.tasks@,
            base == old(out)@.map_values(|t: Task| task_view(t)),
            forall|j: int| 0 <= j < k ==> task_ok(project.name@, task_view(#[trigger] src[j])),
            out@.map_values(|t: Task| task_view(t)) == base + src.take(k as int).map_values(
                |t: Task| resolved_task(project.name@, project.path@, task_view(t)),
            ),
        decreases src.len() - k,
    {
        match resolve_names_in_task(project, &project.tasks[k]) {
            Ok(t) => {
                let ghost prev = out@;
                out.push(t);
                proof {
                    lemma_appended_prefix_push(
                        prev,
                        t,
                        base,
                        src,
                        k as int,
                        |t: Task| task_view(t),
                        |t: Task| resolved_task(project.name@, project.path@, task_view(t)),
                    );
                }
            },
            Err(e) => {
                return Err(e);
            },
        }
        k = k + 1;
    }
    proof {
        assert(src.take(k as int) =~= src);
    }
    Ok(())
}

/// The build units of all projects with every name made full: the build
/// environments, the tools and the tasks, each project's in turn. The first
/// project with a unit that cannot be resolved gives the error.
pub fn resolve_names_in_build_units(projects: &Vec<Project>) -> (r: Result<BuildUnitCollection, NameResolutionError>)
    ensures
        r is Ok <==> (forall|i: int| 0 <= i < projects@.len() ==> project_ok(#[trigger] projects@[i])),
        r matches Ok(c) ==> {
            &&& c.build_envs@.map_values(|e: BuildEnv| build_env_view(e)) == all_envs(projects@)
            &&& c.tools@.map_values(|t: ExternalTool| tool_view(t)) == all_tools(projects@)
            &&& c.tasks@.map_values(|t: Task| task_view(t)) == all_tasks(projects@)
        },
        r matches Err(e) ==> exists|i: int|
            0 <= i < projects@.len() && !project_ok(#[trigger] projects@[i]) && (forall|j: int|
                0 <= j < i ==> project_ok(#[trigger] projects@[j])) && (e matches NameResolutionError::InvalidProjectName(
                n,
            ) && n@ == projects@[i].name@),
{
    let ghost ps = projects@;
    let mut build_envs: Vec<BuildEnv> = Vec::new();
    let mut tools: Vec<ExternalTool> = Vec::new();
    let mut tasks: Vec<Task> = Vec::new();
    let mut i: usize = 0;
    proof {
        assert(build_envs@.map_values(|e: BuildEnv| build_env_view(e)) =~= seq![]);
        assert(tools@.map_values(|t: ExternalTool| tool_view(t)) =~= seq![]);
        assert(tasks@.map_values(|t: Task| task_view(t)) =~= seq![]);
        assert(ps.take(0).len() == 0);
    }
    while i < projects.len()
        invariant
            i <= ps.len(),
            ps == projects@,
            forall|j: int| 0 <= j < i ==> project_ok(#[trigger] ps[j]),
            build_envs@.map_values(|e: BuildEnv| build_env_view(e)) == all_envs(ps.take(i as int)),
            tools@.map_values(|t: ExternalTool| tool_view(t)) == all_tools(ps.take(i as int)),
            tasks@.map_values(|t: Task| task_view(t)) == all_tasks(ps.take(i as int)),
        decreases ps.len() - i,
    {
        let project = &projects[i];
        proof {
            assert(ps.take(i as int + 1).drop_last() =~= ps.take(i as int));
            assert(ps.take(i as int + 1).last() == ps[i as int]);
        }
        match push_project_envs(project, &mut build_envs) {
            Ok(()) => {},
            Err(e) => {
                proof {
                    assert(!project_ok(ps[i as int]));
                }
                return Err(e);
            },
        }
        match push_project_tools(project, &mut tools) {
            Ok(()) => {},
            Err(e) => {
                proof {
                    assert(!project_ok(ps[i as int]));
                }
                return Err(e);
            },
        }
        match push_project_tasks(project, &mut tasks) {
            Ok(()) => {},
            Err(e) => {
                proof {
                    assert(!project_ok(ps[i as int]));
                }
                return Err(e);
            },
        }
        proof {
            assert(project_ok(ps[i as int]));
        }
        i = i + 1;
    }
    proof {
        assert(ps.take(i as int) =~= ps);
    }
    Ok(BuildUnitCollection { build_envs, tools, tasks })
}

} // verus!
