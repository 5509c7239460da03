# cobble

The core of Cobble, a build automation tool whose projects and tasks are
written in Lua, as a library verified with Verus, with a thin command line
program around it.

## Layout

- `src/` — the verified library:
  - `config`, `cobble::workspace`: finding and reading the workspace
    configuration (`cobble.toml`), command line variables, output conditions.
  - `cobble::resolve`, `cobble::build_units`, `paths`: resolving task, tool and
    environment names relative to their projects.
  - `datamodel`: validating the Lua tables that define tasks, actions, build
    environments and tools, and reading them into plain values.
  - `execute::jobs`, `execute::execute`, `cobl::execute`: turning requested
    tasks into jobs, computing the job graph, refusing cycles and scheduling
    jobs as their dependencies complete.
  - `cobl::query`: finding the tasks of a directory or a query.
  - `db`, `task_input`: task records, the inputs a task's run depends on,
    and the up-to-date check.
  - `execute::action`: what an action is handed (its context), which action
    runs next with what arguments, and the output settings a job starts with.
  - `concurrent_io`, `execute::job_io`: keeping the console output of
    concurrent tasks together.
  - `lua::cmd`, `lua::path`, `lua::data`: the logic of the `cmd`, `path`,
    `json` and `toml` libraries that scripts use (command input, output
    collection, globbing, reading JSON and TOML into Lua values).
  - `lua::s11n`, `lua::order`: serialized Lua values, their re-layout and their
    order.
  - `commands`: the text that the task list and task report show.
- `app/` — the program around the library: argument handling and reading the
  workspace configuration, and, for running tasks, the Lua libraries (`cmd`,
  `path`, `json`, `toml`) and the task store. It does not load projects or run
  tasks yet.
- `tests/` — tests of the library on concrete values.
