//! What a task's run depends on, put together from what it declares and
//! from the values found for it: the hashes of its project sources and
//! files, the outputs of the tasks it depends on and its variables. Whether
//! the task is up to date is decided on this (see `db`).
use vstd::prelude::*;
use crate::db::{entries_view, entry_value, find_value, Entries, TaskInput};

verus! {

/// What a task declares that its inputs are taken from: the project source
/// files, and, each under its alias, the files (by path), the tasks (by
/// name) and the variables (by name) it depends on.
pub struct TaskInputDeps {
    pub project_source_deps: Vec<String>,
    pub file_deps: Vec<(String, String)>,
    pub task_deps: Vec<(String, String)>,
    pub var_deps: Vec<(String, String)>,
}

/// Why the inputs of a task could not be put together: what was not found.
#[derive(Debug)]
pub enum TaskInputError {
    SourceHashMissing(String),
    FileHashMissing(String),
    TaskOutputMissing(String),
    VarLookupError(String),
}

/// The mathematical model of a `TaskInputError`.
pub enum TaskInputErrorView {
    SourceHashMissing(Seq<char>),
    FileHashMissing(Seq<char>),
    TaskOutputMissing(Seq<char>),
    VarLookupError(Seq<char>),
}

pub open spec fn task_input_error_view(e: TaskInputError) -> TaskInputErrorView {
    match e {
        TaskInputError::SourceHashMissing(k) => TaskInputErrorView::SourceHashMissing(k@),
        TaskInputError::FileHashMissing(k) => TaskInputErrorView::FileHashMissing(k@),
        TaskInputError::TaskOutputMissing(k) => TaskInputErrorView::TaskOutputMissing(k@),
        TaskInputError::VarLookupError(k) => TaskInputErrorView::VarLookupError(k@),
    }
}

/// Each alias of `pairs` with the value that `table` holds for its key, in
/// order; `None` when a key has no value.
pub open spec fn looked_up(pairs: Entries, table: Entries) -> Option<Entries>
    decreases pairs.len(),
{
    if pairs.len() == 0 {
        Some(seq![])
    } else {
        match (looked_up(pairs.drop_last(), table), entry_value(table, pairs.last().1)) {
            (Some(prev), Some(v)) => Some(prev.push((pairs.last().0, v))),
            _ => None,
        }
    }
}

/// The first entry of `pairs` whose key has no value in `table`.
pub open spec fn first_missing_entry(pairs: Entries, table: Entries) -> (Seq<char>, Seq<char>)
    decreases pairs.len(),
{
    if pairs.len() == 0 {
        (seq![], seq![])
    } else if looked_up(pairs.drop_last(), table) is None {
        first_missing_entry(pairs.drop_last(), table)
    } else {
        pairs.last()
    }
}

/// The first key of `pairs` that has no value in `table`.
pub open spec fn first_missing(pairs: Entries, table: Entries) -> Seq<char> {
    first_missing_entry(pairs, table).1
}

/// Each project source under its own path.
pub open spec fn self_keyed(paths: Seq<String>) -> Entries {
    paths.map_values(|p: String| (p@, p@))
}

/// The inputs of a task: the hash of each project source, then under its
/// alias the hash of each file, the output of each task and the value of
/// each variable; the first that is not found, in that order, is the
/// error.
pub open spec fn task_input_spec(
    deps: TaskInputDeps,
    source_hashes: Entries,
    file_hashes: Entries,
    task_outputs: Entries,
    vars: Entries,
) -> Result<(Entries, Entries, Entries, Entries), TaskInputErrorView> {
    let s = self_keyed(deps.project_source_deps@);
    let f = entries_view(deps.file_deps@);
    let t = entries_view(deps.task_deps@);
    let v = entries_view(deps.var_deps@);
    match looked_up(s, source_hashes) {
        None => Err(TaskInputErrorView::SourceHashMissing(first_missing(s, source_hashes))),
        Some(sv) => match looked_up(f, file_hashes) {
            None => Err(TaskInputErrorView::FileHashMissing(first_missing(f, file_hashes))),
            Some(fv) => match looked_up(t, task_outputs) {
                None => Err(TaskInputErrorView::TaskOutputMissing(first_missing(t, task_outputs))),
                Some(tv) => match looked_up(v, vars) {
                    None => Err(TaskInputErrorView::VarLookupError(first_missing(v, vars))),
                    Some(vv) => Ok((sv, fv, tv, vv)),
                },
            },
        },
    }
}

/// Once a prefix of `pairs` has a key without value, so has `pairs`, and
/// the first such key is the prefix's.
proof fn lemma_missing_in_prefix(pairs: Entries, table: Entries, n: int)
    requires
        0 <= n <= pairs.len(),
        looked_up(pairs.take(n), table) is None,
    ensures
        looked_up(pairs, table) is None,
        first_missing_entry(pairs, table) == first_missing_entry(pairs.take(n), table),
    decreases pairs.len(),
{
    if n == pairs.len() {
        assert(pairs.take(n) =~= pairs);
    } else {
        let d = pairs.drop_last();
        assert(d.take(n) =~= pairs.take(n));
        lemma_missing_in_prefix(d, table, n);
    }
}

/// Each alias of `pairs` with the value that `table` holds for its key; the
/// error is the position of the first entry whose key has no value.
pub(crate) fn look_up_all(pairs: &Vec<(String, String)>, table: &Vec<(String, String)>) -> (r: Result<
    Vec<(String, String)>,
    usize,
>)
    ensures
        match looked_up(entries_view(pairs@), entries_view(table@)) {
            Some(e) => r matches Ok(v) && entries_view(v@) == e,
            None => r matches Err(i) && (i as int) < pairs@.len() && (pairs@[i as int].0@, pairs@[i as int].1@)
                == first_missing_entry(entries_view(pairs@), entries_view(table@)),
        },
{
    let ghost pv = entries_view(pairs@);
    let ghost tv = entries_view(table@);
    let mut out: Vec<(String, String)> = Vec::new();
    let mut i: usize = 0;
    proof {
        assert(pv.take(0) =~= Seq::<(Seq<char>, Seq<char>)>::empty());
        assert(entries_view(out@) =~= Seq::<(Seq<char>, Seq<char>)>::empty());
    }
    while i < pairs.len()
        invariant
            i <= pairs@.len(),
            pv == entries_view(pairs@),
            tv == entries_view(table@),
            looked_up(pv.take(i as int), tv) == Some(entries_view(out@)),
        decreases pairs@.len() - i,
    {
        proof {
            assert(pv.take(i + 1).drop_last() =~= pv.take(i as int));
            assert(pv.take(i + 1).last() == pv[i as int]);
        }
        match find_value(table, pairs[i].1.as_str()) {
            Some(v) => {
                let ghost prev = out@;
                out.push((pairs[i].0.clone(), v.clone()));
                proof {
                    assert(entries_view(out@) =~= entries_view(prev).push((pv[i as int].0, v@)));
                }
            },
            None => {
                proof {
                    assert(looked_up(pv.take(i + 1), tv) is None);
                    assert(first_missing_entry(pv.take(i + 1), tv) == pv[i as int]);
                    lemma_missing_in_prefix(pv, tv, i + 1);
                }
                return Err(i);
            },
        }
        i = i + 1;
    }
    proof {
        assert(pv.take(i as int) =~= pv);
    }
    Ok(out)
}

/// Puts together the inputs of a task from what it declares and from the
/// values found for it: the hashes of the project sources and of the files
/// (by path), the outputs of the tasks (by task name) and the values of the
/// variables (by variable name).
pub fn current_task_input(
    deps: &TaskInputDeps,
    source_hashes: &Vec<(String, String)>,
    file_hashes: &Vec<(String, String)>,
    task_outputs: &Vec<(String, String)>,
    vars: &Vec<(String, String)>,
) -> (r: Result<TaskInput, TaskInputError>)
    ensures
        match task_input_spec(
            *deps,
            entries_view(source_hashes@),
            entries_view(file_hashes@),
            entries_view(task_outputs@),
            entries_view(vars@),
        ) {
            Ok((s, f, t, v)) => r matches Ok(inp) && entries_view(inp.project_source_hashes@) == s
                && entries_view(inp.file_hashes@) == f && entries_view(inp.task_outputs@) == t
                && entries_view(inp.vars@) == v,
            Err(e) => r matches Err(x) && task_input_error_view(x) == e,
        },
{
    let mut sources: Vec<(String, String)> = Vec::new();
    let mut i: usize = 0;
    while i < deps.project_source_deps.len()
        invariant
            i <= deps.project_source_deps@.len(),
            entries_view(sources@) == self_keyed(deps.project_source_deps@.take(i as int)),
        decreases deps.project_source_deps@.len() - i,
    {
        let p = &deps.project_source_deps[i];
        let ghost prev = sources@;
        sources.push((p.clone(), p.clone()));
        proof {
            assert(entries_view(sources@) =~= entries_view(prev).push((p@, p@)));
            assert(deps.project_source_deps@.take(i + 1) =~= deps.project_source_deps@.take(i as int).push(*p));
            assert(self_keyed(deps.project_source_deps@.take(i + 1)) =~= self_keyed(
                deps.project_source_deps@.take(i as int),
            ).push((p@, p@)));
        }
        i = i + 1;
    }
    proof {
        assert(deps.project_source_deps@.take(i as int) =~= deps.project_source_deps@);
    }
    let found_sources = match look_up_all(&sources, source_hashes) {
        Ok(v) => v,
        Err(k) => {
            return Err(TaskInputError::SourceHashMissing(sources[k].1.clone()));
        },
    };
    let found_files = match look_up_all(&deps.file_deps, file_hashes) {
        Ok(v) => v,
        Err(k) => {
            return Err(TaskInputError::FileHashMissing(deps.file_deps[k].1.clone()));
        },
    };
    let found_outputs = match look_up_all(&deps.task_deps, task_outputs) {
        Ok(v) => v,
        Err(k) => {
            return Err(TaskInputError::TaskOutputMissing(deps.task_deps[k].1.clone()));
        },
    };
    let found_vars = match look_up_all(&deps.var_deps, vars) {
        Ok(v) => v,
        Err(k) => {
            return Err(TaskInputError::VarLookupError(deps.var_deps[k].1.clone()));
        },
    };
    Ok(
        TaskInput {
            project_source_hashes: found_sources,
            file_hashes: found_files,
            task_outputs: found_outputs,
            vars: found_vars,
        },
    )
}

/// Each alias of `pairs` with the value of its key: the value in `cache`
/// when the cache holds one, else the value in `fresh`, which the cache then
/// keeps. Gives the values (`None` once a key has neither) and the cache
/// after; past a key without value nothing more is looked up or kept.
pub open spec fn through_cache(pairs: Entries, cache: Entries, fresh: Entries) -> (Option<Entries>, Entries)
    decreases pairs.len(),
{
    if pairs.len() == 0 {
        (Some(seq![]), cache)
    } else {
        let (r, c) = through_cache(pairs.drop_last(), cache, fresh);
        let a = pairs.last().0;
        let k = pairs.last().1;
        match r {
            None => (None, c),
            Some(prev) => match entry_value(c, k) {
                Some(v) => (Some(prev.push((a, v))), c),
                None => match entry_value(fresh, k) {
                    Some(v) => (Some(prev.push((a, v))), c.push((k, v))),
                    None => (None, c),
                },
            },
        }
    }
}

/// The first entry of `pairs` whose key has a value neither in the cache
/// (as it stands by then) nor in `fresh`.
pub open spec fn through_cache_missing(pairs: Entries, cache: Entries, fresh: Entries) -> (Seq<char>, Seq<char>)
    decreases pairs.len(),
{
    if pairs.len() == 0 {
        (seq![], seq![])
    } else if through_cache(pairs.drop_last(), cache, fresh).0 is None {
        through_cache_missing(pairs.drop_last(), cache, fresh)
    } else {
        pairs.last()
    }
}

/// Once a prefix of `pairs` meets a key without value, the rest changes
/// nothing.
proof fn lemma_through_cache_stops(pairs: Entries, cache: Entries, fresh: Entries, n: int)
    requires
        0 <= n <= pairs.len(),
        through_cache(pairs.take(n), cache, fresh).0 is None,
    ensures
        through_cache(pairs, cache, fresh) == through_cache(pairs.take(n), cache, fresh),
        through_cache_missing(pairs, cache, fresh) == through_cache_missing(pairs.take(n), cache, fresh),
    decreases pairs.len(),
{
    if n == pairs.len() {
        assert(pairs.take(n) =~= pairs);
    } else {
        let d = pairs.drop_last();
        assert(d.take(n) =~= pairs.take(n));
        lemma_through_cache_stops(d, cache, fresh, n);
    }
}

/// Looking values up through the cache never changes or drops what the
/// cache held: it only adds entries after them, each with a value of
/// `fresh`.
pub proof fn law_cache_keeps_its_entries(pairs: Entries, cache: Entries, fresh: Entries)
    ensures
        cache.len() <= through_cache(pairs, cache, fresh).1.len(),
        through_cache(pairs, cache, fresh).1.take(cache.len() as int) == cache,
        forall|i: int|
            cache.len() <= i < through_cache(pairs, cache, fresh).1.len() ==> entry_value(
                fresh,
                (#[trigger] through_cache(pairs, cache, fresh).1[i]).0,
            ) == Some(through_cache(pairs, cache, fresh).1[i].1),
    decreases pairs.len(),
{
    if pairs.len() == 0 {
        assert(cache.take(cache.len() as int) =~= cache);
    } else {
        law_cache_keeps_its_entries(pairs.drop_last(), cache, fresh);
        let c = through_cache(pairs.drop_last(), cache, fresh).1;
        let c2 = through_cache(pairs, cache, fresh).1;
        if c2 != c {
            assert(c2.take(cache.len() as int) =~= c.take(cache.len() as int));
        }
    }
}

/// Each alias of `pairs` with the value of its key, taken from the cache,
/// else from `fresh` and then kept in the cache; the error is the position
/// of the first entry whose key has neither.
pub(crate) fn look_up_through_cache(
    pairs: &Vec<(String, String)>,
    cache: &mut Vec<(String, String)>,
    fresh: &Vec<(String, String)>,
) -> (r: Result<Vec<(String, String)>, usize>)
    ensures
        entries_view(final(cache)@) == through_cache(entries_view(pairs@), entries_view(old(cache)@), entries_view(fresh@)).1,
        match through_cache(entries_view(pairs@), entries_view(old(cache)@), entries_view(fresh@)).0 {
            Some(e) => r matches Ok(v) && entries_view(v@) == e,
            None => r matches Err(i) && (i as int) < pairs@.len() && (pairs@[i as int].0@, pairs@[i as int].1@)
                == through_cache_missing(entries_view(pairs@), entries_view(old(cache)@), entries_view(fresh@)),
        },
{
    let ghost pv = entries_view(pairs@);
    let ghost c0 = entries_view(cache@);
    let ghost fv = entries_view(fresh@);
    let mut out: Vec<(String, String)> = Vec::new();
    let mut i: usize = 0;
    proof {
        assert(pv.take(0) =~= Seq::<(Seq<char>, Seq<char>)>::empty());
        assert(entries_view(out@) =~= Seq::<(Seq<char>, Seq<char>)>::empty());
    }
    while i < pairs.len()
        invariant
            i <= pairs@.len(),
            pv == entries_view(pairs@),
            fv == entries_view(fresh@),
            c0 == entries_view(old(cache)@),
            through_cache(pv.take(i as int), c0, fv) == (Some(entries_view(out@)), entries_view(cache@)),
        decreases pairs@.len() - i,
    {
        proof {
            assert(pv.take(i + 1).drop_last() =~= pv.take(i as int));
            assert(pv.take(i + 1).last() == pv[i as int]);
        }
        let key = pairs[i].1.as_str();
        let ghost cv = entries_view(cache@);
        let ghost prev = out@;
        let cached = match find_value(cache, key) {
            Some(v) => Some(v.clone()),
            None => None,
        };
        match cached {
            Some(v) => {
                out.push((pairs[i].0.clone(), v));
                proof {
                    assert(entries_view(out@) =~= entries_view(prev).push((pv[i as int].0, v@)));
                }
            },
            None => {
                match find_value(fresh, key) {
                    Some(v) => {
                        out.push((pairs[i].0.clone(), v.clone()));
                        cache.push((pairs[i].1.clone(), v.clone()));
                        proof {
                            assert(entries_view(out@) =~= entries_view(prev).push((pv[i as int].0, v@)));
                            assert(entries_view(cache@) =~= cv.push((pv[i as int].1, v@)));
                        }
                    },
                    None => {
                        proof {
                            assert(entry_value(cv, pv[i as int].1) is None);
                            assert(entry_value(fv, pv[i as int].1) is None);
                            assert(through_cache(pv.take(i + 1), c0, fv) == (None::<Seq<(Seq<char>, Seq<char>)>>, cv));
                            assert(through_cache_missing(pv.take(i + 1), c0, fv) == pv[i as int]);
                            lemma_through_cache_stops(pv, c0, fv, i + 1);
                        }
                        return Err(i);
                    },
                }
            },
        }
        i = i + 1;
    }
    proof {
        assert(pv.take(i as int) =~= pv);
    }
    Ok(out)
}

/// The values that the runs of tasks keep from earlier reads: the hashes of
/// project sources and of files, by path, and the outputs of tasks, by task
/// name.
#[derive(Debug)]
pub struct TaskInputCache {
    pub project_source_hashes: Vec<(String, String)>,
    pub file_hashes: Vec<(String, String)>,
    pub task_outputs: Vec<(String, String)>,
}

/// The keys of `pairs` that the cache holds no value for, in order: what
/// has to be read before the values can be looked up.
pub open spec fn keys_to_read(pairs: Entries, cache: Entries) -> Seq<Seq<char>>
    decreases pairs.len(),
{
    if pairs.len() == 0 {
        seq![]
    } else {
        keys_to_read(pairs.drop_last(), cache) + if entry_value(cache, pairs.last().1) is None {
            seq![pairs.last().1]
        } else {
            Seq::<Seq<char>>::empty()
        }
    }
}

/// The keys of `pairs` that the cache holds no value for, in order.
pub fn uncached_keys(pairs: &Vec<(String, String)>, cache: &Vec<(String, String)>) -> (r: Vec<String>)
    ensures
        r@.map_values(|k: String| k@) == keys_to_read(entries_view(pairs@), entries_view(cache@)),
{
    let ghost pv = entries_view(pairs@);
    let mut r: Vec<String> = Vec::new();
    let mut i: usize = 0;
    proof {
        assert(r@.map_values(|k: String| k@) =~= Seq::<Seq<char>>::empty());
    }
    while i < pairs.len()
        invariant
            i <= pairs@.len(),
            pv == entries_view(pairs@),
            r@.map_values(|k: String| k@) == keys_to_read(pv.take(i as int), entries_view(cache@)),
        decreases pairs@.len() - i,
    {
        proof {
            assert(pv.take(i + 1).drop_last() =~= pv.take(i as int));
            assert(pv.take(i + 1).last() == pv[i as int]);
        }
        let ghost prev = r@;
        if find_value(cache, pairs[i].1.as_str()).is_none() {
            r.push(pairs[i].1.clone());
            proof {
                assert(r@.map_values(|k: String| k@) =~= prev.map_values(|k: String| k@).push(pv[i as int].1));
            }
        } else {
            proof {
                assert(keys_to_read(pv.take(i as int), entries_view(cache@)) + Seq::<Seq<char>>::empty()
                    =~= keys_to_read(pv.take(i as int), entries_view(cache@)));
            }
        }
        i = i + 1;
    }
    proof {
        assert(pv.take(i as int) =~= pv);
    }
    r
}

/// The inputs of a task read through the cache: each project source's hash,
/// each file's hash (by its path) and each dependency's output is the cached
/// one, else the freshly read one handed in, which the cache then keeps;
/// variables are looked up by name. Gives the inputs (or the first thing
/// not found, in that order) and the caches after: sources, files, outputs.
pub open spec fn cached_task_input_spec(
    deps: TaskInputDeps,
    caches: (Entries, Entries, Entries),
    fresh_sources: Entries,
    fresh_files: Entries,
    fresh_outputs: Entries,
    vars: Entries,
) -> (Result<(Entries, Entries, Entries, Entries), TaskInputErrorView>, (Entries, Entries, Entries)) {
    let s = self_keyed(deps.project_source_deps@);
    let f = entries_view(deps.file_deps@);
    let t = entries_view(deps.task_deps@);
    let v = entries_view(deps.var_deps@);
    let (sr, sc) = through_cache(s, caches.0, fresh_sources);
    let (fr, fc) = through_cache(f, caches.1, fresh_files);
    let (tr, tc) = through_cache(t, caches.2, fresh_outputs);
    match sr {
        None => (
            Err(TaskInputErrorView::SourceHashMissing(through_cache_missing(s, caches.0, fresh_sources).1)),
            (sc, caches.1, caches.2),
        ),
        Some(sv) => match fr {
            None => (
                Err(TaskInputErrorView::FileHashMissing(through_cache_missing(f, caches.1, fresh_files).1)),
                (sc, fc, caches.2),
            ),
            Some(fv) => match tr {
                None => (
                    Err(TaskInputErrorView::TaskOutputMissing(through_cache_missing(t, caches.2, fresh_outputs).1)),
                    (sc, fc, tc),
                ),
                Some(tv) => match looked_up(v, vars) {
                    None => (Err(TaskInputErrorView::VarLookupError(first_missing(v, vars))), (sc, fc, tc)),
                    Some(vv) => (
                        Ok((sv, fv, tv, vv)),
                        (sc, fc, tc),
                    ),
                },
            },
        },
    }
}

/// Puts together the inputs of a task through the cache: each project
/// source's hash (by path), each file's hash (by its path, under its alias)
/// and each dependency's output (by task name, under its alias) is the
/// cached one, else the freshly read one handed in, which the cache then
/// keeps; variables are looked up by name.
pub fn current_task_input_cached(
    deps: &TaskInputDeps,
    cache: &mut TaskInputCache,
    fresh_sources: &Vec<(String, String)>,
    fresh_files: &Vec<(String, String)>,
    fresh_outputs: &Vec<(String, String)>,
    vars: &Vec<(String, String)>,
) -> (r: Result<TaskInput, TaskInputError>)
    ensures
        ({
            let (res, caches) = cached_task_input_spec(
                *deps,
                (
                    entries_view(old(cache).project_source_hashes@),
                    entries_view(old(cache).file_hashes@),
                    entries_view(old(cache).task_outputs@),
                ),
                entries_view(fresh_sources@),
                entries_view(fresh_files@),
                entries_view(fresh_outputs@),
                entries_view(vars@),
            );
            &&& caches == (
                entries_view(final(cache).project_source_hashes@),
                entries_view(final(cache).file_hashes@),
                entries_view(final(cache).task_outputs@),
            )
            &&& match res {
                Ok((s, f, t, v)) => r matches Ok(inp) && entries_view(inp.project_source_hashes@) == s
                    && entries_view(inp.file_hashes@) == f && entries_view(inp.task_outputs@) == t
                    && entries_view(inp.vars@) == v,
                Err(e) => r matches Err(x) && task_input_error_view(x) == e,
            }
        }),
{
    let mut sources: Vec<(String, String)> = Vec::new();
    let mut i: usize = 0;
    while i < deps.project_source_deps.len()
        invariant
            i <= deps.project_source_deps@.len(),
            entries_view(sources@) == self_keyed(deps.project_source_deps@.take(i as int)),
        decreases deps.project_source_deps@.len() - i,
    {
        let p = &deps.project_source_deps[i];
        let ghost prev = sources@;
        sources.push((p.clone(), p.clone()));
        proof {
            assert(entries_view(sources@) =~= entries_view(prev).push((p@, p@)));
            assert(deps.project_source_deps@.take(i + 1) =~= deps.project_source_deps@.take(i as int).push(*p));
            assert(self_keyed(deps.project_source_deps@.take(i + 1)) =~= self_keyed(
                deps.project_source_deps@.take(i as int),
            ).push((p@, p@)));
        }
        i = i + 1;
    }
    proof {
        assert(deps.project_source_deps@.take(i as int) =~= deps.project_source_deps@);
    }
    let found_sources = match look_up_through_cache(&sources, &mut cache.project_source_hashes, fresh_sources) {
        Ok(v) => v,
        Err(k) => {
            return Err(TaskInputError::SourceHashMissing(sources[k].1.clone()));
        },
    };
    let found_files = match look_up_through_cache(&deps.file_deps, &mut cache.file_hashes, fresh_files) {
        Ok(v) => v,
        Err(k) => {
            return Err(TaskInputError::FileHashMissing(deps.file_deps[k].1.clone()));
        },
    };
    let found_outputs = match look_up_through_cache(&deps.task_deps, &mut cache.task_outputs, fresh_outputs) {
        Ok(v) => v,
        Err(k) => {
            return Err(TaskInputError::TaskOutputMissing(deps.task_deps[k].1.clone()));
        },
    };
    let found_vars = match look_up_all(&deps.var_deps, vars) {
        Ok(v) => v,
        Err(k) => {
            return Err(TaskInputError::VarLookupError(deps.var_deps[k].1.clone()));
        },
    };
    Ok(
        TaskInput {
            project_source_hashes: found_sources,
            file_hashes: found_files,
            task_outputs: found_outputs,
            vars: found_vars,
        },
    )
}

} // verus!
