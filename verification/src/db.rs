//! The record of a task's last run, and the decision whether a task is up to
//! date with it.
use vstd::prelude::*;
use crate::text::str_eq;

verus! {

pub const TASK_KEY_PREFIX: &'static str = "task:";

/// The database key under which the record of task `task_name` is kept.
pub open spec fn task_key(task_name: Seq<char>) -> Seq<char> {
    "task:"@ + task_name
}

pub fn get_task_key(task_name: &str) -> (key: String)
    ensures
        key@ == task_key(task_name@),
{
    let mut key = String::from_str(TASK_KEY_PREFIX);
    key.append(task_name);
    key
}

/// Different tasks are kept under different keys.
pub proof fn law_task_keys_are_distinct(a: Seq<char>, b: Seq<char>)
    requires
        a != b,
    ensures
        task_key(a) != task_key(b),
{
    let p = "task:"@;
    assert((p + a).skip(p.len() as int) =~= a);
    assert((p + b).skip(p.len() as int) =~= b);
}

/// What a task's run depended on, each part keyed by name: the hashes of the
/// project sources and of the input files, the outputs of the tasks it
/// depends on and the values of its variables, the last two in their
/// serialized form.
#[derive(Debug)]
pub struct TaskInput {
    pub project_source_hashes: Vec<(String, String)>,
    pub file_hashes: Vec<(String, String)>,
    pub task_outputs: Vec<(String, String)>,
    pub vars: Vec<(String, String)>,
}

/// What a task's run produced: the hashes of its output files, by file name,
/// and its serialized output.
#[derive(Debug)]
pub struct TaskOutput {
    pub file_hashes: Vec<(String, String)>,
    pub task_output: String,
}

#[derive(Debug)]
pub struct TaskRecord {
    pub input: TaskInput,
    pub output: TaskOutput,
}

pub type Entries = Seq<(Seq<char>, Seq<char>)>;

pub open spec fn entries_view(v: Seq<(String, String)>) -> Entries {
    v.map_values(|e: (String, String)| (e.0@, e.1@))
}

/// The value of the first entry of `key`.
pub open spec fn entry_value(t: Entries, key: Seq<char>) -> Option<Seq<char>>
    decreases t.len(),
{
    if t.len() == 0 {
        None
    } else if t[0].0 == key {
        Some(t[0].1)
    } else {
        entry_value(t.drop_first(), key)
    }
}

/// Two keyed collections agree: they have as many entries, and each entry of
/// the first is found, with its value, in the second.
pub open spec fn same_entries(current: Entries, previous: Entries) -> bool {
    &&& current.len() == previous.len()
    &&& forall|i: int| 0 <= i < current.len() ==> entry_value(previous, #[trigger] current[i].0) == Some(current[i].1)
}

/// A task's recorded inputs agree with its current ones, part by part.
pub open spec fn inputs_agree(current: TaskInput, previous: TaskInput) -> bool {
    &&& same_entries(
        entries_view(current.project_source_hashes@),
        entries_view(previous.project_source_hashes@),
    )
    &&& same_entries(entries_view(current.file_hashes@), entries_view(previous.file_hashes@))
    &&& same_entries(entries_view(current.task_outputs@), entries_view(previous.task_outputs@))
    &&& same_entries(entries_view(current.vars@), entries_view(previous.vars@))
}

proof fn lemma_entry_value_index(t: Entries, key: Seq<char>, i: int)
    requires
        0 <= i <= t.len(),
        forall|j: int| 0 <= j < i ==> #[trigger] t[j].0 != key,
    ensures
        entry_value(t, key) == entry_value(t.subrange(i, t.len() as int), key),
    decreases i,
{
    if i > 0 {
        let rest = t.drop_first();
        assert(t[0].0 != key);
        assert forall|j: int| 0 <= j < i - 1 implies #[trigger] rest[j].0 != key by {
            assert(rest[j] == t[j + 1]);
        }
        lemma_entry_value_index(rest, key, i - 1);
        assert(rest.subrange(i - 1, rest.len() as int) =~= t.subrange(i, t.len() as int));
    } else {
        assert(t.subrange(0, t.len() as int) =~= t);
    }
}

/// The value of the first entry of `key`.
pub(crate) fn find_value<'a>(t: &'a Vec<(String, String)>, key: &str) -> (r: Option<&'a String>)
    ensures
        match r {
            Some(v) => entry_value(entries_view(t@), key@) == Some(v@),
            None => entry_value(entries_view(t@), key@) is None,
        },
{
    let ghost e = entries_view(t@);
    let mut i: usize = 0;
    while i < t.len()
        invariant
            i <= t@.len(),
            e == entries_view(t@),
            forall|j: int| 0 <= j < i ==> #[trigger] e[j].0 != key@,
        decreases t@.len() - i,
    {
        if str_eq(t[i].0.as_str(), key) {
            proof {
                lemma_entry_value_index(e, key@, i as int);
                assert(e.subrange(i as int, e.len() as int)[0] == e[i as int]);
            }
            return Some(&t[i].1);
        }
        i = i + 1;
    }
    proof {
        lemma_entry_value_index(e, key@, i as int);
        assert(e.subrange(i as int, e.len() as int).len() == 0);
    }
    None
}

/// Whether two keyed collections agree.
pub fn entries_agree(current: &Vec<(String, String)>, previous: &Vec<(String, String)>) -> (b: bool)
    ensures
        b == same_entries(entries_view(current@), entries_view(previous@)),
{
    let ghost c = entries_view(current@);
    let ghost p = entries_view(previous@);
    if current.len() != previous.len() {
        return false;
    }
    let mut i: usize = 0;
    while i < current.len()
        invariant
            i <= current@.len(),
            c == entries_view(current@),
            p == entries_view(previous@),
            c.len() == p.len(),
            forall|j: int| 0 <= j < i ==> entry_value(p, #[trigger] c[j].0) == Some(c[j].1),
        decreases current@.len() - i,
    {
        let ghost ci = c[i as int];
        assert(ci == (current@[i as int].0@, current@[i as int].1@));
        match find_value(previous, current[i].0.as_str()) {
            Some(v) => {
                if !str_eq(v.as_str(), current[i].1.as_str()) {
                    assert(entry_value(p, c[i as int].0) != Some(c[i as int].1));
                    return false;
                }
            },
            None => {
                assert(entry_value(p, c[i as int].0) != Some(c[i as int].1));
                return false;
            },
        }
        i = i + 1;
    }
    true
}

/// Whether a task's recorded inputs agree with its current ones.
pub fn inputs_up_to_date(current: &TaskInput, previous: &TaskInput) -> (b: bool)
    ensures
        b == inputs_agree(*current, *previous),
{
    entries_agree(&current.project_source_hashes, &previous.project_source_hashes) && entries_agree(
        &current.file_hashes,
        &previous.file_hashes,
    ) && entries_agree(&current.task_outputs, &previous.task_outputs) && entries_agree(
        &current.vars,
        &previous.vars,
    )
}

/// Whether the hashes of a task's output files, as they are now, agree with
/// the recorded ones; `None` when a file could not be hashed.
pub fn outputs_up_to_date(output_file_hashes: &Option<Vec<(String, String)>>, previous: &TaskOutput) -> (b:
    bool)
    ensures
        b == match output_file_hashes {
            Some(h) => same_entries(entries_view(h@), entries_view(previous.file_hashes@)),
            None => false,
        },
{
    match output_file_hashes {
        Some(h) => entries_agree(h, &previous.file_hashes),
        None => false,
    }
}

/// The record of a task's last run if the task is up to date with it: its
/// recorded inputs agree with the current ones and its output files are as
/// they were left. `output_file_hashes` is `None` when an output file could
/// not be hashed.
pub fn get_up_to_date_task_record(
    record: Option<TaskRecord>,
    current: &TaskInput,
    output_file_hashes: &Option<Vec<(String, String)>>,
) -> (r: Option<TaskRecord>)
    ensures
        match record {
            None => r is None,
            Some(rec) => if inputs_agree(*current, rec.input) && match output_file_hashes {
                Some(h) => same_entries(entries_view(h@), entries_view(rec.output.file_hashes@)),
                None => false,
            } {
                r == Some(rec)
            } else {
                r is None
            },
        },
{
    match record {
        None => None,
        Some(rec) => {
            if inputs_up_to_date(current, &rec.input) && outputs_up_to_date(output_file_hashes, &rec.output) {
                Some(rec)
            } else {
                None
            }
        },
    }
}

/// No key occurs twice.
pub open spec fn keys_distinct(e: Entries) -> bool {
    forall|i: int, j: int| 0 <= i < j < e.len() ==> #[trigger] e[i].0 != #[trigger] e[j].0
}

proof fn lemma_entry_value_at(e: Entries, i: int)
    requires
        keys_distinct(e),
        0 <= i < e.len(),
    ensures
        entry_value(e, e[i].0) == Some(e[i].1),
    decreases i,
{
    if i > 0 {
        let rest = e.drop_first();
        assert(e[0].0 != e[i].0);
        assert(rest[i - 1] == e[i]);
        assert forall|p: int, q: int| 0 <= p < q < rest.len() implies #[trigger] rest[p].0 != #[trigger] rest[q].0 by {
            assert(rest[p] == e[p + 1]);
            assert(rest[q] == e[q + 1]);
        }
        lemma_entry_value_at(rest, i - 1);
    }
}

/// Keyed collections agree with themselves: a task whose inputs and output
/// files are exactly as recorded is up to date.
pub proof fn law_unchanged_entries_agree(e: Entries)
    requires
        keys_distinct(e),
    ensures
        same_entries(e, e),
{
    assert forall|i: int| 0 <= i < e.len() implies entry_value(e, #[trigger] e[i].0) == Some(e[i].1) by {
        lemma_entry_value_at(e, i);
    }
}

} // verus!
