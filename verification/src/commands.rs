//! The text that the `cobl` commands print about tasks.
use vstd::prelude::*;
use crate::lua::order::{lemma_sort_by_name_items, name_index_view, sort_by_name, sort_by_names};
use crate::text::str_eq;

verus! {

/// The name that stands for a project's own task.
pub open spec fn default_name() -> Seq<char> {
    seq!['(', 'd', 'e', 'f', 'a', 'u', 'l', 't', ')']
}

/// The name that the task list shows for task `name`, seen from project
/// `project`: a task of the project by its name within the project, less a
/// leading slash, and the project's own task as "(default)"; any other
/// task by its full name.
pub open spec fn shown_name(project: Seq<char>, name: Seq<char>) -> Seq<char> {
    if project.len() <= name.len() && name.take(project.len() as int) == project {
        let rest = name.skip(project.len() as int);
        let rest2 = if rest.len() > 0 && rest[0] == '/' {
            rest.drop_first()
        } else {
            rest
        };
        if rest2.len() > 0 {
            rest2
        } else {
            default_name()
        }
    } else {
        name
    }
}

/// The number of bytes of the text in UTF-8.
pub open spec fn byte_len(s: Seq<char>) -> nat {
    vstd::utf8::encode_utf8(s).len()
}

/// The byte length of the longest of the texts, 0 for none.
pub open spec fn max_byte_len(names: Seq<Seq<char>>) -> nat
    decreases names.len(),
{
    if names.len() == 0 {
        0
    } else {
        let m = max_byte_len(names.drop_last());
        if m > byte_len(names.last()) {
            m
        } else {
            byte_len(names.last())
        }
    }
}

/// The width of the name column for names of at most `m` bytes.
pub open spec fn column_width(m: nat) -> nat {
    (m + 8) + (m % 4)
}

/// The text, filled with spaces up to `w` characters.
pub open spec fn padded(s: Seq<char>, w: nat) -> Seq<char> {
    if s.len() < w {
        s + Seq::new((w - s.len()) as nat, |i: int| ' ')
    } else {
        s
    }
}

/// The longest description that the list shows whole, in bytes.
pub open spec fn max_description_len() -> nat {
    80
}

/// The description as the list shows it: one of more than 80 bytes cut to
/// its first 77 bytes and an ellipsis.
pub open spec fn shown_description(d: Seq<char>) -> Seq<char> {
    if byte_len(d) > max_description_len() {
        vstd::utf8::decode_utf8(vstd::utf8::encode_utf8(d).take(77)) + seq!['.', '.', '.']
    } else {
        d
    }
}

/// A description of more than 80 bytes can be cut after its 77th byte:
/// no character spans that place.
pub open spec fn description_cuttable(d: Seq<char>) -> bool {
    byte_len(d) > max_description_len() ==> vstd::utf8::is_char_boundary(vstd::utf8::encode_utf8(d), 77)
}

/// The task names, each with its position.
pub open spec fn indexed_names(tasks: Seq<(String, String)>) -> Seq<(Seq<char>, usize)> {
    Seq::new(tasks.len(), |i: int| (tasks[i].0@, i as usize))
}

/// The names that the list shows for the tasks, in their order.
pub open spec fn shown_names(project: Seq<char>, tasks: Seq<(String, String)>) -> Seq<Seq<char>> {
    Seq::new(tasks.len(), |i: int| shown_name(project, tasks[i].0@))
}

/// The line of the list for task `t`, in a name column `w` wide.
pub open spec fn list_line(project: Seq<char>, t: (String, String), w: nat) -> Seq<char> {
    padded(shown_name(project, t.0@), w) + shown_description(t.1@)
}

/// The name that the task list shows for task `name` of project `project`.
fn shown_task_name(project: &str, name: &str) -> (r: String)
    ensures
        r@ == shown_name(project@, name@),
{
    let pn = project.unicode_len();
    let nn = name.unicode_len();
    if pn <= nn && str_eq(name.substring_char(0, pn), project) {
        proof {
            assert(name@.subrange(0, pn as int) =~= name@.take(pn as int));
        }
        let rest = name.substring_char(pn, nn);
        proof {
            assert(rest@ =~= name@.skip(pn as int));
        }
        let rn = rest.unicode_len();
        let rest2 = if rn > 0 && rest.get_char(0) == '/' {
            let r2 = rest.substring_char(1, rn);
            proof {
                assert(r2@ =~= rest@.drop_first());
            }
            r2
        } else {
            rest
        };
        if rest2.unicode_len() > 0 {
            String::from_str(rest2)
        } else {
            let d = String::from_str("(default)");
            proof {
                reveal_strlit("(default)");
                assert(d@ =~= default_name());
            }
            d
        }
    } else {
        proof {
            if pn <= nn {
                assert(name@.subrange(0, pn as int) =~= name@.take(pn as int));
            }
        }
        String::from_str(name)
    }
}

/// `s` followed by `n` spaces.
fn append_spaces(s: &mut String, n: usize)
    ensures
        final(s)@ == old(s)@ + Seq::new(n as nat, |i: int| ' '),
{
    let mut k: usize = 0;
    while k < n
        invariant
            k <= n,
            s@ == old(s)@ + Seq::new(k as nat, |i: int| ' '),
        decreases n - k,
    {
        s.append(" ");
        proof {
            reveal_strlit(" ");
            assert(old(s)@ + Seq::new((k + 1) as nat, |i: int| ' ') =~= old(s)@ + Seq::new(k as nat, |i: int| ' ')
                + " "@);
        }
        k = k + 1;
    }
}

/// The lines of the task list of project `project_name` for the tasks, each
/// given with its description: sorted by task name, each the name the list
/// shows for the task, in a column wide enough for the longest of them (in
/// bytes) with room to spare, then the description, cut when too long.
pub fn list_command_lines(project_name: &str, tasks: &Vec<(String, String)>) -> (lines: Vec<String>)
    requires
        forall|i: int| 0 <= i < tasks@.len() ==> description_cuttable(#[trigger] tasks@[i].1@),
        forall|i: int| 0 <= i < tasks@.len() ==> byte_len(#[trigger] tasks@[i].1@) <= usize::MAX,
        forall|i: int|
            0 <= i < tasks@.len() ==> byte_len(shown_name(project_name@, #[trigger] tasks@[i].0@)) < usize::MAX / 2,
    ensures
        lines@.len() == tasks@.len(),
        forall|k: int|
            0 <= k < lines@.len() ==> (#[trigger] lines@[k])@ == list_line(
                project_name@,
                tasks@[sort_by_name(indexed_names(tasks@))[k].1 as int],
                column_width(max_byte_len(shown_names(project_name@, tasks@))),
            ),
{
    let ghost shown = shown_names(project_name@, tasks@);
    let mut indexed: Vec<(String, usize)> = Vec::new();
    let mut widest: usize = 0;
    let mut i: usize = 0;
    while i < tasks.len()
        invariant
            i <= tasks@.len(),
            indexed@.len() == i,
            name_index_view(indexed@) == indexed_names(tasks@).take(i as int),
            shown == shown_names(project_name@, tasks@),
            widest == max_byte_len(shown.take(i as int)),
            widest < usize::MAX / 2,
            forall|j: int|
                0 <= j < tasks@.len() ==> byte_len(shown_name(project_name@, #[trigger] tasks@[j].0@)) < usize::MAX / 2,
        decreases tasks@.len() - i,
    {
        let name = shown_task_name(project_name, tasks[i].0.as_str());
        let name_str = name.as_str();
        let n = name_str.len();
        proof {
            assert(shown.take(i + 1).drop_last() =~= shown.take(i as int));
            assert(shown.take(i + 1).last() == name@);
            assert(vstd::string::StringSliceAdditionalSpecFns::spec_bytes(name_str) == vstd::utf8::encode_utf8(name@));
        }
        if n > widest {
            widest = n;
        }
        let ghost prev = indexed@;
        indexed.push((tasks[i].0.clone(), i));
        proof {
            assert(name_index_view(indexed@) =~= indexed_names(tasks@).take(i + 1));
        }
        i = i + 1;
    }
    proof {
        assert(shown.take(i as int) =~= shown);
        assert(indexed_names(tasks@).take(i as int) =~= indexed_names(tasks@));
    }
    let width: usize = (widest + 8) + (widest % 4);
    let sorted = sort_by_names(&indexed);
    let ghost order = sort_by_name(indexed_names(tasks@));
    proof {
        lemma_sort_by_name_items(indexed_names(tasks@));
        assert(name_index_view(sorted@).len() == sorted@.len());
        assert forall|k: int| 0 <= k < sorted@.len() implies (#[trigger] order[k].1 as int) < tasks@.len() by {
            assert(indexed_names(tasks@).contains(order[k]));
            let m = choose|m: int| 0 <= m < indexed_names(tasks@).len() && indexed_names(tasks@)[m] == order[k];
        }
    }
    let mut lines: Vec<String> = Vec::new();
    let mut k: usize = 0;
    while k < sorted.len()
        invariant
            k <= sorted@.len(),
            sorted@.len() == tasks@.len(),
            name_index_view(sorted@) == order,
            order == sort_by_name(indexed_names(tasks@)),
            forall|q: int| 0 <= q < sorted@.len() ==> (#[trigger] order[q].1 as int) < tasks@.len(),
            width == column_width(max_byte_len(shown_names(project_name@, tasks@))),
            forall|q: int| 0 <= q < tasks@.len() ==> description_cuttable(#[trigger] tasks@[q].1@),
            forall|q: int| 0 <= q < tasks@.len() ==> byte_len(#[trigger] tasks@[q].1@) <= usize::MAX,
            lines@.len() == k,
            forall|q: int|
                0 <= q < k ==> (#[trigger] lines@[q])@ == list_line(
                    project_name@,
                    tasks@[order[q].1 as int],
                    width as nat,
                ),
        decreases sorted@.len() - k,
    {
        let t = sorted[k].1;
        proof {
            assert(order[k as int].1 == t);
        }
        let mut line = shown_task_name(project_name, tasks[t].0.as_str());
        let ghost name = line@;
        let chars = line.as_str().unicode_len();
        if chars < width {
            append_spaces(&mut line, width - chars);
        }
        let desc = tasks[t].1.as_str();
        proof {
            assert(vstd::string::StringSliceAdditionalSpecFns::spec_bytes(desc) == vstd::utf8::encode_utf8(desc@));
            assert(description_cuttable(tasks@[t as int].1@));
        }
        if desc.len() > 80 {
            let (head, _tail) = desc.split_at(77);
            proof {
                broadcast use vstd::utf8::encode_utf8_decode_utf8;
                assert(vstd::string::StringSliceAdditionalSpecFns::spec_bytes(head) =~= vstd::utf8::encode_utf8(desc@).subrange(0, 77));
                assert(head@ == vstd::utf8::decode_utf8(vstd::utf8::encode_utf8(head@)));
                assert(vstd::utf8::encode_utf8(desc@).subrange(0, 77) =~= vstd::utf8::encode_utf8(desc@).take(77));
            }
            line.append(head);
            line.append("...");
            proof {
                reveal_strlit("...");
            }
        } else {
            line.append(desc);
        }
        proof {
            assert(line@ =~= list_line(project_name@, tasks@[t as int], width as nat));
        }
        lines.push(line);
        k = k + 1;
    }
    lines
}


/// What the report on a task shows of it: its artifacts and task
/// dependencies by alias, its file dependencies by alias with the task that
/// provides each, if any, and its build environments and tools.
pub struct TaskSummary {
    pub artifacts: Vec<(String, String)>,
    pub file_deps: Vec<(String, String, Option<String>)>,
    pub task_deps: Vec<(String, String)>,
    pub envs: Vec<String>,
    pub tools: Vec<String>,
}

/// The items, each indented on a line of its own.
pub open spec fn item_lines(items: Seq<Seq<char>>) -> Seq<char>
    decreases items.len(),
{
    if items.len() == 0 {
        seq![]
    } else {
        item_lines(items.drop_last()) + "    "@ + items.last() + "\n"@
    }
}

/// A section of the report: its title, then its items or "<none>", then an
/// empty line.
pub open spec fn section(title: Seq<char>, items: Seq<Seq<char>>) -> Seq<char> {
    "  "@ + title + ":\n"@ + (if items.len() == 0 {
        "    <none>\n"@
    } else {
        item_lines(items)
    }) + "\n"@
}

/// An entry shown by alias.
pub open spec fn alias_item(e: (String, String)) -> Seq<char> {
    "["@ + e.0@ + "] = "@ + e.1@
}

/// A file dependency shown by alias, with the task that provides it.
pub open spec fn file_item(e: (String, String, Option<String>)) -> Seq<char> {
    "["@ + e.0@ + "] = "@ + e.1@ + match e.2 {
        Some(p) => "  (*provided by "@ + p@ + ")"@,
        None => seq![],
    }
}

/// The texts of the strings.
pub open spec fn texts_of(v: Seq<String>) -> Seq<Seq<char>> {
    v.map_values(|x: String| x@)
}

/// The report on task `name`.
pub open spec fn task_report(name: Seq<char>, t: TaskSummary) -> Seq<char> {
    "Task: "@ + name + "\n"@ + section("Artifacts"@, t.artifacts@.map_values(|e: (String, String)| alias_item(e)))
        + section("File Dependencies"@, t.file_deps@.map_values(|e: (String, String, Option<String>)| file_item(e)))
        + section("Task Dependencies"@, t.task_deps@.map_values(|e: (String, String)| alias_item(e))) + section(
        "Envs"@,
        texts_of(t.envs@),
    ) + section("Tools"@, texts_of(t.tools@))
}

/// Appends a section of the report with the given items.
fn append_section(out: &mut String, title: &str, items: &Vec<String>)
    ensures
        final(out)@ == old(out)@ + section(title@, texts_of(items@)),
{
    out.append("  ");
    out.append(title);
    out.append(":\n");
    if items.len() == 0 {
        out.append("    <none>\n");
    } else {
        let ghost start = out@;
        let mut i: usize = 0;
        while i < items.len()
            invariant
                i <= items@.len(),
                out@ == start + item_lines(texts_of(items@).take(i as int)),
            decreases items@.len() - i,
        {
            out.append("    ");
            out.append(items[i].as_str());
            out.append("\n");
            proof {
                assert(texts_of(items@).take(i + 1).drop_last() =~= texts_of(items@).take(i as int));
                assert(texts_of(items@).take(i + 1).last() == items@[i as int]@);
            }
            i = i + 1;
        }
        proof {
            assert(texts_of(items@).take(i as int) =~= texts_of(items@));
        }
    }
    out.append("\n");
}

/// The alias items of the entries.
fn alias_items(v: &Vec<(String, String)>) -> (r: Vec<String>)
    ensures
        texts_of(r@) == v@.map_values(|e: (String, String)| alias_item(e)),
{
    let mut r: Vec<String> = Vec::new();
    let mut i: usize = 0;
    while i < v.len()
        invariant
            i <= v@.len(),
            texts_of(r@) == v@.map_values(|e: (String, String)| alias_item(e)).take(i as int),
        decreases v@.len() - i,
    {
        let mut item = String::from_str("[");
        item.append(v[i].0.as_str());
        item.append("] = ");
        item.append(v[i].1.as_str());
        proof {
            assert(item@ == alias_item(v@[i as int]));
        }
        let ghost prev = r@;
        r.push(item);
        proof {
            assert(texts_of(r@) =~= texts_of(prev).push(alias_item(v@[i as int])));
            assert(v@.map_values(|e: (String, String)| alias_item(e)).take(i + 1) =~= v@.map_values(
                |e: (String, String)| alias_item(e),
            ).take(i as int).push(alias_item(v@[i as int])));
        }
        i = i + 1;
    }
    proof {
        assert(v@.map_values(|e: (String, String)| alias_item(e)).take(i as int) =~= v@.map_values(
            |e: (String, String)| alias_item(e),
        ));
    }
    r
}

/// The file items of the file dependencies.
fn file_items(v: &Vec<(String, String, Option<String>)>) -> (r: Vec<String>)
    ensures
        texts_of(r@) == v@.map_values(|e: (String, String, Option<String>)| file_item(e)),
{
    let mut r: Vec<String> = Vec::new();
    let mut i: usize = 0;
    while i < v.len()
        invariant
            i <= v@.len(),
            texts_of(r@) == v@.map_values(|e: (String, String, Option<String>)| file_item(e)).take(i as int),
        decreases v@.len() - i,
    {
        let mut item = String::from_str("[");
        item.append(v[i].0.as_str());
        item.append("] = ");
        item.append(v[i].1.as_str());
        match &v[i].2 {
            Some(p) => {
                item.append("  (*provided by ");
                item.append(p.as_str());
                item.append(")");
            },
            None => {},
        }
        proof {
            assert(item@ == file_item(v@[i as int]));
        }
        let ghost prev = r@;
        r.push(item);
        proof {
            assert(texts_of(r@) =~= texts_of(prev).push(file_item(v@[i as int])));
            assert(v@.map_values(|e: (String, String, Option<String>)| file_item(e)).take(i + 1) =~= v@.map_values(
                |e: (String, String, Option<String>)| file_item(e),
            ).take(i as int).push(file_item(v@[i as int])));
        }
        i = i + 1;
    }
    proof {
        assert(v@.map_values(|e: (String, String, Option<String>)| file_item(e)).take(i as int) =~= v@.map_values(
            |e: (String, String, Option<String>)| file_item(e),
        ));
    }
    r
}

/// The report on task `task_name`: its artifacts, file dependencies, task
/// dependencies, build environments and tools, a section each.
pub fn show_task_text(task_name: &str, task: &TaskSummary) -> (r: String)
    ensures
        r@ == task_report(task_name@, *task),
{
    let mut out = String::from_str("Task: ");
    out.append(task_name);
    out.append("\n");
    let artifacts = alias_items(&task.artifacts);
    append_section(&mut out, "Artifacts", &artifacts);
    let files = file_items(&task.file_deps);
    append_section(&mut out, "File Dependencies", &files);
    let deps = alias_items(&task.task_deps);
    append_section(&mut out, "Task Dependencies", &deps);
    append_section(&mut out, "Envs", &task.envs);
    append_section(&mut out, "Tools", &task.tools);
    out
}


/// The names, each with its position.
pub open spec fn indexed_texts(names: Seq<String>) -> Seq<(Seq<char>, usize)> {
    Seq::new(names.len(), |i: int| (names[i]@, i as usize))
}

/// The task names of project `project_name` as the plain task list shows
/// them: sorted, each as `shown_name` gives it.
pub fn list_task_names(project_name: &str, names: &Vec<String>) -> (r: Vec<String>)
    ensures
        r@.len() == names@.len(),
        forall|k: int|
            0 <= k < r@.len() ==> (#[trigger] r@[k])@ == shown_name(
                project_name@,
                names@[sort_by_name(indexed_texts(names@))[k].1 as int]@,
            ),
{
    let mut indexed: Vec<(String, usize)> = Vec::new();
    let mut i: usize = 0;
    while i < names.len()
        invariant
            i <= names@.len(),
            name_index_view(indexed@) == indexed_texts(names@).take(i as int),
        decreases names@.len() - i,
    {
        let c = names[i].clone();
        let ghost prev = indexed@;
        indexed.push((c, i));
        proof {
            assert(name_index_view(indexed@) =~= name_index_view(prev).push((names@[i as int]@, i)));
            assert(indexed_texts(names@).take(i + 1) =~= indexed_texts(names@).take(i as int).push(
                (names@[i as int]@, i),
            ));
        }
        i = i + 1;
    }
    proof {
        assert(indexed_texts(names@).take(i as int) =~= indexed_texts(names@));
    }
    let sorted = sort_by_names(&indexed);
    let ghost order = sort_by_name(indexed_texts(names@));
    proof {
        lemma_sort_by_name_items(indexed_texts(names@));
        assert(name_index_view(sorted@).len() == sorted@.len());
        assert forall|k: int| 0 <= k < sorted@.len() implies (#[trigger] order[k].1 as int) < names@.len() by {
            assert(indexed_texts(names@).contains(order[k]));
            let m = choose|m: int| 0 <= m < indexed_texts(names@).len() && indexed_texts(names@)[m] == order[k];
        }
    }
    let mut r: Vec<String> = Vec::new();
    let mut k: usize = 0;
    while k < sorted.len()
        invariant
            k <= sorted@.len(),
            sorted@.len() == names@.len(),
            name_index_view(sorted@) == order,
            forall|q: int| 0 <= q < sorted@.len() ==> (#[trigger] order[q].1 as int) < names@.len(),
            r@.len() == k,
            forall|q: int|
                0 <= q < k ==> (#[trigger] r@[q])@ == shown_name(project_name@, names@[order[q].1 as int]@),
        decreases sorted@.len() - k,
    {
        let t = sorted[k].1;
        proof {
            assert(order[k as int].1 == t);
        }
        r.push(shown_task_name(project_name, names[t].as_str()));
        k = k + 1;
    }
    r
}

} // verus!
