//! The dependencies of a task: files, tasks, variables and calculated
//! dependencies, each by the alias under which the task refers to it.
use vstd::prelude::*;
use crate::datamodel::types::{StringOrInt, key_text, key_of_lua, key_view, string_or_int_from_lua, KeyView};
use crate::text::str_eq;
use crate::datamodel::validate::{
    first_error, first_pair_error, key_validation_error, outcome, string_table_error, unknown_key,
    validate_table_has_only_string_or_sequence_keys, wrong_type, wrong_type_message,
};
use crate::lua::value::{text_view, type_name_of, LuaKind, LuaTable, LuaValue};

verus! {

/// The dependencies as a project file lists them: for each kind, keys (an
/// alias, or a position) with the names they stand for.
#[derive(Debug)]
pub struct DependencyListByType {
    pub files: Option<Vec<(StringOrInt, String)>>,
    pub tasks: Option<Vec<(StringOrInt, String)>>,
    pub vars: Option<Vec<(StringOrInt, String)>>,
    pub calc: Option<Vec<(StringOrInt, String)>>,
}

/// The dependencies by alias; calculated dependencies by name alone.
#[derive(Debug)]
pub struct Dependencies {
    pub files: Vec<(String, String)>,
    pub tasks: Vec<(String, String)>,
    pub vars: Vec<(String, String)>,
    pub calc: Vec<String>,
}

pub type AliasMap = Seq<(Seq<char>, Seq<char>)>;

pub open spec fn alias_map_view(v: Seq<(String, String)>) -> AliasMap {
    v.map_values(|e: (String, String)| (e.0@, e.1@))
}

/// The alias of a listed dependency: its key when the key is a string, the
/// name itself when the key is a position.
pub open spec fn alias_entry(k: StringOrInt, v: Seq<char>) -> (Seq<char>, Seq<char>) {
    match k {
        StringOrInt::Int(_) => (v, v),
        StringOrInt::String(s) => (s@, v),
    }
}

/// Inserts an alias: the first entry of that alias takes the name, or a new
/// entry ends the map.
pub open spec fn insert_alias(t: AliasMap, k: Seq<char>, v: Seq<char>) -> AliasMap
    decreases t.len(),
{
    if t.len() == 0 {
        seq![(k, v)]
    } else if t[0].0 == k {
        t.update(0, (k, v))
    } else {
        seq![t[0]] + insert_alias(t.drop_first(), k, v)
    }
}

/// The alias map of listed dependencies, inserted in the order listed; a
/// later dependency under the same alias replaces an earlier one.
pub open spec fn alias_map(entries: Seq<(StringOrInt, String)>) -> AliasMap
    decreases entries.len(),
{
    if entries.len() == 0 {
        seq![]
    } else {
        let e = alias_entry(entries.last().0, entries.last().1@);
        insert_alias(alias_map(entries.drop_last()), e.0, e.1)
    }
}

proof fn lemma_insert_alias_at(t: AliasMap, k: Seq<char>, v: Seq<char>, i: int)
    requires
        0 <= i <= t.len(),
        i < t.len() ==> t[i].0 == k,
        forall|j: int| 0 <= j < i ==> #[trigger] t[j].0 != k,
    ensures
        insert_alias(t, k, v) == if i < t.len() {
            t.update(i, (k, v))
        } else {
            t.push((k, v))
        },
    decreases i,
{
    if i > 0 {
        let rest = t.drop_first();
        assert(t[0].0 != k);
        assert forall|j: int| 0 <= j < i - 1 implies #[trigger] rest[j].0 != k by {
            assert(rest[j] == t[j + 1]);
        }
        lemma_insert_alias_at(rest, k, v, i - 1);
        if i < t.len() {
            assert(seq![t[0]] + rest.update(i - 1, (k, v)) =~= t.update(i, (k, v)));
        } else {
            assert(seq![t[0]] + rest.push((k, v)) =~= t.push((k, v)));
        }
    } else if t.len() == 0 {
        assert(seq![(k, v)] =~= t.push((k, v)));
    }
}

/// The alias map of listed dependencies.
pub fn alias_map_from_string_or_int_map(value: Vec<(StringOrInt, String)>) -> (r: Vec<(String, String)>)
    ensures
        alias_map_view(r@) == alias_map(value@),
{
    let mut result: Vec<(String, String)> = Vec::new();
    let mut i: usize = 0;
    proof {
        assert(value@.take(0) =~= Seq::<(StringOrInt, String)>::empty());
        assert(alias_map_view(result@) =~= Seq::<(Seq<char>, Seq<char>)>::empty());
    }
    while i < value.len()
        invariant
            i <= value@.len(),
            alias_map_view(result@) == alias_map(value@.take(i as int)),
        decreases value@.len() - i,
    {
        let (alias, name) = match &value[i].0 {
            StringOrInt::Int(_) => (value[i].1.clone(), value[i].1.clone()),
            StringOrInt::String(s) => (s.clone(), value[i].1.clone()),
        };
        let ghost t = alias_map_view(result@);
        let ghost raw = result@;
        let ghost k = alias@;
        let ghost v = name@;
        proof {
            assert(value@.take(i as int + 1).drop_last() =~= value@.take(i as int));
            assert(value@.take(i as int + 1).last() == value@[i as int]);
            assert((k, v) == alias_entry(value@[i as int].0, value@[i as int].1@));
        }
        let mut j: usize = 0;
        while j < result.len()
            invariant
                j <= result@.len(),
                result@ == raw,
                t == alias_map_view(raw),
                k == alias@,
                forall|m: int| 0 <= m < j ==> #[trigger] t[m].0 != k,
            ensures
                j <= result@.len(),
                result@ == raw,
                forall|m: int| 0 <= m < j ==> #[trigger] t[m].0 != k,
                j < result@.len() ==> t[j as int].0 == k,
            decreases result@.len() - j,
        {
            if str_eq(result[j].0.as_str(), alias.as_str()) {
                break;
            }
            j = j + 1;
        }
        if j < result.len() {
            result.set(j, (alias, name));
            proof {
                assert(t[j as int].0 == k);
                lemma_insert_alias_at(t, k, v, j as int);
                assert(alias_map_view(result@) =~= t.update(j as int, (k, v)));
            }
        } else {
            result.push((alias, name));
            proof {
                lemma_insert_alias_at(t, k, v, j as int);
                assert(alias_map_view(result@) =~= t.push((k, v)));
            }
        }
        i = i + 1;
    }
    proof {
        assert(value@.take(i as int) =~= value@);
    }
    result
}

pub open spec fn listed(v: Option<Vec<(StringOrInt, String)>>) -> Seq<(StringOrInt, String)> {
    match v {
        Some(l) => l@,
        None => seq![],
    }
}

impl Dependencies {
    /// No dependencies of any kind.
    pub fn empty() -> (r: Dependencies)
        ensures
            r.files@.len() == 0,
            r.tasks@.len() == 0,
            r.vars@.len() == 0,
            r.calc@.len() == 0,
    {
        Dependencies { files: Vec::new(), tasks: Vec::new(), vars: Vec::new(), calc: Vec::new() }
    }

    /// The dependencies that a project file lists: each kind by alias, and
    /// the calculated dependencies by name, in the order listed.
    pub fn from_list(value: DependencyListByType) -> (r: Dependencies)
        ensures
            alias_map_view(r.files@) == alias_map(listed(value.files)),
            alias_map_view(r.tasks@) == alias_map(listed(value.tasks)),
            alias_map_view(r.vars@) == alias_map(listed(value.vars)),
            r.calc@.map_values(|s: String| s@) == listed(value.calc).map_values(
                |e: (StringOrInt, String)| e.1@,
            ),
    {
        let DependencyListByType { files, tasks, vars, calc } = value;
        let calc_entries = match calc {
            Some(c) => c,
            None => Vec::new(),
        };
        let ghost ce = calc_entries@;
        let mut calc_list: Vec<String> = Vec::new();
        let mut i: usize = 0;
        while i < calc_entries.len()
            invariant
                i <= calc_entries@.len(),
                ce == calc_entries@,
                calc_list@.map_values(|s: String| s@) == ce.take(i as int).map_values(
                    |e: (StringOrInt, String)| e.1@,
                ),
            decreases calc_entries@.len() - i,
        {
            let ghost prev = calc_list@;
            calc_list.push(calc_entries[i].1.clone());
            proof {
                assert(calc_list@ == prev.push(calc_list@.last()));
                assert(calc_list@.last()@ == ce[i as int].1@);
                assert(calc_list@.map_values(|s: String| s@) =~= prev.map_values(|s: String| s@).push(ce[i as int].1@));
                assert(ce.take(i as int + 1) =~= ce.take(i as int).push(ce[i as int]));
                assert(calc_list@.map_values(|s: String| s@) =~= ce.take(i as int + 1).map_values(
                    |e: (StringOrInt, String)| e.1@,
                ));
            }
            i = i + 1;
        }
        proof {
            assert(ce.take(i as int) =~= ce);
        }
        let files = match files {
            Some(f) => alias_map_from_string_or_int_map(f),
            None => {
                let r: Vec<(String, String)> = Vec::new();
                proof {
                    assert(alias_map_view(r@) =~= alias_map(Seq::<(StringOrInt, String)>::empty()));
                }
                r
            },
        };
        let tasks = match tasks {
            Some(t) => alias_map_from_string_or_int_map(t),
            None => {
                let r: Vec<(String, String)> = Vec::new();
                proof {
                    assert(alias_map_view(r@) =~= alias_map(Seq::<(StringOrInt, String)>::empty()));
                }
                r
            },
        };
        let vars = match vars {
            Some(v) => alias_map_from_string_or_int_map(v),
            None => {
                let r: Vec<(String, String)> = Vec::new();
                proof {
                    assert(alias_map_view(r@) =~= alias_map(Seq::<(StringOrInt, String)>::empty()));
                }
                r
            },
        };
        Dependencies { files, tasks, vars, calc: calc_list }
    }
}

/// The text of listed dependencies: `key: name` for each, separated by `, `.
pub open spec fn entries_text(e: Seq<(StringOrInt, String)>) -> Seq<char>
    decreases e.len(),
{
    if e.len() == 0 {
        seq![]
    } else {
        entries_text(e.drop_last()) + (if e.len() > 1 {
            ", "@
        } else {
            ""@
        }) + key_text(e.last().0) + ": "@ + e.last().1@
    }
}

/// The text of listed dependencies.
pub fn write_string_or_int_map(val: &Vec<(StringOrInt, String)>) -> (r: String)
    ensures
        r@ == entries_text(val@),
{
    let mut r = String::from_str("");
    let mut i: usize = 0;
    proof {
        reveal_strlit("");
        assert(val@.take(0) =~= Seq::<(StringOrInt, String)>::empty());
    }
    while i < val.len()
        invariant
            i <= val@.len(),
            r@ == entries_text(val@.take(i as int)),
        decreases val@.len() - i,
    {
        let ghost before = r@;
        if i > 0 {
            r.append(", ");
        } else {
            r.append("");
        }
        let key = val[i].0.text();
        r.append(key.as_str());
        r.append(": ");
        r.append(val[i].1.as_str());
        proof {
            let t = val@.take(i as int + 1);
            assert(t.drop_last() =~= val@.take(i as int));
            assert(t.last() == val@[i as int]);
            assert(r@ =~= entries_text(t));
        }
        i = i + 1;
    }
    proof {
        assert(val@.take(i as int) =~= val@);
    }
    r
}

/// The text of one kind of listed dependencies, `name={...}` and the
/// separator that follows it; nothing when the kind is not listed.
pub open spec fn kind_text(name: Seq<char>, v: Option<Vec<(StringOrInt, String)>>, sep: Seq<char>) -> Seq<char> {
    match v {
        Some(l) => name + "={"@ + entries_text(l@) + "}"@ + sep,
        None => ""@,
    }
}

fn write_kind(r: &mut String, name: &str, v: &Option<Vec<(StringOrInt, String)>>, sep: &str)
    ensures
        final(r)@ == old(r)@ + kind_text(name@, *v, sep@),
{
    match v {
        Some(l) => {
            r.append(name);
            r.append("={");
            let t = write_string_or_int_map(l);
            r.append(t.as_str());
            r.append("}");
            r.append(sep);
            proof {
                assert(final(r)@ =~= old(r)@ + kind_text(name@, *v, sep@));
            }
        },
        None => {
            r.append("");
            proof {
                reveal_strlit("");
                assert(final(r)@ =~= old(r)@ + kind_text(name@, *v, sep@));
            }
        },
    }
}

impl DependencyListByType {
    /// The text of the listed dependencies: `{files={...},tasks={...},
    /// vars={...},calc={...}}`, with the kinds that are listed.
    pub fn text(&self) -> (r: String)
        ensures
            r@ == "{"@ + kind_text("files"@, self.files, ","@) + kind_text("tasks"@, self.tasks, ","@)
                + kind_text("vars"@, self.vars, ","@) + kind_text("calc"@, self.calc, ""@) + "}"@,
    {
        let mut r = String::from_str("{");
        write_kind(&mut r, "files", &self.files, ",");
        write_kind(&mut r, "tasks", &self.tasks, ",");
        write_kind(&mut r, "vars", &self.vars, ",");
        write_kind(&mut r, "calc", &self.calc, "");
        r.append("}");
        r
    }
}

pub open spec fn dep_kinds() -> Seq<Seq<char>> {
    seq!["files"@, "tasks"@, "vars"@, "calc"@]
}

/// What the check of a dependency table says of one pair: its key names a
/// kind of dependency, and its value is a table of strings.
pub open spec fn dep_key_error(p: (LuaValue, LuaValue)) -> Option<Seq<char>> {
    if !(p.0.kind is Str) {
        Some(wrong_type("a string"@, p.0))
    } else {
        match text_view(p.0) {
            Err(e) => Some(e),
            Ok(k) => if dep_kinds().contains(k) {
                match p.1.kind {
                    LuaKind::Table(t) => string_table_error(t),
                    _ => Some(wrong_type("a table"@, p.1)),
                }
            } else {
                Some(unknown_key(k, dep_kinds()))
            },
        }
    }
}

/// What checking a dependency list finds.
pub open spec fn dep_list_error(v: LuaValue) -> Option<Seq<char>> {
    match v.kind {
        LuaKind::Table(t) => first_error(t.pairs@, |p: (LuaValue, LuaValue)| dep_key_error(p)),
        _ => Some(wrong_type("a table"@, v)),
    }
}

fn check_dep_key(p: &(LuaValue, LuaValue)) -> (r: Result<(), String>)
    ensures
        outcome(r) == dep_key_error(*p),
{
    match &p.0.kind {
        LuaKind::Str => {},
        _ => {
            return Err(wrong_type_message("a string", &p.0));
        },
    }
    let k = match &p.0.text {
        Err(e) => {
            return Err(e.clone());
        },
        Ok(k) => k,
    };
    let mut kinds: Vec<&str> = Vec::new();
    kinds.push("files");
    kinds.push("tasks");
    kinds.push("vars");
    kinds.push("calc");
    proof {
        assert(kinds@.map_values(|k: &str| k@) =~= dep_kinds());
    }
    if str_eq(k.as_str(), "files") || str_eq(k.as_str(), "tasks") || str_eq(k.as_str(), "vars") || str_eq(
        k.as_str(),
        "calc",
    ) {
        proof {
            assert(dep_kinds().contains(k@)) by {
                if k@ == "files"@ {
                    assert(dep_kinds()[0] == k@);
                } else if k@ == "tasks"@ {
                    assert(dep_kinds()[1] == k@);
                } else if k@ == "vars"@ {
                    assert(dep_kinds()[2] == k@);
                } else {
                    assert(dep_kinds()[3] == k@);
                }
            }
        }
        match &p.1.kind {
            LuaKind::Table(t) => validate_table_has_only_string_or_sequence_keys(t),
            _ => Err(wrong_type_message("a table", &p.1)),
        }
    } else {
        proof {
            assert(!dep_kinds().contains(k@)) by {
                if dep_kinds().contains(k@) {
                    let i = choose|i: int| 0 <= i < 4 && dep_kinds()[i] == k@;
                    assert(i == 0 || i == 1 || i == 2 || i == 3);
                }
            }
        }
        Err(key_validation_error(k.as_str(), &kinds))
    }
}

/// Checks a dependency list: a table whose keys name kinds of dependency
/// and whose values are tables of strings.
pub fn validate_dep_list(value: &LuaValue) -> (r: Result<(), String>)
    ensures
        outcome(r) == dep_list_error(*value),
{
    match &value.kind {
        LuaKind::Table(t) => first_pair_error(&t.pairs, check_dep_key, Ghost(|p: (LuaValue, LuaValue)| dep_key_error(p))),
        _ => Err(wrong_type_message("a table", value)),
    }
}

pub type KeyedNames = Seq<(KeyView, Seq<char>)>;

pub open spec fn keyed_view(v: Seq<(StringOrInt, String)>) -> KeyedNames {
    v.map_values(|e: (StringOrInt, String)| (key_view(e.0), e.1@))
}

pub open spec fn opt_keyed_view(v: Option<Vec<(StringOrInt, String)>>) -> Option<KeyedNames> {
    match v {
        Some(l) => Some(keyed_view(l@)),
        None => None,
    }
}

/// The dependency lists by kind, as sequences.
pub struct DepListView {
    pub files: Option<KeyedNames>,
    pub tasks: Option<KeyedNames>,
    pub vars: Option<KeyedNames>,
    pub calc: Option<KeyedNames>,
}

pub open spec fn dep_list_view(d: DependencyListByType) -> DepListView {
    DepListView {
        files: opt_keyed_view(d.files),
        tasks: opt_keyed_view(d.tasks),
        vars: opt_keyed_view(d.vars),
        calc: opt_keyed_view(d.calc),
    }
}

/// The keys and names that the pairs of a table give, in order.
pub open spec fn keyed_names_of(ps: Seq<(LuaValue, LuaValue)>) -> Result<KeyedNames, Seq<char>>
    decreases ps.len(),
{
    if ps.len() == 0 {
        Ok(seq![])
    } else {
        match keyed_names_of(ps.drop_last()) {
            Err(e) => Err(e),
            Ok(s) => match key_of_lua(ps.last().0) {
                Err(e) => Err(e),
                Ok(k) => match text_view(ps.last().1) {
                    Err(e) => Err(e),
                    Ok(n) => Ok(s.push((k, n))),
                },
            },
        }
    }
}

/// What one kind of dependency gives: nothing for nil, the keyed names of
/// a table.
pub open spec fn keyed_names_value(v: LuaValue) -> Result<Option<KeyedNames>, Seq<char>> {
    match v.kind {
        LuaKind::Nil => Ok(None),
        LuaKind::Table(t) => match keyed_names_of(t.pairs@) {
            Err(e) => Err(e),
            Ok(s) => Ok(Some(s)),
        },
        _ => Err("error converting Lua "@ + type_name_of(v.kind) + " to HashMap (expected table)"@),
    }
}

/// The lists after one pair of the dependency table.
pub open spec fn dep_list_step(st: DepListView, p: (LuaValue, LuaValue)) -> Result<DepListView, Seq<char>> {
    match text_view(p.0) {
        Err(e) => Err(e),
        Ok(k) => if k == "files"@ || k == "tasks"@ || k == "vars"@ || k == "calc"@ {
            match keyed_names_value(p.1) {
                Err(e) => Err(e),
                Ok(l) => Ok(
                    if k == "files"@ {
                        DepListView { files: l, ..st }
                    } else if k == "tasks"@ {
                        DepListView { tasks: l, ..st }
                    } else if k == "vars"@ {
                        DepListView { vars: l, ..st }
                    } else {
                        DepListView { calc: l, ..st }
                    },
                ),
            }
        } else {
            Err("Unknown dependency type: "@ + k)
        },
    }
}

pub open spec fn dep_list_fold(st: DepListView, ps: Seq<(LuaValue, LuaValue)>) -> Result<DepListView, Seq<char>>
    decreases ps.len(),
{
    if ps.len() == 0 {
        Ok(st)
    } else {
        match dep_list_fold(st, ps.drop_last()) {
            Err(e) => Err(e),
            Ok(s) => dep_list_step(s, ps.last()),
        }
    }
}

/// The dependency lists that a Lua value gives: a table whose keys name
/// kinds of dependency.
pub open spec fn dep_list_of_lua(v: LuaValue) -> Result<DepListView, Seq<char>> {
    match v.kind {
        LuaKind::Table(t) => dep_list_fold(DepListView { files: None, tasks: None, vars: None, calc: None }, t.pairs@),
        _ => Err("error converting Lua "@ + type_name_of(v.kind) + " to table"@),
    }
}

proof fn lemma_keyed_names_prefix_err(ps: Seq<(LuaValue, LuaValue)>, k: int)
    requires
        0 <= k <= ps.len(),
        keyed_names_of(ps.take(k)) is Err,
    ensures
        keyed_names_of(ps) == keyed_names_of(ps.take(k)),
    decreases ps.len() - k,
{
    if k < ps.len() {
        assert(ps.take(k + 1).drop_last() =~= ps.take(k));
        lemma_keyed_names_prefix_err(ps, k + 1);
    } else {
        assert(ps.take(k) =~= ps);
    }
}

proof fn lemma_dep_list_fold_prefix_err(st: DepListView, ps: Seq<(LuaValue, LuaValue)>, k: int)
    requires
        0 <= k <= ps.len(),
        dep_list_fold(st, ps.take(k)) is Err,
    ensures
        dep_list_fold(st, ps) == dep_list_fold(st, ps.take(k)),
    decreases ps.len() - k,
{
    if k < ps.len() {
        assert(ps.take(k + 1).drop_last() =~= ps.take(k));
        lemma_dep_list_fold_prefix_err(st, ps, k + 1);
    } else {
        assert(ps.take(k) =~= ps);
    }
}

fn keyed_names_from_table(t: &LuaTable) -> (r: Result<Vec<(StringOrInt, String)>, String>)
    ensures
        match keyed_names_of(t.pairs@) {
            Ok(s) => r matches Ok(x) && keyed_view(x@) == s,
            Err(e) => r matches Err(m) && m@ == e,
        },
{
    let ghost ps = t.pairs@;
    let mut out: Vec<(StringOrInt, String)> = Vec::new();
    let mut i: usize = 0;
    proof {
        assert(ps.take(0) =~= Seq::<(LuaValue, LuaValue)>::empty());
        assert(keyed_view(out@) =~= Seq::<(KeyView, Seq<char>)>::empty());
    }
    while i < t.pairs.len()
        invariant
            ps == t.pairs@,
            i <= ps.len(),
            keyed_names_of(ps.take(i as int)) == Ok::<KeyedNames, Seq<char>>(keyed_view(out@)),
        decreases ps.len() - i,
    {
        proof {
            assert(ps.take(i as int + 1).drop_last() =~= ps.take(i as int));
            assert(ps.take(i as int + 1).last() == ps[i as int]);
        }
        let k = match string_or_int_from_lua(&t.pairs[i].0) {
            Err(e) => {
                proof {
                    lemma_keyed_names_prefix_err(ps, i as int + 1);
                }
                return Err(e);
            },
            Ok(k) => k,
        };
        let n = match &t.pairs[i].1.text {
            Err(e) => {
                proof {
                    lemma_keyed_names_prefix_err(ps, i as int + 1);
                }
                return Err(e.clone());
            },
            Ok(n) => n.clone(),
        };
        let ghost prev = out@;
        let ghost entry = (key_view(k), n@);
        out.push((k, n));
        proof {
            assert(keyed_view(out@) =~= keyed_view(prev).push(entry));
        }
        i = i + 1;
    }
    proof {
        assert(ps.take(i as int) =~= ps);
    }
    Ok(out)
}

fn keyed_names_from_value(v: &LuaValue) -> (r: Result<Option<Vec<(StringOrInt, String)>>, String>)
    ensures
        match keyed_names_value(*v) {
            Ok(l) => r matches Ok(x) && opt_keyed_view(x) == l,
            Err(e) => r matches Err(m) && m@ == e,
        },
{
    match &v.kind {
        LuaKind::Nil => Ok(None),
        LuaKind::Table(t) => match keyed_names_from_table(t) {
            Err(e) => Err(e),
            Ok(x) => Ok(Some(x)),
        },
        _ => {
            let mut m = String::from_str("error converting Lua ");
            m.append(v.kind_name());
            m.append(" to HashMap (expected table)");
            Err(m)
        },
    }
}

/// Reads the dependency lists by kind from a Lua value.
pub fn dependency_list_from_lua(value: &LuaValue) -> (r: Result<DependencyListByType, String>)
    ensures
        match dep_list_of_lua(*value) {
            Ok(d) => r matches Ok(x) && dep_list_view(x) == d,
            Err(e) => r matches Err(m) && m@ == e,
        },
{
    let t = match &value.kind {
        LuaKind::Table(t) => t,
        _ => {
            let mut m = String::from_str("error converting Lua ");
            m.append(value.kind_name());
            m.append(" to table");
            return Err(m);
        },
    };
    let ghost ps = t.pairs@;
    let ghost st0 = DepListView { files: None, tasks: None, vars: None, calc: None };
    let mut deps = DependencyListByType { files: None, tasks: None, vars: None, calc: None };
    let mut i: usize = 0;
    proof {
        assert(ps.take(0) =~= Seq::<(LuaValue, LuaValue)>::empty());
    }
    while i < t.pairs.len()
        invariant
            ps == t.pairs@,
            value.kind == LuaKind::Table(*t),
            st0 == (DepListView { files: None, tasks: None, vars: None, calc: None }),
            i <= ps.len(),
            dep_list_fold(st0, ps.take(i as int)) == Ok::<DepListView, Seq<char>>(dep_list_view(deps)),
        decreases ps.len() - i,
    {
        proof {
            assert(ps.take(i as int + 1).drop_last() =~= ps.take(i as int));
            assert(ps.take(i as int + 1).last() == ps[i as int]);
        }
        let k = match &t.pairs[i].0.text {
            Err(e) => {
                proof {
                    lemma_dep_list_fold_prefix_err(st0, ps, i as int + 1);
                }
                return Err(e.clone());
            },
            Ok(k) => k,
        };
        let is_files = str_eq(k.as_str(), "files");
        let is_tasks = str_eq(k.as_str(), "tasks");
        let is_vars = str_eq(k.as_str(), "vars");
        let is_calc = str_eq(k.as_str(), "calc");
        if !(is_files || is_tasks || is_vars || is_calc) {
            proof {
                lemma_dep_list_fold_prefix_err(st0, ps, i as int + 1);
            }
            let mut m = String::from_str("Unknown dependency type: ");
            m.append(k.as_str());
            return Err(m);
        }
        let l = match keyed_names_from_value(&t.pairs[i].1) {
            Err(e) => {
                proof {
                    lemma_dep_list_fold_prefix_err(st0, ps, i as int + 1);
                }
                return Err(e);
            },
            Ok(l) => l,
        };
        if is_files {
            deps.files = l;
        } else if is_tasks {
            deps.tasks = l;
        } else if is_vars {
            deps.vars = l;
        } else {
            deps.calc = l;
        }
        i = i + 1;
    }
    proof {
        assert(ps.take(i as int) =~= ps);
    }
    Ok(deps)
}

} // verus!
