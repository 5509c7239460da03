//! Actions as a project definition writes them in Lua: their checks, and
//! how a Lua value becomes an action.
use vstd::prelude::*;
use crate::datamodel::validate::{
    first_error, first_pair_error, key_validation_error, outcome, sequence_error, string_table_error, unknown_key,
    validate_is_string, validate_table_has_only_string_or_sequence_keys, validate_table_is_sequence, wrong_type,
    wrong_type_message,
};
use crate::lua::value::{
    find_index, find_key, lemma_find_index_whole, lemma_find_key_whole, text_view, type_name_of, LuaKind, LuaTable,
    LuaValue,
};

verus! {

/// What an action runs: a command line, or a Lua function (by the handle
/// of the value it came from).
#[derive(Debug)]
pub enum ActionCmd {
    Cmd(Vec<String>),
    Func(u64),
}

/// An action: the tools and build environments it uses, each under an
/// alias (no alias twice), and what it runs.
#[derive(Debug)]
pub struct Action {
    pub tools: Vec<(String, String)>,
    pub build_envs: Vec<(String, String)>,
    pub cmd: ActionCmd,
}

pub enum ActionCmdView {
    Cmd(Seq<Seq<char>>),
    Func(u64),
}

pub struct ActionView {
    pub tools: Map<Seq<char>, Seq<char>>,
    pub build_envs: Map<Seq<char>, Seq<char>>,
    pub cmd: ActionCmdView,
}

pub open spec fn entries_view(v: Seq<(String, String)>) -> Seq<(Seq<char>, Seq<char>)> {
    v.map_values(|e: (String, String)| (e.0@, e.1@))
}

/// The map that a list of entries stands for: a later entry for a key
/// replaces an earlier one.
pub open spec fn entries_map(s: Seq<(Seq<char>, Seq<char>)>) -> Map<Seq<char>, Seq<char>>
    decreases s.len(),
{
    if s.len() == 0 {
        Map::empty()
    } else {
        entries_map(s.drop_last()).insert(s.last().0, s.last().1)
    }
}

/// No key occurs twice.
pub open spec fn keys_distinct(s: Seq<(Seq<char>, Seq<char>)>) -> bool {
    forall|i: int, j: int| 0 <= i < j < s.len() ==> #[trigger] s[i].0 != #[trigger] s[j].0
}

pub open spec fn action_view(a: Action) -> ActionView {
    ActionView {
        tools: entries_map(entries_view(a.tools@)),
        build_envs: entries_map(entries_view(a.build_envs@)),
        cmd: match a.cmd {
            ActionCmd::Cmd(v) => ActionCmdView::Cmd(v@.map_values(|s: String| s@)),
            ActionCmd::Func(h) => ActionCmdView::Func(h),
        },
    }
}

pub proof fn lemma_entries_map_domain(s: Seq<(Seq<char>, Seq<char>)>)
    requires
        keys_distinct(s),
    ensures
        entries_map(s).dom().finite(),
        entries_map(s).dom().len() == s.len(),
        forall|k: Seq<char>| entries_map(s).dom().contains(k) <==> exists|i: int| 0 <= i < s.len() && #[trigger] s[i].0 == k,
    decreases s.len(),
{
    if s.len() > 0 {
        let d = s.drop_last();
        assert forall|i: int, j: int| 0 <= i < j < d.len() implies #[trigger] d[i].0 != #[trigger] d[j].0 by {
            assert(d[i] == s[i] && d[j] == s[j]);
        }
        lemma_entries_map_domain(d);
        assert forall|k: Seq<char>| entries_map(s).dom().contains(k) <==> exists|i: int| 0 <= i < s.len() && #[trigger] s[i].0 == k by {
            if entries_map(s).dom().contains(k) && k != s.last().0 {
                let i = choose|i: int| 0 <= i < d.len() && #[trigger] d[i].0 == k;
                assert(s[i].0 == k);
            }
            if exists|i: int| 0 <= i < s.len() && #[trigger] s[i].0 == k {
                let i = choose|i: int| 0 <= i < s.len() && #[trigger] s[i].0 == k;
                if i < s.len() - 1 {
                    assert(d[i].0 == k);
                }
            }
        }
        if entries_map(d).dom().contains(s.last().0) {
            let i = choose|i: int| 0 <= i < d.len() && #[trigger] d[i].0 == s.last().0;
            assert(s[i].0 == s[s.len() - 1].0);
        }
    }
}

proof fn lemma_entries_map_update(s: Seq<(Seq<char>, Seq<char>)>, j: int, v: Seq<char>)
    requires
        keys_distinct(s),
        0 <= j < s.len(),
    ensures
        entries_map(s.update(j, (s[j].0, v))) == entries_map(s).insert(s[j].0, v),
    decreases s.len(),
{
    let k = s[j].0;
    let u = s.update(j, (k, v));
    let d = s.drop_last();
    assert forall|a: int, b: int| 0 <= a < b < d.len() implies #[trigger] d[a].0 != #[trigger] d[b].0 by {
        assert(d[a] == s[a] && d[b] == s[b]);
    }
    if j == s.len() - 1 {
        assert(u.drop_last() =~= d);
        lemma_entries_map_domain(d);
        assert(entries_map(s).insert(k, v) =~= entries_map(d).insert(k, v));
    } else {
        lemma_entries_map_update(d, j, v);
        assert(u.drop_last() =~= d.update(j, (k, v)));
        assert(s.last().0 != k);
        assert(entries_map(u) =~= entries_map(s).insert(k, v));
    }
}

/// Sets `key` to `value` in the entries, in place of an entry for `key`
/// that they hold, or as a new entry at the end.
pub fn insert_entry(entries: &mut Vec<(String, String)>, key: String, value: String)
    requires
        keys_distinct(entries_view(old(entries)@)),
    ensures
        keys_distinct(entries_view(final(entries)@)),
        entries_map(entries_view(final(entries)@)) == entries_map(entries_view(old(entries)@)).insert(key@, value@),
{
    let ghost s = entries_view(entries@);
    assert(s == entries_view(old(entries)@));
    let mut i: usize = 0;
    while i < entries.len()
        invariant
            s == entries_view(entries@),
            s == entries_view(old(entries)@),
            keys_distinct(s),
            i <= s.len(),
            forall|j: int| 0 <= j < i ==> #[trigger] s[j].0 != key@,
        decreases s.len() - i,
    {
        if crate::text::str_eq(entries[i].0.as_str(), key.as_str()) {
            proof {
                assert(s[i as int].0 == key@);
                lemma_entries_map_update(s, i as int, value@);
            }
            let ghost before = entries@;
            let k = entries[i].0.clone();
            entries.set(i, (k, value));
            proof {
                let n = entries_view(entries@);
                assert(n =~= s.update(i as int, (key@, value@)));
                assert forall|a: int| 0 <= a < n.len() implies #[trigger] n[a].0 == s[a].0 by {}
                assert forall|a: int, b: int| 0 <= a < b < n.len() implies #[trigger] n[a].0 != #[trigger] n[b].0 by {
                    assert(n[a].0 == s[a].0 && n[b].0 == s[b].0);
                }
                assert(n == s.update(i as int, (s[i as int].0, value@)));
                assert(entries_map(n) == entries_map(s).insert(key@, value@));
            }
            return;
        }
        i = i + 1;
    }
    let ghost before = entries@;
    entries.push((key, value));
    proof {
        let n = entries_view(entries@);
        assert(n =~= s.push((key@, value@)));
        assert(n.drop_last() =~= s);
        assert forall|a: int, b: int| 0 <= a < b < n.len() implies #[trigger] n[a].0 != #[trigger] n[b].0 by {
            if b < s.len() {
                assert(n[a] == s[a] && n[b] == s[b]);
            } else {
                assert(n[a] == s[a]);
            }
        }
    }
}

/// The value under the string key `key`; nil when there is none.
pub open spec fn value_under(t: LuaTable, key: Seq<char>) -> Option<LuaValue> {
    match find_key(t.pairs@, key) {
        Some(i) => Some(t.pairs@[i].1),
        None => None,
    }
}

/// The value at the index `i`; nil when there is none.
pub open spec fn value_at(t: LuaTable, i: int) -> Option<LuaValue> {
    match find_index(t.pairs@, i) {
        Some(j) => Some(t.pairs@[j].1),
        None => None,
    }
}

/// The alias and the name that one pair of an alias table gives: the
/// value's text is the name, and the key's text the alias, or the name
/// again when the key is not a string.
pub open spec fn alias_pair(p: (LuaValue, LuaValue)) -> Result<(Seq<char>, Seq<char>), Seq<char>> {
    match text_view(p.1) {
        Err(e) => Err(e),
        Ok(name) => if p.0.kind is Str {
            match text_view(p.0) {
                Err(e) => Err(e),
                Ok(alias) => Ok((alias, name)),
            }
        } else {
            Ok((name, name))
        },
    }
}

/// The aliases that the pairs of an alias table give, in order.
pub open spec fn alias_table(ps: Seq<(LuaValue, LuaValue)>) -> Result<Map<Seq<char>, Seq<char>>, Seq<char>>
    decreases ps.len(),
{
    if ps.len() == 0 {
        Ok(Map::empty())
    } else {
        match alias_table(ps.drop_last()) {
            Err(e) => Err(e),
            Ok(m) => match alias_pair(ps.last()) {
                Err(e) => Err(e),
                Ok((a, n)) => Ok(m.insert(a, n)),
            },
        }
    }
}

/// The aliases that the property `prop` of an action gives: a string names
/// one thing under its own name, a table names several, nil names none.
pub open spec fn alias_property(v: Option<LuaValue>, prop: Seq<char>) -> Result<Map<Seq<char>, Seq<char>>, Seq<char>> {
    match v {
        None => Ok(Map::empty()),
        Some(x) => match x.kind {
            LuaKind::Nil => Ok(Map::empty()),
            LuaKind::Str => match text_view(x) {
                Err(e) => Err(e),
                Ok(n) => Ok(Map::empty().insert(n, n)),
            },
            LuaKind::Table(t) => alias_table(t.pairs@),
            _ => Err("Invalid value for '"@ + prop + "' property: "@ + x.debug@),
        },
    }
}

fn alias_from_pair(p: &(LuaValue, LuaValue)) -> (r: Result<(String, String), String>)
    ensures
        match alias_pair(*p) {
            Ok((a, n)) => r matches Ok(x) && x.0@ == a && x.1@ == n,
            Err(e) => r matches Err(m) && m@ == e,
        },
{
    let name = match &p.1.text {
        Err(e) => {
            return Err(e.clone());
        },
        Ok(n) => n.clone(),
    };
    match &p.0.kind {
        LuaKind::Str => match &p.0.text {
            Err(e) => Err(e.clone()),
            Ok(a) => Ok((a.clone(), name)),
        },
        _ => {
            let alias = name.clone();
            Ok((alias, name))
        },
    }
}

fn aliases_from_table(t: &LuaTable) -> (r: Result<Vec<(String, String)>, String>)
    ensures
        match alias_table(t.pairs@) {
            Ok(m) => r matches Ok(x) && keys_distinct(entries_view(x@)) && entries_map(entries_view(x@)) == m,
            Err(e) => r matches Err(msg) && msg@ == e,
        },
{
    let ghost ps = t.pairs@;
    let mut out: Vec<(String, String)> = Vec::new();
    let mut i: usize = 0;
    proof {
        assert(ps.take(0) =~= Seq::<(LuaValue, LuaValue)>::empty());
        assert(entries_view(out@) =~= Seq::<(Seq<char>, Seq<char>)>::empty());
    }
    while i < t.pairs.len()
        invariant
            ps == t.pairs@,
            i <= ps.len(),
            alias_table(ps.take(i as int)) matches Ok(m) && keys_distinct(entries_view(out@)) && entries_map(
                entries_view(out@),
            ) == m,
        decreases ps.len() - i,
    {
        proof {
            assert(ps.take(i as int + 1).drop_last() =~= ps.take(i as int));
            assert(ps.take(i as int + 1).last() == ps[i as int]);
        }
        match alias_from_pair(&t.pairs[i]) {
            Ok((a, n)) => {
                insert_entry(&mut out, a, n);
            },
            Err(e) => {
                proof {
                    lemma_alias_table_prefix_err(ps, i as int + 1);
                }
                return Err(e);
            },
        }
        i = i + 1;
    }
    proof {
        assert(ps.take(i as int) =~= ps);
    }
    Ok(out)
}

proof fn lemma_alias_table_prefix_err(ps: Seq<(LuaValue, LuaValue)>, k: int)
    requires
        0 <= k <= ps.len(),
        alias_table(ps.take(k)) is Err,
    ensures
        alias_table(ps) == alias_table(ps.take(k)),
    decreases ps.len() - k,
{
    if k < ps.len() {
        assert(ps.take(k + 1).drop_last() =~= ps.take(k));
        lemma_alias_table_prefix_err(ps, k + 1);
    } else {
        assert(ps.take(k) =~= ps);
    }
}

fn aliases_from_property(v: Option<&LuaValue>, prop: &str) -> (r: Result<Vec<(String, String)>, String>)
    ensures
        match alias_property(
            match v {
                Some(x) => Some(*x),
                None => None,
            },
            prop@,
        ) {
            Ok(m) => r matches Ok(x) && keys_distinct(entries_view(x@)) && entries_map(entries_view(x@)) == m,
            Err(e) => r matches Err(msg) && msg@ == e,
        },
{
    let empty: Vec<(String, String)> = Vec::new();
    proof {
        assert(entries_view(empty@) =~= Seq::<(Seq<char>, Seq<char>)>::empty());
    }
    match v {
        None => Ok(empty),
        Some(x) => match &x.kind {
            LuaKind::Nil => Ok(empty),
            LuaKind::Str => match &x.text {
                Err(e) => Err(e.clone()),
                Ok(n) => {
                    let mut out = empty;
                    insert_entry(&mut out, n.clone(), n.clone());
                    proof {
                        assert(entries_map(Seq::<(Seq<char>, Seq<char>)>::empty()) =~= Map::<Seq<char>, Seq<char>>::empty());
                    }
                    Ok(out)
                },
            },
            LuaKind::Table(t) => aliases_from_table(t),
            _ => {
                let mut m = String::from_str("Invalid value for '");
                m.append(prop);
                m.append("' property: ");
                m.append(x.debug.as_str());
                Err(m)
            },
        },
    }
}

/// The texts of the sequence part of a table from index `i` on: the values
/// at `i`, `i + 1`, and so on up to the first index with no value (looking
/// at no more than `fuel` indices), each converted to text; the first value
/// that does not convert gives the error.
pub open spec fn sequence_texts_from(t: LuaTable, i: int, fuel: nat) -> Result<Seq<Seq<char>>, Seq<char>>
    decreases fuel,
{
    if fuel == 0 {
        Ok(seq![])
    } else {
        match value_at(t, i) {
            None => Ok(seq![]),
            Some(v) => if v.kind is Nil {
                Ok(seq![])
            } else {
                match text_view(v) {
                    Err(e) => Err(e),
                    Ok(s) => match sequence_texts_from(t, i + 1, (fuel - 1) as nat) {
                        Err(e) => Err(e),
                        Ok(rest) => Ok(seq![s] + rest),
                    },
                }
            },
        }
    }
}

/// The texts of the sequence part of a table.
pub open spec fn sequence_texts(t: LuaTable) -> Result<Seq<Seq<char>>, Seq<char>> {
    sequence_texts_from(t, 1, t.pairs@.len())
}

/// The value at index `i`, if the table has one.
pub fn value_at_index(t: &LuaTable, i: usize) -> (r: Option<&LuaValue>)
    ensures
        match value_at(*t, i as int) {
            Some(v) => r matches Some(x) && *x == v,
            None => r is None,
        },
{
    let pos = t.position_of_index(i);
    proof {
        lemma_find_index_whole(t.pairs@, i as int);
    }
    match pos {
        Some(j) => Some(&t.pairs[j].1),
        None => None,
    }
}

/// The value under the string key `key`, if the table has one.
pub fn value_under_key<'a>(t: &'a LuaTable, key: &str) -> (r: Option<&'a LuaValue>)
    ensures
        match value_under(*t, key@) {
            Some(v) => r matches Some(x) && *x == v,
            None => r is None,
        },
{
    let pos = t.position_of_key(key);
    proof {
        lemma_find_key_whole(t.pairs@, key@);
    }
    match pos {
        Some(j) => Some(&t.pairs[j].1),
        None => None,
    }
}

/// The texts of the sequence part of a table.
pub fn sequence_values_text(t: &LuaTable) -> (r: Result<Vec<String>, String>)
    ensures
        match sequence_texts(*t) {
            Ok(s) => r matches Ok(v) && v@.map_values(|x: String| x@) == s,
            Err(e) => r matches Err(m) && m@ == e,
        },
{
    let len = t.pairs.len();
    let ghost whole = sequence_texts(*t);
    let mut out: Vec<String> = Vec::new();
    let mut n: usize = 0;
    proof {
        assert(out@.map_values(|x: String| x@) =~= Seq::<Seq<char>>::empty());
        assert(whole == match sequence_texts_from(*t, 1, len as nat) {
            Ok(rest) => Ok(out@.map_values(|x: String| x@) + rest),
            Err(e) => Err(e),
        });
    }
    while n < len
        invariant
            len == t.pairs@.len(),
            n <= len,
            whole == sequence_texts(*t),
            whole == match sequence_texts_from(*t, n + 1, (len - n) as nat) {
                Ok(rest) => Ok::<Seq<Seq<char>>, Seq<char>>(out@.map_values(|x: String| x@) + rest),
                Err(e) => Err(e),
            },
        decreases len - n,
    {
        let v = match value_at_index(t, n + 1) {
            None => {
                proof {
                    assert(out@.map_values(|x: String| x@) + seq![] =~= out@.map_values(|x: String| x@));
                }
                return Ok(out);
            },
            Some(x) => x,
        };
        if let LuaKind::Nil = v.kind {
            proof {
                assert(out@.map_values(|x: String| x@) + seq![] =~= out@.map_values(|x: String| x@));
            }
            return Ok(out);
        }
        match &v.text {
            Err(e) => {
                return Err(e.clone());
            },
            Ok(s) => {
                let ghost prev = out@;
                out.push(s.clone());
                proof {
                    assert(out@.map_values(|x: String| x@) =~= prev.map_values(|x: String| x@).push(s@));
                    let rest = sequence_texts_from(*t, n + 2, (len - n - 1) as nat);
                    if let Ok(r) = rest {
                        assert(prev.map_values(|x: String| x@) + (seq![s@] + r) =~= out@.map_values(
                            |x: String| x@,
                        ) + r);
                    }
                }
            },
        }
        n = n + 1;
    }
    proof {
        assert(out@.map_values(|x: String| x@) + seq![] =~= out@.map_values(|x: String| x@));
    }
    Ok(out)
}

/// What checking a value that names tools or build environments finds: a
/// string, or a table of strings.
pub open spec fn name_alias_error(v: LuaValue) -> Option<Seq<char>> {
    match v.kind {
        LuaKind::Table(t) => string_table_error(t),
        LuaKind::Str => None,
        _ => Some(wrong_type("a table or string"@, v)),
    }
}

/// Checks a value that names tools or build environments.
pub fn validate_name_alias_table(value: &LuaValue) -> (r: Result<(), String>)
    ensures
        outcome(r) == name_alias_error(*value),
{
    match &value.kind {
        LuaKind::Table(t) => validate_table_has_only_string_or_sequence_keys(t),
        LuaKind::Str => Ok(()),
        _ => Err(wrong_type_message("a table or string", value)),
    }
}

pub open spec fn action_keys() -> Seq<Seq<char>> {
    seq!["tool"@, "env"@]
}

/// What the check of an action table says of one pair: the positions are
/// fine, `tool` and `env` must name tools or environments, and no other
/// key is allowed.
pub open spec fn action_key_error(p: (LuaValue, LuaValue)) -> Option<Seq<char>> {
    match p.0.kind {
        LuaKind::Integer(_) => None,
        LuaKind::Str => match text_view(p.0) {
            Err(e) => Some(e),
            Ok(k) => if k == "tool"@ || k == "env"@ {
                name_alias_error(p.1)
            } else {
                Some(unknown_key(k, action_keys()))
            },
        },
        _ => Some(wrong_type("a string or integer index"@, p.0)),
    }
}

pub open spec fn no_positional_message() -> Seq<char> {
    "Action table must have either a single function or one or more strings as positional elements"@
}

/// What the check of the positional elements of an action table (whose
/// pairs are strings under names or indices) finds: it needs at least one,
/// and every position up to the length must hold one.
pub open spec fn positional_error(t: LuaTable) -> Option<Seq<char>> {
    if t.len == 0 {
        Some(no_positional_message())
    } else if value_at(t, 1) is None {
        Some("Expected a string or function, but got a nil: Nil"@)
    } else if exists|k: int| 2 <= k <= t.len && #[trigger] value_at(t, k) is None {
        Some("Expected a string, but got a nil: Nil"@)
    } else {
        None
    }
}

/// What checking an action finds: a table of strings with allowed keys and
/// positional elements, or a function.
pub open spec fn action_error(v: LuaValue) -> Option<Seq<char>> {
    match v.kind {
        LuaKind::Table(t) => match string_table_error(t) {
            Some(e) => Some(e),
            None => match first_error(t.pairs@, |p: (LuaValue, LuaValue)| action_key_error(p)) {
                Some(e) => Some(e),
                None => positional_error(t),
            },
        },
        LuaKind::Function(_) => None,
        _ => Some("Expected table or function, but got a "@ + type_name_of(v.kind) + ":, "@ + v.debug@),
    }
}

fn check_action_key(p: &(LuaValue, LuaValue)) -> (r: Result<(), String>)
    ensures
        outcome(r) == action_key_error(*p),
{
    match &p.0.kind {
        LuaKind::Integer(_) => Ok(()),
        LuaKind::Str => match &p.0.text {
            Err(e) => Err(e.clone()),
            Ok(k) => {
                if crate::text::str_eq(k.as_str(), "tool") || crate::text::str_eq(k.as_str(), "env") {
                    validate_name_alias_table(&p.1)
                } else {
                    let mut keys: Vec<&str> = Vec::new();
                    keys.push("tool");
                    keys.push("env");
                    proof {
                        assert(keys@.map_values(|k: &str| k@) =~= action_keys());
                    }
                    Err(key_validation_error(k.as_str(), &keys))
                }
            },
        },
        _ => Err(wrong_type_message("a string or integer index", &p.0)),
    }
}

fn check_positional(t: &LuaTable) -> (r: Result<(), String>)
    ensures
        outcome(r) == positional_error(*t),
{
    if t.len == 0 {
        return Err(String::from_str(
            "Action table must have either a single function or one or more strings as positional elements",
        ));
    }
    if value_at_index(t, 1).is_none() {
        return Err(String::from_str("Expected a string or function, but got a nil: Nil"));
    }
    let mut j: usize = 1;
    while j < t.len
        invariant
            1 <= j <= t.len,
            !(value_at(*t, 1) is None),
            forall|i: int| 2 <= i <= j ==> !(#[trigger] value_at(*t, i) is None),
        decreases t.len - j,
    {
        if value_at_index(t, j + 1).is_none() {
            proof {
                assert(value_at(*t, j + 1) is None);
            }
            return Err(String::from_str("Expected a string, but got a nil: Nil"));
        }
        j = j + 1;
    }
    Ok(())
}

/// Checks an action: a table of strings, with `tool` and `env` keys and
/// positional elements, or a function.
pub fn validate_action(value: &LuaValue) -> (r: Result<(), String>)
    ensures
        outcome(r) == action_error(*value),
{
    match &value.kind {
        LuaKind::Table(t) => {
            let r = validate_table_has_only_string_or_sequence_keys(t);
            if r.is_err() {
                return r;
            }
            let r = first_pair_error(&t.pairs, check_action_key, Ghost(|p: (LuaValue, LuaValue)| action_key_error(p)));
            if r.is_err() {
                return r;
            }
            check_positional(t)
        },
        LuaKind::Function(_) => Ok(()),
        _ => {
            let mut m = String::from_str("Expected table or function, but got a ");
            m.append(value.kind_name());
            m.append(":, ");
            m.append(value.debug.as_str());
            Err(m)
        },
    }
}

/// The first error in the actions of the sequence part of a table, from
/// index `i` on (looking at no more than `fuel` indices).
pub open spec fn actions_error_from(t: LuaTable, i: int, fuel: nat) -> Option<Seq<char>>
    decreases fuel,
{
    if fuel == 0 {
        None
    } else {
        match value_at(t, i) {
            None => None,
            Some(x) => if x.kind is Nil {
                None
            } else {
                match action_error(x) {
                    Some(e) => Some(e),
                    None => actions_error_from(t, i + 1, (fuel - 1) as nat),
                }
            },
        }
    }
}

/// What checking a list of actions finds: a sequence whose elements are
/// actions.
pub open spec fn action_list_error(v: LuaValue) -> Option<Seq<char>> {
    match v.kind {
        LuaKind::Table(t) => match sequence_error(t) {
            Some(e) => Some(e),
            None => actions_error_from(t, 1, t.pairs@.len()),
        },
        _ => Some(wrong_type("a table"@, v)),
    }
}

/// Checks a list of actions.
pub fn validate_action_list(value: &LuaValue) -> (r: Result<(), String>)
    ensures
        outcome(r) == action_list_error(*value),
{
    let t = match &value.kind {
        LuaKind::Table(t) => t,
        _ => {
            return Err(wrong_type_message("a table", value));
        },
    };
    let r = validate_table_is_sequence(t);
    if r.is_err() {
        return r;
    }
    let len = t.pairs.len();
    let mut n: usize = 0;
    while n < len
        invariant
            len == t.pairs@.len(),
            n <= len,
            value.kind == LuaKind::Table(*t),
            sequence_error(*t) is None,
            actions_error_from(*t, 1, len as nat) == actions_error_from(*t, n + 1, (len - n) as nat),
        decreases len - n,
    {
        let v = match value_at_index(t, n + 1) {
            None => {
                return Ok(());
            },
            Some(x) => x,
        };
        if let LuaKind::Nil = v.kind {
            return Ok(());
        }
        let r = validate_action(v);
        if r.is_err() {
            return r;
        }
        n = n + 1;
    }
    Ok(())
}

pub open spec fn cmd_name() -> Seq<char> {
    "cmd"@
}

/// What converting a Lua value to an action gives. A table names its build
/// environments under `build_env` and its tools under `tool`; a table whose
/// only positional element is a function runs that function, and the `cmd`
/// tool is added unless the table names a tool `cmd`; any other table is a
/// command line, which may use one build environment or tool at most, and
/// uses the `cmd` tool when it names none. A bare function runs with the
/// `cmd` tool alone.
pub open spec fn action_from_lua_spec(v: LuaValue) -> Result<ActionView, Seq<char>> {
    match v.kind {
        LuaKind::Table(t) => match alias_property(value_under(t, "build_env"@), "build_env"@) {
            Err(e) => Err(e),
            Ok(envs) => match alias_property(value_under(t, "tool"@), "tool"@) {
                Err(e) => Err(e),
                Ok(tools) => {
                    let single_fn = t.len == 1 && (value_at(t, 1) matches Some(f) && f.kind is Function);
                    if single_fn {
                        Ok(
                            ActionView {
                                tools: if tools.dom().contains(cmd_name()) {
                                    tools
                                } else {
                                    tools.insert(cmd_name(), cmd_name())
                                },
                                build_envs: envs,
                                cmd: ActionCmdView::Func(value_at(t, 1)->0.kind->Function_0),
                            },
                        )
                    } else if envs.dom().len() + tools.dom().len() > 1 {
                        Err("Can only use one build_env or tool with argument list action"@)
                    } else {
                        match sequence_texts(t) {
                            Err(e) => Err(e),
                            Ok(args) => Ok(
                                ActionView {
                                    tools: if envs.dom().len() + tools.dom().len() == 0 {
                                        tools.insert(cmd_name(), cmd_name())
                                    } else {
                                        tools
                                    },
                                    build_envs: envs,
                                    cmd: ActionCmdView::Cmd(args),
                                },
                            ),
                        }
                    }
                },
            },
        },
        LuaKind::Function(h) => Ok(
            ActionView {
                tools: Map::empty().insert(cmd_name(), cmd_name()),
                build_envs: Map::empty(),
                cmd: ActionCmdView::Func(h),
            },
        ),
        _ => Err("Expected a lua table to convert to Action"@),
    }
}

fn entries_have_key(entries: &Vec<(String, String)>, key: &str) -> (r: bool)
    requires
        keys_distinct(entries_view(entries@)),
    ensures
        r == entries_map(entries_view(entries@)).dom().contains(key@),
{
    let ghost s = entries_view(entries@);
    proof {
        lemma_entries_map_domain(s);
    }
    let mut i: usize = 0;
    while i < entries.len()
        invariant
            s == entries_view(entries@),
            i <= s.len(),
            forall|j: int| 0 <= j < i ==> #[trigger] s[j].0 != key@,
            keys_distinct(s),
        decreases s.len() - i,
    {
        if crate::text::str_eq(entries[i].0.as_str(), key) {
            proof {
                assert(s[i as int].0 == key@);
                lemma_entries_map_domain(s);
            }
            return true;
        }
        i = i + 1;
    }
    false
}

/// Converts a Lua value to an action.
pub fn action_from_lua(value: &LuaValue) -> (r: Result<Action, String>)
    ensures
        match action_from_lua_spec(*value) {
            Ok(a) => r matches Ok(x) && action_view(x) == a && keys_distinct(entries_view(x.tools@))
                && keys_distinct(entries_view(x.build_envs@)),
            Err(e) => r matches Err(m) && m@ == e,
        },
{
    match &value.kind {
        LuaKind::Table(t) => {
            let build_envs = match aliases_from_property(value_under_key(t, "build_env"), "build_env") {
                Err(e) => {
                    return Err(e);
                },
                Ok(x) => x,
            };
            let mut tools = match aliases_from_property(value_under_key(t, "tool"), "tool") {
                Err(e) => {
                    return Err(e);
                },
                Ok(x) => x,
            };
            proof {
                lemma_entries_map_domain(entries_view(build_envs@));
                lemma_entries_map_domain(entries_view(tools@));
            }
            if t.len == 1 {
                if let Some(first) = value_at_index(t, 1) {
                    if let LuaKind::Function(h) = first.kind {
                        if !entries_have_key(&tools, "cmd") {
                            insert_entry(&mut tools, String::from_str("cmd"), String::from_str("cmd"));
                        }
                        return Ok(Action { tools, build_envs, cmd: ActionCmd::Func(h) });
                    }
                }
            }
            let n_envs = build_envs.len();
            let n_tools = tools.len();
            if n_envs > 1 || n_tools > 1 || n_envs + n_tools > 1 {
                return Err(String::from_str("Can only use one build_env or tool with argument list action"));
            }
            let args = match sequence_values_text(t) {
                Err(e) => {
                    return Err(e);
                },
                Ok(a) => a,
            };
            if n_envs + n_tools == 0 {
                insert_entry(&mut tools, String::from_str("cmd"), String::from_str("cmd"));
            }
            Ok(Action { tools, build_envs, cmd: ActionCmd::Cmd(args) })
        },
        LuaKind::Function(h) => {
            let mut tools: Vec<(String, String)> = Vec::new();
            let build_envs: Vec<(String, String)> = Vec::new();
            proof {
                assert(entries_view(tools@) =~= Seq::<(Seq<char>, Seq<char>)>::empty());
                assert(entries_view(build_envs@) =~= Seq::<(Seq<char>, Seq<char>)>::empty());
            }
            insert_entry(&mut tools, String::from_str("cmd"), String::from_str("cmd"));
            Ok(Action { tools, build_envs, cmd: ActionCmd::Func(*h) })
        },
        _ => Err(String::from_str("Expected a lua table to convert to Action")),
    }
}

} // verus!
