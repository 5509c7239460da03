//! The check of a build environment as a project definition writes it.
use vstd::prelude::*;
use crate::datamodel::action::{
    action_error, action_from_lua, action_from_lua_spec, action_list_error, action_view, validate_action,
    validate_action_list, value_at, value_at_index, value_under, value_under_key, Action, ActionView,
};
use crate::datamodel::dependency::{
    alias_map, alias_map_view, dep_list_error, dep_list_of_lua, dep_list_view, dependency_list_from_lua, listed,
    validate_dep_list, Dependencies, DepListView,
};
use crate::lua::value::{type_name_of, LuaTable};
use crate::datamodel::validate::{
    first_error, first_pair_error, is_string_error, key_validation_error, outcome, unknown_key, validate_is_string,
    wrong_type, wrong_type_message,
};
use crate::lua::value::{text_view, LuaKind, LuaValue};
use crate::text::str_eq;

verus! {

/// The keys that the message for an unknown key of a build environment
/// lists.
pub open spec fn build_env_listed_keys() -> Seq<Seq<char>> {
    seq!["name"@, "install"@, "deps"@]
}

/// What the check of a build environment table says of one pair: `name` is
/// a string, `install` a list of actions, `deps` a dependency list, and
/// `action` an action.
pub open spec fn build_env_key_error(p: (LuaValue, LuaValue)) -> Option<Seq<char>> {
    if !(p.0.kind is Str) {
        Some(wrong_type("a string"@, p.0))
    } else {
        match text_view(p.0) {
            Err(e) => Some(e),
            Ok(k) => if k == "name"@ {
                is_string_error(p.1)
            } else if k == "install"@ {
                action_list_error(p.1)
            } else if k == "deps"@ {
                dep_list_error(p.1)
            } else if k == "action"@ {
                action_error(p.1)
            } else {
                Some(unknown_key(k, build_env_listed_keys()))
            },
        }
    }
}

/// What checking a build environment finds.
pub open spec fn build_env_error(v: LuaValue) -> Option<Seq<char>> {
    match v.kind {
        LuaKind::Table(t) => first_error(t.pairs@, |p: (LuaValue, LuaValue)| build_env_key_error(p)),
        _ => Some(wrong_type("a table"@, v)),
    }
}

fn check_build_env_key(p: &(LuaValue, LuaValue)) -> (r: Result<(), String>)
    ensures
        outcome(r) == build_env_key_error(*p),
{
    match &p.0.kind {
        LuaKind::Str => {},
        _ => {
            return Err(wrong_type_message("a string", &p.0));
        },
    }
    let k = match &p.0.text {
        Err(e) => {
            return Err(e.clone());
        },
        Ok(k) => k,
    };
    if str_eq(k.as_str(), "name") {
        validate_is_string(&p.1)
    } else if str_eq(k.as_str(), "install") {
        validate_action_list(&p.1)
    } else if str_eq(k.as_str(), "deps") {
        validate_dep_list(&p.1)
    } else if str_eq(k.as_str(), "action") {
        validate_action(&p.1)
    } else {
        let mut keys: Vec<&str> = Vec::new();
        keys.push("name");
        keys.push("install");
        keys.push("deps");
        proof {
            assert(keys@.map_values(|k: &str| k@) =~= build_env_listed_keys());
        }
        Err(key_validation_error(k.as_str(), &keys))
    }
}

/// Checks a build environment: a table with a string `name`, a list of
/// `install` actions, `deps` and an `action`.
pub fn validate_build_env(value: &LuaValue) -> (r: Result<(), String>)
    ensures
        outcome(r) == build_env_error(*value),
{
    match &value.kind {
        LuaKind::Table(t) => first_pair_error(
            &t.pairs,
            check_build_env_key,
            Ghost(|p: (LuaValue, LuaValue)| build_env_key_error(p)),
        ),
        _ => Err(wrong_type_message("a table", value)),
    }
}

/// A build environment: its name, the actions that install it, what it
/// depends on, and the action that runs in it.
#[derive(Debug)]
pub struct BuildEnv {
    pub name: String,
    pub install: Vec<Action>,
    pub deps: Dependencies,
    pub action: Action,
}

/// The message for a missing text property.
pub open spec fn nil_text_message() -> Seq<char> {
    "error converting Lua nil to String (expected string or number)"@
}

/// The text under `key`, which must convert to a string.
pub open spec fn text_property(t: LuaTable, key: Seq<char>) -> Result<Seq<char>, Seq<char>> {
    match value_under(t, key) {
        Some(v) => text_view(v),
        None => Err(nil_text_message()),
    }
}

/// The actions of the sequence part of a table from index `i` on.
pub open spec fn actions_from(t: LuaTable, i: int, fuel: nat) -> Result<Seq<ActionView>, Seq<char>>
    decreases fuel,
{
    if fuel == 0 {
        Ok(seq![])
    } else {
        match value_at(t, i) {
            None => Ok(seq![]),
            Some(v) => if v.kind is Nil {
                Ok(seq![])
            } else {
                match action_from_lua_spec(v) {
                    Err(e) => Err(e),
                    Ok(a) => match actions_from(t, i + 1, (fuel - 1) as nat) {
                        Err(e) => Err(e),
                        Ok(rest) => Ok(seq![a] + rest),
                    },
                }
            },
        }
    }
}

/// The list of actions that a property gives: the actions of a table's
/// sequence part.
pub open spec fn action_list_of(v: Option<LuaValue>) -> Result<Seq<ActionView>, Seq<char>> {
    match v {
        Some(x) => match x.kind {
            LuaKind::Table(u) => actions_from(u, 1, u.pairs@.len()),
            _ => Err("error converting Lua "@ + type_name_of(x.kind) + " to Vec (expected table)"@),
        },
        None => Err("error converting Lua nil to Vec (expected table)"@),
    }
}

/// The dependency lists that the `deps` property gives; none when it is
/// missing.
pub open spec fn deps_property(v: Option<LuaValue>) -> Result<Option<DepListView>, Seq<char>> {
    match v {
        None => Ok(None),
        Some(x) => if x.kind is Nil {
            Ok(None)
        } else {
            match dep_list_of_lua(x) {
                Err(e) => Err(e),
                Ok(d) => Ok(Some(d)),
            }
        },
    }
}

/// The action that a property gives.
pub open spec fn action_property(v: Option<LuaValue>) -> Result<ActionView, Seq<char>> {
    match v {
        Some(x) => action_from_lua_spec(x),
        None => Err("Expected a lua table to convert to Action"@),
    }
}

/// The dependencies are those of the lists `d`, or none at all.
pub open spec fn deps_match(deps: Dependencies, d: Option<DepListView>) -> bool {
    match d {
        None => deps.files@.len() == 0 && deps.tasks@.len() == 0 && deps.vars@.len() == 0 && deps.calc@.len() == 0,
        Some(lv) => exists|l: crate::datamodel::dependency::DependencyListByType|
            dep_list_view(l) == lv && alias_map_view(deps.files@) == alias_map(listed(l.files)) && alias_map_view(
                deps.tasks@,
            ) == alias_map(listed(l.tasks)) && alias_map_view(deps.vars@) == alias_map(listed(l.vars))
                && deps.calc@.map_values(|s: String| s@) == listed(l.calc).map_values(
                |e: (crate::datamodel::types::StringOrInt, String)| e.1@,
            ),
    }
}

/// What converting a Lua value to a build environment gives: a table with
/// a `name`, a list of `install` actions, optional `deps` and an `action`.
pub open spec fn build_env_of_lua(v: LuaValue) -> Result<
    (Seq<char>, Seq<ActionView>, Option<DepListView>, ActionView),
    Seq<char>,
> {
    match v.kind {
        LuaKind::Table(t) => match text_property(t, "name"@) {
            Err(e) => Err(e),
            Ok(name) => match action_list_of(value_under(t, "install"@)) {
                Err(e) => Err(e),
                Ok(install) => match deps_property(value_under(t, "deps"@)) {
                    Err(e) => Err(e),
                    Ok(deps) => match action_property(value_under(t, "action"@)) {
                        Err(e) => Err(e),
                        Ok(action) => Ok((name, install, deps, action)),
                    },
                },
            },
        },
        _ => Err("Unable to convert value to a BuildEnvDef: "@ + v.debug@),
    }
}

/// The text under `key`.
pub fn text_under_key(t: &LuaTable, key: &str) -> (r: Result<String, String>)
    ensures
        match text_property(*t, key@) {
            Ok(x) => r matches Ok(s) && s@ == x,
            Err(e) => r matches Err(m) && m@ == e,
        },
{
    match value_under_key(t, key) {
        Some(v) => match &v.text {
            Ok(x) => Ok(x.clone()),
            Err(e) => Err(e.clone()),
        },
        None => Err(String::from_str("error converting Lua nil to String (expected string or number)")),
    }
}

fn actions_of_table(u: &LuaTable) -> (r: Result<Vec<Action>, String>)
    ensures
        match actions_from(*u, 1, u.pairs@.len()) {
            Ok(s) => r matches Ok(v) && v@.map_values(|a: Action| action_view(a)) == s,
            Err(e) => r matches Err(m) && m@ == e,
        },
{
    let len = u.pairs.len();
    let ghost whole = actions_from(*u, 1, len as nat);
    let mut out: Vec<Action> = Vec::new();
    let mut n: usize = 0;
    proof {
        assert(out@.map_values(|a: Action| action_view(a)) =~= Seq::<ActionView>::empty());
        assert(whole == match actions_from(*u, 1, len as nat) {
            Ok(rest) => Ok(out@.map_values(|a: Action| action_view(a)) + rest),
            Err(e) => Err(e),
        });
    }
    while n < len
        invariant
            len == u.pairs@.len(),
            n <= len,
            whole == actions_from(*u, 1, len as nat),
            whole == match actions_from(*u, n + 1, (len - n) as nat) {
                Ok(rest) => Ok::<Seq<ActionView>, Seq<char>>(out@.map_values(|a: Action| action_view(a)) + rest),
                Err(e) => Err(e),
            },
        decreases len - n,
    {
        let v = match value_at_index(u, n + 1) {
            None => {
                proof {
                    assert(out@.map_values(|a: Action| action_view(a)) + seq![] =~= out@.map_values(
                        |a: Action| action_view(a),
                    ));
                }
                return Ok(out);
            },
            Some(x) => x,
        };
        if let LuaKind::Nil = v.kind {
            proof {
                assert(out@.map_values(|a: Action| action_view(a)) + seq![] =~= out@.map_values(
                    |a: Action| action_view(a),
                ));
            }
            return Ok(out);
        }
        match action_from_lua(v) {
            Err(e) => {
                return Err(e);
            },
            Ok(a) => {
                let ghost prev = out@;
                let ghost av = action_view(a);
                out.push(a);
                proof {
                    assert(out@.map_values(|a: Action| action_view(a)) =~= prev.map_values(|a: Action| action_view(a)).push(
                        av,
                    ));
                    let rest = actions_from(*u, n + 2, (len - n - 1) as nat);
                    if let Ok(r) = rest {
                        assert(prev.map_values(|a: Action| action_view(a)) + (seq![av] + r) =~= out@.map_values(
                            |a: Action| action_view(a),
                        ) + r);
                    }
                }
            },
        }
        n = n + 1;
    }
    proof {
        assert(out@.map_values(|a: Action| action_view(a)) + seq![] =~= out@.map_values(|a: Action| action_view(a)));
    }
    Ok(out)
}

/// Converts a Lua value to a build environment.
pub fn build_env_from_lua(value: &LuaValue) -> (r: Result<BuildEnv, String>)
    ensures
        match build_env_of_lua(*value) {
            Ok((name, install, deps, action)) => r matches Ok(e) && e.name@ == name && e.install@.map_values(
                |a: Action| action_view(a),
            ) == install && deps_match(e.deps, deps) && action_view(e.action) == action,
            Err(m) => r matches Err(x) && x@ == m,
        },
{
    let t = match &value.kind {
        LuaKind::Table(t) => t,
        _ => {
            let mut m = String::from_str("Unable to convert value to a BuildEnvDef: ");
            m.append(value.debug.as_str());
            return Err(m);
        },
    };
    let name = match text_under_key(t, "name") {
        Err(e) => {
            return Err(e);
        },
        Ok(n) => n,
    };
    let install = match value_under_key(t, "install") {
        None => {
            return Err(String::from_str("error converting Lua nil to Vec (expected table)"));
        },
        Some(v) => match &v.kind {
            LuaKind::Table(u) => match actions_of_table(u) {
                Err(e) => {
                    return Err(e);
                },
                Ok(a) => a,
            },
            _ => {
                let mut m = String::from_str("error converting Lua ");
                m.append(v.kind_name());
                m.append(" to Vec (expected table)");
                return Err(m);
            },
        },
    };
    let deps_value = value_under_key(t, "deps");
    let deps = match deps_value {
        None => Dependencies::empty(),
        Some(v) => match &v.kind {
            LuaKind::Nil => Dependencies::empty(),
            _ => match dependency_list_from_lua(v) {
                Err(e) => {
                    return Err(e);
                },
                Ok(l) => Dependencies::from_list(l),
            },
        },
    };
    let action = match value_under_key(t, "action") {
        None => {
            return Err(String::from_str("Expected a lua table to convert to Action"));
        },
        Some(v) => match action_from_lua(v) {
            Err(e) => {
                return Err(e);
            },
            Ok(a) => a,
        },
    };
    Ok(BuildEnv { name, install, deps, action })
}

} // verus!
