//! The check of an external tool as a project definition writes it.
use vstd::prelude::*;
use crate::datamodel::action::{
    action_error, action_from_lua, action_from_lua_spec, action_view, entries_map, entries_view, keys_distinct,
    lemma_entries_map_domain, validate_action, value_under, value_under_key, Action, ActionView,
};
use crate::datamodel::build_env::{text_property, text_under_key};
use crate::datamodel::validate::{
    first_error, first_pair_error, has_key, is_string_error, key_validation_error, outcome, unknown_key,
    validate_is_string, validate_required_key, wrong_type, wrong_type_message,
};
use crate::lua::value::{text_view, LuaKind, LuaValue};
use crate::text::str_eq;

verus! {

pub open spec fn tool_keys() -> Seq<Seq<char>> {
    seq!["name"@, "install"@, "check"@, "action"@]
}

/// What the check of a tool table says of one pair: `name` is a string,
/// `install`, `check` and `action` are actions.
pub open spec fn tool_key_error(p: (LuaValue, LuaValue)) -> Option<Seq<char>> {
    if !(p.0.kind is Str) {
        Some(wrong_type("a string"@, p.0))
    } else {
        match text_view(p.0) {
            Err(e) => Some(e),
            Ok(k) => if k == "name"@ {
                is_string_error(p.1)
            } else if k == "install"@ || k == "check"@ || k == "action"@ {
                action_error(p.1)
            } else {
                Some(unknown_key(k, tool_keys()))
            },
        }
    }
}

/// What checking a tool finds: it is a table, it has a `name` and an
/// `action`, and each of its pairs is allowed.
pub open spec fn tool_error(v: LuaValue) -> Option<Seq<char>> {
    match v.kind {
        LuaKind::Table(t) => if !has_key(t, "name"@) || !has_key(t, "action"@) {
            Some("'name' property is required"@)
        } else {
            first_error(t.pairs@, |p: (LuaValue, LuaValue)| tool_key_error(p))
        },
        _ => Some(wrong_type("a table"@, v)),
    }
}

fn check_tool_key(p: &(LuaValue, LuaValue)) -> (r: Result<(), String>)
    ensures
        outcome(r) == tool_key_error(*p),
{
    match &p.0.kind {
        LuaKind::Str => {},
        _ => {
            return Err(wrong_type_message("a string", &p.0));
        },
    }
    let k = match &p.0.text {
        Err(e) => {
            return Err(e.clone());
        },
        Ok(k) => k,
    };
    if str_eq(k.as_str(), "name") {
        validate_is_string(&p.1)
    } else if str_eq(k.as_str(), "install") || str_eq(k.as_str(), "check") || str_eq(k.as_str(), "action") {
        validate_action(&p.1)
    } else {
        let mut keys: Vec<&str> = Vec::new();
        keys.push("name");
        keys.push("install");
        keys.push("check");
        keys.push("action");
        proof {
            assert(keys@.map_values(|k: &str| k@) =~= tool_keys());
        }
        Err(key_validation_error(k.as_str(), &keys))
    }
}

/// Checks an external tool: a table with a string `name` and an `action`,
/// and optional `install` and `check` actions.
pub fn validate_tool(value: &LuaValue) -> (r: Result<(), String>)
    ensures
        outcome(r) == tool_error(*value),
{
    let t = match &value.kind {
        LuaKind::Table(t) => t,
        _ => {
            return Err(wrong_type_message("a table", value));
        },
    };
    let r = validate_required_key(t, "name");
    if r.is_err() {
        return r;
    }
    let r = validate_required_key(t, "action");
    if r.is_err() {
        return r;
    }
    first_pair_error(&t.pairs, check_tool_key, Ghost(|p: (LuaValue, LuaValue)| tool_key_error(p)))
}

/// An external tool: its name, the actions that install and check it, and
/// the action that runs it.
#[derive(Debug)]
pub struct ExternalTool {
    pub name: String,
    pub install: Option<Action>,
    pub check: Option<Action>,
    pub action: Action,
}

/// The action that an optional property gives; none when it is missing.
pub open spec fn opt_action_property(v: Option<LuaValue>) -> Result<Option<ActionView>, Seq<char>> {
    match v {
        None => Ok(None),
        Some(x) => if x.kind is Nil {
            Ok(None)
        } else {
            match action_from_lua_spec(x) {
                Err(e) => Err(e),
                Ok(a) => Ok(Some(a)),
            }
        },
    }
}

pub open spec fn no_envs_message() -> Seq<char> {
    "External tools cannot depend on build environments"@
}

/// The action, if any, uses no build environment.
pub open spec fn uses_no_env(a: Option<ActionView>) -> bool {
    match a {
        Some(x) => x.build_envs.dom().len() == 0,
        None => true,
    }
}

/// What converting a Lua value to a tool gives: a table with a `name`, an
/// optional `install` action, an optional `check` action and an `action`;
/// neither the install action nor the action may use a build environment.
pub open spec fn tool_of_lua(v: LuaValue) -> Result<
    (Seq<char>, Option<ActionView>, Option<ActionView>, ActionView),
    Seq<char>,
> {
    match v.kind {
        LuaKind::Table(t) => match text_property(t, "name"@) {
            Err(e) => Err(e),
            Ok(name) => match opt_action_property(value_under(t, "install"@)) {
                Err(e) => Err(e),
                Ok(install) => if !uses_no_env(install) {
                    Err(no_envs_message())
                } else {
                    match opt_action_property(value_under(t, "check"@)) {
                        Err(e) => Err(e),
                        Ok(check) => match value_under(t, "action"@) {
                            None => Err("Expected a lua table to convert to Action"@),
                            Some(x) => match action_from_lua_spec(x) {
                                Err(e) => Err(e),
                                Ok(action) => if action.build_envs.dom().len() > 0 {
                                    Err(no_envs_message())
                                } else {
                                    Ok((name, install, check, action))
                                },
                            },
                        },
                    }
                },
            },
        },
        _ => Err("Unable to convert value to action: "@ + v.debug@),
    }
}

pub open spec fn opt_action_view(a: Option<Action>) -> Option<ActionView> {
    match a {
        Some(x) => Some(action_view(x)),
        None => None,
    }
}

fn opt_action_from(v: Option<&LuaValue>) -> (r: Result<Option<Action>, String>)
    ensures
        match opt_action_property(
            match v {
                Some(x) => Some(*x),
                None => None,
            },
        ) {
            Ok(a) => r matches Ok(x) && opt_action_view(x) == a && (x matches Some(y) ==> keys_distinct(
                entries_view(y.build_envs@),
            )),
            Err(e) => r matches Err(m) && m@ == e,
        },
{
    match v {
        None => Ok(None),
        Some(x) => match &x.kind {
            LuaKind::Nil => Ok(None),
            _ => match action_from_lua(x) {
                Err(e) => Err(e),
                Ok(a) => Ok(Some(a)),
            },
        },
    }
}

/// Converts a Lua value to an external tool: its name, its install and
/// check actions and its action.
pub fn tool_from_lua(value: &LuaValue) -> (r: Result<ExternalTool, String>)
    ensures
        match tool_of_lua(*value) {
            Ok((name, install, check, action)) => r matches Ok(t) && t.name@ == name && opt_action_view(t.install)
                == install && opt_action_view(t.check) == check && action_view(t.action) == action,
            Err(m) => r matches Err(x) && x@ == m,
        },
{
    let t = match &value.kind {
        LuaKind::Table(t) => t,
        _ => {
            let mut m = String::from_str("Unable to convert value to action: ");
            m.append(value.debug.as_str());
            return Err(m);
        },
    };
    let name = match text_under_key(t, "name") {
        Err(e) => {
            return Err(e);
        },
        Ok(n) => n,
    };
    let install = match opt_action_from(value_under_key(t, "install")) {
        Err(e) => {
            return Err(e);
        },
        Ok(a) => a,
    };
    if let Some(ins) = &install {
        proof {
            lemma_entries_map_domain(entries_view(ins.build_envs@));
        }
        if ins.build_envs.len() > 0 {
            return Err(String::from_str("External tools cannot depend on build environments"));
        }
    }
    let check = match opt_action_from(value_under_key(t, "check")) {
        Err(e) => {
            return Err(e);
        },
        Ok(a) => a,
    };
    let action = match value_under_key(t, "action") {
        None => {
            return Err(String::from_str("Expected a lua table to convert to Action"));
        },
        Some(v) => match action_from_lua(v) {
            Err(e) => {
                return Err(e);
            },
            Ok(a) => a,
        },
    };
    proof {
        lemma_entries_map_domain(entries_view(action.build_envs@));
    }
    if action.build_envs.len() > 0 {
        return Err(String::from_str("External tools cannot depend on build environments"));
    }
    Ok(ExternalTool { name, install, check, action })
}

} // verus!
