//! Checks on the Lua values that a project definition is made of.
use vstd::prelude::*;
use crate::datamodel::types::{decimal, decimal_text};
use crate::lua::value::{
    find_key, is_key, lemma_find_key_whole, text_view, type_name_of, value_is_key, LuaKind, LuaTable, LuaValue,
};

verus! {

/// The first error that `f` finds in `s`, going from the front.
pub open spec fn first_error<T>(s: Seq<T>, f: spec_fn(T) -> Option<Seq<char>>) -> Option<Seq<char>>
    decreases s.len(),
{
    if s.len() == 0 {
        None
    } else {
        match first_error(s.drop_last(), f) {
            Some(e) => Some(e),
            None => f(s.last()),
        }
    }
}

pub proof fn lemma_first_error_step<T>(s: Seq<T>, f: spec_fn(T) -> Option<Seq<char>>, i: int)
    requires
        0 <= i < s.len(),
        first_error(s.take(i), f) is None,
    ensures
        first_error(s.take(i + 1), f) == f(s[i]),
{
    assert(s.take(i + 1).drop_last() =~= s.take(i));
}

pub proof fn lemma_first_error_whole<T>(s: Seq<T>, f: spec_fn(T) -> Option<Seq<char>>)
    ensures
        first_error(s.take(s.len() as int), f) == first_error(s, f),
        first_error(s.take(0), f) is None,
{
    assert(s.take(s.len() as int) =~= s);
}

/// An error in a prefix is the first error of the whole.
pub proof fn lemma_first_error_prefix<T>(s: Seq<T>, f: spec_fn(T) -> Option<Seq<char>>, k: int)
    requires
        0 <= k <= s.len(),
        first_error(s.take(k), f) is Some,
    ensures
        first_error(s, f) == first_error(s.take(k), f),
    decreases s.len() - k,
{
    if k < s.len() {
        assert(s.take(k + 1).drop_last() =~= s.take(k));
        lemma_first_error_prefix(s, f, k + 1);
    } else {
        assert(s.take(k) =~= s);
    }
}

/// When `f` finds no error in `s`, it finds none in any item of `s`.
pub proof fn lemma_first_error_none<T>(s: Seq<T>, f: spec_fn(T) -> Option<Seq<char>>)
    requires
        first_error(s, f) is None,
    ensures
        forall|i: int| 0 <= i < s.len() ==> #[trigger] f(s[i]) is None,
    decreases s.len(),
{
    if s.len() > 0 {
        lemma_first_error_none(s.drop_last(), f);
        assert forall|i: int| 0 <= i < s.len() implies #[trigger] f(s[i]) is None by {
            if i < s.len() - 1 {
                assert(s.drop_last()[i] == s[i]);
            }
        }
    }
}

/// What a check gives back: no error, or the error's message.
pub open spec fn outcome<T>(r: Result<T, String>) -> Option<Seq<char>> {
    match r {
        Ok(_) => None,
        Err(m) => Some(m@),
    }
}

/// The message for a value of the wrong type.
pub open spec fn wrong_type(expected: Seq<char>, v: LuaValue) -> Seq<char> {
    "Expected "@ + expected + ", but got a "@ + type_name_of(v.kind) + ": "@ + v.debug@
}

/// The message for a value of the wrong type.
pub fn wrong_type_message(expected: &str, v: &LuaValue) -> (r: String)
    ensures
        r@ == wrong_type(expected@, *v),
{
    let mut r = String::from_str("Expected ");
    r.append(expected);
    r.append(", but got a ");
    r.append(v.kind_name());
    r.append(": ");
    r.append(v.debug.as_str());
    r
}

/// The value is in the sequence part of a table of length `len`.
pub open spec fn in_sequence(i: int, len: int) -> bool {
    1 <= i <= len
}

/// What the check of a table that may hold only strings, under string keys
/// or under the indices of its sequence part, says of one pair.
pub open spec fn string_entry_error(len: int, p: (LuaValue, LuaValue)) -> Option<Seq<char>> {
    match p.0.kind {
        LuaKind::Str => if p.1.kind is Str {
            None
        } else {
            Some(wrong_type("a string"@, p.1))
        },
        LuaKind::Integer(i) => if !in_sequence(i as int, len) {
            Some("Disjoint number indices not allowed: "@ + decimal(i as int))
        } else if p.1.kind is Str {
            None
        } else {
            Some(wrong_type("a string"@, p.1))
        },
        _ => Some(wrong_type("string or integer index"@, p.0)),
    }
}

pub open spec fn string_table_error(t: LuaTable) -> Option<Seq<char>> {
    first_error(t.pairs@, |p: (LuaValue, LuaValue)| string_entry_error(t.len as int, p))
}

fn check_string_entry(len: usize, p: &(LuaValue, LuaValue)) -> (r: Result<(), String>)
    ensures
        outcome(r) == string_entry_error(len as int, *p),
{
    match &p.0.kind {
        LuaKind::Str => {},
        LuaKind::Integer(i) => {
            if !(1 <= *i && (*i as u64) <= (len as u64)) {
                let mut m = String::from_str("Disjoint number indices not allowed: ");
                let d = decimal_text(*i);
                m.append(d.as_str());
                return Err(m);
            }
        },
        _ => {
            return Err(wrong_type_message("string or integer index", &p.0));
        },
    }
    match &p.1.kind {
        LuaKind::Str => Ok(()),
        _ => Err(wrong_type_message("a string", &p.1)),
    }
}

/// Checks that a table holds only strings, under string keys or under the
/// indices of its sequence part.
pub fn validate_table_has_only_string_or_sequence_keys(table: &LuaTable) -> (r: Result<(), String>)
    ensures
        outcome(r) == string_table_error(*table),
{
    let ghost ps = table.pairs@;
    let ghost f = |p: (LuaValue, LuaValue)| string_entry_error(table.len as int, p);
    proof {
        lemma_first_error_whole(ps, f);
    }
    let mut i: usize = 0;
    while i < table.pairs.len()
        invariant
            ps == table.pairs@,
            f == (|p: (LuaValue, LuaValue)| string_entry_error(table.len as int, p)),
            i <= ps.len(),
            first_error(ps.take(i as int), f) is None,
        decreases ps.len() - i,
    {
        let r = check_string_entry(table.len, &table.pairs[i]);
        proof {
            lemma_first_error_step(ps, f, i as int);
        }
        if r.is_err() {
            proof {
                lemma_first_error_prefix(ps, f, i as int + 1);
            }
            return r;
        }
        i = i + 1;
    }
    proof {
        lemma_first_error_whole(ps, f);
    }
    Ok(())
}

/// What the check of a sequence says of one pair.
pub open spec fn sequence_entry_error(len: int, p: (LuaValue, LuaValue)) -> Option<Seq<char>> {
    match p.0.kind {
        LuaKind::Integer(i) => if in_sequence(i as int, len) {
            None
        } else {
            Some("Sequence expected, but disjoint integer index found: "@ + decimal(i as int))
        },
        _ => Some("Sequence expected, but non-integer index found: "@ + p.0.debug@),
    }
}

pub open spec fn sequence_error(t: LuaTable) -> Option<Seq<char>> {
    first_error(t.pairs@, |p: (LuaValue, LuaValue)| sequence_entry_error(t.len as int, p))
}

fn check_sequence_entry(len: usize, p: &(LuaValue, LuaValue)) -> (r: Result<(), String>)
    ensures
        outcome(r) == sequence_entry_error(len as int, *p),
{
    match &p.0.kind {
        LuaKind::Integer(i) => {
            if 1 <= *i && (*i as u64) <= (len as u64) {
                Ok(())
            } else {
                let mut m = String::from_str("Sequence expected, but disjoint integer index found: ");
                let d = decimal_text(*i);
                m.append(d.as_str());
                Err(m)
            }
        },
        _ => {
            let mut m = String::from_str("Sequence expected, but non-integer index found: ");
            m.append(p.0.debug.as_str());
            Err(m)
        },
    }
}

/// Checks that every key of a table is an index of its sequence part.
pub fn validate_table_is_sequence(table: &LuaTable) -> (r: Result<(), String>)
    ensures
        outcome(r) == sequence_error(*table),
{
    let ghost ps = table.pairs@;
    let ghost f = |p: (LuaValue, LuaValue)| sequence_entry_error(table.len as int, p);
    proof {
        lemma_first_error_whole(ps, f);
    }
    let mut i: usize = 0;
    while i < table.pairs.len()
        invariant
            ps == table.pairs@,
            f == (|p: (LuaValue, LuaValue)| sequence_entry_error(table.len as int, p)),
            i <= ps.len(),
            first_error(ps.take(i as int), f) is None,
        decreases ps.len() - i,
    {
        let r = check_sequence_entry(table.len, &table.pairs[i]);
        proof {
            lemma_first_error_step(ps, f, i as int);
        }
        if r.is_err() {
            proof {
                lemma_first_error_prefix(ps, f, i as int + 1);
            }
            return r;
        }
        i = i + 1;
    }
    proof {
        lemma_first_error_whole(ps, f);
    }
    Ok(())
}

pub open spec fn is_string_error(v: LuaValue) -> Option<Seq<char>> {
    if v.kind is Str {
        None
    } else {
        Some(wrong_type("a string"@, v))
    }
}

/// Checks that the value is a string.
pub fn validate_is_string(value: &LuaValue) -> (r: Result<(), String>)
    ensures
        outcome(r) == is_string_error(*value),
{
    match &value.kind {
        LuaKind::Str => Ok(()),
        _ => Err(wrong_type_message("a string", value)),
    }
}

/// Checks that the value is a boolean, and gives it.
pub fn validate_is_bool(value: &LuaValue) -> (r: Result<bool, String>)
    ensures
        match value.kind {
            LuaKind::Boolean(b) => r == Ok::<bool, String>(b),
            _ => r matches Err(m) && m@ == wrong_type("a boolean"@, *value),
        },
{
    match &value.kind {
        LuaKind::Boolean(b) => Ok(*b),
        _ => Err(wrong_type_message("a boolean", value)),
    }
}

/// Checks that the value is a table, and gives it.
pub fn validate_is_table(value: &LuaValue) -> (r: Result<&LuaTable, String>)
    ensures
        match value.kind {
            LuaKind::Table(t) => r matches Ok(x) && *x == t,
            _ => r matches Err(m) && m@ == wrong_type("a table"@, *value),
        },
{
    match &value.kind {
        LuaKind::Table(t) => Ok(t),
        _ => Err(wrong_type_message("a table", value)),
    }
}

/// The texts joined, with `sep` between each two.
pub open spec fn joined(s: Seq<Seq<char>>, sep: Seq<char>) -> Seq<char>
    decreases s.len(),
{
    if s.len() == 0 {
        seq![]
    } else if s.len() == 1 {
        s[0]
    } else {
        joined(s.drop_last(), sep) + sep + s.last()
    }
}

/// The message for a property name that is not one of `valid_keys`.
pub open spec fn unknown_key(key: Seq<char>, valid_keys: Seq<Seq<char>>) -> Seq<char> {
    "Unknonwn property name: '"@ + key + "'. Expected one of ["@ + joined(valid_keys, ", "@) + "]"@
}

/// The message for a property name that is not one of `valid_keys`.
pub fn key_validation_error(key: &str, valid_keys: &Vec<&str>) -> (r: String)
    ensures
        r@ == unknown_key(key@, valid_keys@.map_values(|k: &str| k@)),
{
    let ghost ks = valid_keys@.map_values(|k: &str| k@);
    let mut list = String::new();
    let mut i: usize = 0;
    while i < valid_keys.len()
        invariant
            ks == valid_keys@.map_values(|k: &str| k@),
            i <= valid_keys@.len(),
            list@ == joined(ks.take(i as int), ", "@),
        decreases valid_keys@.len() - i,
    {
        proof {
            assert(ks.take(i as int + 1).drop_last() =~= ks.take(i as int));
            assert(ks.take(i as int + 1).last() == valid_keys@[i as int]@);
        }
        if i > 0 {
            list.append(", ");
        } else {
            proof {
                assert(list@ =~= seq![]);
            }
        }
        list.append(valid_keys[i]);
        i = i + 1;
    }
    proof {
        assert(ks.take(i as int) =~= ks);
    }
    let mut r = String::from_str("Unknonwn property name: '");
    r.append(key);
    r.append("'. Expected one of [");
    r.append(list.as_str());
    r.append("]");
    r
}

/// The table has a non-nil value under the string key `key`.
pub open spec fn has_key(t: LuaTable, key: Seq<char>) -> bool {
    match find_key(t.pairs@, key) {
        Some(i) => !(t.pairs@[i].1.kind is Nil),
        None => false,
    }
}

/// Checks that the table has a value under `key`.
pub fn validate_required_key(table: &LuaTable, key: &str) -> (r: Result<(), String>)
    ensures
        outcome(r) == if has_key(*table, key@) {
            None
        } else {
            Some("'name' property is required"@)
        },
{
    let pos = table.position_of_key(key);
    proof {
        lemma_find_key_whole(table.pairs@, key@);
    }
    match pos {
        Some(i) => match &table.pairs[i].1.kind {
            LuaKind::Nil => Err(String::from_str("'name' property is required")),
            _ => Ok(()),
        },
        None => Err(String::from_str("'name' property is required")),
    }
}

/// Runs `check` on each pair in order and gives back the first error;
/// `f` says what `check` finds in one pair.
pub fn first_pair_error<F: Fn(&(LuaValue, LuaValue)) -> Result<(), String>>(
    pairs: &Vec<(LuaValue, LuaValue)>,
    check: F,
    Ghost(f): Ghost<spec_fn((LuaValue, LuaValue)) -> Option<Seq<char>>>,
) -> (r: Result<(), String>)
    requires
        forall|p: (LuaValue, LuaValue)| #[trigger] check.requires((&p,)),
        forall|p: (LuaValue, LuaValue), x: Result<(), String>| #[trigger] check.ensures((&p,), x) ==> outcome(x) == f(p),
    ensures
        outcome(r) == first_error(pairs@, f),
{
    let ghost ps = pairs@;
    proof {
        lemma_first_error_whole(ps, f);
    }
    let mut i: usize = 0;
    while i < pairs.len()
        invariant
            ps == pairs@,
            i <= ps.len(),
            first_error(ps.take(i as int), f) is None,
            forall|p: (LuaValue, LuaValue)| #[trigger] check.requires((&p,)),
            forall|p: (LuaValue, LuaValue), x: Result<(), String>| #[trigger] check.ensures((&p,), x) ==> outcome(x) == f(p),
        decreases ps.len() - i,
    {
        let r = check(&pairs[i]);
        proof {
            lemma_first_error_step(ps, f, i as int);
        }
        if r.is_err() {
            proof {
                lemma_first_error_prefix(ps, f, i as int + 1);
            }
            return r;
        }
        i = i + 1;
    }
    proof {
        lemma_first_error_whole(ps, f);
    }
    Ok(())
}

} // verus!
