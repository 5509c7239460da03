//! The `json` and `toml` libraries that scripts use to read data: a text is
//! parsed with `serde_json` or `toml`, and the parsed value becomes a tree
//! of Lua values (nil, booleans, integers, numbers, strings, date-times,
//! sequences and string-keyed tables) that the interpreter builds.
use vstd::prelude::*;
use crate::toml_value::{data_of_entries, data_of_items, parse_toml_document, toml_document, TomlData, TomlValue};

verus! {

/// A JSON value; a number is kept as the text that `serde_json` writes for
/// it, an object keeps its entries in the order of the parsed map.
#[derive(Debug)]
pub enum JsonValue {
    Null,
    Bool(bool),
    Number(String),
    String(String),
    Array(Vec<JsonValue>),
    Object(Vec<(String, JsonValue)>),
}

/// The mathematical model of a JSON value.
pub enum JsonData {
    Null,
    Bool(bool),
    Number(Seq<char>),
    String(Seq<char>),
    Array(Seq<JsonData>),
    Object(Seq<(Seq<char>, JsonData)>),
}

pub open spec fn json_data_of(v: JsonValue) -> JsonData
    decreases v, 0nat,
{
    match v {
        JsonValue::Null => JsonData::Null,
        JsonValue::Bool(b) => JsonData::Bool(b),
        JsonValue::Number(n) => JsonData::Number(n@),
        JsonValue::String(s) => JsonData::String(s@),
        JsonValue::Array(a) => JsonData::Array(json_data_of_items(a@)),
        JsonValue::Object(o) => JsonData::Object(json_data_of_entries(o@)),
    }
}

pub open spec fn json_data_of_items(s: Seq<JsonValue>) -> Seq<JsonData>
    decreases s, 1nat,
{
    if s.len() == 0 {
        seq![]
    } else {
        json_data_of_items(s.drop_last()).push(json_data_of(s.last()))
    }
}

pub open spec fn json_data_of_entries(s: Seq<(String, JsonValue)>) -> Seq<(Seq<char>, JsonData)>
    decreases s, 1nat,
{
    if s.len() == 0 {
        seq![]
    } else {
        json_data_of_entries(s.drop_last()).push((s.last().0@, json_data_of(s.last().1)))
    }
}

impl View for JsonValue {
    type V = JsonData;

    open spec fn view(&self) -> JsonData {
        json_data_of(*self)
    }
}

/// A Lua value as the data libraries hand it to scripts: a sequence becomes
/// a table with keys 1 to n, a map a table with string keys, a date-time a
/// date-time object that prints as its text; a number is given by its text.
#[derive(Debug, PartialEq)]
pub enum LuaTree {
    Nil,
    Boolean(bool),
    Integer(i64),
    Number(String),
    String(String),
    DateTime(String),
    Sequence(Vec<LuaTree>),
    Table(Vec<(String, LuaTree)>),
}

/// The mathematical model of a `LuaTree`.
pub enum LuaTreeData {
    Nil,
    Boolean(bool),
    Integer(i64),
    Number(Seq<char>),
    String(Seq<char>),
    DateTime(Seq<char>),
    Sequence(Seq<LuaTreeData>),
    Table(Seq<(Seq<char>, LuaTreeData)>),
}

pub open spec fn tree_data_of(t: LuaTree) -> LuaTreeData
    decreases t, 0nat,
{
    match t {
        LuaTree::Nil => LuaTreeData::Nil,
        LuaTree::Boolean(b) => LuaTreeData::Boolean(b),
        LuaTree::Integer(i) => LuaTreeData::Integer(i),
        LuaTree::Number(n) => LuaTreeData::Number(n@),
        LuaTree::String(s) => LuaTreeData::String(s@),
        LuaTree::DateTime(s) => LuaTreeData::DateTime(s@),
        LuaTree::Sequence(a) => LuaTreeData::Sequence(tree_data_of_items(a@)),
        LuaTree::Table(m) => LuaTreeData::Table(tree_data_of_entries(m@)),
    }
}

pub open spec fn tree_data_of_items(s: Seq<LuaTree>) -> Seq<LuaTreeData>
    decreases s, 1nat,
{
    if s.len() == 0 {
        seq![]
    } else {
        tree_data_of_items(s.drop_last()).push(tree_data_of(s.last()))
    }
}

pub open spec fn tree_data_of_entries(s: Seq<(String, LuaTree)>) -> Seq<(Seq<char>, LuaTreeData)>
    decreases s, 1nat,
{
    if s.len() == 0 {
        seq![]
    } else {
        tree_data_of_entries(s.drop_last()).push((s.last().0@, tree_data_of(s.last().1)))
    }
}

impl View for LuaTree {
    type V = LuaTreeData;

    open spec fn view(&self) -> LuaTreeData {
        tree_data_of(*self)
    }
}

/// The value of a text of decimal digits.
pub open spec fn digits_value(s: Seq<char>) -> int
    decreases s.len(),
{
    if s.len() == 0 {
        0
    } else {
        digits_value(s.drop_last()) * 10 + (s.last() as int - '0' as int)
    }
}

pub open spec fn is_digit(c: char) -> bool {
    '0' as int <= c as int && c as int <= '9' as int
}

/// The text is one or more decimal digits.
pub open spec fn all_digits(s: Seq<char>) -> bool {
    s.len() > 0 && forall|i: int| 0 <= i < s.len() ==> #[trigger] is_digit(s[i])
}

/// The integer that a number's text writes, when it writes an integer (an
/// optional `-` and decimal digits) that a Lua integer holds.
pub open spec fn integer_of_text(t: Seq<char>) -> Option<i64> {
    if t.len() > 0 && t[0] == '-' && all_digits(t.drop_first()) {
        let v = -digits_value(t.drop_first());
        if i64::MIN <= v {
            Some(v as i64)
        } else {
            None
        }
    } else if all_digits(t) {
        let v = digits_value(t);
        if v <= i64::MAX {
            Some(v as i64)
        } else {
            None
        }
    } else {
        None
    }
}

proof fn lemma_digits_value_grows(s: Seq<char>, n: int)
    requires
        0 <= n <= s.len(),
        forall|i: int| 0 <= i < s.len() ==> #[trigger] is_digit(s[i]),
    ensures
        0 <= digits_value(s.take(n)) <= digits_value(s),
    decreases s.len(),
{
    if n == s.len() {
        assert(s.take(n) =~= s);
        if s.len() > 0 {
            lemma_digits_value_grows(s.drop_last(), s.len() - 1);
            assert(s.drop_last().take(s.len() - 1) =~= s.drop_last());
            assert(is_digit(s[s.len() - 1]));
        }
    } else {
        let d = s.drop_last();
        assert(d.take(n) =~= s.take(n));
        assert forall|i: int| 0 <= i < d.len() implies #[trigger] is_digit(d[i]) by {
            assert(d[i] == s[i]);
        }
        lemma_digits_value_grows(d, n);
        assert(is_digit(s[s.len() - 1]));
    }
}

/// The digits from position `from` on, as a value no larger than `limit`;
/// `None` when they are not all digits, there are none, or their value is
/// larger.
fn digits_up_to(t: &Vec<char>, from: usize, limit: u128) -> (r: Option<u128>)
    requires
        from <= t@.len(),
        limit <= 0x8000_0000_0000_0000,
    ensures
        match r {
            Some(v) => all_digits(t@.skip(from as int)) && v == digits_value(t@.skip(from as int)) && v <= limit,
            None => !all_digits(t@.skip(from as int)) || digits_value(t@.skip(from as int)) > limit,
        },
{
    let ghost s = t@.skip(from as int);
    if from == t.len() {
        return None;
    }
    let mut acc: u128 = 0;
    let mut i: usize = from;
    while i < t.len()
        invariant
            from <= i <= t@.len(),
            s == t@.skip(from as int),
            limit <= 0x8000_0000_0000_0000,
            acc <= limit,
            forall|j: int| 0 <= j < i - from ==> #[trigger] is_digit(s[j]),
            acc == digits_value(s.take(i - from)),
        decreases t@.len() - i,
    {
        let c = t[i];
        proof {
            assert(s[i - from] == c);
        }
        if !('0' <= c && c <= '9') {
            proof {
                assert(!is_digit(s[i - from]));
            }
            return None;
        }
        proof {
            assert(s.take(i - from + 1).drop_last() =~= s.take(i - from));
            assert(s.take(i - from + 1).last() == c);
        }
        let d: u128 = ((c as u32) - ('0' as u32)) as u128;
        acc = acc * 10 + d;
        i = i + 1;
        if acc > limit {
            proof {
                if all_digits(s) {
                    lemma_digits_value_grows(s, i - from);
                }
            }
            return None;
        }
    }
    proof {
        assert(s.take(i - from) =~= s);
    }
    Some(acc)
}

/// The integer that a number's text writes, when it writes one that a Lua
/// integer holds.
pub fn integer_from_text(text: &str) -> (r: Option<i64>)
    ensures
        r == integer_of_text(text@),
{
    let mut t: Vec<char> = Vec::new();
    let n = text.unicode_len();
    let mut k: usize = 0;
    while k < n
        invariant
            n == text@.len(),
            k <= n,
            t@ == text@.take(k as int),
        decreases n - k,
    {
        t.push(text.get_char(k));
        proof {
            assert(text@.take(k + 1) =~= text@.take(k as int).push(text@[k as int]));
        }
        k = k + 1;
    }
    proof {
        assert(text@.take(n as int) =~= text@);
        assert(t@.skip(0) =~= t@);
    }
    if t.len() > 0 && t[0] == '-' {
        proof {
            assert(t@.skip(1) =~= t@.drop_first());
        }
        match digits_up_to(&t, 1, 0x8000_0000_0000_0000) {
            Some(v) => {
                let neg: i128 = 0i128 - (v as i128);
                Some(neg as i64)
            },
            None => {
                proof {
                    if all_digits(t@.drop_first()) {
                        assert(-digits_value(t@.drop_first()) < i64::MIN);
                    }
                    assert(!all_digits(t@)) by {
                        assert(!is_digit(t@[0]));
                    }
                }
                None
            },
        }
    } else {
        match digits_up_to(&t, 0, 0x7FFF_FFFF_FFFF_FFFF) {
            Some(v) => Some(v as i64),
            None => None,
        }
    }
}

/// The Lua value that a JSON value becomes: null becomes nil, a number that
/// writes an integer a Lua integer holds becomes that integer and any other
/// number a number, an array a sequence and an object a map.
pub open spec fn json_tree(d: JsonData) -> LuaTreeData
    decreases d, 0nat,
{
    match d {
        JsonData::Null => LuaTreeData::Nil,
        JsonData::Bool(b) => LuaTreeData::Boolean(b),
        JsonData::Number(n) => match integer_of_text(n) {
            Some(i) => LuaTreeData::Integer(i),
            None => LuaTreeData::Number(n),
        },
        JsonData::String(s) => LuaTreeData::String(s),
        JsonData::Array(a) => LuaTreeData::Sequence(json_tree_items(a)),
        JsonData::Object(o) => LuaTreeData::Table(json_tree_entries(o)),
    }
}

pub open spec fn json_tree_items(s: Seq<JsonData>) -> Seq<LuaTreeData>
    decreases s, 1nat,
{
    if s.len() == 0 {
        seq![]
    } else {
        json_tree_items(s.drop_last()).push(json_tree(s.last()))
    }
}

pub open spec fn json_tree_entries(s: Seq<(Seq<char>, JsonData)>) -> Seq<(Seq<char>, LuaTreeData)>
    decreases s, 1nat,
{
    if s.len() == 0 {
        seq![]
    } else {
        json_tree_entries(s.drop_last()).push((s.last().0, json_tree(s.last().1)))
    }
}

/// The Lua value that a TOML value becomes: an array becomes a sequence, a
/// table a map, a date-time a date-time object, a float a number.
pub open spec fn toml_tree(d: TomlData) -> LuaTreeData
    decreases d, 0nat,
{
    match d {
        TomlData::String(s) => LuaTreeData::String(s),
        TomlData::Integer(i) => LuaTreeData::Integer(i),
        TomlData::Float(f) => LuaTreeData::Number(f),
        TomlData::Boolean(b) => LuaTreeData::Boolean(b),
        TomlData::Datetime(t) => LuaTreeData::DateTime(t),
        TomlData::Array(a) => LuaTreeData::Sequence(toml_tree_items(a)),
        TomlData::Table(t) => LuaTreeData::Table(toml_tree_entries(t)),
    }
}

pub open spec fn toml_tree_items(s: Seq<TomlData>) -> Seq<LuaTreeData>
    decreases s, 1nat,
{
    if s.len() == 0 {
        seq![]
    } else {
        toml_tree_items(s.drop_last()).push(toml_tree(s.last()))
    }
}

pub open spec fn toml_tree_entries(s: Seq<(Seq<char>, TomlData)>) -> Seq<(Seq<char>, LuaTreeData)>
    decreases s, 1nat,
{
    if s.len() == 0 {
        seq![]
    } else {
        toml_tree_entries(s.drop_last()).push((s.last().0, toml_tree(s.last().1)))
    }
}

/// The Lua value that a JSON value becomes.
pub fn json_to_tree(v: &JsonValue) -> (r: LuaTree)
    ensures
        r@ == json_tree(v@),
    decreases v,
{
    match v {
        JsonValue::Null => LuaTree::Nil,
        JsonValue::Bool(b) => LuaTree::Boolean(*b),
        JsonValue::Number(n) => match integer_from_text(n.as_str()) {
            Some(i) => LuaTree::Integer(i),
            None => LuaTree::Number(n.clone()),
        },
        JsonValue::String(s) => LuaTree::String(s.clone()),
        JsonValue::Array(a) => {
            let mut out: Vec<LuaTree> = Vec::new();
            let mut i: usize = 0;
            proof {
                assert(a@.take(0) =~= Seq::<JsonValue>::empty());
            }
            while i < a.len()
                invariant
                    *v is Array,
                    v->Array_0 == *a,
                    i <= a@.len(),
                    tree_data_of_items(out@) == json_tree_items(json_data_of_items(a@.take(i as int))),
                decreases a@.len() - i,
            {
                proof {
                    assert(a@.take(i + 1).drop_last() =~= a@.take(i as int));
                    assert(a@.take(i + 1).last() == a@[i as int]);
                    assert(json_data_of_items(a@.take(i + 1)).drop_last() =~= json_data_of_items(a@.take(i as int)));
                    assert(decreases_to!(*v => v->Array_0));
                    assert(decreases_to!(*a => a@));
                    assert(decreases_to!(a@ => a@[i as int]));
                }
                let t = json_to_tree(&a[i]);
                let ghost prev = out@;
                out.push(t);
                proof {
                    assert(out@.drop_last() =~= prev);
                }
                i = i + 1;
            }
            proof {
                assert(a@.take(i as int) =~= a@);
            }
            LuaTree::Sequence(out)
        },
        JsonValue::Object(o) => {
            let mut out: Vec<(String, LuaTree)> = Vec::new();
            let mut i: usize = 0;
            proof {
                assert(o@.take(0) =~= Seq::<(String, JsonValue)>::empty());
            }
            while i < o.len()
                invariant
                    *v is Object,
                    v->Object_0 == *o,
                    i <= o@.len(),
                    tree_data_of_entries(out@) == json_tree_entries(json_data_of_entries(o@.take(i as int))),
                decreases o@.len() - i,
            {
                proof {
                    assert(o@.take(i + 1).drop_last() =~= o@.take(i as int));
                    assert(o@.take(i + 1).last() == o@[i as int]);
                    assert(json_data_of_entries(o@.take(i + 1)).drop_last() =~= json_data_of_entries(
                        o@.take(i as int),
                    ));
                    assert(decreases_to!(*v => v->Object_0));
                    assert(decreases_to!(*o => o@));
                    assert(decreases_to!(o@ => o@[i as int]));
                    assert(decreases_to!(o@[i as int] => o@[i as int].1));
                }
                let t = json_to_tree(&o[i].1);
                let ghost prev = out@;
                out.push((o[i].0.clone(), t));
                proof {
                    assert(out@.drop_last() =~= prev);
                }
                i = i + 1;
            }
            proof {
                assert(o@.take(i as int) =~= o@);
            }
            LuaTree::Table(out)
        },
    }
}

/// The Lua value that a TOML value becomes.
pub fn toml_to_tree(v: &TomlValue) -> (r: LuaTree)
    ensures
        r@ == toml_tree(v@),
    decreases v, 1nat,
{
    match v {
        TomlValue::String(s) => LuaTree::String(s.clone()),
        TomlValue::Integer(i) => LuaTree::Integer(*i),
        TomlValue::Float(f) => LuaTree::Number(f.clone()),
        TomlValue::Boolean(b) => LuaTree::Boolean(*b),
        TomlValue::Datetime(t) => LuaTree::DateTime(t.clone()),
        TomlValue::Array(a) => {
            let mut out: Vec<LuaTree> = Vec::new();
            let mut i: usize = 0;
            proof {
                assert(a@.take(0) =~= Seq::<TomlValue>::empty());
            }
            while i < a.len()
                invariant
                    *v is Array,
                    v->Array_0 == *a,
                    i <= a@.len(),
                    tree_data_of_items(out@) == toml_tree_items(data_of_items(a@.take(i as int))),
                decreases a@.len() - i,
            {
                proof {
                    assert(a@.take(i + 1).drop_last() =~= a@.take(i as int));
                    assert(a@.take(i + 1).last() == a@[i as int]);
                    assert(data_of_items(a@.take(i + 1)).drop_last() =~= data_of_items(a@.take(i as int)));
                    assert(decreases_to!(*v => v->Array_0));
                    assert(decreases_to!(*a => a@));
                    assert(decreases_to!(a@ => a@[i as int]));
                }
                let t = toml_to_tree(&a[i]);
                let ghost prev = out@;
                out.push(t);
                proof {
                    assert(out@.drop_last() =~= prev);
                }
                i = i + 1;
            }
            proof {
                assert(a@.take(i as int) =~= a@);
            }
            LuaTree::Sequence(out)
        },
        TomlValue::Table(o) => {
            proof {
                assert(decreases_to!(*v => v->Table_0));
            }
            let out = toml_entries_to_tree(o);
            LuaTree::Table(out)
        },
    }
}

/// The entries of a TOML table as the entries of a Lua table.
pub fn toml_entries_to_tree(o: &Vec<(String, TomlValue)>) -> (r: Vec<(String, LuaTree)>)
    ensures
        tree_data_of_entries(r@) == toml_tree_entries(data_of_entries(o@)),
    decreases o, 0nat,
{
    let mut out: Vec<(String, LuaTree)> = Vec::new();
    let mut i: usize = 0;
    proof {
        assert(o@.take(0) =~= Seq::<(String, TomlValue)>::empty());
    }
    while i < o.len()
        invariant
            i <= o@.len(),
            tree_data_of_entries(out@) == toml_tree_entries(data_of_entries(o@.take(i as int))),
        decreases o@.len() - i,
    {
        proof {
            assert(o@.take(i + 1).drop_last() =~= o@.take(i as int));
            assert(o@.take(i + 1).last() == o@[i as int]);
            assert(data_of_entries(o@.take(i + 1)).drop_last() =~= data_of_entries(o@.take(i as int)));
            assert(decreases_to!(*o => o@));
            assert(decreases_to!(o@ => o@[i as int]));
            assert(decreases_to!(o@[i as int] => o@[i as int].1));
        }
        let t = toml_to_tree(&o[i].1);
        let ghost prev = out@;
        out.push((o[i].0.clone(), t));
        proof {
            assert(out@.drop_last() =~= prev);
        }
        i = i + 1;
    }
    proof {
        assert(o@.take(i as int) =~= o@);
    }
    out
}

#[verifier::external_type_specification]
#[verifier::external_body]
pub struct ExJsonValue(serde_json::Value);

/// What `serde_json` makes of a text: the parsed value (a number as the
/// text that `serde_json` writes for it, an object's entries in the order
/// of its map), or the text of the parse error.
pub uninterp spec fn json_document(text: Seq<char>) -> Result<JsonData, Seq<char>>;

/// Copies a `serde_json` value into a `JsonValue`, variant by variant; a
/// number as the text that `serde_json` writes for it.
#[verifier::external_body]
fn from_json(v: serde_json::Value) -> JsonValue {
    match v {
        serde_json::Value::Null => JsonValue::Null,
        serde_json::Value::Bool(b) => JsonValue::Bool(b),
        serde_json::Value::Number(n) => JsonValue::Number(n.to_string()),
        serde_json::Value::String(s) => JsonValue::String(s),
        serde_json::Value::Array(a) => JsonValue::Array(a.into_iter().map(from_json).collect()),
        serde_json::Value::Object(o) => JsonValue::Object(o.into_iter().map(|(k, x)| (k, from_json(x))).collect()),
    }
}

/// Parses `text` with `serde_json::from_str` into a `serde_json::Value`. The
/// result is what `json_document` names: the value, or the parser's error
/// message.
#[verifier::external_body]
pub(crate) fn parse_json_text(text: &str) -> (r: Result<JsonValue, String>)
    ensures
        match r {
            Ok(v) => json_document(text@) == Ok::<JsonData, Seq<char>>(v@),
            Err(e) => json_document(text@) == Err::<JsonData, Seq<char>>(e@),
        },
{
    serde_json::from_str::<serde_json::Value>(text).map(from_json).map_err(|e| e.to_string())
}

/// What `json.loads` gives for a text: the Lua value of the parsed JSON, or
/// the parse error with its prefix.
pub open spec fn json_loads_spec(text: Seq<char>) -> Result<LuaTreeData, Seq<char>> {
    match json_document(text) {
        Ok(d) => Ok(json_tree(d)),
        Err(e) => Err("Error parsing json: "@ + e),
    }
}

/// `json.loads`: parses a JSON text into the Lua value that scripts get.
pub fn json_loads(text: &str) -> (r: Result<LuaTree, String>)
    ensures
        match r {
            Ok(t) => json_loads_spec(text@) == Ok::<LuaTreeData, Seq<char>>(t@),
            Err(m) => json_loads_spec(text@) == Err::<LuaTreeData, Seq<char>>(m@),
        },
{
    match parse_json_text(text) {
        Ok(v) => Ok(json_to_tree(&v)),
        Err(e) => {
            let mut m = String::from_str("Error parsing json: ");
            m.append(e.as_str());
            Err(m)
        },
    }
}

/// What `toml.loads` gives for a text: the Lua table of the parsed
/// document's top-level table, or the parse error with its prefix.
pub open spec fn toml_loads_spec(text: Seq<char>) -> Result<LuaTreeData, Seq<char>> {
    match toml_document(text) {
        Ok(t) => Ok(LuaTreeData::Table(toml_tree_entries(t))),
        Err(e) => Err("Error parsing toml: "@ + e),
    }
}

/// `toml.loads`: parses a TOML document into the Lua table that scripts get.
pub fn toml_loads(text: &str) -> (r: Result<LuaTree, String>)
    ensures
        match r {
            Ok(t) => toml_loads_spec(text@) == Ok::<LuaTreeData, Seq<char>>(t@),
            Err(m) => toml_loads_spec(text@) == Err::<LuaTreeData, Seq<char>>(m@),
        },
{
    match parse_toml_document(text) {
        Ok(entries) => Ok(LuaTree::Table(toml_entries_to_tree(&entries))),
        Err(e) => {
            let mut m = String::from_str("Error parsing toml: ");
            m.append(e.as_str());
            Err(m)
        },
    }
}

} // verus!
