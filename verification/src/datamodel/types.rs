//! Keys that a project file may give as a string or as an integer.
use vstd::prelude::*;
use crate::lua::value::{text_view, type_name_of, LuaKind, LuaValue};

verus! {

/// A key given as a string or as an integer.
#[derive(Debug)]
pub enum StringOrInt {
    String(String),
    Int(i64),
}

/// The decimal digits of a natural number.
pub open spec fn digits(n: nat) -> Seq<char>
    decreases n,
{
    if n < 10 {
        seq![digit_char(n)]
    } else {
        digits(n / 10).push(digit_char(n % 10))
    }
}

pub open spec fn digit_char(d: nat) -> char {
    if d == 0 {
        '0'
    } else if d == 1 {
        '1'
    } else if d == 2 {
        '2'
    } else if d == 3 {
        '3'
    } else if d == 4 {
        '4'
    } else if d == 5 {
        '5'
    } else if d == 6 {
        '6'
    } else if d == 7 {
        '7'
    } else if d == 8 {
        '8'
    } else {
        '9'
    }
}

/// The decimal text of an integer, with a leading `-` when it is negative.
pub open spec fn decimal(n: int) -> Seq<char> {
    if n < 0 {
        seq!['-'] + digits((-n) as nat)
    } else {
        digits(n as nat)
    }
}

fn digit_text(d: u64) -> (r: &'static str)
    requires
        d < 10,
    ensures
        r@ == seq![digit_char(d as nat)],
{
    let r = if d == 0 {
        "0"
    } else if d == 1 {
        "1"
    } else if d == 2 {
        "2"
    } else if d == 3 {
        "3"
    } else if d == 4 {
        "4"
    } else if d == 5 {
        "5"
    } else if d == 6 {
        "6"
    } else if d == 7 {
        "7"
    } else if d == 8 {
        "8"
    } else {
        "9"
    };
    proof {
        reveal_strlit("0");
        reveal_strlit("1");
        reveal_strlit("2");
        reveal_strlit("3");
        reveal_strlit("4");
        reveal_strlit("5");
        reveal_strlit("6");
        reveal_strlit("7");
        reveal_strlit("8");
        reveal_strlit("9");
        assert(r@ =~= seq![digit_char(d as nat)]);
    }
    r
}

fn digits_text(n: u64) -> (r: String)
    ensures
        r@ == digits(n as nat),
    decreases n,
{
    if n < 10 {
        String::from_str(digit_text(n))
    } else {
        let mut r = digits_text(n / 10);
        r.append(digit_text(n % 10));
        proof {
            assert(r@ =~= digits((n / 10) as nat).push(digit_char((n % 10) as nat)));
        }
        r
    }
}

/// The decimal text of an integer.
pub fn decimal_text(n: i64) -> (r: String)
    ensures
        r@ == decimal(n as int),
{
    if n < 0 {
        let m: u64 = ((-(n + 1)) as u64) + 1;
        let mut r = String::from_str("-");
        let d = digits_text(m);
        r.append(d.as_str());
        proof {
            reveal_strlit("-");
            assert(r@ =~= seq!['-'] + digits((-n) as nat));
        }
        r
    } else {
        digits_text(n as u64)
    }
}

/// The text of a key: a string in double quotes, an integer in decimal.
pub open spec fn key_text(k: StringOrInt) -> Seq<char> {
    match k {
        StringOrInt::String(s) => "\""@ + s@ + "\""@,
        StringOrInt::Int(i) => decimal(i as int),
    }
}

impl StringOrInt {
    /// The text of the key.
    pub fn text(&self) -> (r: String)
        ensures
            r@ == key_text(*self),
    {
        match self {
            StringOrInt::String(s) => {
                let mut r = String::from_str("\"");
                r.append(s.as_str());
                r.append("\"");
                r
            },
            StringOrInt::Int(i) => decimal_text(*i),
        }
    }
}

/// A key as sequences of characters.
pub enum KeyView {
    String(Seq<char>),
    Int(i64),
}

pub open spec fn key_view(k: StringOrInt) -> KeyView {
    match k {
        StringOrInt::String(s) => KeyView::String(s@),
        StringOrInt::Int(i) => KeyView::Int(i),
    }
}

/// The key that a Lua value gives: a string or an integer.
pub open spec fn key_of_lua(v: LuaValue) -> Result<KeyView, Seq<char>> {
    match v.kind {
        LuaKind::Str => match text_view(v) {
            Err(e) => Err(e),
            Ok(t) => Ok(KeyView::String(t)),
        },
        LuaKind::Integer(i) => Ok(KeyView::Int(i)),
        _ => Err("Expected a string or integer, but got a "@ + type_name_of(v.kind) + ": "@ + v.debug@),
    }
}

/// Reads a key from a Lua value.
pub fn string_or_int_from_lua(value: &LuaValue) -> (r: Result<StringOrInt, String>)
    ensures
        match key_of_lua(*value) {
            Ok(k) => r matches Ok(x) && key_view(x) == k,
            Err(e) => r matches Err(m) && m@ == e,
        },
{
    match &value.kind {
        LuaKind::Str => match &value.text {
            Err(e) => Err(e.clone()),
            Ok(t) => Ok(StringOrInt::String(t.clone())),
        },
        LuaKind::Integer(i) => Ok(StringOrInt::Int(*i)),
        _ => {
            let mut m = String::from_str("Expected a string or integer, but got a ");
            m.append(value.kind_name());
            m.append(": ");
            m.append(value.debug.as_str());
            Err(m)
        },
    }
}

} // verus!
