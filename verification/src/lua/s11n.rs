//! Lua values serialized into a block: every value of the block sits in one
//! list, and tables and functions refer to their parts by position, so
//! that shared and cyclic values keep their shape.
use vstd::prelude::*;

verus! {

/// The type of a serialized value.
#[derive(PartialEq, Eq, Structural, Clone, Copy, Debug)]
pub enum SerLuaValueType {
    Nil,
    Boolean,
    Integer,
    Number,
    String,
    Table,
    Function,
    UserData,
}

/// The name under which a type is shown.
pub open spec fn value_type_name(t: SerLuaValueType) -> Seq<char> {
    match t {
        SerLuaValueType::Nil => "nil"@,
        SerLuaValueType::Boolean => "boolean"@,
        SerLuaValueType::Integer => "int"@,
        SerLuaValueType::Number => "float"@,
        SerLuaValueType::String => "string"@,
        SerLuaValueType::Table => "table"@,
        SerLuaValueType::Function => "function"@,
        SerLuaValueType::UserData => "userdata"@,
    }
}

impl SerLuaValueType {
    /// The name under which the type is shown.
    pub fn text(&self) -> (r: &'static str)
        ensures
            r@ == value_type_name(*self),
    {
        match self {
            SerLuaValueType::Nil => "nil",
            SerLuaValueType::Boolean => "boolean",
            SerLuaValueType::Integer => "int",
            SerLuaValueType::Number => "float",
            SerLuaValueType::String => "string",
            SerLuaValueType::Table => "table",
            SerLuaValueType::Function => "function",
            SerLuaValueType::UserData => "userdata",
        }
    }
}

/// The library objects that a script can hold and that survive
/// serialization.
#[derive(PartialEq, Eq, Structural, Clone, Copy, Debug)]
pub enum CobbleUserData {
    FsLib,
    PathLib,
    CmdLib,
    ScriptDirLib,
    TomlLib,
    JsonLib,
}

pub open spec fn userdata_name(d: CobbleUserData) -> Seq<char> {
    match d {
        CobbleUserData::FsLib => "FsLib"@,
        CobbleUserData::PathLib => "PathLib"@,
        CobbleUserData::CmdLib => "CmdLib"@,
        CobbleUserData::ScriptDirLib => "ScriptDirLib"@,
        CobbleUserData::TomlLib => "TomlLib"@,
        CobbleUserData::JsonLib => "JsonLib"@,
    }
}

impl CobbleUserData {
    /// The name of the library object.
    pub fn text(&self) -> (r: &'static str)
        ensures
            r@ == userdata_name(*self),
    {
        match self {
            CobbleUserData::FsLib => "FsLib",
            CobbleUserData::PathLib => "PathLib",
            CobbleUserData::CmdLib => "CmdLib",
            CobbleUserData::ScriptDirLib => "ScriptDirLib",
            CobbleUserData::TomlLib => "TomlLib",
            CobbleUserData::JsonLib => "JsonLib",
        }
    }
}

/// A serialized table: its key-value pairs and its metatable, by position
/// in the block.
#[derive(Clone, Debug, PartialEq)]
pub struct SerLuaTable {
    pub entries: Vec<(usize, usize)>,
    pub metatable: Option<usize>,
}

/// A serialized function: its dumped code and its upvalues, by name and
/// position in the block.
#[derive(Clone, Debug, PartialEq)]
pub struct SerLuaFunction {
    pub source: Vec<u8>,
    pub upvalues: Vec<(String, usize)>,
}

/// A serialized value; a number is kept as the bits of its IEEE 754 form.
#[derive(Clone, Debug, PartialEq)]
pub enum SerLuaValue {
    Nil,
    Boolean(bool),
    Integer(i64),
    Number(u64),
    String(String),
    Table(SerLuaTable),
    Function(SerLuaFunction),
    UserData(CobbleUserData),
}

pub open spec fn type_of(v: SerLuaValue) -> SerLuaValueType {
    match v {
        SerLuaValue::Nil => SerLuaValueType::Nil,
        SerLuaValue::Boolean(_) => SerLuaValueType::Boolean,
        SerLuaValue::Integer(_) => SerLuaValueType::Integer,
        SerLuaValue::Number(_) => SerLuaValueType::Number,
        SerLuaValue::String(_) => SerLuaValueType::String,
        SerLuaValue::Table(_) => SerLuaValueType::Table,
        SerLuaValue::Function(_) => SerLuaValueType::Function,
        SerLuaValue::UserData(_) => SerLuaValueType::UserData,
    }
}

impl SerLuaValue {
    /// The type of the value.
    pub fn value_type(&self) -> (r: SerLuaValueType)
        ensures
            r == type_of(*self),
    {
        match self {
            SerLuaValue::Nil => SerLuaValueType::Nil,
            SerLuaValue::Boolean(_) => SerLuaValueType::Boolean,
            SerLuaValue::Integer(_) => SerLuaValueType::Integer,
            SerLuaValue::Number(_) => SerLuaValueType::Number,
            SerLuaValue::String(_) => SerLuaValueType::String,
            SerLuaValue::Table(_) => SerLuaValueType::Table,
            SerLuaValue::Function(_) => SerLuaValueType::Function,
            SerLuaValue::UserData(_) => SerLuaValueType::UserData,
        }
    }
}

/// A block of serialized values; the value at position 0 is the one the
/// block stands for.
#[derive(Clone, Debug, PartialEq)]
pub struct SerLuaValueBlock {
    pub values: Vec<SerLuaValue>,
}

/// A serialized table seen in its block.
pub struct SerLuaTableRef<'a> {
    pub table: &'a SerLuaTable,
    pub index: usize,
    pub ref_values: &'a Vec<SerLuaValue>,
}

impl<'a> SerLuaTableRef<'a> {
    /// Every position the table refers to lies in its block.
    pub open spec fn refs_in_block(&self) -> bool {
        &&& forall|i: int|
            0 <= i < self.table.entries@.len() ==> (#[trigger] self.table.entries@[i]).0 < self.ref_values@.len()
                && self.table.entries@[i].1 < self.ref_values@.len()
        &&& (self.table.metatable matches Some(m) ==> m < self.ref_values@.len())
    }

    /// The key-value pairs, seen in the block.
    pub fn entries(&self) -> (r: Vec<(SerLuaValueRef<'a>, SerLuaValueRef<'a>)>)
        requires
            self.refs_in_block(),
        ensures
            r@.len() == self.table.entries@.len(),
            forall|i: int|
                0 <= i < r@.len() ==> is_ref_of((#[trigger] r@[i]).0, self.ref_values, self.table.entries@[i].0)
                    && is_ref_of(r@[i].1, self.ref_values, self.table.entries@[i].1),
    {
        let mut r: Vec<(SerLuaValueRef<'a>, SerLuaValueRef<'a>)> = Vec::new();
        let mut i: usize = 0;
        while i < self.table.entries.len()
            invariant
                self.refs_in_block(),
                i <= self.table.entries@.len(),
                r@.len() == i,
                forall|j: int|
                    0 <= j < i ==> is_ref_of((#[trigger] r@[j]).0, self.ref_values, self.table.entries@[j].0)
                        && is_ref_of(r@[j].1, self.ref_values, self.table.entries@[j].1),
            decreases self.table.entries@.len() - i,
        {
            let (k, v) = self.table.entries[i];
            let kr = refify_ser_lua_value(self.ref_values, k);
            let vr = refify_ser_lua_value(self.ref_values, v);
            r.push((kr, vr));
            i = i + 1;
        }
        r
    }

    /// The metatable, seen in the block.
    pub fn metatable(&self) -> (r: Option<SerLuaValueRef<'a>>)
        requires
            self.refs_in_block(),
        ensures
            match self.table.metatable {
                Some(m) => r matches Some(x) && is_ref_of(x, self.ref_values, m),
                None => r is None,
            },
    {
        match self.table.metatable {
            Some(m) => Some(refify_ser_lua_value(self.ref_values, m)),
            None => None,
        }
    }

    /// The number of key-value pairs.
    pub fn len(&self) -> (r: usize)
        ensures
            r == self.table.entries@.len(),
    {
        self.table.entries.len()
    }

    /// The position of the table in its block.
    pub fn index(&self) -> (r: usize)
        ensures
            r == self.index,
    {
        self.index
    }
}

/// A serialized function seen in its block.
pub struct SerLuaFunctionRef<'a> {
    pub func: &'a SerLuaFunction,
    pub index: usize,
    pub ref_values: &'a Vec<SerLuaValue>,
}

impl<'a> SerLuaFunctionRef<'a> {
    /// The upvalues, by name, seen in the block.
    pub fn upvalues(&self) -> (r: Vec<(&'a str, SerLuaValueRef<'a>)>)
        requires
            forall|i: int|
                0 <= i < self.func.upvalues@.len() ==> (#[trigger] self.func.upvalues@[i]).1 < self.ref_values@.len(),
        ensures
            r@.len() == self.func.upvalues@.len(),
            forall|i: int|
                0 <= i < r@.len() ==> (#[trigger] r@[i]).0@ == self.func.upvalues@[i].0@ && is_ref_of(
                    r@[i].1,
                    self.ref_values,
                    self.func.upvalues@[i].1,
                ),
    {
        let mut r: Vec<(&'a str, SerLuaValueRef<'a>)> = Vec::new();
        let mut i: usize = 0;
        while i < self.func.upvalues.len()
            invariant
                forall|j: int|
                    0 <= j < self.func.upvalues@.len() ==> (#[trigger] self.func.upvalues@[j]).1
                        < self.ref_values@.len(),
                i <= self.func.upvalues@.len(),
                r@.len() == i,
                forall|j: int|
                    0 <= j < i ==> (#[trigger] r@[j]).0@ == self.func.upvalues@[j].0@ && is_ref_of(
                        r@[j].1,
                        self.ref_values,
                        self.func.upvalues@[j].1,
                    ),
            decreases self.func.upvalues@.len() - i,
        {
            let name: &'a str = self.func.upvalues[i].0.as_str();
            let vr = refify_ser_lua_value(self.ref_values, self.func.upvalues[i].1);
            r.push((name, vr));
            i = i + 1;
        }
        r
    }

    /// The dumped code of the function.
    pub fn source(&self) -> (r: &Vec<u8>)
        ensures
            r@ == self.func.source@,
    {
        &self.func.source
    }

    /// The position of the function in its block.
    pub fn index(&self) -> (r: usize)
        ensures
            r == self.index,
    {
        self.index
    }
}

/// A serialized value seen in its block: tables and functions keep their
/// block, to be followed further.
pub enum SerLuaValueRef<'a> {
    Nil,
    Boolean(bool),
    Integer(i64),
    Number(u64),
    String(&'a str),
    Table(SerLuaTableRef<'a>),
    Function(SerLuaFunctionRef<'a>),
    UserData(CobbleUserData),
}

/// `r` is the value at `index` of the block `ref_values`, seen in the block.
pub open spec fn is_ref_of<'a>(r: SerLuaValueRef<'a>, ref_values: &'a Vec<SerLuaValue>, index: usize) -> bool {
    &&& (index as int) < ref_values@.len()
    &&& match ref_values@[index as int] {
            SerLuaValue::Nil => r is Nil,
            SerLuaValue::Boolean(b) => r == SerLuaValueRef::Boolean(b),
            SerLuaValue::Integer(i) => r == SerLuaValueRef::Integer(i),
            SerLuaValue::Number(n) => r == SerLuaValueRef::Number(n),
            SerLuaValue::String(s) => r matches SerLuaValueRef::String(x) && x@ == s@,
            SerLuaValue::Table(t) => r matches SerLuaValueRef::Table(x) && *x.table == t && x.index == index
                && *x.ref_values == *ref_values,
            SerLuaValue::Function(f) => r matches SerLuaValueRef::Function(x) && *x.func == f && x.index == index
                && *x.ref_values == *ref_values,
            SerLuaValue::UserData(d) => r == SerLuaValueRef::UserData(d),
        }
}

/// The value at `index` of the block, seen in the block.
pub fn refify_ser_lua_value<'a>(ref_values: &'a Vec<SerLuaValue>, index: usize) -> (r: SerLuaValueRef<'a>)
    requires
        index < ref_values@.len(),
    ensures
        is_ref_of(r, ref_values, index),
{
    match &ref_values[index] {
        SerLuaValue::Nil => SerLuaValueRef::Nil,
        SerLuaValue::Boolean(v) => SerLuaValueRef::Boolean(*v),
        SerLuaValue::Integer(v) => SerLuaValueRef::Integer(*v),
        SerLuaValue::Number(v) => SerLuaValueRef::Number(*v),
        SerLuaValue::String(s) => SerLuaValueRef::String(s.as_str()),
        SerLuaValue::Table(t) => SerLuaValueRef::Table(SerLuaTableRef { table: t, index, ref_values }),
        SerLuaValue::Function(f) => SerLuaValueRef::Function(SerLuaFunctionRef { func: f, index, ref_values }),
        SerLuaValue::UserData(d) => SerLuaValueRef::UserData(*d),
    }
}

impl<'a> SerLuaValueRef<'a> {
    /// The type of the value.
    pub fn value_type(&self) -> (r: SerLuaValueType)
        ensures
            r == match self {
                SerLuaValueRef::Nil => SerLuaValueType::Nil,
                SerLuaValueRef::Boolean(_) => SerLuaValueType::Boolean,
                SerLuaValueRef::Integer(_) => SerLuaValueType::Integer,
                SerLuaValueRef::Number(_) => SerLuaValueType::Number,
                SerLuaValueRef::String(_) => SerLuaValueType::String,
                SerLuaValueRef::Table(_) => SerLuaValueType::Table,
                SerLuaValueRef::Function(_) => SerLuaValueType::Function,
                SerLuaValueRef::UserData(_) => SerLuaValueType::UserData,
            },
    {
        match self {
            SerLuaValueRef::Nil => SerLuaValueType::Nil,
            SerLuaValueRef::Boolean(_) => SerLuaValueType::Boolean,
            SerLuaValueRef::Integer(_) => SerLuaValueType::Integer,
            SerLuaValueRef::Number(_) => SerLuaValueType::Number,
            SerLuaValueRef::String(_) => SerLuaValueType::String,
            SerLuaValueRef::Table(_) => SerLuaValueType::Table,
            SerLuaValueRef::Function(_) => SerLuaValueType::Function,
            SerLuaValueRef::UserData(_) => SerLuaValueType::UserData,
        }
    }

    /// Whether the value is nil.
    pub fn is_nil(&self) -> (r: bool)
        ensures
            r == (self is Nil),
    {
        match self {
            SerLuaValueRef::Nil => true,
            _ => false,
        }
    }

    /// The boolean, if the value is one.
    pub fn as_boolean(&self) -> (r: Option<bool>)
        ensures
            match self {
                SerLuaValueRef::Boolean(b) => r == Some(*b),
                _ => r is None,
            },
    {
        match self {
            SerLuaValueRef::Boolean(v) => Some(*v),
            _ => None,
        }
    }

    /// The integer, if the value is one.
    pub fn as_integer(&self) -> (r: Option<i64>)
        ensures
            match self {
                SerLuaValueRef::Integer(i) => r == Some(*i),
                _ => r is None,
            },
    {
        match self {
            SerLuaValueRef::Integer(v) => Some(*v),
            _ => None,
        }
    }

    /// The bits of the number, if the value is one.
    pub fn as_number(&self) -> (r: Option<u64>)
        ensures
            match self {
                SerLuaValueRef::Number(n) => r == Some(*n),
                _ => r is None,
            },
    {
        match self {
            SerLuaValueRef::Number(v) => Some(*v),
            _ => None,
        }
    }

    /// The string, if the value is one.
    pub fn as_string(&self) -> (r: Option<&'a str>)
        ensures
            match self {
                SerLuaValueRef::String(s) => r matches Some(x) && x@ == s@,
                _ => r is None,
            },
    {
        match self {
            SerLuaValueRef::String(s) => Some(*s),
            _ => None,
        }
    }

    /// The table, if the value is one.
    pub fn as_table(&self) -> (r: Option<&SerLuaTableRef<'a>>)
        ensures
            match self {
                SerLuaValueRef::Table(t) => r matches Some(x) && *x == *t,
                _ => r is None,
            },
    {
        match self {
            SerLuaValueRef::Table(t) => Some(t),
            _ => None,
        }
    }

    /// The function, if the value is one.
    pub fn as_function(&self) -> (r: Option<&SerLuaFunctionRef<'a>>)
        ensures
            match self {
                SerLuaValueRef::Function(f) => r matches Some(x) && *x == *f,
                _ => r is None,
            },
    {
        match self {
            SerLuaValueRef::Function(f) => Some(f),
            _ => None,
        }
    }

    /// The library object, if the value is one.
    pub fn as_userdata(&self) -> (r: Option<CobbleUserData>)
        ensures
            match self {
                SerLuaValueRef::UserData(d) => r == Some(*d),
                _ => r is None,
            },
    {
        match self {
            SerLuaValueRef::UserData(d) => Some(*d),
            _ => None,
        }
    }
}


/// Every position that the value refers to lies below `n`.
pub open spec fn refs_below(v: SerLuaValue, n: int) -> bool {
    match v {
        SerLuaValue::Table(t) => {
            &&& forall|i: int|
                0 <= i < t.entries@.len() ==> (#[trigger] t.entries@[i]).0 < n && t.entries@[i].1 < n
            &&& (t.metatable matches Some(m) ==> m < n)
        },
        SerLuaValue::Function(f) => forall|i: int| 0 <= i < f.upvalues@.len() ==> (#[trigger] f.upvalues@[i]).1 < n,
        _ => true,
    }
}

/// Every position that a value of the block refers to lies in the block.
pub open spec fn block_wf(values: Seq<SerLuaValue>) -> bool {
    forall|p: int| 0 <= p < values.len() ==> refs_below(#[trigger] values[p], values.len() as int)
}

/// A table or a function: a value that others may share.
pub open spec fn shared_kind(v: SerLuaValue) -> bool {
    v is Table || v is Function
}

/// `c` is `s`, where each position `q` that `c` refers to stands for the
/// position `corr[q]` that `s` refers to.
pub open spec fn copy_of(c: SerLuaValue, s: SerLuaValue, corr: Seq<usize>) -> bool {
    match c {
        SerLuaValue::Nil => s is Nil,
        SerLuaValue::Boolean(a) => s == SerLuaValue::Boolean(a),
        SerLuaValue::Integer(a) => s == SerLuaValue::Integer(a),
        SerLuaValue::Number(a) => s == SerLuaValue::Number(a),
        SerLuaValue::String(a) => s matches SerLuaValue::String(b) && a@ == b@,
        SerLuaValue::UserData(a) => s == SerLuaValue::UserData(a),
        SerLuaValue::Table(a) => s matches SerLuaValue::Table(b) && (a.entries@.len() == b.entries@.len() && (
        forall|i: int|
            0 <= i < a.entries@.len() ==> corr[(#[trigger] a.entries@[i]).0 as int] == b.entries@[i].0 && corr[a.entries@[i].1 as int]
                == b.entries@[i].1) && match a.metatable {
            Some(x) => b.metatable == Some(corr[x as int]),
            None => b.metatable is None,
        }),
        SerLuaValue::Function(a) => s matches SerLuaValue::Function(b) && (a.source@ == b.source@
            && a.upvalues@.len() == b.upvalues@.len() && forall|i: int|
            0 <= i < a.upvalues@.len() ==> (#[trigger] a.upvalues@[i]).0@ == b.upvalues@[i].0@ && corr[a.upvalues@[i].1 as int]
                == b.upvalues@[i].1),
    }
}

/// The block `new` copies the block `src`: its position `q` copies the
/// position `corr[q]` of `src`, and no table or function of `src` is
/// copied twice.
pub open spec fn copies(new: Seq<SerLuaValue>, src: Seq<SerLuaValue>, corr: Seq<usize>) -> bool {
    &&& corr.len() == new.len()
    &&& block_wf(new)
    &&& forall|q: int|
        0 <= q < new.len() ==> (corr[q] as int) < src.len() && copy_of(#[trigger] new[q], src[corr[q] as int], corr)
    &&& forall|q1: int, q2: int|
        0 <= q1 < new.len() && 0 <= q2 < new.len() && q1 != q2 && shared_kind(new[q1]) ==> #[trigger] corr[q1]
            != #[trigger] corr[q2]
}

/// The value `c` is the value that `r` holds, for a value that holds no
/// positions.
pub open spec fn scalar_copy(c: SerLuaValue, r: SerLuaValueRef) -> bool {
    match r {
        SerLuaValueRef::Nil => c is Nil,
        SerLuaValueRef::Boolean(b) => c == SerLuaValue::Boolean(b),
        SerLuaValueRef::Integer(i) => c == SerLuaValue::Integer(i),
        SerLuaValueRef::Number(n) => c == SerLuaValue::Number(n),
        SerLuaValueRef::String(s) => c matches SerLuaValue::String(x) && x@ == s@,
        SerLuaValueRef::UserData(d) => c == SerLuaValue::UserData(d),
        _ => false,
    }
}

/// A table or a function seen in a block sits at its position in that
/// block, and the block is well formed.
pub open spec fn ref_in_its_block(r: SerLuaValueRef) -> bool {
    match r {
        SerLuaValueRef::Table(t) => {
            &&& (t.index as int) < t.ref_values@.len()
            &&& t.ref_values@[t.index as int] == SerLuaValue::Table(*t.table)
            &&& block_wf(t.ref_values@)
        },
        SerLuaValueRef::Function(f) => {
            &&& (f.index as int) < f.ref_values@.len()
            &&& f.ref_values@[f.index as int] == SerLuaValue::Function(*f.func)
            &&& block_wf(f.ref_values@)
        },
        _ => true,
    }
}

/// The block `new` holds the value `r`, read from its position 0, laid out
/// as `block_layout` lays out a table or a function.
pub open spec fn holds_ref(new: Seq<SerLuaValue>, r: SerLuaValueRef) -> bool {
    match r {
        SerLuaValueRef::Table(t) => (exists|corr: Seq<usize>|
            #[trigger] copies(new, t.ref_values@, corr) && corr[0] == t.index) && shapes(new) == block_layout(
            t.ref_values@,
            t.index as int,
        ),
        SerLuaValueRef::Function(f) => (exists|corr: Seq<usize>|
            #[trigger] copies(new, f.ref_values@, corr) && corr[0] == f.index) && shapes(new) == block_layout(
            f.ref_values@,
            f.index as int,
        ),
        _ => new.len() == 1 && scalar_copy(new[0], r),
    }
}

/// The mathematical model of a serialized value.
pub enum ValueShape {
    Nil,
    Boolean(bool),
    Integer(i64),
    Number(u64),
    String(Seq<char>),
    Table(Seq<(usize, usize)>, Option<usize>),
    Function(Seq<u8>, Seq<(Seq<char>, usize)>),
    UserData(CobbleUserData),
}

pub open spec fn shape(v: SerLuaValue) -> ValueShape {
    match v {
        SerLuaValue::Nil => ValueShape::Nil,
        SerLuaValue::Boolean(b) => ValueShape::Boolean(b),
        SerLuaValue::Integer(i) => ValueShape::Integer(i),
        SerLuaValue::Number(n) => ValueShape::Number(n),
        SerLuaValue::String(s) => ValueShape::String(s@),
        SerLuaValue::Table(t) => ValueShape::Table(t.entries@, t.metatable),
        SerLuaValue::Function(f) => ValueShape::Function(
            f.source@,
            f.upvalues@.map_values(|u: (String, usize)| (u.0@, u.1)),
        ),
        SerLuaValue::UserData(d) => ValueShape::UserData(d),
    }
}

pub open spec fn shapes(vs: Seq<SerLuaValue>) -> Seq<ValueShape> {
    vs.map_values(|v: SerLuaValue| shape(v))
}

/// Lays out the value at position `p` of `src` after the block `st.1`, the
/// tables and functions of `src` already laid out being known to `st.0`: a
/// table or function already laid out is not laid out again; any other
/// value takes the next position, and then the values it refers to are laid
/// out in turn (a table's keys and values, entry by entry, then its
/// metatable; a function's upvalues). Gives what is known then, the block,
/// and the value's position. `fuel` bounds the depth.
pub open spec fn lay_value(
    src: Seq<SerLuaValue>,
    st: (Seq<Option<usize>>, Seq<ValueShape>),
    p: int,
    fuel: nat,
) -> (Seq<Option<usize>>, Seq<ValueShape>, usize)
    decreases fuel, 0nat,
{
    if fuel == 0 {
        (st.0, st.1, 0)
    } else if shared_kind(src[p]) && st.0[p] is Some {
        (st.0, st.1, st.0[p]->0)
    } else {
        let q = st.1.len() as usize;
        let memo1 = if shared_kind(src[p]) {
            st.0.update(p, Some(q))
        } else {
            st.0
        };
        let out1 = st.1.push(ValueShape::Nil);
        match src[p] {
            SerLuaValue::Table(t) => {
                let (m2, o2, es) = lay_entries(src, (memo1, out1), t.entries@, (fuel - 1) as nat);
                match t.metatable {
                    Some(m) => {
                        let (m3, o3, x) = lay_value(src, (m2, o2), m as int, (fuel - 1) as nat);
                        (m3, o3.update(q as int, ValueShape::Table(es, Some(x))), q)
                    },
                    None => (m2, o2.update(q as int, ValueShape::Table(es, None)), q),
                }
            },
            SerLuaValue::Function(f) => {
                let (m2, o2, us) = lay_upvalues(src, (memo1, out1), f.upvalues@, (fuel - 1) as nat);
                (m2, o2.update(q as int, ValueShape::Function(f.source@, us)), q)
            },
            v => (memo1, out1.update(q as int, shape(v)), q),
        }
    }
}

/// Lays out the keys and values of the entries in turn; gives their pairs
/// of positions.
pub open spec fn lay_entries(
    src: Seq<SerLuaValue>,
    st: (Seq<Option<usize>>, Seq<ValueShape>),
    es: Seq<(usize, usize)>,
    fuel: nat,
) -> (Seq<Option<usize>>, Seq<ValueShape>, Seq<(usize, usize)>)
    decreases fuel, es.len(),
{
    if es.len() == 0 {
        (st.0, st.1, seq![])
    } else {
        let (m1, o1, prev) = lay_entries(src, st, es.drop_last(), fuel);
        let (m2, o2, k) = lay_value(src, (m1, o1), es.last().0 as int, fuel);
        let (m3, o3, v) = lay_value(src, (m2, o2), es.last().1 as int, fuel);
        (m3, o3, prev.push((k, v)))
    }
}

/// Lays out the upvalues in turn; gives them by name and position.
pub open spec fn lay_upvalues(
    src: Seq<SerLuaValue>,
    st: (Seq<Option<usize>>, Seq<ValueShape>),
    us: Seq<(String, usize)>,
    fuel: nat,
) -> (Seq<Option<usize>>, Seq<ValueShape>, Seq<(Seq<char>, usize)>)
    decreases fuel, us.len(),
{
    if us.len() == 0 {
        (st.0, st.1, seq![])
    } else {
        let (m1, o1, prev) = lay_upvalues(src, st, us.drop_last(), fuel);
        let (m2, o2, u) = lay_value(src, (m1, o1), us.last().1 as int, fuel);
        (m2, o2, prev.push((us.last().0@, u)))
    }
}

/// The block that laying out the value at position `p` of `values` from
/// scratch gives: the value at position 0, then, depth first, each table
/// and function it reaches once, in the order first reached.
pub open spec fn block_layout(values: Seq<SerLuaValue>, p: int) -> Seq<ValueShape> {
    lay_value(values, (Seq::new(values.len(), |i: int| None::<usize>), seq![]), p, values.len() + 1).1
}

/// The deterministic layout of a block: its value at position 0 laid out
/// anew.
pub open spec fn deterministic_layout(values: Seq<SerLuaValue>) -> Seq<ValueShape> {
    block_layout(values, 0)
}

proof fn lemma_none_count_le(s: Seq<Option<usize>>)
    ensures
        none_count(s) <= s.len(),
    decreases s.len(),
{
    if s.len() > 0 {
        lemma_none_count_le(s.drop_last());
    }
}

/// How many positions have no copy yet.
pub open spec fn none_count(s: Seq<Option<usize>>) -> nat
    decreases s.len(),
{
    if s.len() == 0 {
        0
    } else {
        none_count(s.drop_last()) + if s.last() is None {
            1nat
        } else {
            0nat
        }
    }
}

/// Giving positions a copy never adds to those without one, and giving one
/// a copy takes from them.
proof fn lemma_none_count_mono(a: Seq<Option<usize>>, b: Seq<Option<usize>>, k: int)
    requires
        a.len() == b.len(),
        forall|i: int| 0 <= i < a.len() && (#[trigger] b[i]) is None ==> a[i] is None,
    ensures
        none_count(b) <= none_count(a),
        0 <= k < a.len() && a[k] is None && b[k] is Some ==> none_count(b) < none_count(a),
    decreases a.len(),
{
    if a.len() > 0 {
        let a1 = a.drop_last();
        let b1 = b.drop_last();
        assert forall|i: int| 0 <= i < a1.len() && (#[trigger] b1[i]) is None implies a1[i] is None by {
            assert(b1[i] == b[i]);
            assert(a1[i] == a[i]);
        }
        if k == a.len() - 1 {
            lemma_none_count_mono(a1, b1, -1);
        } else {
            if 0 <= k < a.len() {
                assert(a1[k] == a[k] && b1[k] == b[k]);
            }
            lemma_none_count_mono(a1, b1, k);
        }
        assert(b.last() is None ==> a.last() is None) by {
            assert(b.last() == b[a.len() - 1]);
        }
    }
}

/// What holds of a block under construction: the positions of `out` that
/// are not `pending` copy their positions of `src`, and `memo` knows the
/// copy of each table or function copied so far.
pub open spec fn copy_state(
    src: Seq<SerLuaValue>,
    memo: Seq<Option<usize>>,
    out: Seq<SerLuaValue>,
    corr: Seq<usize>,
    pending: Set<int>,
) -> bool {
    &&& memo.len() == src.len()
    &&& corr.len() == out.len()
    &&& forall|q: int| 0 <= q < out.len() ==> (#[trigger] corr[q] as int) < src.len()
    &&& forall|q: int| #[trigger] pending.contains(q) ==> 0 <= q < out.len()
    &&& forall|q: int|
        0 <= q < out.len() && !pending.contains(q) ==> copy_of(#[trigger] out[q], src[corr[q] as int], corr)
            && refs_below(out[q], out.len() as int)
    &&& forall|i: int|
        0 <= i < memo.len() && (#[trigger] memo[i]) is Some ==> (memo[i]->0 as int) < out.len() && corr[memo[i]->0 as int]
            == i && shared_kind(src[i])
    &&& forall|q: int|
        0 <= q < out.len() && shared_kind(src[#[trigger] corr[q] as int]) ==> memo[corr[q] as int] == Some(q as usize)
}

/// A copy stays a copy when the correspondence grows.
proof fn lemma_copy_of_grow(c: SerLuaValue, s: SerLuaValue, corr: Seq<usize>, corr2: Seq<usize>)
    requires
        copy_of(c, s, corr),
        refs_below(c, corr.len() as int),
        corr.len() <= corr2.len(),
        corr2.take(corr.len() as int) == corr,
    ensures
        copy_of(c, s, corr2),
{
    assert forall|x: int| 0 <= x < corr.len() implies corr2[x] == corr[x] by {
        assert(corr2.take(corr.len() as int)[x] == corr2[x]);
    }
    match c {
        SerLuaValue::Table(a) => {
            assert forall|i: int| 0 <= i < a.entries@.len() implies corr2[(#[trigger] a.entries@[i]).0 as int]
                == corr[a.entries@[i].0 as int] && corr2[a.entries@[i].1 as int] == corr[a.entries@[i].1 as int] by {}
        },
        SerLuaValue::Function(a) => {
            assert forall|i: int| 0 <= i < a.upvalues@.len() implies corr2[(#[trigger] a.upvalues@[i]).1 as int]
                == corr[a.upvalues@[i].1 as int] by {}
        },
        _ => {},
    }
}

/// The upvalues of a function that refers to positions below `n` lie
/// below `n`.
pub(crate) proof fn lemma_upvalue_below(f: SerLuaFunction, n: int, i: int)
    requires
        refs_below(SerLuaValue::Function(f), n),
        0 <= i < f.upvalues@.len(),
    ensures
        f.upvalues@[i].1 < n,
{
    assert(SerLuaValue::Function(f)->Function_0 == f);
}

/// A new position, left empty for now, copies position `p`; a table or a
/// function there is known to `memo` from now on.
proof fn lemma_copy_state_push(
    src: Seq<SerLuaValue>,
    memo: Seq<Option<usize>>,
    out: Seq<SerLuaValue>,
    corr: Seq<usize>,
    pending: Set<int>,
    p: usize,
)
    requires
        copy_state(src, memo, out, corr, pending),
        (p as int) < src.len(),
        memo[p as int] is None,
        out.len() <= usize::MAX,
    ensures
        copy_state(
            src,
            if shared_kind(src[p as int]) {
                memo.update(p as int, Some(out.len() as usize))
            } else {
                memo
            },
            out.push(SerLuaValue::Nil),
            corr.push(p),
            pending.insert(out.len() as int),
        ),
{
    let memo2 = if shared_kind(src[p as int]) {
        memo.update(p as int, Some(out.len() as usize))
    } else {
        memo
    };
    let out2 = out.push(SerLuaValue::Nil);
    let corr2 = corr.push(p);
    let pending2 = pending.insert(out.len() as int);
    assert(corr2.take(corr.len() as int) =~= corr);
    assert forall|q: int| 0 <= q < out2.len() && !pending2.contains(q) implies copy_of(
        #[trigger] out2[q],
        src[corr2[q] as int],
        corr2,
    ) && refs_below(out2[q], out2.len() as int) by {
        assert(out2[q] == out[q]);
        assert(corr2[q] == corr[q]);
        lemma_copy_of_grow(out[q], src[corr[q] as int], corr, corr2);
    }
    assert forall|i: int| 0 <= i < memo2.len() && (#[trigger] memo2[i]) is Some implies (memo2[i]->0 as int)
        < out2.len() && corr2[memo2[i]->0 as int] == i && shared_kind(src[i]) by {
        if i != p as int {
            assert(memo2[i] == memo[i]);
        }
    }
    assert forall|q: int| 0 <= q < out2.len() && shared_kind(src[#[trigger] corr2[q] as int]) implies memo2[corr2[q] as int]
        == Some(q as usize) by {
        if q < out.len() {
            assert(corr2[q] == corr[q]);
            assert(memo[corr[q] as int] == Some(q as usize));
            assert(corr[q] != p);
        }
    }
}

/// Filling the position `q` that was left empty with a copy of its
/// position of `src` ends its wait.
proof fn lemma_copy_state_fill(
    src: Seq<SerLuaValue>,
    memo: Seq<Option<usize>>,
    out: Seq<SerLuaValue>,
    corr: Seq<usize>,
    pending: Set<int>,
    q: int,
    c: SerLuaValue,
)
    requires
        copy_state(src, memo, out, corr, pending.insert(q)),
        !pending.contains(q),
        0 <= q < out.len(),
        copy_of(c, src[corr[q] as int], corr),
        refs_below(c, out.len() as int),
    ensures
        copy_state(src, memo, out.update(q, c), corr, pending),
{
    let out2 = out.update(q, c);
    assert(out2.len() == out.len());
    assert forall|x: int| #[trigger] pending.contains(x) implies 0 <= x < out2.len() by {
        assert(pending.insert(q).contains(x));
    }
    assert forall|x: int| 0 <= x < out2.len() && !pending.contains(x) implies copy_of(
        #[trigger] out2[x],
        src[corr[x] as int],
        corr,
    ) && refs_below(out2[x], out2.len() as int) by {
        if x != q {
            assert(out2[x] == out[x]);
            assert(!pending.insert(q).contains(x));
        }
    }
}

/// Copies the value at position `p` of `src` to the end of `out`, with the
/// tables and functions it reaches that `memo` does not know yet; gives the
/// position of its copy.
fn append_position(
    src: &Vec<SerLuaValue>,
    p: usize,
    memo: &mut Vec<Option<usize>>,
    out: &mut Vec<SerLuaValue>,
    corr: &mut Ghost<Seq<usize>>,
    Ghost(pending): Ghost<Set<int>>,
) -> (q: usize)
    requires
        block_wf(src@),
        (p as int) < src@.len(),
        copy_state(src@, old(memo)@, old(out)@, old(corr)@, pending),
    ensures
        copy_state(src@, final(memo)@, final(out)@, final(corr)@, pending),
        (q as int) < final(out)@.len(),
        final(corr)@[q as int] == p,
        old(out)@.len() <= final(out)@.len(),
        final(corr)@.take(old(out)@.len() as int) == old(corr)@,
        forall|x: int| #[trigger] pending.contains(x) ==> final(out)@[x] == old(out)@[x],
        final(memo)@.len() == old(memo)@.len(),
        forall|i: int|
            0 <= i < old(memo)@.len() && (#[trigger] old(memo)@[i]) is Some ==> final(memo)@[i] == old(memo)@[i],
        none_count(final(memo)@) <= none_count(old(memo)@),
        old(memo)@[p as int] is None ==> q as int == old(out)@.len(),
        forall|fuel: nat|
            fuel > none_count(old(memo)@) ==> #[trigger] lay_value(
                src@,
                (old(memo)@, shapes(old(out)@)),
                p as int,
                fuel,
            ) == (final(memo)@, shapes(final(out)@), q),
    decreases none_count(old(memo)@),
{
    let shared = match &src[p] {
        SerLuaValue::Table(_) => true,
        SerLuaValue::Function(_) => true,
        _ => false,
    };
    if shared {
        if let Some(q) = memo[p] {
            proof {
                assert(corr@.take(out@.len() as int) =~= corr@);
                assert(shared_kind(src@[p as int]));
            }
            return q;
        }
    }
    let ghost out0 = out@;
    let ghost corr0 = corr@;
    let ghost memo0 = memo@;
    let to_index: usize = out.len();
    let ghost sh0 = shapes(out@);
    proof {
        lemma_copy_state_push(src@, memo@, out@, corr@, pending, p);
    }
    out.push(SerLuaValue::Nil);
    proof {
        assert(shapes(out@) =~= sh0.push(ValueShape::Nil));
    }
    *corr = Ghost(corr@.push(p));
    proof {
        assert(corr@.take(out0.len() as int) =~= corr0);
    }
    let ghost pend = pending.insert(to_index as int);
    let to_value: SerLuaValue = match &src[p] {
        SerLuaValue::Nil => SerLuaValue::Nil,
        SerLuaValue::Boolean(v) => SerLuaValue::Boolean(*v),
        SerLuaValue::Integer(v) => SerLuaValue::Integer(*v),
        SerLuaValue::Number(v) => SerLuaValue::Number(*v),
        SerLuaValue::String(v) => SerLuaValue::String(v.clone()),
        SerLuaValue::UserData(d) => SerLuaValue::UserData(*d),
        SerLuaValue::Table(t) => {
            memo.set(p, Some(to_index));
            proof {
                lemma_none_count_mono(memo0, memo@, p as int);
                assert(corr@.take(out0.len() as int) =~= corr0);
            }
            let ghost lm = memo@;
            let ghost ls = shapes(out@);
            let mut entries: Vec<(usize, usize)> = Vec::new();
            let mut i: usize = 0;
            proof {
                assert(t.entries@.take(0) =~= Seq::<(usize, usize)>::empty());
                assert(entries@ =~= Seq::<(usize, usize)>::empty());
            }
            while i < t.entries.len()
                invariant
                    lm == memo0.update(p as int, Some(to_index)),
                    ls == sh0.push(ValueShape::Nil),
                    none_count(lm) < none_count(memo0),
                    none_count(memo@) <= none_count(lm),
                    forall|fuel: nat|
                        fuel > none_count(lm) ==> #[trigger] lay_entries(
                            src@,
                            (lm, ls),
                            t.entries@.take(i as int),
                            fuel,
                        ) == (memo@, shapes(out@), entries@),
                    block_wf(src@),
                    src@[p as int] == SerLuaValue::Table(*t),
                    i <= t.entries@.len(),
                    entries@.len() == i,
                    copy_state(src@, memo@, out@, corr@, pend),
                    pend == pending.insert(to_index as int),
                    !pending.contains(to_index as int),
                    (to_index as int) < out@.len(),
                    corr@[to_index as int] == p,
                    out0.len() == to_index,
                    corr@.take(out0.len() as int) == corr0,
                    forall|x: int| #[trigger] pending.contains(x) ==> out@[x] == out0[x],
                    memo@.len() == memo0.len(),
                    forall|j: int|
                        0 <= j < memo0.len() && (#[trigger] memo0[j]) is Some ==> memo@[j] == memo0[j],
                    none_count(memo@) < none_count(memo0),
                    memo0 == old(memo)@,
                    forall|j: int|
                        0 <= j < i ==> ((#[trigger] entries@[j]).0 as int) < out@.len() && (entries@[j].1 as int)
                            < out@.len() && corr@[entries@[j].0 as int] == t.entries@[j].0 && corr@[entries@[j].1 as int]
                            == t.entries@[j].1,
                decreases t.entries@.len() - i,
            {
                let (k, v) = t.entries[i];
                proof {
                    assert(refs_below(src@[p as int], src@.len() as int));
                    assert(t.entries@[i as int].0 < src@.len());
                }
                let ghost out1 = out@;
                let ghost corr1 = corr@;
                let ghost memo1 = memo@;
                let ghost es_i = entries@;
                let to_k = append_position(src, k, memo, out, corr, Ghost(pend));
                let ghost out2 = out@;
                let ghost corr2 = corr@;
                let ghost memo2 = memo@;
                let to_v = append_position(src, v, memo, out, corr, Ghost(pend));
                proof {
                    assert forall|x: int| 0 <= x < out1.len() implies corr@[x] == corr1[x] by {
                        assert(corr2.take(out1.len() as int)[x] == corr2[x]);
                        assert(corr@.take(out2.len() as int)[x] == corr@[x]);
                    }
                    assert forall|x: int| 0 <= x < out2.len() implies corr@[x] == corr2[x] by {
                        assert(corr@.take(out2.len() as int)[x] == corr@[x]);
                    }
                    assert(corr@.take(out0.len() as int) =~= corr0) by {
                        assert forall|x: int| 0 <= x < out0.len() implies corr@[x] == corr0[x] by {
                            assert(corr1.take(out0.len() as int)[x] == corr1[x]);
                        }
                    }
                    assert forall|x: int| #[trigger] pending.contains(x) implies out@[x] == out0[x] by {
                        assert(pend.contains(x));
                    }
                    assert(pend.contains(to_index as int));
                    assert forall|j: int|
                        0 <= j < memo0.len() && (#[trigger] memo0[j]) is Some implies memo@[j] == memo0[j] by {
                        assert(memo1[j] == memo0[j]);
                        assert(memo2[j] == memo1[j]);
                    }
                }
                let ghost prev = entries@;
                entries.push((to_k, to_v));
                proof {
                    assert forall|fuel: nat| fuel > none_count(lm) implies #[trigger] lay_entries(
                        src@,
                        (lm, ls),
                        t.entries@.take(i + 1),
                        fuel,
                    ) == (memo@, shapes(out@), entries@) by {
                        assert(t.entries@.take(i + 1).drop_last() =~= t.entries@.take(i as int));
                        assert(t.entries@.take(i + 1).last() == t.entries@[i as int]);
                        assert(lay_entries(src@, (lm, ls), t.entries@.take(i as int), fuel) == (memo1, shapes(out1), es_i));
                        assert(lay_value(src@, (memo1, shapes(out1)), k as int, fuel) == (memo2, shapes(out2), to_k));
                        assert(lay_value(src@, (memo2, shapes(out2)), v as int, fuel) == (memo@, shapes(out@), to_v));
                    }
                    assert forall|j: int|
                        0 <= j < i + 1 implies ((#[trigger] entries@[j]).0 as int) < out@.len() && (entries@[j].1 as int)
                            < out@.len() && corr@[entries@[j].0 as int] == t.entries@[j].0 && corr@[entries@[j].1 as int]
                            == t.entries@[j].1 by {
                        if j < i {
                            assert(entries@[j] == prev[j]);
                        }
                    }
                }
                i = i + 1;
            }
            let ghost out3 = out@;
            let ghost corr3 = corr@;
            let ghost memo3 = memo@;
            proof {
                assert(t.entries@.take(i as int) =~= t.entries@);
            }
            let metatable: Option<usize> = match t.metatable {
                Some(m) => {
                    proof {
                        assert(refs_below(src@[p as int], src@.len() as int));
                    }
                    let to_m = append_position(src, m, memo, out, corr, Ghost(pend));
                    Some(to_m)
                },
                None => None,
            };
            proof {
                assert forall|x: int| 0 <= x < out3.len() implies corr@[x] == corr3[x] by {
                    if out@.len() > out3.len() {
                        assert(corr@.take(out3.len() as int)[x] == corr@[x]);
                    }
                }
                assert(corr@.take(out0.len() as int) =~= corr0) by {
                    assert forall|x: int| 0 <= x < out0.len() implies corr@[x] == corr0[x] by {
                        assert(corr3.take(out0.len() as int)[x] == corr3[x]);
                    }
                }
                assert forall|x: int| #[trigger] pending.contains(x) implies out@[x] == out0[x] by {
                    assert(pend.contains(x));
                }
                assert(pend.contains(to_index as int));
                assert forall|j: int|
                    0 <= j < memo0.len() && (#[trigger] memo0[j]) is Some implies memo@[j] == memo0[j] by {
                    assert(memo3[j] == memo0[j]);
                }
            }
            let tv = SerLuaValue::Table(SerLuaTable { entries, metatable });
            proof {
                assert forall|fuel: nat| fuel > none_count(memo0) implies #[trigger] lay_value(
                    src@,
                    (memo0, sh0),
                    p as int,
                    fuel,
                ) == (memo@, shapes(out@).update(to_index as int, shape(tv)), to_index) by {
                    assert(lay_entries(src@, (lm, ls), t.entries@, (fuel - 1) as nat) == (memo3, shapes(out3), entries@));
                    match t.metatable {
                        Some(m) => {
                            assert(lay_value(src@, (memo3, shapes(out3)), m as int, (fuel - 1) as nat) == (
                                memo@,
                                shapes(out@),
                                metatable->0,
                            ));
                        },
                        None => {},
                    }
                }
            }
            tv
        },
        SerLuaValue::Function(f) => {
            memo.set(p, Some(to_index));
            proof {
                lemma_none_count_mono(memo0, memo@, p as int);
                assert(corr@.take(out0.len() as int) =~= corr0);
            }
            let ghost lm = memo@;
            let ghost ls = shapes(out@);
            let mut upvalues: Vec<(String, usize)> = Vec::new();
            let mut i: usize = 0;
            proof {
                assert(f.upvalues@.take(0) =~= Seq::<(String, usize)>::empty());
                assert(upvalues@.map_values(|u: (String, usize)| (u.0@, u.1)) =~= Seq::<(Seq<char>, usize)>::empty());
            }
            while i < f.upvalues.len()
                invariant
                    lm == memo0.update(p as int, Some(to_index)),
                    ls == sh0.push(ValueShape::Nil),
                    none_count(lm) < none_count(memo0),
                    none_count(memo@) <= none_count(lm),
                    forall|fuel: nat|
                        fuel > none_count(lm) ==> #[trigger] lay_upvalues(
                            src@,
                            (lm, ls),
                            f.upvalues@.take(i as int),
                            fuel,
                        ) == (memo@, shapes(out@), upvalues@.map_values(|u: (String, usize)| (u.0@, u.1))),
                    block_wf(src@),
                    src@[p as int] == SerLuaValue::Function(*f),
                    i <= f.upvalues@.len(),
                    upvalues@.len() == i,
                    copy_state(src@, memo@, out@, corr@, pend),
                    pend == pending.insert(to_index as int),
                    !pending.contains(to_index as int),
                    (to_index as int) < out@.len(),
                    corr@[to_index as int] == p,
                    out0.len() == to_index,
                    corr@.take(out0.len() as int) == corr0,
                    forall|x: int| #[trigger] pending.contains(x) ==> out@[x] == out0[x],
                    memo@.len() == memo0.len(),
                    forall|j: int|
                        0 <= j < memo0.len() && (#[trigger] memo0[j]) is Some ==> memo@[j] == memo0[j],
                    none_count(memo@) < none_count(memo0),
                    memo0 == old(memo)@,
                    forall|j: int|
                        0 <= j < i ==> ((#[trigger] upvalues@[j]).1 as int) < out@.len() && upvalues@[j].0@
                            == f.upvalues@[j].0@ && corr@[upvalues@[j].1 as int] == f.upvalues@[j].1,
                decreases f.upvalues@.len() - i,
            {
                let u = f.upvalues[i].1;
                proof {
                    assert(refs_below(src@[p as int], src@.len() as int));
                    lemma_upvalue_below(*f, src@.len() as int, i as int);
                }
                let ghost out1 = out@;
                let ghost corr1 = corr@;
                let ghost memo1 = memo@;
                let ghost us_i = upvalues@.map_values(|u: (String, usize)| (u.0@, u.1));
                let to_u = append_position(src, u, memo, out, corr, Ghost(pend));
                proof {
                    assert forall|x: int| 0 <= x < out1.len() implies corr@[x] == corr1[x] by {
                        assert(corr@.take(out1.len() as int)[x] == corr@[x]);
                    }
                    assert(corr@.take(out0.len() as int) =~= corr0) by {
                        assert forall|x: int| 0 <= x < out0.len() implies corr@[x] == corr0[x] by {
                            assert(corr1.take(out0.len() as int)[x] == corr1[x]);
                        }
                    }
                    assert forall|x: int| #[trigger] pending.contains(x) implies out@[x] == out0[x] by {
                        assert(pend.contains(x));
                    }
                    assert(pend.contains(to_index as int));
                    assert forall|j: int|
                        0 <= j < memo0.len() && (#[trigger] memo0[j]) is Some implies memo@[j] == memo0[j] by {
                        assert(memo1[j] == memo0[j]);
                    }
                }
                let ghost prev = upvalues@;
                let name = f.upvalues[i].0.clone();
                upvalues.push((name, to_u));
                proof {
                    assert(upvalues@.map_values(|u: (String, usize)| (u.0@, u.1)) =~= us_i.push(
                        (f.upvalues@[i as int].0@, to_u),
                    ));
                    assert forall|fuel: nat| fuel > none_count(lm) implies #[trigger] lay_upvalues(
                        src@,
                        (lm, ls),
                        f.upvalues@.take(i + 1),
                        fuel,
                    ) == (memo@, shapes(out@), upvalues@.map_values(|u: (String, usize)| (u.0@, u.1))) by {
                        assert(f.upvalues@.take(i + 1).drop_last() =~= f.upvalues@.take(i as int));
                        assert(f.upvalues@.take(i + 1).last() == f.upvalues@[i as int]);
                        assert(lay_upvalues(src@, (lm, ls), f.upvalues@.take(i as int), fuel) == (memo1, shapes(out1), us_i));
                        assert(lay_value(src@, (memo1, shapes(out1)), u as int, fuel) == (memo@, shapes(out@), to_u));
                    }
                    assert forall|j: int|
                        0 <= j < i + 1 implies ((#[trigger] upvalues@[j]).1 as int) < out@.len() && upvalues@[j].0@
                            == f.upvalues@[j].0@ && corr@[upvalues@[j].1 as int] == f.upvalues@[j].1 by {
                        if j < i {
                            assert(upvalues@[j] == prev[j]);
                        }
                    }
                }
                i = i + 1;
            }
            let source = f.source.clone();
            proof {
                assert(source@ =~= f.source@);
                assert(f.upvalues@.take(i as int) =~= f.upvalues@);
            }
            let fv = SerLuaValue::Function(SerLuaFunction { source, upvalues });
            proof {
                assert forall|fuel: nat| fuel > none_count(memo0) implies #[trigger] lay_value(
                    src@,
                    (memo0, sh0),
                    p as int,
                    fuel,
                ) == (memo@, shapes(out@).update(to_index as int, shape(fv)), to_index) by {
                    assert(lay_upvalues(src@, (lm, ls), f.upvalues@, (fuel - 1) as nat) == (
                        memo@,
                        shapes(out@),
                        upvalues@.map_values(|u: (String, usize)| (u.0@, u.1)),
                    ));
                }
            }
            fv
        },
    };
    proof {
        assert(copy_of(to_value, src@[p as int], corr@));
        assert(refs_below(to_value, out@.len() as int));
        lemma_copy_state_fill(src@, memo@, out@, corr@, pending, to_index as int, to_value);
    }
    let ghost pre = shapes(out@);
    out.set(to_index, to_value);
    proof {
        lemma_none_count_mono(memo0, memo@, -1);
        assert(shapes(out@) =~= pre.update(to_index as int, shape(to_value)));
        if !shared_kind(src@[p as int]) {
            assert(memo@ == memo0);
            assert(shape(to_value) == shape(src@[p as int]));
            assert(pre == sh0.push(ValueShape::Nil));
        }
    }
    to_index
}


/// Copies the value at position `p` of the block, with everything it
/// reaches, into a new block that holds it at position 0.
fn copy_block_from(src: &Vec<SerLuaValue>, p: usize) -> (r: Vec<SerLuaValue>)
    requires
        block_wf(src@),
        (p as int) < src@.len(),
    ensures
        exists|corr: Seq<usize>| #[trigger] copies(r@, src@, corr) && corr[0] == p,
        shapes(r@) == block_layout(src@, p as int),
{
    let mut memo: Vec<Option<usize>> = Vec::new();
    let mut k: usize = 0;
    while k < src.len()
        invariant
            k <= src@.len(),
            memo@.len() == k,
            forall|j: int| 0 <= j < k ==> (#[trigger] memo@[j]) is None,
        decreases src@.len() - k,
    {
        memo.push(None);
        k = k + 1;
    }
    let mut out: Vec<SerLuaValue> = Vec::new();
    let mut corr: Ghost<Seq<usize>> = Ghost(Seq::empty());
    proof {
        assert(copy_state(src@, memo@, out@, corr@, Set::empty()));
    }
    let ghost memo_start = memo@;
    proof {
        assert(memo_start =~= Seq::new(src@.len(), |i: int| None::<usize>));
        assert(shapes(out@) =~= Seq::<ValueShape>::empty());
        lemma_none_count_le(memo_start);
    }
    let q = append_position(src, p, &mut memo, &mut out, &mut corr, Ghost(Set::empty()));
    let n_out: usize = out.len();
    proof {
        assert(lay_value(src@, (memo_start, Seq::<ValueShape>::empty()), p as int, src@.len() + 1) == (
            memo@,
            shapes(out@),
            q,
        ));
        let c = corr@;
        let n = out@;
        assert(block_wf(n)) by {
            assert forall|x: int| 0 <= x < n.len() implies refs_below(#[trigger] n[x], n.len() as int) by {
                assert(!Set::<int>::empty().contains(x));
            }
        }
        assert forall|x: int| 0 <= x < n.len() implies (c[x] as int) < src@.len() && copy_of(
            #[trigger] n[x],
            src@[c[x] as int],
            c,
        ) by {
            assert(!Set::<int>::empty().contains(x));
        }
        assert forall|q1: int, q2: int|
            0 <= q1 < n.len() && 0 <= q2 < n.len() && q1 != q2 && shared_kind(n[q1]) implies #[trigger] c[q1]
            != #[trigger] c[q2] by {
            assert(!Set::<int>::empty().contains(q1));
            assert(copy_of(n[q1], src@[c[q1] as int], c));
            assert(shared_kind(src@[c[q1] as int]));
            assert(memo@[c[q1] as int] == Some(q1 as usize));
            if c[q1] == c[q2] {
                assert(memo@[c[q2] as int] == Some(q2 as usize));
                assert(q1 < n_out && q2 < n_out);
                assert(q1 as usize == q2 as usize);
            }
        }
        assert(copies(n, src@, c));
    }
    out
}

/// The value, with everything it reaches, as a block of its own that holds
/// it at position 0 and lays out, depth first, each table and function it
/// reaches once, in the order first reached (a table's keys before their
/// values, its metatable last), as `block_layout` states.
pub fn extract_lua_value_block(value: SerLuaValueRef<'_>) -> (r: SerLuaValueBlock)
    requires
        ref_in_its_block(value),
    ensures
        holds_ref(r.values@, value),
        value matches SerLuaValueRef::Table(t) ==> shapes(r.values@) == block_layout(t.ref_values@, t.index as int),
        value matches SerLuaValueRef::Function(f) ==> shapes(r.values@) == block_layout(
            f.ref_values@,
            f.index as int,
        ),
{
    match value {
        SerLuaValueRef::Table(t) => SerLuaValueBlock { values: copy_block_from(t.ref_values, t.index) },
        SerLuaValueRef::Function(f) => SerLuaValueBlock { values: copy_block_from(f.ref_values, f.index) },
        SerLuaValueRef::Nil => SerLuaValueBlock { values: vec![SerLuaValue::Nil] },
        SerLuaValueRef::Boolean(b) => SerLuaValueBlock { values: vec![SerLuaValue::Boolean(b)] },
        SerLuaValueRef::Integer(i) => SerLuaValueBlock { values: vec![SerLuaValue::Integer(i)] },
        SerLuaValueRef::Number(x) => SerLuaValueBlock { values: vec![SerLuaValue::Number(x)] },
        SerLuaValueRef::String(s) => SerLuaValueBlock { values: vec![SerLuaValue::String(String::from_str(s))] },
        SerLuaValueRef::UserData(d) => SerLuaValueBlock { values: vec![SerLuaValue::UserData(d)] },
    }
}

impl SerLuaValueBlock {
    /// The same value laid out anew from position 0, depth first, each table
    /// and function once, in the order in which the block's reading from
    /// position 0 first reaches them.
    pub fn as_deterministic(&self) -> (r: SerLuaValueBlock)
        requires
            block_wf(self.values@),
            self.values@.len() > 0,
        ensures
            exists|corr: Seq<usize>| #[trigger] copies(r.values@, self.values@, corr) && corr[0] == 0,
            shapes(r.values@) == deterministic_layout(self.values@),
    {
        let as_ref = refify_ser_lua_value(&self.values, 0);
        let ghost root = as_ref;
        let r = extract_lua_value_block(as_ref);
        proof {
            match root {
                SerLuaValueRef::Table(_) => {},
                SerLuaValueRef::Function(_) => {},
                _ => {
                    let c = seq![0usize];
                    assert(copy_of(r.values@[0], self.values@[0], c));
                    assert(block_wf(r.values@)) by {
                        assert forall|x: int| 0 <= x < r.values@.len() implies refs_below(
                            #[trigger] r.values@[x],
                            r.values@.len() as int,
                        ) by {
                            assert(x == 0);
                        }
                    }
                    assert(copies(r.values@, self.values@, c));
                    assert(shape(r.values@[0]) == shape(self.values@[0]));
                    assert(shapes(r.values@) =~= seq![shape(self.values@[0])]);
                    let none = Seq::new(self.values@.len(), |i: int| None::<usize>);
                    assert(lay_value(self.values@, (none, Seq::<ValueShape>::empty()), 0, self.values@.len() + 1).1
                        =~= seq![shape(self.values@[0])]);
                },
            }
        }
        r
    }
}

} // verus!
