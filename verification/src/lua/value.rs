//! Lua values as the project logic reads them: the kind of each value, the
//! text it converts to, and how it prints.
use vstd::prelude::*;

verus! {

/// The kind of a Lua value, with what the logic reads of it.
#[derive(Debug)]
pub enum LuaKind {
    Nil,
    Boolean(bool),
    Integer(i64),
    Number,
    Str,
    Table(LuaTable),
    /// A function, with the handle under which its owner finds it again.
    Function(u64),
    LightUserData,
    Thread,
    UserData,
    Error(LuaError),
}

/// A Lua error as the logic reads it: a failure in a Rust callback, which
/// wraps its cause with a traceback; a cause with some context added; or
/// an error of another kind, by its message.
#[derive(Debug)]
pub enum LuaError {
    Callback { traceback: String, cause: Box<LuaError> },
    WithContext { context: String, cause: Box<LuaError> },
    Other(String),
}

/// A Lua value: its kind, what converting it to a `String` gives (the text,
/// or the message of the conversion error), and how it prints for
/// diagnostics.
#[derive(Debug)]
pub struct LuaValue {
    pub kind: LuaKind,
    pub text: Result<String, String>,
    pub debug: String,
}

/// A Lua table: its length (its border) and its key-value pairs in the
/// order in which iterating it visits them.
#[derive(Debug)]
pub struct LuaTable {
    pub len: usize,
    pub pairs: Vec<(LuaValue, LuaValue)>,
}

/// The name of the value's type.
pub open spec fn type_name_of(k: LuaKind) -> Seq<char> {
    match k {
        LuaKind::Nil => "nil"@,
        LuaKind::Boolean(_) => "boolean"@,
        LuaKind::Integer(_) => "integer"@,
        LuaKind::Number => "number"@,
        LuaKind::Str => "string"@,
        LuaKind::Table(_) => "table"@,
        LuaKind::Function(_) => "function"@,
        LuaKind::LightUserData => "lightuserdata"@,
        LuaKind::Thread => "thread"@,
        LuaKind::UserData => "userdata"@,
        LuaKind::Error(_) => "error"@,
    }
}

/// The converted text of a value, as sequences of characters.
pub open spec fn text_view(v: LuaValue) -> Result<Seq<char>, Seq<char>> {
    match v.text {
        Ok(t) => Ok(t@),
        Err(e) => Err(e@),
    }
}

/// The value is a string whose text is `key`.
pub open spec fn is_key(v: LuaValue, key: Seq<char>) -> bool {
    v.kind is Str && text_view(v) == Ok::<Seq<char>, Seq<char>>(key)
}

/// The value is the integer `i`.
pub open spec fn is_index(v: LuaValue, i: int) -> bool {
    v.kind matches LuaKind::Integer(j) && j == i
}

/// The position of the first pair with the string key `key`.
pub open spec fn find_key(pairs: Seq<(LuaValue, LuaValue)>, key: Seq<char>) -> Option<int>
    decreases pairs.len(),
{
    if pairs.len() == 0 {
        None
    } else {
        match find_key(pairs.drop_last(), key) {
            Some(i) => Some(i),
            None => if is_key(pairs.last().0, key) {
                Some(pairs.len() - 1)
            } else {
                None
            },
        }
    }
}

/// The position of the first pair with the integer key `i`.
pub open spec fn find_index(pairs: Seq<(LuaValue, LuaValue)>, i: int) -> Option<int>
    decreases pairs.len(),
{
    if pairs.len() == 0 {
        None
    } else {
        match find_index(pairs.drop_last(), i) {
            Some(j) => Some(j),
            None => if is_index(pairs.last().0, i) {
                Some(pairs.len() - 1)
            } else {
                None
            },
        }
    }
}

/// What `find_key` finds has the key; when it finds nothing, no pair has it.
pub proof fn lemma_find_key_whole(pairs: Seq<(LuaValue, LuaValue)>, key: Seq<char>)
    ensures
        match find_key(pairs, key) {
            Some(i) => 0 <= i < pairs.len() && is_key(pairs[i].0, key),
            None => forall|j: int| 0 <= j < pairs.len() ==> !is_key(#[trigger] pairs[j].0, key),
        },
    decreases pairs.len(),
{
    if pairs.len() > 0 {
        lemma_find_key_whole(pairs.drop_last(), key);
        assert forall|j: int| 0 <= j < pairs.len() - 1 implies pairs.drop_last()[j] == pairs[j] by {}
    }
}

/// What `find_index` finds has the index; when it finds nothing, no pair has it.
pub proof fn lemma_find_index_whole(pairs: Seq<(LuaValue, LuaValue)>, i: int)
    ensures
        match find_index(pairs, i) {
            Some(j) => 0 <= j < pairs.len() && is_index(pairs[j].0, i),
            None => forall|j: int| 0 <= j < pairs.len() ==> !is_index(#[trigger] pairs[j].0, i),
        },
    decreases pairs.len(),
{
    if pairs.len() > 0 {
        lemma_find_index_whole(pairs.drop_last(), i);
        assert forall|j: int| 0 <= j < pairs.len() - 1 implies pairs.drop_last()[j] == pairs[j] by {}
    }
}

impl LuaValue {
    /// The name of the value's type.
    pub fn kind_name(&self) -> (r: &'static str)
        ensures
            r@ == type_name_of(self.kind),
    {
        match &self.kind {
            LuaKind::Nil => "nil",
            LuaKind::Boolean(_) => "boolean",
            LuaKind::Integer(_) => "integer",
            LuaKind::Number => "number",
            LuaKind::Str => "string",
            LuaKind::Table(_) => "table",
            LuaKind::Function(_) => "function",
            LuaKind::LightUserData => "lightuserdata",
            LuaKind::Thread => "thread",
            LuaKind::UserData => "userdata",
            LuaKind::Error(_) => "error",
        }
    }
}

/// Whether the value is a string whose text is `key`.
pub fn value_is_key(v: &LuaValue, key: &str) -> (r: bool)
    ensures
        r == is_key(*v, key@),
{
    match (&v.kind, &v.text) {
        (LuaKind::Str, Ok(t)) => crate::text::str_eq(t.as_str(), key),
        _ => false,
    }
}

impl LuaTable {
    /// The position of the first pair whose key is the string `key`.
    pub fn position_of_key(&self, key: &str) -> (r: Option<usize>)
        ensures
            match r {
                Some(i) => find_key(self.pairs@, key@) == Some(i as int),
                None => find_key(self.pairs@, key@) is None,
            },
    {
        let ghost ps = self.pairs@;
        let mut i: usize = 0;
        while i < self.pairs.len()
            invariant
                ps == self.pairs@,
                i <= ps.len(),
                forall|j: int| 0 <= j < i ==> !is_key(#[trigger] ps[j].0, key@),
            decreases ps.len() - i,
        {
            if value_is_key(&self.pairs[i].0, key) {
                proof {
                    lemma_find_key_first(ps, key@, i as int);
                }
                return Some(i);
            }
            i = i + 1;
        }
        proof {
            lemma_find_key_none(ps, key@);
        }
        None
    }

    /// The position of the first pair whose key is the integer `i`.
    pub fn position_of_index(&self, idx: usize) -> (r: Option<usize>)
        ensures
            match r {
                Some(j) => find_index(self.pairs@, idx as int) == Some(j as int),
                None => find_index(self.pairs@, idx as int) is None,
            },
    {
        let ghost ps = self.pairs@;
        let mut i: usize = 0;
        while i < self.pairs.len()
            invariant
                ps == self.pairs@,
                i <= ps.len(),
                forall|j: int| 0 <= j < i ==> !is_index(#[trigger] ps[j].0, idx as int),
            decreases ps.len() - i,
        {
            let found = match &self.pairs[i].0.kind {
                LuaKind::Integer(k) => *k >= 0 && (*k as u64) == (idx as u64),
                _ => false,
            };
            if found {
                proof {
                    lemma_find_index_first(ps, idx as int, i as int);
                }
                return Some(i);
            }
            i = i + 1;
        }
        proof {
            lemma_find_index_none(ps, idx as int);
        }
        None
    }
}

proof fn lemma_find_key_first(pairs: Seq<(LuaValue, LuaValue)>, key: Seq<char>, i: int)
    requires
        0 <= i < pairs.len(),
        is_key(pairs[i].0, key),
        forall|j: int| 0 <= j < i ==> !is_key(#[trigger] pairs[j].0, key),
    ensures
        find_key(pairs, key) == Some(i),
    decreases pairs.len(),
{
    if i < pairs.len() - 1 {
        let d = pairs.drop_last();
        assert forall|j: int| 0 <= j < i implies !is_key(#[trigger] d[j].0, key) by {
            assert(d[j] == pairs[j]);
        }
        assert(d[i] == pairs[i]);
        lemma_find_key_first(d, key, i);
    } else {
        lemma_find_key_none(pairs.drop_last(), key);
    }
}

proof fn lemma_find_key_none(pairs: Seq<(LuaValue, LuaValue)>, key: Seq<char>)
    requires
        forall|j: int| 0 <= j < pairs.len() ==> !is_key(#[trigger] pairs[j].0, key),
    ensures
        find_key(pairs, key) is None,
    decreases pairs.len(),
{
    if pairs.len() > 0 {
        let d = pairs.drop_last();
        assert forall|j: int| 0 <= j < d.len() implies !is_key(#[trigger] d[j].0, key) by {
            assert(d[j] == pairs[j]);
        }
        lemma_find_key_none(d, key);
    }
}

proof fn lemma_find_index_first(pairs: Seq<(LuaValue, LuaValue)>, i: int, k: int)
    requires
        0 <= k < pairs.len(),
        is_index(pairs[k].0, i),
        forall|j: int| 0 <= j < k ==> !is_index(#[trigger] pairs[j].0, i),
    ensures
        find_index(pairs, i) == Some(k),
    decreases pairs.len(),
{
    if k < pairs.len() - 1 {
        let d = pairs.drop_last();
        assert forall|j: int| 0 <= j < k implies !is_index(#[trigger] d[j].0, i) by {
            assert(d[j] == pairs[j]);
        }
        assert(d[k] == pairs[k]);
        lemma_find_index_first(d, i, k);
    } else {
        lemma_find_index_none(pairs.drop_last(), i);
    }
}

proof fn lemma_find_index_none(pairs: Seq<(LuaValue, LuaValue)>, i: int)
    requires
        forall|j: int| 0 <= j < pairs.len() ==> !is_index(#[trigger] pairs[j].0, i),
    ensures
        find_index(pairs, i) is None,
    decreases pairs.len(),
{
    if pairs.len() > 0 {
        let d = pairs.drop_last();
        assert forall|j: int| 0 <= j < d.len() implies !is_index(#[trigger] d[j].0, i) by {
            assert(d[j] == pairs[j]);
        }
        lemma_find_index_none(d, i);
    }
}

/// The error at the bottom of a chain of callback failures and added
/// context.
pub open spec fn original_error(e: LuaError) -> LuaError
    decreases e,
{
    match e {
        LuaError::Callback { cause, .. } => original_error(*cause),
        LuaError::WithContext { cause, .. } => original_error(*cause),
        LuaError::Other(m) => LuaError::Other(m),
    }
}

/// The error at the bottom of a chain of callback failures and added
/// context.
pub fn get_original_error(error: &LuaError) -> (r: &LuaError)
    ensures
        *r == original_error(*error),
        r is Other,
    decreases error,
{
    match error {
        LuaError::Callback { cause, .. } => get_original_error(cause),
        LuaError::WithContext { cause, .. } => get_original_error(cause),
        LuaError::Other(_) => error,
    }
}

impl LuaError {
    /// The message of an error of another kind; for a wrapped error, that of
    /// its original error.
    pub fn message(&self) -> (r: String)
        ensures
            original_error(*self) matches LuaError::Other(m) && r@ == m@,
    {
        match get_original_error(self) {
            LuaError::Other(m) => m.clone(),
            _ => String::new(),
        }
    }
}

/// The message that a value which an action raised stands for: a string's
/// text, the message of the original error of an error, or how any other
/// value prints.
pub open spec fn error_message_of(v: LuaValue) -> Seq<char> {
    match v.kind {
        LuaKind::Str => match text_view(v) {
            Ok(t) => t,
            Err(_) => "<error reading message>"@,
        },
        LuaKind::Error(e) => match original_error(e) {
            LuaError::Other(m) => m@,
            _ => seq![],
        },
        _ => v.debug@,
    }
}

/// The message that a value which an action raised stands for.
pub fn get_error_message(val: &LuaValue) -> (r: String)
    ensures
        r@ == error_message_of(*val),
{
    match &val.kind {
        LuaKind::Str => match &val.text {
            Ok(t) => t.clone(),
            Err(_) => String::from_str("<error reading message>"),
        },
        LuaKind::Error(e) => e.message(),
        _ => val.debug.clone(),
    }
}

} // verus!
