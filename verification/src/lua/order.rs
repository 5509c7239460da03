//! The order of serialized values: first by type, then by content, where
//! tables and functions are compared part by part, following a position of
//! the left-hand block at most once on each way down so that cycles end.
use vstd::prelude::*;
use crate::lua::s11n::{block_wf, copies, copy_of, lemma_upvalue_below, ref_in_its_block, refs_below, CobbleUserData, SerLuaFunction, SerLuaTable, SerLuaValue, SerLuaValueRef};
use crate::text::{lemma_text_less_irreflexive, str_less, text_less};

verus! {

/// How one value stands to another.
#[derive(PartialEq, Eq, Structural, Clone, Copy, Debug)]
pub enum ValueOrder {
    Less,
    Equal,
    Greater,
}

/// The order of two integers.
pub open spec fn int_order(a: int, b: int) -> ValueOrder {
    if a < b {
        ValueOrder::Less
    } else if a > b {
        ValueOrder::Greater
    } else {
        ValueOrder::Equal
    }
}

/// The order of two texts.
pub open spec fn text_order(a: Seq<char>, b: Seq<char>) -> ValueOrder {
    if text_less(a, b) {
        ValueOrder::Less
    } else if text_less(b, a) {
        ValueOrder::Greater
    } else {
        ValueOrder::Equal
    }
}

/// The order of two byte strings: byte by byte, a proper prefix first.
pub open spec fn bytes_order(a: Seq<u8>, b: Seq<u8>) -> ValueOrder
    decreases a.len(),
{
    if a.len() == 0 {
        if b.len() == 0 {
            ValueOrder::Equal
        } else {
            ValueOrder::Less
        }
    } else if b.len() == 0 {
        ValueOrder::Greater
    } else if a[0] != b[0] {
        int_order(a[0] as int, b[0] as int)
    } else {
        bytes_order(a.drop_first(), b.drop_first())
    }
}

/// Where a number, given by the bits of its IEEE 754 form, stands in the
/// total order of numbers: negative numbers (sign bit set) below positive
/// ones, in reverse order of their bits.
pub open spec fn number_key(bits: u64) -> int {
    if bits < 0x8000_0000_0000_0000u64 {
        bits as int
    } else {
        0x7FFF_FFFF_FFFF_FFFFint - bits as int
    }
}

/// The place of a library object in the order of library objects.
pub open spec fn userdata_rank(d: CobbleUserData) -> int {
    match d {
        CobbleUserData::FsLib => 0,
        CobbleUserData::PathLib => 1,
        CobbleUserData::CmdLib => 2,
        CobbleUserData::ScriptDirLib => 3,
        CobbleUserData::TomlLib => 4,
        CobbleUserData::JsonLib => 5,
    }
}

/// The place of a value's type in the order of types.
pub open spec fn kind_rank(v: SerLuaValue) -> int {
    match v {
        SerLuaValue::Nil => 0,
        SerLuaValue::Boolean(_) => 1,
        SerLuaValue::Integer(_) => 2,
        SerLuaValue::Number(_) => 3,
        SerLuaValue::String(_) => 4,
        SerLuaValue::Table(_) => 5,
        SerLuaValue::Function(_) => 6,
        SerLuaValue::UserData(_) => 7,
    }
}

/// The order of two values that hold no positions, of the same type.
pub open spec fn scalar_order(a: SerLuaValue, b: SerLuaValue) -> ValueOrder {
    match a {
        SerLuaValue::Boolean(x) => int_order(
            if x {
                1
            } else {
                0
            },
            if b->Boolean_0 {
                1
            } else {
                0
            },
        ),
        SerLuaValue::Integer(x) => int_order(x as int, b->Integer_0 as int),
        SerLuaValue::Number(x) => int_order(number_key(x), number_key(b->Number_0)),
        SerLuaValue::String(x) => text_order(x@, b->String_0@),
        SerLuaValue::UserData(x) => int_order(userdata_rank(x), userdata_rank(b->UserData_0)),
        _ => ValueOrder::Equal,
    }
}

/// Entries by name and position.
pub open spec fn name_index_view(s: Seq<(String, usize)>) -> Seq<(Seq<char>, usize)> {
    s.map_values(|e: (String, usize)| (e.0@, e.1))
}

/// `x` put into `s` after every entry whose name does not come after its
/// own.
pub open spec fn insert_by_name(s: Seq<(Seq<char>, usize)>, x: (Seq<char>, usize)) -> Seq<(Seq<char>, usize)>
    decreases s.len(),
{
    if s.len() == 0 {
        seq![x]
    } else if text_less(x.0, s.last().0) {
        insert_by_name(s.drop_last(), x).push(s.last())
    } else {
        s.push(x)
    }
}

/// The entries sorted by name, entries of the same name in their order.
pub open spec fn sort_by_name(s: Seq<(Seq<char>, usize)>) -> Seq<(Seq<char>, usize)>
    decreases s.len(),
{
    if s.len() == 0 {
        seq![]
    } else {
        insert_by_name(sort_by_name(s.drop_last()), s.last())
    }
}

/// Inserting by name puts the entry where the scan from the end stops.
proof fn lemma_insert_by_name(s: Seq<(Seq<char>, usize)>, x: (Seq<char>, usize), p: int)
    requires
        0 <= p <= s.len(),
        forall|q: int| p <= q < s.len() ==> text_less(x.0, #[trigger] s[q].0),
        p == 0 || !text_less(x.0, s[p - 1].0),
    ensures
        insert_by_name(s, x) == s.take(p).push(x) + s.skip(p),
    decreases s.len(),
{
    if s.len() == 0 {
        assert(s.take(p).push(x) + s.skip(p) =~= seq![x]);
    } else if p == s.len() {
        assert(s.take(p) =~= s);
        assert(s.take(p).push(x) + s.skip(p) =~= s.push(x));
    } else {
        assert(text_less(x.0, s[s.len() - 1].0));
        let d = s.drop_last();
        lemma_insert_by_name(d, x, p);
        assert(d.take(p).push(x) + d.skip(p) + seq![s.last()] =~= s.take(p).push(x) + s.skip(p));
        assert(insert_by_name(d, x).push(s.last()) =~= insert_by_name(d, x) + seq![s.last()]);
    }
}

/// Inserting by name keeps the entries and adds one.
proof fn lemma_insert_by_name_items(s: Seq<(Seq<char>, usize)>, x: (Seq<char>, usize))
    ensures
        insert_by_name(s, x).len() == s.len() + 1,
        forall|q: int|
            0 <= q < insert_by_name(s, x).len() ==> #[trigger] insert_by_name(s, x)[q] == x || s.contains(
                insert_by_name(s, x)[q],
            ),
    decreases s.len(),
{
    if s.len() > 0 && text_less(x.0, s.last().0) {
        let d = s.drop_last();
        lemma_insert_by_name_items(d, x);
        let r = insert_by_name(s, x);
        assert forall|q: int| 0 <= q < r.len() implies #[trigger] r[q] == x || s.contains(r[q]) by {
            if q < r.len() - 1 {
                assert(r[q] == insert_by_name(d, x)[q]);
                if d.contains(r[q]) {
                    let m = choose|m: int| 0 <= m < d.len() && d[m] == r[q];
                    assert(s[m] == r[q]);
                }
            } else {
                assert(s[s.len() - 1] == r[q]);
            }
        }
    } else if s.len() > 0 {
        let r = insert_by_name(s, x);
        assert forall|q: int| 0 <= q < r.len() implies #[trigger] r[q] == x || s.contains(r[q]) by {
            if q < s.len() {
                assert(s[q] == r[q]);
            }
        }
    }
}

/// Sorting by name keeps the number of entries and takes each from the
/// input.
pub proof fn lemma_sort_by_name_items(s: Seq<(Seq<char>, usize)>)
    ensures
        sort_by_name(s).len() == s.len(),
        forall|q: int| 0 <= q < s.len() ==> s.contains(#[trigger] sort_by_name(s)[q]),
    decreases s.len(),
{
    if s.len() > 0 {
        let d = s.drop_last();
        lemma_sort_by_name_items(d);
        lemma_insert_by_name_items(sort_by_name(d), s.last());
        let r = sort_by_name(s);
        assert forall|q: int| 0 <= q < s.len() implies s.contains(#[trigger] sort_by_name(s)[q]) by {
            if r[q] == s.last() {
                assert(s[s.len() - 1] == r[q]);
            } else {
                assert(sort_by_name(d).contains(r[q]));
                let m = choose|m: int| 0 <= m < sort_by_name(d).len() && sort_by_name(d)[m] == r[q];
                assert(d.contains(sort_by_name(d)[m]));
                let w = choose|w: int| 0 <= w < d.len() && d[w] == r[q];
                assert(s[w] == r[q]);
            }
        }
    }
}

/// The order of two booleans, false first.
fn order_bools(a: bool, b: bool) -> (o: ValueOrder)
    ensures
        o == scalar_order(SerLuaValue::Boolean(a), SerLuaValue::Boolean(b)),
{
    if a == b {
        ValueOrder::Equal
    } else if b {
        ValueOrder::Less
    } else {
        ValueOrder::Greater
    }
}

/// The order of two integers.
fn order_ints(a: i64, b: i64) -> (o: ValueOrder)
    ensures
        o == int_order(a as int, b as int),
{
    if a < b {
        ValueOrder::Less
    } else if a > b {
        ValueOrder::Greater
    } else {
        ValueOrder::Equal
    }
}

/// The total order of two numbers, given by their bits.
fn order_numbers(a: u64, b: u64) -> (o: ValueOrder)
    ensures
        o == int_order(number_key(a), number_key(b)),
{
    let sign: u64 = 0x8000_0000_0000_0000u64;
    if a < sign && b < sign {
        order_usizes_u64(a, b)
    } else if a >= sign && b >= sign {
        order_usizes_u64(b, a)
    } else if a >= sign {
        ValueOrder::Less
    } else {
        ValueOrder::Greater
    }
}

fn order_usizes_u64(a: u64, b: u64) -> (o: ValueOrder)
    ensures
        o == int_order(a as int, b as int),
{
    if a < b {
        ValueOrder::Less
    } else if a > b {
        ValueOrder::Greater
    } else {
        ValueOrder::Equal
    }
}

/// The order of two lengths.
fn order_lens(a: usize, b: usize) -> (o: ValueOrder)
    ensures
        o == int_order(a as int, b as int),
{
    if a < b {
        ValueOrder::Less
    } else if a > b {
        ValueOrder::Greater
    } else {
        ValueOrder::Equal
    }
}

/// The order of two texts.
fn order_texts(a: &str, b: &str) -> (o: ValueOrder)
    ensures
        o == text_order(a@, b@),
{
    if str_less(a, b) {
        ValueOrder::Less
    } else if str_less(b, a) {
        ValueOrder::Greater
    } else {
        ValueOrder::Equal
    }
}

/// The order of two byte strings.
fn order_bytes(a: &Vec<u8>, b: &Vec<u8>) -> (o: ValueOrder)
    ensures
        o == bytes_order(a@, b@),
{
    let mut k: usize = 0;
    proof {
        assert(a@.skip(0) =~= a@);
        assert(b@.skip(0) =~= b@);
    }
    while k < a.len() && k < b.len()
        invariant
            k <= a@.len(),
            k <= b@.len(),
            bytes_order(a@, b@) == bytes_order(a@.skip(k as int), b@.skip(k as int)),
        decreases a@.len() - k,
    {
        proof {
            assert(a@.skip(k as int)[0] == a@[k as int]);
            assert(b@.skip(k as int)[0] == b@[k as int]);
        }
        if a[k] != b[k] {
            return order_usizes_u64(a[k] as u64, b[k] as u64);
        }
        proof {
            assert(a@.skip(k as int).drop_first() =~= a@.skip(k as int + 1));
            assert(b@.skip(k as int).drop_first() =~= b@.skip(k as int + 1));
        }
        k = k + 1;
    }
    proof {
        assert(a@.skip(k as int).len() == a@.len() - k);
        assert(b@.skip(k as int).len() == b@.len() - k);
    }
    order_lens(a.len() - k, b.len() - k)
}

/// The order of two library objects.
fn order_userdata(a: CobbleUserData, b: CobbleUserData) -> (o: ValueOrder)
    ensures
        o == int_order(userdata_rank(a), userdata_rank(b)),
{
    order_usizes_u64(userdata_place(a), userdata_place(b))
}

fn userdata_place(d: CobbleUserData) -> (r: u64)
    ensures
        r == userdata_rank(d),
{
    match d {
        CobbleUserData::FsLib => 0,
        CobbleUserData::PathLib => 1,
        CobbleUserData::CmdLib => 2,
        CobbleUserData::ScriptDirLib => 3,
        CobbleUserData::TomlLib => 4,
        CobbleUserData::JsonLib => 5,
    }
}

/// The entries sorted by name, entries of the same name in their order.
pub(crate) fn sort_by_names(v: &Vec<(String, usize)>) -> (r: Vec<(String, usize)>)
    ensures
        name_index_view(r@) == sort_by_name(name_index_view(v@)),
{
    let ghost s = name_index_view(v@);
    let mut r: Vec<(String, usize)> = Vec::new();
    let mut i: usize = 0;
    proof {
        assert(s.take(0) =~= Seq::<(Seq<char>, usize)>::empty());
        assert(name_index_view(r@) =~= Seq::<(Seq<char>, usize)>::empty());
    }
    while i < v.len()
        invariant
            s == name_index_view(v@),
            i <= v@.len(),
            name_index_view(r@) == sort_by_name(s.take(i as int)),
        decreases v@.len() - i,
    {
        let ghost before = name_index_view(r@);
        let ghost x = s[i as int];
        let name = v[i].0.as_str();
        let mut p: usize = r.len();
        while p > 0 && str_less(name, r[p - 1].0.as_str())
            invariant
                p <= r@.len(),
                before == name_index_view(r@),
                x == (name@, v@[i as int].1),
                forall|q: int| p <= q < r@.len() ==> text_less(name@, #[trigger] before[q].0),
            decreases p,
        {
            proof {
                assert(before[p - 1].0 == r@[p - 1].0@);
            }
            p = p - 1;
        }
        proof {
            if p > 0 {
                assert(before[p - 1].0 == r@[p - 1].0@);
            }
            lemma_insert_by_name(before, x, p as int);
            assert(s.take(i + 1).drop_last() =~= s.take(i as int));
            assert(s.take(i + 1).last() == x);
        }
        r.insert(p, (v[i].0.clone(), v[i].1));
        proof {
            assert(name_index_view(r@) =~= before.take(p as int).push(x) + before.skip(p as int));
        }
        i = i + 1;
    }
    proof {
        assert(s.take(i as int) =~= s);
    }
    r
}


/// A history in which no position has been followed yet.
pub open spec fn fresh_history(n: nat) -> Seq<bool> {
    Seq::new(n, |x: int| false)
}

/// The order of the value at position `i` of block `l` and the value at
/// position `j` of block `r`, with the history `h` of the positions of `l`
/// followed so far, together with the history after; `None` when `fuel`
/// runs out first. Two tables, or two functions, compare as equal when the
/// left one's position has been followed already; otherwise its position
/// joins the history. Tables compare by metatable (in a history of their
/// own, a missing one first), then by number of entries, then entry by
/// entry, key before value; functions by code, then by number of upvalues,
/// then upvalue by upvalue in order of name, name before value.
pub open spec fn order_at(fuel: nat, l: Seq<SerLuaValue>, i: int, r: Seq<SerLuaValue>, j: int, h: Seq<bool>) -> Option<
    (ValueOrder, Seq<bool>),
>
    decreases fuel, 0int,
{
    if fuel == 0 {
        None
    } else if kind_rank(l[i]) != kind_rank(r[j]) {
        Some((int_order(kind_rank(l[i]), kind_rank(r[j])), h))
    } else {
        match l[i] {
            SerLuaValue::Table(t) => if h[i] {
                Some((ValueOrder::Equal, h))
            } else {
                let h1 = h.update(i, true);
                let u = r[j]->Table_0;
                let rest = if t.entries@.len() != u.entries@.len() {
                    Some((int_order(t.entries@.len() as int, u.entries@.len() as int), h1))
                } else {
                    order_entries((fuel - 1) as nat, l, i, r, j, 0, h1)
                };
                match t.metatable {
                    Some(ma) => match u.metatable {
                        Some(mb) => match order_at(
                            (fuel - 1) as nat,
                            l,
                            ma as int,
                            r,
                            mb as int,
                            fresh_history(l.len()),
                        ) {
                            Some(m) => if m.0 != ValueOrder::Equal {
                                Some((m.0, h1))
                            } else {
                                rest
                            },
                            None => None,
                        },
                        None => Some((ValueOrder::Greater, h1)),
                    },
                    None => if u.metatable is Some {
                        Some((ValueOrder::Less, h1))
                    } else {
                        rest
                    },
                }
            },
            SerLuaValue::Function(f) => if h[i] {
                Some((ValueOrder::Equal, h))
            } else {
                let h1 = h.update(i, true);
                let g = r[j]->Function_0;
                let so = bytes_order(f.source@, g.source@);
                let lu = sort_by_name(name_index_view(f.upvalues@));
                let ru = sort_by_name(name_index_view(g.upvalues@));
                if so != ValueOrder::Equal {
                    Some((so, h1))
                } else if lu.len() != ru.len() {
                    Some((int_order(lu.len() as int, ru.len() as int), h1))
                } else {
                    order_upvalues((fuel - 1) as nat, l, i, r, j, 0, h1)
                }
            },
            _ => Some((scalar_order(l[i], r[j]), h)),
        }
    }
}

/// The order of the entries of the tables at `i` and `j` from entry `k` on.
pub open spec fn order_entries(
    fuel: nat,
    l: Seq<SerLuaValue>,
    i: int,
    r: Seq<SerLuaValue>,
    j: int,
    k: int,
    h: Seq<bool>,
) -> Option<(ValueOrder, Seq<bool>)>
    decreases fuel, l[i]->Table_0.entries@.len() - k,
{
    let t = l[i]->Table_0;
    let u = r[j]->Table_0;
    if fuel == 0 {
        None
    } else if k < 0 || k >= t.entries@.len() || k >= u.entries@.len() {
        Some((ValueOrder::Equal, h))
    } else {
        match order_at((fuel - 1) as nat, l, t.entries@[k].0 as int, r, u.entries@[k].0 as int, h) {
            None => None,
            Some(a) => if a.0 != ValueOrder::Equal {
                Some(a)
            } else {
                match order_at((fuel - 1) as nat, l, t.entries@[k].1 as int, r, u.entries@[k].1 as int, a.1) {
                    None => None,
                    Some(b) => if b.0 != ValueOrder::Equal {
                        Some(b)
                    } else {
                        order_entries(fuel, l, i, r, j, k + 1, b.1)
                    },
                }
            },
        }
    }
}

/// The order of the upvalues, sorted by name, of the functions at `i` and
/// `j` from upvalue `k` on.
pub open spec fn order_upvalues(
    fuel: nat,
    l: Seq<SerLuaValue>,
    i: int,
    r: Seq<SerLuaValue>,
    j: int,
    k: int,
    h: Seq<bool>,
) -> Option<(ValueOrder, Seq<bool>)>
    decreases fuel, sort_by_name(name_index_view(l[i]->Function_0.upvalues@)).len() - k,
{
    let lu = sort_by_name(name_index_view(l[i]->Function_0.upvalues@));
    let ru = sort_by_name(name_index_view(r[j]->Function_0.upvalues@));
    if fuel == 0 {
        None
    } else if k < 0 || k >= lu.len() || k >= ru.len() {
        Some((ValueOrder::Equal, h))
    } else if text_order(lu[k].0, ru[k].0) != ValueOrder::Equal {
        Some((text_order(lu[k].0, ru[k].0), h))
    } else {
        match order_at((fuel - 1) as nat, l, lu[k].1 as int, r, ru[k].1 as int, h) {
            None => None,
            Some(b) => if b.0 != ValueOrder::Equal {
                Some(b)
            } else {
                order_upvalues(fuel, l, i, r, j, k + 1, b.1)
            },
        }
    }
}

/// More fuel gives the same answer.
pub proof fn lemma_order_at_mono(
    f1: nat,
    f2: nat,
    l: Seq<SerLuaValue>,
    i: int,
    r: Seq<SerLuaValue>,
    j: int,
    h: Seq<bool>,
)
    requires
        f1 <= f2,
        order_at(f1, l, i, r, j, h) is Some,
    ensures
        order_at(f2, l, i, r, j, h) == order_at(f1, l, i, r, j, h),
    decreases f1, 0int,
{
    if kind_rank(l[i]) == kind_rank(r[j]) {
        match l[i] {
            SerLuaValue::Table(t) => if !h[i] {
                let h1 = h.update(i, true);
                let u = r[j]->Table_0;
                if let Some(ma) = t.metatable {
                    if let Some(mb) = u.metatable {
                        let fr = fresh_history(l.len());
                        if order_at((f1 - 1) as nat, l, ma as int, r, mb as int, fr) is Some {
                            lemma_order_at_mono((f1 - 1) as nat, (f2 - 1) as nat, l, ma as int, r, mb as int, fr);
                        }
                    }
                }
                if t.entries@.len() == u.entries@.len() && order_entries((f1 - 1) as nat, l, i, r, j, 0, h1) is Some {
                    lemma_order_entries_mono((f1 - 1) as nat, (f2 - 1) as nat, l, i, r, j, 0, h1);
                }
            },
            SerLuaValue::Function(f) => if !h[i] {
                let h1 = h.update(i, true);
                if order_upvalues((f1 - 1) as nat, l, i, r, j, 0, h1) is Some {
                    lemma_order_upvalues_mono((f1 - 1) as nat, (f2 - 1) as nat, l, i, r, j, 0, h1);
                }
            },
            _ => {},
        }
    }
}

/// More fuel gives the same answer.
pub proof fn lemma_order_entries_mono(
    f1: nat,
    f2: nat,
    l: Seq<SerLuaValue>,
    i: int,
    r: Seq<SerLuaValue>,
    j: int,
    k: int,
    h: Seq<bool>,
)
    requires
        f1 <= f2,
        order_entries(f1, l, i, r, j, k, h) is Some,
    ensures
        order_entries(f2, l, i, r, j, k, h) == order_entries(f1, l, i, r, j, k, h),
    decreases f1, l[i]->Table_0.entries@.len() - k,
{
    let t = l[i]->Table_0;
    let u = r[j]->Table_0;
    if !(k < 0 || k >= t.entries@.len() || k >= u.entries@.len()) {
        let ka = t.entries@[k].0 as int;
        let kb = u.entries@[k].0 as int;
        lemma_order_at_mono((f1 - 1) as nat, (f2 - 1) as nat, l, ka, r, kb, h);
        let a = order_at((f1 - 1) as nat, l, ka, r, kb, h).unwrap();
        if a.0 == ValueOrder::Equal {
            let va = t.entries@[k].1 as int;
            let vb = u.entries@[k].1 as int;
            lemma_order_at_mono((f1 - 1) as nat, (f2 - 1) as nat, l, va, r, vb, a.1);
            let b = order_at((f1 - 1) as nat, l, va, r, vb, a.1).unwrap();
            if b.0 == ValueOrder::Equal {
                lemma_order_entries_mono(f1, f2, l, i, r, j, k + 1, b.1);
            }
        }
    }
}

/// More fuel gives the same answer.
pub proof fn lemma_order_upvalues_mono(
    f1: nat,
    f2: nat,
    l: Seq<SerLuaValue>,
    i: int,
    r: Seq<SerLuaValue>,
    j: int,
    k: int,
    h: Seq<bool>,
)
    requires
        f1 <= f2,
        order_upvalues(f1, l, i, r, j, k, h) is Some,
    ensures
        order_upvalues(f2, l, i, r, j, k, h) == order_upvalues(f1, l, i, r, j, k, h),
    decreases f1, sort_by_name(name_index_view(l[i]->Function_0.upvalues@)).len() - k,
{
    let lu = sort_by_name(name_index_view(l[i]->Function_0.upvalues@));
    let ru = sort_by_name(name_index_view(r[j]->Function_0.upvalues@));
    if !(k < 0 || k >= lu.len() || k >= ru.len()) && text_order(lu[k].0, ru[k].0) == ValueOrder::Equal {
        lemma_order_at_mono((f1 - 1) as nat, (f2 - 1) as nat, l, lu[k].1 as int, r, ru[k].1 as int, h);
        let b = order_at((f1 - 1) as nat, l, lu[k].1 as int, r, ru[k].1 as int, h).unwrap();
        if b.0 == ValueOrder::Equal {
            lemma_order_upvalues_mono(f1, f2, l, i, r, j, k + 1, b.1);
        }
    }
}


/// No position of `v` that it refers to ranks above `rp`, and its
/// metatable ranks below `rp`.
pub open spec fn rank_fits(v: SerLuaValue, rank: Seq<nat>, rp: nat) -> bool {
    match v {
        SerLuaValue::Table(t) => {
            &&& forall|k: int|
                0 <= k < t.entries@.len() ==> rank[(#[trigger] t.entries@[k]).0 as int] <= rp && rank[t.entries@[k].1 as int]
                    <= rp
            &&& (t.metatable matches Some(m) ==> rank[m as int] < rp)
        },
        SerLuaValue::Function(f) => forall|k: int|
            0 <= k < f.upvalues@.len() ==> rank[(#[trigger] f.upvalues@[k]).1 as int] <= rp,
        _ => true,
    }
}

/// `rank` ranks the positions of the block so that no value refers to a
/// position that ranks higher, and a table's metatable ranks lower: no
/// chain of references through a metatable leads back to where it began.
pub open spec fn ranked(l: Seq<SerLuaValue>, rank: Seq<nat>) -> bool {
    &&& rank.len() == l.len()
    &&& forall|p: int| 0 <= p < l.len() ==> rank_fits(#[trigger] l[p], rank, rank[p])
}

/// How many positions have not been followed.
pub open spec fn false_count(s: Seq<bool>) -> nat
    decreases s.len(),
{
    if s.len() == 0 {
        0
    } else {
        false_count(s.drop_last()) + if s.last() {
            0nat
        } else {
            1nat
        }
    }
}

/// Following more positions never adds to those not followed, and
/// following one takes from them.
proof fn lemma_false_count_mono(a: Seq<bool>, b: Seq<bool>, k: int)
    requires
        a.len() == b.len(),
        forall|x: int| 0 <= x < a.len() && #[trigger] a[x] ==> b[x],
    ensures
        false_count(b) <= false_count(a),
        0 <= k < a.len() && !a[k] && b[k] ==> false_count(b) < false_count(a),
    decreases a.len(),
{
    if a.len() > 0 {
        let a1 = a.drop_last();
        let b1 = b.drop_last();
        assert forall|x: int| 0 <= x < a1.len() && #[trigger] a1[x] implies b1[x] by {
            assert(a1[x] == a[x]);
            assert(b1[x] == b[x]);
        }
        if k == a.len() - 1 {
            lemma_false_count_mono(a1, b1, -1);
        } else {
            if 0 <= k < a.len() {
                assert(a1[k] == a[k] && b1[k] == b[k]);
            }
            lemma_false_count_mono(a1, b1, k);
        }
        assert(a.last() ==> b.last()) by {
            assert(a.last() == a[a.len() - 1]);
        }
    }
}

/// A history of `n` positions, none followed.
fn fresh_vec(n: usize) -> (h: Vec<bool>)
    ensures
        h@ == fresh_history(n as nat),
{
    let mut h: Vec<bool> = Vec::new();
    let mut k: usize = 0;
    while k < n
        invariant
            k <= n,
            h@.len() == k,
            forall|x: int| 0 <= x < k ==> !(#[trigger] h@[x]),
        decreases n - k,
    {
        h.push(false);
        k = k + 1;
    }
    proof {
        assert(h@ =~= fresh_history(n as nat));
    }
    h
}

/// The place of a value's type.
fn kind_place(v: &SerLuaValue) -> (r: u64)
    ensures
        r == kind_rank(*v),
{
    match v {
        SerLuaValue::Nil => 0,
        SerLuaValue::Boolean(_) => 1,
        SerLuaValue::Integer(_) => 2,
        SerLuaValue::Number(_) => 3,
        SerLuaValue::String(_) => 4,
        SerLuaValue::Table(_) => 5,
        SerLuaValue::Function(_) => 6,
        SerLuaValue::UserData(_) => 7,
    }
}

/// The order of two values of the same type that hold no positions.
fn order_scalars(a: &SerLuaValue, b: &SerLuaValue) -> (o: ValueOrder)
    requires
        kind_rank(*a) == kind_rank(*b),
        !(*a is Table),
        !(*a is Function),
    ensures
        o == scalar_order(*a, *b),
{
    match a {
        SerLuaValue::Boolean(x) => match b {
            SerLuaValue::Boolean(y) => order_bools(*x, *y),
            _ => ValueOrder::Equal,
        },
        SerLuaValue::Integer(x) => match b {
            SerLuaValue::Integer(y) => order_ints(*x, *y),
            _ => ValueOrder::Equal,
        },
        SerLuaValue::Number(x) => match b {
            SerLuaValue::Number(y) => order_numbers(*x, *y),
            _ => ValueOrder::Equal,
        },
        SerLuaValue::String(x) => match b {
            SerLuaValue::String(y) => order_texts(x.as_str(), y.as_str()),
            _ => ValueOrder::Equal,
        },
        SerLuaValue::UserData(x) => match b {
            SerLuaValue::UserData(y) => order_userdata(*x, *y),
            _ => ValueOrder::Equal,
        },
        _ => ValueOrder::Equal,
    }
}


/// The upvalues of a ranked function rank no higher than it.
proof fn lemma_upvalue_rank(f: SerLuaFunction, rank: Seq<nat>, rp: nat, k: int)
    requires
        rank_fits(SerLuaValue::Function(f), rank, rp),
        0 <= k < f.upvalues@.len(),
    ensures
        rank[f.upvalues@[k].1 as int] <= rp,
{
    assert(SerLuaValue::Function(f)->Function_0 == f);
}

/// The upvalue at `k` of the function's sorted upvalues is one of its
/// upvalues, so it lies in the block and ranks no higher.
proof fn lemma_sorted_upvalue(l: Seq<SerLuaValue>, rank: Seq<nat>, i: int, f: SerLuaFunction, k: int)
    requires
        block_wf(l),
        ranked(l, rank),
        0 <= i < l.len(),
        l[i] == SerLuaValue::Function(f),
        0 <= k < f.upvalues@.len(),
    ensures
        sort_by_name(name_index_view(f.upvalues@)).len() == f.upvalues@.len(),
        (sort_by_name(name_index_view(f.upvalues@))[k].1 as int) < l.len(),
        rank[sort_by_name(name_index_view(f.upvalues@))[k].1 as int] <= rank[i],
{
    let s = name_index_view(f.upvalues@);
    lemma_sort_by_name_items(s);
    assert(s.contains(sort_by_name(s)[k]));
    let m = choose|m: int| 0 <= m < s.len() && s[m] == sort_by_name(s)[k];
    assert(s[m].1 == f.upvalues@[m].1);
    assert(refs_below(l[i], l.len() as int));
    lemma_upvalue_below(f, l.len() as int, m);
    assert(rank_fits(l[i], rank, rank[i]));
    lemma_upvalue_rank(f, rank, rank[i], m);
}

/// The upvalue at `k` of the function's sorted upvalues lies in the block.
proof fn lemma_sorted_upvalue_in_block(r: Seq<SerLuaValue>, j: int, g: SerLuaFunction, k: int)
    requires
        block_wf(r),
        0 <= j < r.len(),
        r[j] == SerLuaValue::Function(g),
        0 <= k < g.upvalues@.len(),
    ensures
        sort_by_name(name_index_view(g.upvalues@)).len() == g.upvalues@.len(),
        (sort_by_name(name_index_view(g.upvalues@))[k].1 as int) < r.len(),
{
    let s = name_index_view(g.upvalues@);
    lemma_sort_by_name_items(s);
    assert(s.contains(sort_by_name(s)[k]));
    let m = choose|m: int| 0 <= m < s.len() && s[m] == sort_by_name(s)[k];
    assert(s[m].1 == g.upvalues@[m].1);
    assert(refs_below(r[j], r.len() as int));
    lemma_upvalue_below(g, r.len() as int, m);
}

/// Compares the value at position `i` of `l` with the value at position
/// `j` of `r`, following positions of `l` not yet in the history `h`.
fn order_positions(
    l: &Vec<SerLuaValue>,
    i: usize,
    r: &Vec<SerLuaValue>,
    j: usize,
    h: &mut Vec<bool>,
    Ghost(rank): Ghost<Seq<nat>>,
) -> (o: ValueOrder)
    requires
        block_wf(l@),
        block_wf(r@),
        (i as int) < l@.len(),
        (j as int) < r@.len(),
        old(h)@.len() == l@.len(),
        ranked(l@, rank),
    ensures
        final(h)@.len() == old(h)@.len(),
        forall|x: int| 0 <= x < old(h)@.len() && #[trigger] old(h)@[x] ==> final(h)@[x],
        exists|f: nat| #[trigger] order_at(f, l@, i as int, r@, j as int, old(h)@) == Some((o, final(h)@)),
    decreases rank[i as int], false_count(old(h)@), 1int,
{
    let ka = kind_place(&l[i]);
    let kb = kind_place(&r[j]);
    if ka != kb {
        let o = order_usizes_u64(ka, kb);
        proof {
            assert(order_at(1, l@, i as int, r@, j as int, h@) == Some((o, h@)));
        }
        return o;
    }
    match &l[i] {
        SerLuaValue::Table(_) => order_tables(l, i, r, j, h, Ghost(rank)),
        SerLuaValue::Function(_) => order_functions(l, i, r, j, h, Ghost(rank)),
        _ => {
            let o = order_scalars(&l[i], &r[j]);
            proof {
                assert(order_at(1, l@, i as int, r@, j as int, h@) == Some((o, h@)));
            }
            o
        },
    }
}

/// Compares the table at position `i` of `l` with the table at position
/// `j` of `r`.
fn order_tables(
    l: &Vec<SerLuaValue>,
    i: usize,
    r: &Vec<SerLuaValue>,
    j: usize,
    h: &mut Vec<bool>,
    Ghost(rank): Ghost<Seq<nat>>,
) -> (o: ValueOrder)
    requires
        block_wf(l@),
        block_wf(r@),
        (i as int) < l@.len(),
        (j as int) < r@.len(),
        old(h)@.len() == l@.len(),
        ranked(l@, rank),
        l@[i as int] is Table,
        r@[j as int] is Table,
    ensures
        final(h)@.len() == old(h)@.len(),
        forall|x: int| 0 <= x < old(h)@.len() && #[trigger] old(h)@[x] ==> final(h)@[x],
        exists|f: nat| #[trigger] order_at(f, l@, i as int, r@, j as int, old(h)@) == Some((o, final(h)@)),
    decreases rank[i as int], false_count(old(h)@), 0int,
{
    let t: &SerLuaTable = match &l[i] {
        SerLuaValue::Table(t) => t,
        _ => {
            return ValueOrder::Equal;
        },
    };
    let u: &SerLuaTable = match &r[j] {
        SerLuaValue::Table(u) => u,
        _ => {
            return ValueOrder::Equal;
        },
    };
    let ghost h0 = h@;
    proof {
        assert(refs_below(l@[i as int], l@.len() as int));
        assert(refs_below(r@[j as int], r@.len() as int));
        assert(rank_fits(l@[i as int], rank, rank[i as int]));
    }
    if h[i] {
        proof {
            assert(order_at(1, l@, i as int, r@, j as int, h0) == Some((ValueOrder::Equal, h0)));
        }
        return ValueOrder::Equal;
    }
    h.set(i, true);
    let ghost h1 = h@;
    proof {
        assert(h1 == h0.update(i as int, true));
        lemma_false_count_mono(h0, h1, i as int);
    }
    let ghost mut fm: nat = 0;
    match t.metatable {
        Some(ma) => match u.metatable {
            Some(mb) => {
                let mut fresh = fresh_vec(l.len());
                let mo = order_positions(l, ma, r, mb, &mut fresh, Ghost(rank));
                proof {
                    fm = choose|f: nat| #[trigger]
                        order_at(f, l@, ma as int, r@, mb as int, fresh_history(l@.len())) == Some((mo, fresh@));
                }
                if mo != ValueOrder::Equal {
                    proof {
                        assert(order_at(fm + 1, l@, i as int, r@, j as int, h0) == Some((mo, h1)));
                    }
                    return mo;
                }
            },
            None => {
                proof {
                    assert(order_at(1, l@, i as int, r@, j as int, h0) == Some((ValueOrder::Greater, h1)));
                }
                return ValueOrder::Greater;
            },
        },
        None => {
            if u.metatable.is_some() {
                proof {
                    assert(order_at(1, l@, i as int, r@, j as int, h0) == Some((ValueOrder::Less, h1)));
                }
                return ValueOrder::Less;
            }
        },
    }
    proof {
        assert forall|w: nat| w >= fm + 1 implies #[trigger] order_at(w, l@, i as int, r@, j as int, h0)
            == (if t.entries@.len() != u.entries@.len() {
            Some((int_order(t.entries@.len() as int, u.entries@.len() as int), h1))
        } else {
            order_entries((w - 1) as nat, l@, i as int, r@, j as int, 0, h1)
        }) by {
            if let Some(ma) = t.metatable {
                if let Some(mb) = u.metatable {
                    lemma_order_at_mono(fm, (w - 1) as nat, l@, ma as int, r@, mb as int, fresh_history(l@.len()));
                }
            }
        }
    }
    if t.entries.len() != u.entries.len() {
        let o = order_lens(t.entries.len(), u.entries.len());
        proof {
            assert(order_at(fm + 1, l@, i as int, r@, j as int, h0) == Some((o, h@)));
        }
        return o;
    }
    let ghost mut big: nat = fm;
    let mut k: usize = 0;
    while k < t.entries.len()
        invariant
            block_wf(l@),
            block_wf(r@),
            ranked(l@, rank),
            (i as int) < l@.len(),
            (j as int) < r@.len(),
            l@[i as int] == SerLuaValue::Table(*t),
            r@[j as int] == SerLuaValue::Table(*u),
            refs_below(l@[i as int], l@.len() as int),
            refs_below(r@[j as int], r@.len() as int),
            rank_fits(l@[i as int], rank, rank[i as int]),
            t.entries@.len() == u.entries@.len(),
            k <= t.entries@.len(),
            h@.len() == l@.len(),
            h0 == old(h)@,
            h0.len() == l@.len(),
            h1.len() == h0.len(),
            forall|x: int| 0 <= x < h0.len() && #[trigger] h0[x] ==> h1[x],
            forall|x: int| 0 <= x < h1.len() && #[trigger] h1[x] ==> h@[x],
            false_count(h@) < false_count(h0),
            forall|w: nat|
                w >= fm + 1 ==> #[trigger] order_at(w, l@, i as int, r@, j as int, h0) == order_entries(
                    (w - 1) as nat,
                    l@,
                    i as int,
                    r@,
                    j as int,
                    0,
                    h1,
                ),
            big >= fm,
            forall|f: nat|
                f >= big ==> #[trigger] order_entries(f, l@, i as int, r@, j as int, 0, h1) == order_entries(
                    f,
                    l@,
                    i as int,
                    r@,
                    j as int,
                    k as int,
                    h@,
                ),
        decreases t.entries@.len() - k,
    {
        let (ka, va) = t.entries[k];
        let (kb, vb) = u.entries[k];
        proof {
            assert(t.entries@[k as int].0 < l@.len() && t.entries@[k as int].1 < l@.len());
            assert(u.entries@[k as int].0 < r@.len() && u.entries@[k as int].1 < r@.len());
            assert(rank[ka as int] <= rank[i as int] && rank[va as int] <= rank[i as int]);
        }
        let ghost hb = h@;
        let ok = order_positions(l, ka, r, kb, h, Ghost(rank));
        let ghost hk = h@;
        let ghost fk = choose|f: nat| #[trigger] order_at(f, l@, ka as int, r@, kb as int, hb) == Some((ok, hk));
        proof {
            assert forall|x: int| 0 <= x < h1.len() && #[trigger] h1[x] implies hk[x] by {
                assert(hb[x]);
            }
            assert forall|x: int| 0 <= x < h0.len() && #[trigger] h0[x] implies hk[x] by {
                assert(h1[x]);
            }
        }
        if ok != ValueOrder::Equal {
            proof {
                let w: nat = (if big > fk { big } else { fk }) + 2;
                lemma_order_at_mono(fk, (w - 2) as nat, l@, ka as int, r@, kb as int, hb);
                assert(order_entries((w - 1) as nat, l@, i as int, r@, j as int, k as int, hb) == Some((ok, hk)));
                assert(order_at(w, l@, i as int, r@, j as int, h0) == Some((ok, hk)));
            }
            return ok;
        }
        proof {
            lemma_false_count_mono(hb, hk, -1);
        }
        let ov = order_positions(l, va, r, vb, h, Ghost(rank));
        let ghost hv = h@;
        let ghost fv = choose|f: nat| #[trigger] order_at(f, l@, va as int, r@, vb as int, hk) == Some((ov, hv));
        proof {
            lemma_false_count_mono(hk, hv, -1);
            assert forall|x: int| 0 <= x < h1.len() && #[trigger] h1[x] implies hv[x] by {
                assert(hk[x]);
            }
            assert forall|x: int| 0 <= x < h0.len() && #[trigger] h0[x] implies hv[x] by {
                assert(h1[x]);
            }
        }
        if ov != ValueOrder::Equal {
            proof {
                let m1: nat = if big > fk { big } else { fk };
                let w: nat = (if m1 > fv { m1 } else { fv }) + 2;
                lemma_order_at_mono(fk, (w - 2) as nat, l@, ka as int, r@, kb as int, hb);
                lemma_order_at_mono(fv, (w - 2) as nat, l@, va as int, r@, vb as int, hk);
                assert(order_entries((w - 1) as nat, l@, i as int, r@, j as int, k as int, hb) == Some((ov, hv)));
                assert(order_at(w, l@, i as int, r@, j as int, h0) == Some((ov, hv)));
            }
            return ov;
        }
        proof {
            let m1: nat = if big > fk { big } else { fk };
            let nb: nat = (if m1 > fv { m1 } else { fv }) + 1;
            assert forall|f: nat| f >= nb implies #[trigger] order_entries(f, l@, i as int, r@, j as int, 0, h1)
                == order_entries(f, l@, i as int, r@, j as int, k + 1, hv) by {
                lemma_order_at_mono(fk, (f - 1) as nat, l@, ka as int, r@, kb as int, hb);
                lemma_order_at_mono(fv, (f - 1) as nat, l@, va as int, r@, vb as int, hk);
                assert(order_entries(f, l@, i as int, r@, j as int, k as int, hb) == order_entries(
                    f,
                    l@,
                    i as int,
                    r@,
                    j as int,
                    k + 1,
                    hv,
                ));
            }
            big = nb;
        }
        k = k + 1;
    }
    proof {
        let w: nat = big + 2;
        assert(order_entries((w - 1) as nat, l@, i as int, r@, j as int, k as int, h@) == Some(
            (ValueOrder::Equal, h@),
        ));
        assert(order_at(w, l@, i as int, r@, j as int, h0) == Some((ValueOrder::Equal, h@)));
    }
    ValueOrder::Equal
}


/// Compares the function at position `i` of `l` with the function at
/// position `j` of `r`.
fn order_functions(
    l: &Vec<SerLuaValue>,
    i: usize,
    r: &Vec<SerLuaValue>,
    j: usize,
    h: &mut Vec<bool>,
    Ghost(rank): Ghost<Seq<nat>>,
) -> (o: ValueOrder)
    requires
        block_wf(l@),
        block_wf(r@),
        (i as int) < l@.len(),
        (j as int) < r@.len(),
        old(h)@.len() == l@.len(),
        ranked(l@, rank),
        l@[i as int] is Function,
        r@[j as int] is Function,
    ensures
        final(h)@.len() == old(h)@.len(),
        forall|x: int| 0 <= x < old(h)@.len() && #[trigger] old(h)@[x] ==> final(h)@[x],
        exists|f: nat| #[trigger] order_at(f, l@, i as int, r@, j as int, old(h)@) == Some((o, final(h)@)),
    decreases rank[i as int], false_count(old(h)@), 0int,
{
    let f: &SerLuaFunction = match &l[i] {
        SerLuaValue::Function(f) => f,
        _ => {
            return ValueOrder::Equal;
        },
    };
    let g: &SerLuaFunction = match &r[j] {
        SerLuaValue::Function(g) => g,
        _ => {
            return ValueOrder::Equal;
        },
    };
    let ghost h0 = h@;
    if h[i] {
        proof {
            assert(order_at(1, l@, i as int, r@, j as int, h0) == Some((ValueOrder::Equal, h0)));
        }
        return ValueOrder::Equal;
    }
    h.set(i, true);
    let ghost h1 = h@;
    proof {
        assert(h1 == h0.update(i as int, true));
        lemma_false_count_mono(h0, h1, i as int);
    }
    let so = order_bytes(&f.source, &g.source);
    if so != ValueOrder::Equal {
        proof {
            assert(order_at(1, l@, i as int, r@, j as int, h0) == Some((so, h1)));
        }
        return so;
    }
    let lu = sort_by_names(&f.upvalues);
    let ru = sort_by_names(&g.upvalues);
    let ghost ls = sort_by_name(name_index_view(f.upvalues@));
    let ghost rs = sort_by_name(name_index_view(g.upvalues@));
    proof {
        assert(name_index_view(lu@).len() == lu@.len());
        assert(name_index_view(ru@).len() == ru@.len());
    }
    if lu.len() != ru.len() {
        let o = order_lens(lu.len(), ru.len());
        proof {
            assert(order_at(1, l@, i as int, r@, j as int, h0) == Some((o, h1)));
        }
        return o;
    }
    proof {
        assert forall|w: nat| w >= 1 implies #[trigger] order_at(w, l@, i as int, r@, j as int, h0)
            == order_upvalues((w - 1) as nat, l@, i as int, r@, j as int, 0, h1) by {}
        lemma_sort_by_name_items(name_index_view(f.upvalues@));
        lemma_sort_by_name_items(name_index_view(g.upvalues@));
        assert forall|q: int| 0 <= q < lu@.len() implies (ls[q].1 as int) < l@.len() && rank[#[trigger] ls[q].1 as int]
            <= rank[i as int] by {
            lemma_sorted_upvalue(l@, rank, i as int, *f, q);
        }
        assert forall|q: int| 0 <= q < ru@.len() implies (#[trigger] rs[q].1 as int) < r@.len() by {
            lemma_sorted_upvalue_in_block(r@, j as int, *g, q);
        }
    }
    let ghost mut big: nat = 0;
    let mut k: usize = 0;
    while k < lu.len()
        invariant
            block_wf(l@),
            block_wf(r@),
            ranked(l@, rank),
            (i as int) < l@.len(),
            (j as int) < r@.len(),
            l@[i as int] == SerLuaValue::Function(*f),
            r@[j as int] == SerLuaValue::Function(*g),
            ls == sort_by_name(name_index_view(f.upvalues@)),
            rs == sort_by_name(name_index_view(g.upvalues@)),
            name_index_view(lu@) == ls,
            name_index_view(ru@) == rs,
            lu@.len() == ru@.len(),
            ls.len() == f.upvalues@.len(),
            k <= lu@.len(),
            h@.len() == l@.len(),
            h0 == old(h)@,
            h0.len() == l@.len(),
            h1.len() == h0.len(),
            forall|x: int| 0 <= x < h0.len() && #[trigger] h0[x] ==> h1[x],
            forall|x: int| 0 <= x < h1.len() && #[trigger] h1[x] ==> h@[x],
            false_count(h@) < false_count(h0),
            forall|w: nat|
                w >= 1 ==> #[trigger] order_at(w, l@, i as int, r@, j as int, h0) == order_upvalues(
                    (w - 1) as nat,
                    l@,
                    i as int,
                    r@,
                    j as int,
                    0,
                    h1,
                ),
            forall|q: int|
                0 <= q < lu@.len() ==> (ls[q].1 as int) < l@.len() && rank[#[trigger] ls[q].1 as int] <= rank[i as int],
            forall|q: int| 0 <= q < ru@.len() ==> (#[trigger] rs[q].1 as int) < r@.len(),
            forall|f2: nat|
                f2 >= big ==> #[trigger] order_upvalues(f2, l@, i as int, r@, j as int, 0, h1) == order_upvalues(
                    f2,
                    l@,
                    i as int,
                    r@,
                    j as int,
                    k as int,
                    h@,
                ),
        decreases lu@.len() - k,
    {
        proof {
            assert(ls[k as int] == (lu@[k as int].0@, lu@[k as int].1));
            assert(rs[k as int] == (ru@[k as int].0@, ru@[k as int].1));
        }
        let no = order_texts(lu[k].0.as_str(), ru[k].0.as_str());
        if no != ValueOrder::Equal {
            proof {
                assert forall|x: int| 0 <= x < h0.len() && #[trigger] h0[x] implies h@[x] by {
                    assert(h1[x]);
                }
                let w: nat = big + 2;
                assert(order_upvalues((w - 1) as nat, l@, i as int, r@, j as int, k as int, h@) == Some((no, h@)));
                assert(order_at(w, l@, i as int, r@, j as int, h0) == Some((no, h@)));
            }
            return no;
        }
        let va = lu[k].1;
        let vb = ru[k].1;
        proof {
            assert((ls[k as int].1 as int) < l@.len());
            assert(rs[k as int].1 < r@.len());
        }
        let ghost hb = h@;
        let ov = order_positions(l, va, r, vb, h, Ghost(rank));
        let ghost hv = h@;
        let ghost fv = choose|f2: nat| #[trigger] order_at(f2, l@, va as int, r@, vb as int, hb) == Some((ov, hv));
        proof {
            lemma_false_count_mono(hb, hv, -1);
            assert forall|x: int| 0 <= x < h1.len() && #[trigger] h1[x] implies hv[x] by {
                assert(hb[x]);
            }
            assert forall|x: int| 0 <= x < h0.len() && #[trigger] h0[x] implies hv[x] by {
                assert(h1[x]);
            }
        }
        if ov != ValueOrder::Equal {
            proof {
                let w: nat = (if big > fv { big } else { fv }) + 2;
                lemma_order_at_mono(fv, (w - 2) as nat, l@, va as int, r@, vb as int, hb);
                assert(order_upvalues((w - 1) as nat, l@, i as int, r@, j as int, k as int, hb) == Some((ov, hv)));
                assert(order_at(w, l@, i as int, r@, j as int, h0) == Some((ov, hv)));
            }
            return ov;
        }
        proof {
            let nb: nat = (if big > fv { big } else { fv }) + 1;
            assert forall|f2: nat| f2 >= nb implies #[trigger] order_upvalues(f2, l@, i as int, r@, j as int, 0, h1)
                == order_upvalues(f2, l@, i as int, r@, j as int, k + 1, hv) by {
                lemma_order_at_mono(fv, (f2 - 1) as nat, l@, va as int, r@, vb as int, hb);
                assert(order_upvalues(f2, l@, i as int, r@, j as int, k as int, hb) == order_upvalues(
                    f2,
                    l@,
                    i as int,
                    r@,
                    j as int,
                    k + 1,
                    hv,
                ));
            }
            big = nb;
        }
        k = k + 1;
    }
    proof {
        let w: nat = big + 2;
        assert(order_upvalues((w - 1) as nat, l@, i as int, r@, j as int, k as int, h@) == Some(
            (ValueOrder::Equal, h@),
        ));
        assert(order_at(w, l@, i as int, r@, j as int, h0) == Some((ValueOrder::Equal, h@)));
    }
    ValueOrder::Equal
}


/// The place of a value's type, for a value seen in its block.
pub open spec fn ref_kind_rank(a: SerLuaValueRef) -> int {
    match a {
        SerLuaValueRef::Nil => 0,
        SerLuaValueRef::Boolean(_) => 1,
        SerLuaValueRef::Integer(_) => 2,
        SerLuaValueRef::Number(_) => 3,
        SerLuaValueRef::String(_) => 4,
        SerLuaValueRef::Table(_) => 5,
        SerLuaValueRef::Function(_) => 6,
        SerLuaValueRef::UserData(_) => 7,
    }
}

/// The block of a table or function seen in it can be ranked.
pub open spec fn ref_ranked(a: SerLuaValueRef) -> bool {
    match a {
        SerLuaValueRef::Table(t) => exists|rank: Seq<nat>| ranked(t.ref_values@, rank),
        SerLuaValueRef::Function(f) => exists|rank: Seq<nat>| ranked(f.ref_values@, rank),
        _ => true,
    }
}

/// The order in an answer of `order_at`, if it gave one.
pub open spec fn order_result(r: Option<(ValueOrder, Seq<bool>)>) -> Option<ValueOrder> {
    match r {
        Some(p) => Some(p.0),
        None => None,
    }
}

/// `a` stands to `b` as `o` says: by type first; two tables or two
/// functions as `order_at` compares them from an empty history, with
/// enough fuel; other values of one type by content.
pub open spec fn ordered_as(a: SerLuaValueRef, b: SerLuaValueRef, o: ValueOrder) -> bool {
    if ref_kind_rank(a) != ref_kind_rank(b) {
        o == int_order(ref_kind_rank(a), ref_kind_rank(b))
    } else {
        match a {
            SerLuaValueRef::Table(t) => exists|f: nat|
                #[trigger] order_result(
                    order_at(
                        f,
                        t.ref_values@,
                        t.index as int,
                        b->Table_0.ref_values@,
                        b->Table_0.index as int,
                        fresh_history(t.ref_values@.len()),
                    ),
                ) == Some(o),
            SerLuaValueRef::Function(g) => exists|f: nat|
                #[trigger] order_result(
                    order_at(
                        f,
                        g.ref_values@,
                        g.index as int,
                        b->Function_0.ref_values@,
                        b->Function_0.index as int,
                        fresh_history(g.ref_values@.len()),
                    ),
                ) == Some(o),
            SerLuaValueRef::Boolean(x) => o == int_order(
                if x {
                    1
                } else {
                    0
                },
                if b->Boolean_0 {
                    1
                } else {
                    0
                },
            ),
            SerLuaValueRef::Integer(x) => o == int_order(x as int, b->Integer_0 as int),
            SerLuaValueRef::Number(x) => o == int_order(number_key(x), number_key(b->Number_0)),
            SerLuaValueRef::String(x) => o == text_order(x@, b->String_0@),
            SerLuaValueRef::UserData(x) => o == int_order(userdata_rank(x), userdata_rank(b->UserData_0)),
            SerLuaValueRef::Nil => o == ValueOrder::Equal,
        }
    }
}

fn ref_kind_place(a: &SerLuaValueRef) -> (r: u64)
    ensures
        r == ref_kind_rank(*a),
{
    match a {
        SerLuaValueRef::Nil => 0,
        SerLuaValueRef::Boolean(_) => 1,
        SerLuaValueRef::Integer(_) => 2,
        SerLuaValueRef::Number(_) => 3,
        SerLuaValueRef::String(_) => 4,
        SerLuaValueRef::Table(_) => 5,
        SerLuaValueRef::Function(_) => 6,
        SerLuaValueRef::UserData(_) => 7,
    }
}

impl<'a> SerLuaValueRef<'a> {
    /// How this value stands to `other` in the order of values.
    pub fn compare(&self, other: &SerLuaValueRef) -> (o: ValueOrder)
        requires
            ref_in_its_block(*self),
            ref_in_its_block(*other),
            ref_ranked(*self),
        ensures
            ordered_as(*self, *other, o),
    {
        let ka = ref_kind_place(self);
        let kb = ref_kind_place(other);
        if ka != kb {
            return order_usizes_u64(ka, kb);
        }
        match self {
            SerLuaValueRef::Table(t) => match other {
                SerLuaValueRef::Table(u) => {
                    let ghost rank = choose|rank: Seq<nat>| ranked(t.ref_values@, rank);
                    let mut h = fresh_vec(t.ref_values.len());
                    let o = order_positions(t.ref_values, t.index, u.ref_values, u.index, &mut h, Ghost(rank));
                    proof {
                        let f = choose|f: nat| #[trigger]
                            order_at(f, t.ref_values@, t.index as int, u.ref_values@, u.index as int, fresh_history(t.ref_values@.len()))
                                == Some((o, h@));
                        assert(order_result(order_at(f, t.ref_values@, t.index as int, u.ref_values@, u.index as int, fresh_history(t.ref_values@.len())))
                                == Some(o));
                    }
                    o
                },
                _ => ValueOrder::Equal,
            },
            SerLuaValueRef::Function(g) => match other {
                SerLuaValueRef::Function(u) => {
                    let ghost rank = choose|rank: Seq<nat>| ranked(g.ref_values@, rank);
                    let mut h = fresh_vec(g.ref_values.len());
                    let o = order_positions(g.ref_values, g.index, u.ref_values, u.index, &mut h, Ghost(rank));
                    proof {
                        let f = choose|f: nat| #[trigger]
                            order_at(f, g.ref_values@, g.index as int, u.ref_values@, u.index as int, fresh_history(g.ref_values@.len()))
                                == Some((o, h@));
                        assert(order_result(order_at(f, g.ref_values@, g.index as int, u.ref_values@, u.index as int, fresh_history(g.ref_values@.len())))
                                == Some(o));
                    }
                    o
                },
                _ => ValueOrder::Equal,
            },
            SerLuaValueRef::Nil => ValueOrder::Equal,
            SerLuaValueRef::Boolean(x) => match other {
                SerLuaValueRef::Boolean(y) => order_bools(*x, *y),
                _ => ValueOrder::Equal,
            },
            SerLuaValueRef::Integer(x) => match other {
                SerLuaValueRef::Integer(y) => order_ints(*x, *y),
                _ => ValueOrder::Equal,
            },
            SerLuaValueRef::Number(x) => match other {
                SerLuaValueRef::Number(y) => order_numbers(*x, *y),
                _ => ValueOrder::Equal,
            },
            SerLuaValueRef::String(x) => match other {
                SerLuaValueRef::String(y) => order_texts(x, y),
                _ => ValueOrder::Equal,
            },
            SerLuaValueRef::UserData(x) => match other {
                SerLuaValueRef::UserData(y) => order_userdata(*x, *y),
                _ => ValueOrder::Equal,
            },
        }
    }
}


/// A byte string stands equal to itself.
proof fn lemma_bytes_order_refl(a: Seq<u8>)
    ensures
        bytes_order(a, a) == ValueOrder::Equal,
    decreases a.len(),
{
    if a.len() > 0 {
        lemma_bytes_order_refl(a.drop_first());
    }
}

/// Compared with itself from history `h`, the value at position `i` is
/// equal, for some fuel; gives the fuel and the history after.
proof fn lemma_refl_at(l: Seq<SerLuaValue>, i: int, h: Seq<bool>, rank: Seq<nat>) -> (res: (nat, Seq<bool>))
    requires
        block_wf(l),
        ranked(l, rank),
        0 <= i < l.len(),
        h.len() == l.len(),
    ensures
        order_at(res.0, l, i, l, i, h) == Some((ValueOrder::Equal, res.1)),
        res.1.len() == h.len(),
        forall|x: int| 0 <= x < h.len() && #[trigger] h[x] ==> res.1[x],
    decreases rank[i], false_count(h), 1int, 0int,
{
    match l[i] {
        SerLuaValue::Table(t) => {
            if h[i] {
                (1, h)
            } else {
                let h1 = h.update(i, true);
                lemma_false_count_mono(h, h1, i);
                assert(refs_below(l[i], l.len() as int));
                assert(rank_fits(l[i], rank, rank[i]));
                let mut fm: nat = 0;
                if let Some(m) = t.metatable {
                    let (f0, _h) = lemma_refl_at(l, m as int, fresh_history(l.len()), rank);
                    fm = f0;
                }
                let (fe, he) = lemma_refl_entries(l, i, 0, h1, rank);
                let f: nat = (if fm > fe { fm } else { fe }) + 1;
                if let Some(m) = t.metatable {
                    lemma_order_at_mono(fm, (f - 1) as nat, l, m as int, l, m as int, fresh_history(l.len()));
                }
                lemma_order_entries_mono(fe, (f - 1) as nat, l, i, l, i, 0, h1);
                assert forall|x: int| 0 <= x < h.len() && #[trigger] h[x] implies he[x] by {
                    assert(h1[x]);
                }
                (f, he)
            }
        },
        SerLuaValue::Function(g) => {
            if h[i] {
                (1, h)
            } else {
                let h1 = h.update(i, true);
                lemma_false_count_mono(h, h1, i);
                lemma_bytes_order_refl(g.source@);
                let (fe, he) = lemma_refl_upvalues(l, i, 0, h1, rank);
                assert forall|x: int| 0 <= x < h.len() && #[trigger] h[x] implies he[x] by {
                    assert(h1[x]);
                }
                (fe + 1, he)
            }
        },
        SerLuaValue::String(x) => {
            lemma_text_less_irreflexive(x@);
            (1, h)
        },
        _ => (1, h),
    }
}

/// Compared with itself from entry `k` on, the table at position `i` is
/// equal.
proof fn lemma_refl_entries(l: Seq<SerLuaValue>, i: int, k: int, h: Seq<bool>, rank: Seq<nat>) -> (res: (
    nat,
    Seq<bool>,
))
    requires
        block_wf(l),
        ranked(l, rank),
        0 <= i < l.len(),
        0 <= k,
        h.len() == l.len(),
        l[i] is Table,
        h[i],
    ensures
        order_entries(res.0, l, i, l, i, k, h) == Some((ValueOrder::Equal, res.1)),
        res.1.len() == h.len(),
        forall|x: int| 0 <= x < h.len() && #[trigger] h[x] ==> res.1[x],
    decreases rank[i], false_count(h), 2int, l[i]->Table_0.entries@.len() - k,
{
    let t = l[i]->Table_0;
    if k >= t.entries@.len() {
        (1, h)
    } else {
        assert(refs_below(l[i], l.len() as int));
        assert(rank_fits(l[i], rank, rank[i]));
        let ka = t.entries@[k].0 as int;
        let va = t.entries@[k].1 as int;
        let (fk, hk) = lemma_refl_at(l, ka, h, rank);
        lemma_false_count_mono(h, hk, -1);
        let (fv, hv) = lemma_refl_at(l, va, hk, rank);
        lemma_false_count_mono(hk, hv, -1);
        assert(hv[i]) by {
            assert(hk[i]);
        }
        let (fr, hr) = lemma_refl_entries(l, i, k + 1, hv, rank);
        let m1: nat = if fk > fv { fk } else { fv };
        let f: nat = (if m1 + 1 > fr { m1 + 1 } else { fr });
        lemma_order_at_mono(fk, (f - 1) as nat, l, ka, l, ka, h);
        lemma_order_at_mono(fv, (f - 1) as nat, l, va, l, va, hk);
        lemma_order_entries_mono(fr, f, l, i, l, i, k + 1, hv);
        assert forall|x: int| 0 <= x < h.len() && #[trigger] h[x] implies hr[x] by {
            assert(hk[x]);
            assert(hv[x]);
        }
        (f, hr)
    }
}

/// Compared with itself from upvalue `k` on, the function at position `i`
/// is equal.
proof fn lemma_refl_upvalues(l: Seq<SerLuaValue>, i: int, k: int, h: Seq<bool>, rank: Seq<nat>) -> (res: (
    nat,
    Seq<bool>,
))
    requires
        block_wf(l),
        ranked(l, rank),
        0 <= i < l.len(),
        0 <= k,
        h.len() == l.len(),
        l[i] is Function,
        h[i],
    ensures
        order_upvalues(res.0, l, i, l, i, k, h) == Some((ValueOrder::Equal, res.1)),
        res.1.len() == h.len(),
        forall|x: int| 0 <= x < h.len() && #[trigger] h[x] ==> res.1[x],
    decreases rank[i], false_count(h), 2int, sort_by_name(name_index_view(l[i]->Function_0.upvalues@)).len() - k,
{
    let g = l[i]->Function_0;
    let lu = sort_by_name(name_index_view(g.upvalues@));
    lemma_sort_by_name_items(name_index_view(g.upvalues@));
    if k >= lu.len() {
        (1, h)
    } else {
        lemma_text_less_irreflexive(lu[k].0);
        lemma_sorted_upvalue(l, rank, i, g, k);
        let va = lu[k].1 as int;
        let (fv, hv) = lemma_refl_at(l, va, h, rank);
        lemma_false_count_mono(h, hv, -1);
        let (fr, hr) = lemma_refl_upvalues(l, i, k + 1, hv, rank);
        let f: nat = (if fv + 1 > fr { fv + 1 } else { fr });
        lemma_order_at_mono(fv, (f - 1) as nat, l, va, l, va, h);
        lemma_order_upvalues_mono(fr, f, l, i, l, i, k + 1, hv);
        assert forall|x: int| 0 <= x < h.len() && #[trigger] h[x] implies hr[x] by {
            assert(hv[x]);
        }
        (f, hr)
    }
}

/// Every value stands equal to itself: compared with itself, a value of a
/// block whose metatables lead back nowhere is equal, from any history.
pub proof fn law_value_equals_itself(l: Seq<SerLuaValue>, i: int, h: Seq<bool>, rank: Seq<nat>)
    requires
        block_wf(l),
        ranked(l, rank),
        0 <= i < l.len(),
        h.len() == l.len(),
    ensures
        exists|f: nat| #[trigger] order_result(order_at(f, l, i, l, i, h)) == Some(ValueOrder::Equal),
{
    let (f, _h) = lemma_refl_at(l, i, h, rank);
    assert(order_result(order_at(f, l, i, l, i, h)) == Some(ValueOrder::Equal));
}


/// Every value seen in its block stands equal to itself.
pub proof fn law_compare_is_reflexive(a: SerLuaValueRef)
    requires
        ref_in_its_block(a),
        ref_ranked(a),
    ensures
        ordered_as(a, a, ValueOrder::Equal),
{
    match a {
        SerLuaValueRef::Table(t) => {
            let rank = choose|rank: Seq<nat>| ranked(t.ref_values@, rank);
            law_value_equals_itself(t.ref_values@, t.index as int, fresh_history(t.ref_values@.len()), rank);
        },
        SerLuaValueRef::Function(g) => {
            let rank = choose|rank: Seq<nat>| ranked(g.ref_values@, rank);
            law_value_equals_itself(g.ref_values@, g.index as int, fresh_history(g.ref_values@.len()), rank);
        },
        SerLuaValueRef::String(x) => {
            lemma_text_less_irreflexive(x@);
        },
        _ => {},
    }
}

/// Two values stand in one order only: the fuel that `ordered_as` speaks
/// of does not change the answer.
pub proof fn law_order_is_determined(a: SerLuaValueRef, b: SerLuaValueRef, o1: ValueOrder, o2: ValueOrder)
    requires
        ordered_as(a, b, o1),
        ordered_as(a, b, o2),
    ensures
        o1 == o2,
{
    if ref_kind_rank(a) == ref_kind_rank(b) {
        match a {
            SerLuaValueRef::Table(t) => {
                let u = b->Table_0;
                let fr = fresh_history(t.ref_values@.len());
                let f1 = choose|f: nat| #[trigger]
                    order_result(order_at(f, t.ref_values@, t.index as int, u.ref_values@, u.index as int, fr)) == Some(o1);
                let f2 = choose|f: nat| #[trigger]
                    order_result(order_at(f, t.ref_values@, t.index as int, u.ref_values@, u.index as int, fr)) == Some(o2);
                if f1 <= f2 {
                    lemma_order_at_mono(f1, f2, t.ref_values@, t.index as int, u.ref_values@, u.index as int, fr);
                } else {
                    lemma_order_at_mono(f2, f1, t.ref_values@, t.index as int, u.ref_values@, u.index as int, fr);
                }
            },
            SerLuaValueRef::Function(g) => {
                let u = b->Function_0;
                let fr = fresh_history(g.ref_values@.len());
                let f1 = choose|f: nat| #[trigger]
                    order_result(order_at(f, g.ref_values@, g.index as int, u.ref_values@, u.index as int, fr)) == Some(o1);
                let f2 = choose|f: nat| #[trigger]
                    order_result(order_at(f, g.ref_values@, g.index as int, u.ref_values@, u.index as int, fr)) == Some(o2);
                if f1 <= f2 {
                    lemma_order_at_mono(f1, f2, g.ref_values@, g.index as int, u.ref_values@, u.index as int, fr);
                } else {
                    lemma_order_at_mono(f2, f1, g.ref_values@, g.index as int, u.ref_values@, u.index as int, fr);
                }
            },
            _ => {},
        }
    }
}


/// Relabelling positions, names kept, commutes with inserting by name.
proof fn lemma_insert_relabel(
    t: Seq<(Seq<char>, usize)>,
    x: (Seq<char>, usize),
    g: spec_fn((Seq<char>, usize)) -> (Seq<char>, usize),
)
    requires
        forall|e: (Seq<char>, usize)| #[trigger] g(e).0 == e.0,
    ensures
        insert_by_name(t.map_values(g), g(x)) == insert_by_name(t, x).map_values(g),
    decreases t.len(),
{
    let tg = t.map_values(g);
    assert(g(x).0 == x.0);
    if t.len() == 0 {
        assert(insert_by_name(t, x).map_values(g) =~= seq![g(x)]);
    } else {
        assert(tg.last() == g(t.last()));
        assert(g(t.last()).0 == t.last().0);
        if text_less(x.0, t.last().0) {
            lemma_insert_relabel(t.drop_last(), x, g);
            assert(tg.drop_last() =~= t.drop_last().map_values(g));
            assert(insert_by_name(t, x).map_values(g) =~= insert_by_name(t.drop_last(), x).map_values(g).push(
                g(t.last()),
            ));
        } else {
            assert(insert_by_name(t, x).map_values(g) =~= tg.push(g(x)));
        }
    }
}

/// Relabelling positions, names kept, commutes with sorting by name.
proof fn lemma_sort_relabel(s: Seq<(Seq<char>, usize)>, g: spec_fn((Seq<char>, usize)) -> (Seq<char>, usize))
    requires
        forall|e: (Seq<char>, usize)| #[trigger] g(e).0 == e.0,
    ensures
        sort_by_name(s.map_values(g)) == sort_by_name(s).map_values(g),
    decreases s.len(),
{
    if s.len() == 0 {
        assert(sort_by_name(s).map_values(g) =~= Seq::<(Seq<char>, usize)>::empty());
    } else {
        let sg = s.map_values(g);
        lemma_sort_relabel(s.drop_last(), g);
        assert(sg.drop_last() =~= s.drop_last().map_values(g));
        assert(sg.last() == g(s.last()));
        lemma_insert_relabel(sort_by_name(s.drop_last()), s.last(), g);
    }
}

/// A copy of a ranked block is ranked by the ranks of the positions it
/// copies.
proof fn lemma_rank_of_copy(new: Seq<SerLuaValue>, src: Seq<SerLuaValue>, corr: Seq<usize>, rank: Seq<nat>)
    requires
        copies(new, src, corr),
        ranked(src, rank),
    ensures
        ranked(new, Seq::new(new.len(), |q: int| rank[corr[q] as int])),
{
    let rn = Seq::new(new.len(), |q: int| rank[corr[q] as int]);
    assert forall|q: int| 0 <= q < new.len() implies rank_fits(#[trigger] new[q], rn, rn[q]) by {
        let p = corr[q] as int;
        assert(copy_of(new[q], src[p], corr));
        assert(rank_fits(src[p], rank, rank[p]));
        assert(refs_below(new[q], new.len() as int));
        match new[q] {
            SerLuaValue::Table(a) => {
                let b = src[p]->Table_0;
                assert forall|k: int| 0 <= k < a.entries@.len() implies rn[(#[trigger] a.entries@[k]).0 as int]
                    <= rn[q] && rn[a.entries@[k].1 as int] <= rn[q] by {
                    assert(corr[a.entries@[k].0 as int] == b.entries@[k].0);
                    assert(corr[a.entries@[k].1 as int] == b.entries@[k].1);
                    assert(rank[b.entries@[k].0 as int] <= rank[p]);
                }
            },
            SerLuaValue::Function(a) => {
                let b = src[p]->Function_0;
                assert forall|k: int| 0 <= k < a.upvalues@.len() implies rn[(#[trigger] a.upvalues@[k]).1 as int]
                    <= rn[q] by {
                    lemma_upvalue_below(a, new.len() as int, k);
                    assert(corr[a.upvalues@[k].1 as int] == b.upvalues@[k].1);
                    lemma_upvalue_rank(b, rank, rank[p], k);
                }
            },
            _ => {},
        }
    }
}

/// The value at position `q` of a copy compares equal to the value it
/// copies, from any history of the copy; gives the fuel and the history
/// after.
proof fn lemma_copy_equal_at(
    new: Seq<SerLuaValue>,
    src: Seq<SerLuaValue>,
    corr: Seq<usize>,
    rank: Seq<nat>,
    q: int,
    h: Seq<bool>,
) -> (res: (nat, Seq<bool>))
    requires
        copies(new, src, corr),
        ranked(new, rank),
        0 <= q < new.len(),
        h.len() == new.len(),
    ensures
        order_at(res.0, new, q, src, corr[q] as int, h) == Some((ValueOrder::Equal, res.1)),
        res.1.len() == h.len(),
        forall|x: int| 0 <= x < h.len() && #[trigger] h[x] ==> res.1[x],
    decreases rank[q], false_count(h), 1int, 0int,
{
    let p = corr[q] as int;
    assert(copy_of(new[q], src[p], corr));
    assert(block_wf(new));
    match new[q] {
        SerLuaValue::Table(a) => {
            if h[q] {
                (1, h)
            } else {
                let b = src[p]->Table_0;
                let h1 = h.update(q, true);
                lemma_false_count_mono(h, h1, q);
                assert(refs_below(new[q], new.len() as int));
                assert(rank_fits(new[q], rank, rank[q]));
                let mut fm: nat = 0;
                if let Some(m) = a.metatable {
                    let (f0, _h) = lemma_copy_equal_at(new, src, corr, rank, m as int, fresh_history(new.len()), );
                    fm = f0;
                }
                let (fe, he) = lemma_copy_equal_entries(new, src, corr, rank, q, 0, h1);
                let f: nat = (if fm > fe { fm } else { fe }) + 1;
                if let Some(m) = a.metatable {
                    lemma_order_at_mono(
                        fm,
                        (f - 1) as nat,
                        new,
                        m as int,
                        src,
                        corr[m as int] as int,
                        fresh_history(new.len()),
                    );
                }
                lemma_order_entries_mono(fe, (f - 1) as nat, new, q, src, p, 0, h1);
                assert forall|x: int| 0 <= x < h.len() && #[trigger] h[x] implies he[x] by {
                    assert(h1[x]);
                }
                (f, he)
            }
        },
        SerLuaValue::Function(a) => {
            if h[q] {
                (1, h)
            } else {
                let h1 = h.update(q, true);
                lemma_false_count_mono(h, h1, q);
                let b = src[p]->Function_0;
                lemma_bytes_order_refl(a.source@);
                let g = |e: (Seq<char>, usize)| (e.0, corr[e.1 as int]);
                assert(name_index_view(b.upvalues@) =~= name_index_view(a.upvalues@).map_values(g));
                lemma_sort_relabel(name_index_view(a.upvalues@), g);
                lemma_sort_by_name_items(name_index_view(a.upvalues@));
                let (fe, he) = lemma_copy_equal_upvalues(new, src, corr, rank, q, 0, h1);
                assert forall|x: int| 0 <= x < h.len() && #[trigger] h[x] implies he[x] by {
                    assert(h1[x]);
                }
                (fe + 1, he)
            }
        },
        SerLuaValue::String(x) => {
            lemma_text_less_irreflexive(x@);
            (1, h)
        },
        _ => (1, h),
    }
}

/// The entries of the table at position `q` of a copy, from entry `k` on,
/// compare equal to those of the table it copies.
proof fn lemma_copy_equal_entries(
    new: Seq<SerLuaValue>,
    src: Seq<SerLuaValue>,
    corr: Seq<usize>,
    rank: Seq<nat>,
    q: int,
    k: int,
    h: Seq<bool>,
) -> (res: (nat, Seq<bool>))
    requires
        copies(new, src, corr),
        ranked(new, rank),
        0 <= q < new.len(),
        0 <= k,
        h.len() == new.len(),
        new[q] is Table,
        h[q],
    ensures
        order_entries(res.0, new, q, src, corr[q] as int, k, h) == Some((ValueOrder::Equal, res.1)),
        res.1.len() == h.len(),
        forall|x: int| 0 <= x < h.len() && #[trigger] h[x] ==> res.1[x],
    decreases rank[q], false_count(h), 2int, new[q]->Table_0.entries@.len() - k,
{
    let p = corr[q] as int;
    assert(copy_of(new[q], src[p], corr));
    let a = new[q]->Table_0;
    let b = src[p]->Table_0;
    if k >= a.entries@.len() {
        (1, h)
    } else {
        assert(block_wf(new));
        assert(refs_below(new[q], new.len() as int));
        assert(rank_fits(new[q], rank, rank[q]));
        let ka = a.entries@[k].0 as int;
        let va = a.entries@[k].1 as int;
        assert(corr[ka] == b.entries@[k].0 && corr[va] == b.entries@[k].1);
        let (fk, hk) = lemma_copy_equal_at(new, src, corr, rank, ka, h);
        lemma_false_count_mono(h, hk, -1);
        let (fv, hv) = lemma_copy_equal_at(new, src, corr, rank, va, hk);
        lemma_false_count_mono(hk, hv, -1);
        assert(hv[q]) by {
            assert(hk[q]);
        }
        let (fr, hr) = lemma_copy_equal_entries(new, src, corr, rank, q, k + 1, hv);
        let m1: nat = if fk > fv { fk } else { fv };
        let f: nat = (if m1 + 1 > fr { m1 + 1 } else { fr });
        lemma_order_at_mono(fk, (f - 1) as nat, new, ka, src, corr[ka] as int, h);
        lemma_order_at_mono(fv, (f - 1) as nat, new, va, src, corr[va] as int, hk);
        lemma_order_entries_mono(fr, f, new, q, src, p, k + 1, hv);
        assert forall|x: int| 0 <= x < h.len() && #[trigger] h[x] implies hr[x] by {
            assert(hk[x]);
            assert(hv[x]);
        }
        (f, hr)
    }
}

/// The upvalues of the function at position `q` of a copy, sorted by name,
/// from upvalue `k` on, compare equal to those of the function it copies.
proof fn lemma_copy_equal_upvalues(
    new: Seq<SerLuaValue>,
    src: Seq<SerLuaValue>,
    corr: Seq<usize>,
    rank: Seq<nat>,
    q: int,
    k: int,
    h: Seq<bool>,
) -> (res: (nat, Seq<bool>))
    requires
        copies(new, src, corr),
        ranked(new, rank),
        0 <= q < new.len(),
        0 <= k,
        h.len() == new.len(),
        new[q] is Function,
        h[q],
    ensures
        order_upvalues(res.0, new, q, src, corr[q] as int, k, h) == Some((ValueOrder::Equal, res.1)),
        res.1.len() == h.len(),
        forall|x: int| 0 <= x < h.len() && #[trigger] h[x] ==> res.1[x],
    decreases rank[q], false_count(h), 2int, sort_by_name(name_index_view(new[q]->Function_0.upvalues@)).len() - k,
{
    let p = corr[q] as int;
    assert(copy_of(new[q], src[p], corr));
    let a = new[q]->Function_0;
    let b = src[p]->Function_0;
    let lu = sort_by_name(name_index_view(a.upvalues@));
    let g = |e: (Seq<char>, usize)| (e.0, corr[e.1 as int]);
    assert(name_index_view(b.upvalues@) =~= name_index_view(a.upvalues@).map_values(g));
    lemma_sort_relabel(name_index_view(a.upvalues@), g);
    lemma_sort_by_name_items(name_index_view(a.upvalues@));
    let ru = sort_by_name(name_index_view(b.upvalues@));
    assert(ru == lu.map_values(g));
    if k >= lu.len() {
        (1, h)
    } else {
        assert(ru[k] == g(lu[k]));
        lemma_text_less_irreflexive(lu[k].0);
        lemma_sorted_upvalue(new, rank, q, a, k);
        let va = lu[k].1 as int;
        let (fv, hv) = lemma_copy_equal_at(new, src, corr, rank, va, h);
        lemma_false_count_mono(h, hv, -1);
        let (fr, hr) = lemma_copy_equal_upvalues(new, src, corr, rank, q, k + 1, hv);
        let f: nat = (if fv + 1 > fr { fv + 1 } else { fr });
        lemma_order_at_mono(fv, (f - 1) as nat, new, va, src, corr[va] as int, h);
        lemma_order_upvalues_mono(fr, f, new, q, src, p, k + 1, hv);
        assert forall|x: int| 0 <= x < h.len() && #[trigger] h[x] implies hr[x] by {
            assert(hv[x]);
        }
        (f, hr)
    }
}

/// A block laid out anew from another keeps its value: the value of a
/// copy compares equal to the value it copies, when the metatables of the
/// source lead back nowhere.
pub proof fn law_copy_keeps_the_value(
    new: Seq<SerLuaValue>,
    src: Seq<SerLuaValue>,
    corr: Seq<usize>,
    rank: Seq<nat>,
    q: int,
)
    requires
        copies(new, src, corr),
        ranked(src, rank),
        0 <= q < new.len(),
    ensures
        exists|f: nat|
            #[trigger] order_result(order_at(f, new, q, src, corr[q] as int, fresh_history(new.len())))
                == Some(ValueOrder::Equal),
{
    lemma_rank_of_copy(new, src, corr, rank);
    let rn = Seq::new(new.len(), |x: int| rank[corr[x] as int]);
    let (f, _h) = lemma_copy_equal_at(new, src, corr, rn, q, fresh_history(new.len()));
    assert(order_result(order_at(f, new, q, src, corr[q] as int, fresh_history(new.len()))) == Some(
        ValueOrder::Equal,
    ));
}

} // verus!
