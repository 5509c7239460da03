//! Small helpers on text.
use vstd::prelude::*;

verus! {

/// Whether two strings hold the same characters.
pub fn str_eq(a: &str, b: &str) -> (r: bool)
    ensures
        r == (a@ == b@),
{
    let n = a.unicode_len();
    let m = b.unicode_len();
    if n != m {
        return false;
    }
    let mut i: usize = 0;
    while i < n
        invariant
            n == a@.len(),
            m == b@.len(),
            n == m,
            i <= n,
            a@.take(i as int) == b@.take(i as int),
        decreases n - i,
    {
        if a.get_char(i) != b.get_char(i) {
            return false;
        }
        proof {
            assert(a@.take(i as int + 1) =~= a@.take(i as int).push(a@[i as int]));
            assert(b@.take(i as int + 1) =~= b@.take(i as int).push(b@[i as int]));
        }
        i = i + 1;
    }
    proof {
        assert(a@.take(n as int) =~= a@);
        assert(b@.take(n as int) =~= b@);
    }
    true
}


/// Text order as `String` orders: character by character, by code point,
/// a proper prefix first.
pub open spec fn text_less(a: Seq<char>, b: Seq<char>) -> bool
    decreases a.len(),
{
    if a.len() == 0 {
        b.len() > 0
    } else if b.len() == 0 {
        false
    } else if a[0] != b[0] {
        (a[0] as int) < (b[0] as int)
    } else {
        text_less(a.drop_first(), b.drop_first())
    }
}

pub proof fn lemma_text_less_irreflexive(a: Seq<char>)
    ensures
        !text_less(a, a),
    decreases a.len(),
{
    if a.len() > 0 {
        lemma_text_less_irreflexive(a.drop_first());
    }
}

pub proof fn lemma_text_less_total(a: Seq<char>, b: Seq<char>)
    requires
        a != b,
    ensures
        text_less(a, b) || text_less(b, a),
    decreases a.len(),
{
    if a.len() > 0 && b.len() > 0 && a[0] == b[0] {
        if a.drop_first() == b.drop_first() {
            assert(a =~= seq![a[0]] + a.drop_first());
            assert(b =~= seq![b[0]] + b.drop_first());
        }
        lemma_text_less_total(a.drop_first(), b.drop_first());
    } else if a.len() == 0 && b.len() == 0 {
        assert(a =~= b);
    } else if a.len() > 0 && b.len() > 0 {
        assert((a[0] as int) != (b[0] as int));
    }
}

pub proof fn lemma_text_less_transitive(a: Seq<char>, b: Seq<char>, c: Seq<char>)
    requires
        text_less(a, b),
        text_less(b, c),
    ensures
        text_less(a, c),
    decreases a.len(),
{
    if a.len() > 0 && b.len() > 0 && c.len() > 0 && a[0] == b[0] && b[0] == c[0] {
        lemma_text_less_transitive(a.drop_first(), b.drop_first(), c.drop_first());
    }
}

/// Whether `a` comes before `b` in text order.
pub fn str_less(a: &str, b: &str) -> (r: bool)
    ensures
        r == text_less(a@, b@),
{
    let n = a.unicode_len();
    let m = b.unicode_len();
    let mut i: usize = 0;
    proof {
        assert(a@.skip(0) =~= a@);
        assert(b@.skip(0) =~= b@);
    }
    while i < n && i < m
        invariant
            n == a@.len(),
            m == b@.len(),
            i <= n,
            i <= m,
            a@.take(i as int) == b@.take(i as int),
            text_less(a@, b@) == text_less(a@.skip(i as int), b@.skip(i as int)),
        decreases n - i,
    {
        let c = a.get_char(i);
        let d = b.get_char(i);
        proof {
            assert(a@.skip(i as int)[0] == c);
            assert(b@.skip(i as int)[0] == d);
        }
        if c != d {
            return (c as u32) < (d as u32);
        }
        proof {
            assert(a@.skip(i as int).drop_first() =~= a@.skip(i as int + 1));
            assert(b@.skip(i as int).drop_first() =~= b@.skip(i as int + 1));
            assert(a@.take(i as int + 1) =~= a@.take(i as int).push(c));
            assert(b@.take(i as int + 1) =~= b@.take(i as int).push(d));
        }
        i = i + 1;
    }
    proof {
        assert(a@.skip(i as int).len() == n - i);
        assert(b@.skip(i as int).len() == m - i);
    }
    i < m && i == n
}

/// The texts are in strictly increasing text order.
pub open spec fn strictly_sorted(s: Seq<Seq<char>>) -> bool {
    forall|i: int, j: int| 0 <= i < j < s.len() ==> text_less(#[trigger] s[i], #[trigger] s[j])
}

pub open spec fn texts(v: Seq<String>) -> Seq<Seq<char>> {
    v.map_values(|s: String| s@)
}

/// Adds `s` to a strictly sorted list of texts, at its place, unless the
/// list holds it already.
pub fn insert_sorted(v: &mut Vec<String>, s: String)
    requires
        strictly_sorted(texts(old(v)@)),
    ensures
        strictly_sorted(texts(final(v)@)),
        texts(final(v)@).to_set() == texts(old(v)@).to_set().insert(s@),
{
    let ghost t = texts(v@);
    let mut p: usize = 0;
    while p < v.len() && str_less(v[p].as_str(), s.as_str())
        invariant
            t == texts(v@),
            strictly_sorted(t),
            p <= v@.len(),
            forall|j: int| 0 <= j < p ==> text_less(#[trigger] t[j], s@),
        decreases v@.len() - p,
    {
        proof {
            assert(t[p as int] == v@[p as int]@);
        }
        p = p + 1;
    }
    if p < v.len() && str_eq(v[p].as_str(), s.as_str()) {
        proof {
            assert(t[p as int] == s@);
            assert(t.to_set() =~= t.to_set().insert(s@));
        }
        return;
    }
    proof {
        if p < t.len() {
            assert(!text_less(t[p as int], s@));
            assert(t[p as int] != s@);
            lemma_text_less_total(t[p as int], s@);
            assert(text_less(s@, t[p as int]));
        }
    }
    v.insert(p, s);
    proof {
        let n = texts(v@);
        assert(n =~= t.take(p as int).push(s@) + t.skip(p as int));
        assert forall|i: int, j: int| 0 <= i < j < n.len() implies text_less(#[trigger] n[i], #[trigger] n[j]) by {
            if j < p {
                assert(n[i] == t[i] && n[j] == t[j]);
            } else if j == p {
                assert(n[i] == t[i]);
            } else if i < p {
                assert(n[i] == t[i] && n[j] == t[j - 1]);
                if j - 1 > p {
                    lemma_text_less_transitive(s@, t[p as int], t[j - 1]);
                }
                lemma_text_less_transitive(t[i], s@, t[j - 1]);
            } else if i == p {
                assert(n[j] == t[j - 1]);
                if j - 1 > p {
                    lemma_text_less_transitive(s@, t[p as int], t[j - 1]);
                }
            } else {
                assert(n[i] == t[i - 1] && n[j] == t[j - 1]);
            }
        }
        assert forall|x: Seq<char>| n.to_set().contains(x) == t.to_set().insert(s@).contains(x) by {
            if n.to_set().contains(x) {
                let k = choose|k: int| 0 <= k < n.len() && n[k] == x;
                if k < p {
                    assert(t[k] == x);
                } else if k > p {
                    assert(t[k - 1] == x);
                }
            }
            if t.to_set().contains(x) {
                let k = choose|k: int| 0 <= k < t.len() && t[k] == x;
                if k < p {
                    assert(n[k] == x);
                } else {
                    assert(n[k + 1] == x);
                }
            }
            if x == s@ {
                assert(n[p as int] == x);
            }
        }
        assert(n.to_set() =~= t.to_set().insert(s@));
    }
}

} // verus!
