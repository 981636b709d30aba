//! Ordering text as `String`'s `Ord` does (by character code), a stable sort
//! by text keys, and a sorted set of texts.
use vstd::prelude::*;

use crate::text::{chars_of, str_eq};

verus! {

/// `a < b` in lexicographic order of character codes (for UTF-8 text the
/// same order as that of its bytes).
pub open spec fn lex_lt(a: Seq<char>, b: Seq<char>) -> bool
    decreases a.len(),
{
    if a.len() == 0 {
        b.len() > 0
    } else if b.len() == 0 {
        false
    } else if a[0] != b[0] {
        (a[0] as u32) < (b[0] as u32)
    } else {
        lex_lt(a.drop_first(), b.drop_first())
    }
}

/// Whether `a < b` by character codes.
pub fn str_lt(a: &str, b: &str) -> (r: bool)
    ensures
        r == lex_lt(a@, b@),
{
    let x = chars_of(a);
    let y = chars_of(b);
    let mut i: usize = 0;
    proof {
        assert(a@.skip(0) =~= a@);
        assert(b@.skip(0) =~= b@);
    }
    while i < x.len() && i < y.len() && x[i] == y[i]
        invariant
            x@ == a@,
            y@ == b@,
            i <= x@.len(),
            i <= y@.len(),
            lex_lt(a@, b@) == lex_lt(a@.skip(i as int), b@.skip(i as int)),
        decreases x.len() - i,
    {
        proof {
            assert(a@.skip(i as int).drop_first() =~= a@.skip(i + 1));
            assert(b@.skip(i as int).drop_first() =~= b@.skip(i + 1));
        }
        i = i + 1;
    }
    if i == x.len() {
        i < y.len()
    } else if i == y.len() {
        false
    } else {
        (x[i] as u32) < (y[i] as u32)
    }
}

/// The first position in `order` whose key is greater than `keys[x]`, or
/// the end.
pub open spec fn insert_pos(keys: Seq<Seq<char>>, order: Seq<int>, x: int) -> int
    decreases order.len(),
{
    if order.len() == 0 {
        0
    } else if lex_lt(keys[x], keys[order[0]]) {
        0
    } else {
        1 + insert_pos(keys, order.drop_first(), x)
    }
}

/// The positions `0..n` of `keys`, stably sorted by key: each position is
/// placed after every earlier one whose key is not greater.
pub open spec fn sorted_positions(keys: Seq<Seq<char>>, n: int) -> Seq<int>
    decreases n,
{
    if n <= 0 {
        Seq::empty()
    } else {
        let t = sorted_positions(keys, n - 1);
        t.insert(insert_pos(keys, t, n - 1), n - 1)
    }
}

proof fn lemma_insert_pos_bound(keys: Seq<Seq<char>>, order: Seq<int>, x: int)
    ensures
        0 <= insert_pos(keys, order, x) <= order.len(),
    decreases order.len(),
{
    if order.len() > 0 {
        lemma_insert_pos_bound(keys, order.drop_first(), x);
    }
}

pub proof fn lemma_sorted_positions(keys: Seq<Seq<char>>, n: int)
    requires
        n >= 0,
    ensures
        sorted_positions(keys, n).len() == n,
        forall|i: int| 0 <= i < n ==> 0 <= #[trigger] sorted_positions(keys, n)[i] < n,
    decreases n,
{
    if n > 0 {
        lemma_sorted_positions(keys, n - 1);
        let t = sorted_positions(keys, n - 1);
        lemma_insert_pos_bound(keys, t, n - 1);
        let p = insert_pos(keys, t, n - 1);
        assert forall|i: int| 0 <= i < n implies 0 <= #[trigger] sorted_positions(keys, n)[i] < n by {
            if i < p {
                assert(sorted_positions(keys, n)[i] == t[i]);
            } else if i > p {
                assert(sorted_positions(keys, n)[i] == t[i - 1]);
            }
        }
    }
}

proof fn lemma_lex_irreflexive(a: Seq<char>)
    ensures
        !lex_lt(a, a),
    decreases a.len(),
{
    if a.len() > 0 {
        lemma_lex_irreflexive(a.drop_first());
    }
}

proof fn lemma_lex_transitive(a: Seq<char>, b: Seq<char>, c: Seq<char>)
    requires
        lex_lt(a, b),
        lex_lt(b, c),
    ensures
        lex_lt(a, c),
    decreases a.len(),
{
    if a.len() > 0 && b.len() > 0 && c.len() > 0 && a[0] == b[0] && b[0] == c[0] {
        lemma_lex_transitive(a.drop_first(), b.drop_first(), c.drop_first());
    }
}

proof fn lemma_lex_total(a: Seq<char>, b: Seq<char>)
    requires
        a != b,
    ensures
        lex_lt(a, b) || lex_lt(b, a),
    decreases a.len(),
{
    if a.len() > 0 && b.len() > 0 && a[0] == b[0] {
        if a.drop_first() == b.drop_first() {
            assert(a =~= seq![a[0]] + a.drop_first());
            assert(b =~= seq![b[0]] + b.drop_first());
        }
        lemma_lex_total(a.drop_first(), b.drop_first());
    } else if a.len() == 0 && b.len() == 0 {
        assert(a =~= b);
    } else if a.len() > 0 && b.len() > 0 {
        let x = a[0];
        let y = b[0];
        lemma_char_codes_differ(x, y);
    }
}

proof fn lemma_char_codes_differ(x: char, y: char)
    ensures
        x != y ==> (x as u32) != (y as u32),
{
}

/// `a` is less than `b`, and `b` is not greater than `c`: `a` is less than `c`.
proof fn lemma_lex_lt_le(a: Seq<char>, b: Seq<char>, c: Seq<char>)
    requires
        lex_lt(a, b),
        !lex_lt(c, b),
    ensures
        lex_lt(a, c),
{
    if b != c {
        lemma_lex_total(b, c);
        lemma_lex_transitive(a, b, c);
    }
}

proof fn lemma_insert_pos_spot(keys: Seq<Seq<char>>, order: Seq<int>, x: int)
    ensures
        forall|q: int| 0 <= q < insert_pos(keys, order, x) ==> !lex_lt(keys[x], #[trigger] keys[order[q]]),
        insert_pos(keys, order, x) < order.len() ==> lex_lt(keys[x], keys[order[insert_pos(keys, order, x)]]),
    decreases order.len(),
{
    lemma_insert_pos_bound(keys, order, x);
    if order.len() > 0 && !lex_lt(keys[x], keys[order[0]]) {
        let rest = order.drop_first();
        lemma_insert_pos_spot(keys, rest, x);
        lemma_insert_pos_bound(keys, rest, x);
        assert forall|q: int| 0 <= q < insert_pos(keys, order, x) implies !lex_lt(keys[x], #[trigger] keys[order[q]]) by {
            if q > 0 {
                assert(order[q] == rest[q - 1]);
            }
        }
        let p = insert_pos(keys, order, x);
        if p < order.len() {
            assert(order[p] == rest[p - 1]);
        }
    }
}

/// The stable sort orders: the positions `0..n` each come once, their keys
/// never decrease, and of two equal keys the earlier position comes first.
pub proof fn lemma_sorted_positions_sorted(keys: Seq<Seq<char>>, n: int)
    requires
        0 <= n <= keys.len(),
    ensures
        sorted_positions(keys, n).no_duplicates(),
        forall|i: int| 0 <= i < n ==> 0 <= #[trigger] sorted_positions(keys, n)[i] < n,
        forall|i: int, j: int|
            #![trigger sorted_positions(keys, n)[i], sorted_positions(keys, n)[j]]
            0 <= i < j < n ==> !lex_lt(keys[sorted_positions(keys, n)[j]], keys[sorted_positions(keys, n)[i]]),
        forall|i: int, j: int|
            #![trigger sorted_positions(keys, n)[i], sorted_positions(keys, n)[j]]
            0 <= i < j < n && keys[sorted_positions(keys, n)[i]] == keys[sorted_positions(keys, n)[j]]
                ==> sorted_positions(keys, n)[i] < sorted_positions(keys, n)[j],
    decreases n,
{
    lemma_sorted_positions(keys, n);
    if n > 0 {
        lemma_sorted_positions_sorted(keys, n - 1);
        let t = sorted_positions(keys, n - 1);
        let x = n - 1;
        lemma_insert_pos_bound(keys, t, x);
        lemma_insert_pos_spot(keys, t, x);
        let p = insert_pos(keys, t, x);
        let u = sorted_positions(keys, n);
        assert(u == t.insert(p, x));
        assert forall|i: int| 0 <= i < n implies #[trigger] u[i] == (if i < p { t[i] } else if i == p { x } else { t[i - 1] }) by {}
        assert forall|i: int, j: int| 0 <= i < j < n implies #[trigger] u[i] != #[trigger] u[j] by {
            if i != p && j != p {
                let a = if i < p { i } else { i - 1 };
                let b = if j < p { j } else { j - 1 };
                assert(t[a] != t[b]);
            }
        }
        assert forall|i: int, j: int|
            #![trigger u[i], u[j]]
            0 <= i < j < n implies !lex_lt(keys[u[j]], keys[u[i]]) && (keys[u[i]] == keys[u[j]] ==> u[i] < u[j]) by {
            if i == p {
                let b = j - 1;
                if b > p {
                    assert(!lex_lt(keys[t[b]], keys[t[p]]));
                    lemma_lex_lt_le(keys[x], keys[t[p]], keys[t[b]]);
                }
                lemma_lex_transitive_irreflexive(keys[x], keys[t[b]]);
            } else if j == p {
                assert(!lex_lt(keys[x], keys[t[i]]));
            } else {
                let a = if i < p { i } else { i - 1 };
                let b = if j < p { j } else { j - 1 };
                assert(a < b);
                assert(!lex_lt(keys[t[b]], keys[t[a]]));
            }
        }
        assert(u.no_duplicates());
    }
}

proof fn lemma_lex_transitive_irreflexive(a: Seq<char>, b: Seq<char>)
    requires
        lex_lt(a, b),
    ensures
        !lex_lt(b, a),
        a != b,
{
    lemma_lex_irreflexive(a);
    if lex_lt(b, a) {
        lemma_lex_transitive(a, b, a);
    }
}

/// The positions of `keys` in stably sorted key order.
pub fn sort_positions(keys: &Vec<String>) -> (r: Vec<usize>)
    ensures
        r@.len() == keys@.len(),
        forall|i: int| 0 <= i < r@.len() ==> r@[i] < keys@.len() && r@[i] as int == sorted_positions(
            keys@.map_values(|s: String| s@),
            keys@.len() as int,
        )[i],
{
    let ghost kv = keys@.map_values(|s: String| s@);
    let mut out: Vec<usize> = Vec::new();
    let mut n: usize = 0;
    while n < keys.len()
        invariant
            kv == keys@.map_values(|s: String| s@),
            n <= keys@.len(),
            out@.len() == n,
            forall|i: int| 0 <= i < n ==> out@[i] < n && out@[i] as int == #[trigger] sorted_positions(kv, n as int)[i],
        decreases keys.len() - n,
    {
        let ghost t = sorted_positions(kv, n as int);
        proof {
            lemma_sorted_positions(kv, n as int);
        }
        // find the insertion position
        let mut p: usize = 0;
        proof {
            assert(t.skip(0) =~= t);
            assert forall|i: int| 0 <= i < n implies (#[trigger] out@[i]) < n && out@[i] as int == t[i] by {
                assert(out@[i] as int == sorted_positions(kv, n as int)[i]);
            }
        }
        while p < out.len() && !str_lt(keys[n].as_str(), keys[out[p]].as_str())
            invariant
                kv == keys@.map_values(|s: String| s@),
                n < keys@.len(),
                out@.len() == n,
                t == sorted_positions(kv, n as int),
                t.len() == n,
                forall|i: int| 0 <= i < n ==> (#[trigger] out@[i]) < n && out@[i] as int == t[i],
                p <= n,
                insert_pos(kv, t, n as int) == p + insert_pos(kv, t.skip(p as int), n as int),
            decreases n - p,
        {
            proof {
                assert(t.skip(p as int)[0] == t[p as int]);
                assert(t.skip(p as int).drop_first() =~= t.skip(p + 1));
            }
            p = p + 1;
        }
        proof {
            if p < n {
                assert(t.skip(p as int)[0] == t[p as int]);
            } else {
                assert(t.skip(p as int) =~= Seq::<int>::empty());
            }
            assert(insert_pos(kv, t, n as int) == p);
        }
        out.insert(p, n);
        proof {
            let t2 = sorted_positions(kv, n + 1);
            assert(t2 == t.insert(p as int, n as int));
            assert forall|i: int| 0 <= i < n + 1 implies out@[i] < n + 1 && out@[i] as int == #[trigger] t2[i] by {
                if i < p {
                    assert(t2[i] == t[i]);
                } else if i > p {
                    assert(t2[i] == t[i - 1]);
                }
            }
        }
        n = n + 1;
    }
    proof {
        assert forall|i: int| 0 <= i < out@.len() implies out@[i] < keys@.len() && out@[i] as int == sorted_positions(
            keys@.map_values(|s: String| s@),
            keys@.len() as int,
        )[i] by {
            assert(out@[i] as int == sorted_positions(kv, n as int)[i]);
        }
    }
    out
}

/// `t` with `x` added: unchanged if it holds `x`, else with `x` inserted
/// before the first greater element.
pub open spec fn set_insert(t: Seq<Seq<char>>, x: Seq<char>) -> Seq<Seq<char>> {
    if t.contains(x) {
        t
    } else {
        t.insert(first_greater(t, x), x)
    }
}

/// The first position of `t` holding an element greater than `x`, or the end.
pub open spec fn first_greater(t: Seq<Seq<char>>, x: Seq<char>) -> int
    decreases t.len(),
{
    if t.len() == 0 {
        0
    } else if lex_lt(x, t[0]) {
        0
    } else {
        1 + first_greater(t.drop_first(), x)
    }
}

proof fn lemma_first_greater_bound(t: Seq<Seq<char>>, x: Seq<char>)
    ensures
        0 <= first_greater(t, x) <= t.len(),
    decreases t.len(),
{
    if t.len() > 0 {
        lemma_first_greater_bound(t.drop_first(), x);
    }
}

/// Add `x` to the sorted set `set`.
pub fn sorted_set_insert(set: &mut Vec<String>, x: &str)
    ensures
        final(set)@.map_values(|s: String| s@) == set_insert(old(set)@.map_values(|s: String| s@), x@),
{
    let ghost t = set@.map_values(|s: String| s@);
    let mut i: usize = 0;
    while i < set.len()
        invariant
            t == set@.map_values(|s: String| s@),
            i <= set@.len(),
            forall|j: int| 0 <= j < i ==> t[j] != x@,
        decreases set.len() - i,
    {
        if str_eq(set[i].as_str(), x) {
            proof {
                assert(t[i as int] == x@);
                assert(t.contains(x@));
            }
            return;
        }
        i = i + 1;
    }
    proof {
        assert(!t.contains(x@));
    }
    let mut p: usize = 0;
    proof {
        assert(t.skip(0) =~= t);
    }
    while p < set.len() && !str_lt(x, set[p].as_str())
        invariant
            t == set@.map_values(|s: String| s@),
            p <= set@.len(),
            first_greater(t, x@) == p + first_greater(t.skip(p as int), x@),
        decreases set.len() - p,
    {
        proof {
            assert(t.skip(p as int)[0] == t[p as int]);
            assert(t.skip(p as int).drop_first() =~= t.skip(p + 1));
        }
        p = p + 1;
    }
    proof {
        if p < set@.len() {
            assert(t.skip(p as int)[0] == t[p as int]);
        } else {
            assert(t.skip(p as int) =~= Seq::<Seq<char>>::empty());
        }
        lemma_first_greater_bound(t, x@);
    }
    set.insert(p, String::from_str(x));
    proof {
        assert(set@.map_values(|s: String| s@) =~= t.insert(p as int, x@));
    }
}

} // verus!
