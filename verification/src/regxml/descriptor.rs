//! Finding the essence descriptor among the sets of the header metadata.
use vstd::prelude::*;

use super::fragment::{ul_zero_version, zero_version};
use crate::dict::definition::{Definition, DefinitionView};
use crate::dict::resolver::DefinitionResolver;
use crate::klv::local_set::LocalSet;
use crate::types::auid::Auid;
use crate::types::ul::Ul;

verus! {

/// GenericDescriptor class key: `060e2b34.02530101.0d010101.01012400`.
pub open spec fn generic_descriptor_ul() -> Seq<u8> {
    seq![0x06u8, 0x0E, 0x2B, 0x34, 0x02, 0x53, 0x01, 0x01, 0x0D, 0x01, 0x01, 0x01, 0x01, 0x01, 0x24, 0x00]
}

/// The direct subclasses of `a`, where the dictionary defines `a` as a class.
pub open spec fn class_children<R: DefinitionResolver>(r: &R, a: Auid) -> Seq<Auid> {
    match r.spec_definition(a) {
        Some(DefinitionView::Class(c)) => r.spec_subclasses(c.common.id),
        _ => Seq::empty(),
    }
}

/// `s` and the direct subclasses of its classes.
pub open spec fn subclass_step<R: DefinitionResolver>(r: &R, s: Set<Auid>) -> Set<Auid> {
    s.union(Set::new(|b: Auid| exists|x: Auid| s.contains(x) && #[trigger] class_children(r, x).contains(b)))
}

/// `a` and the classes at most `n` subclass steps below it.
pub open spec fn descendants<R: DefinitionResolver>(r: &R, a: Auid, n: nat) -> Set<Auid>
    decreases n,
{
    if n == 0 {
        set![a]
    } else {
        subclass_step(r, descendants(r, a, (n - 1) as nat))
    }
}

/// `a` and every class below it that the dictionary knows, at any depth.
pub open spec fn all_descendants<R: DefinitionResolver>(r: &R, a: Auid) -> Set<Auid> {
    Set::new(|x: Auid| exists|n: nat| #[trigger] descendants(r, a, n).contains(x))
}

/// Each step keeps what the steps before it found.
proof fn lemma_descendants_grow<R: DefinitionResolver>(r: &R, a: Auid, n: nat, m: nat)
    requires
        n <= m,
    ensures
        descendants(r, a, n).subset_of(descendants(r, a, m)),
    decreases m - n,
{
    if n < m {
        lemma_descendants_grow(r, a, n, (m - 1) as nat);
        assert(descendants(r, a, (m - 1) as nat).subset_of(descendants(r, a, m)));
    }
}

/// Once a step adds nothing, no later step does.
proof fn lemma_descendants_stable<R: DefinitionResolver>(r: &R, a: Auid, k: nat, n: nat)
    requires
        descendants(r, a, k + 1) == descendants(r, a, k),
        k <= n,
    ensures
        descendants(r, a, n) == descendants(r, a, k),
    decreases n - k,
{
    if n > k {
        lemma_descendants_stable(r, a, k, (n - 1) as nat);
    }
}

/// Once a step adds nothing, the classes found are all there are.
proof fn lemma_descendants_closed<R: DefinitionResolver>(r: &R, a: Auid, k: nat)
    requires
        descendants(r, a, k + 1) == descendants(r, a, k),
    ensures
        all_descendants(r, a) == descendants(r, a, k),
{
    assert forall|x: Auid| all_descendants(r, a).contains(x) <==> descendants(r, a, k).contains(x) by {
        if all_descendants(r, a).contains(x) {
            let n = choose|n: nat| #[trigger] descendants(r, a, n).contains(x);
            if n <= k {
                lemma_descendants_grow(r, a, n, k);
            } else {
                lemma_descendants_stable(r, a, k, n);
            }
        }
    }
    assert(all_descendants(r, a) =~= descendants(r, a, k));
}

/// SMPTE byte-14 class codes of concrete descriptor groups.
pub open spec fn is_descriptor_code(b: u8) -> bool {
    b == 0x24 || b == 0x25 || b == 0x27 || b == 0x28 || b == 0x29 || b == 0x42 || b == 0x43 || b == 0x44
        || b == 0x45 || b == 0x48 || b == 0x49 || b == 0x4A || b == 0x4B || b == 0x51 || b == 0x6B
}

/// A UL in the AAF metadata group space (bytes 8–13 `0d 01 01 01 01 01`)
/// whose byte 14 is a descriptor class code.
pub open spec fn listed_descriptor(k: Auid) -> bool {
    k matches Auid::Ul(u) && u@[8] == 0x0D && u@[9] == 1 && u@[10] == 1 && u@[11] == 1 && u@[12] == 1
        && u@[13] == 1 && is_descriptor_code(u@[14])
}

/// A UL that `d` holds as it is or with its version byte zeroed.
pub open spec fn dict_descriptor(d: Set<Auid>, k: Auid) -> bool {
    k is Ul && (d.contains(k) || d.contains(zero_version(k)))
}

/// Whether `d` holds a key (see [`dict_descriptor`]).
pub open spec fn dict_pred(d: Set<Auid>) -> spec_fn(Auid) -> bool {
    |k: Auid| dict_descriptor(d, k)
}

/// Whether a key has a known descriptor class code (see [`listed_descriptor`]).
pub open spec fn listed_pred() -> spec_fn(Auid) -> bool {
    |k: Auid| listed_descriptor(k)
}

/// The position of the first key that `p` accepts.
pub open spec fn first_match(keys: Seq<Auid>, p: spec_fn(Auid) -> bool) -> Option<int>
    decreases keys.len(),
{
    if keys.len() == 0 {
        None
    } else if p(keys.last()) && first_match(keys.drop_last(), p) is None {
        Some(keys.len() - 1)
    } else {
        first_match(keys.drop_last(), p)
    }
}

pub proof fn lemma_first_match(keys: Seq<Auid>, p: spec_fn(Auid) -> bool)
    ensures
        match first_match(keys, p) {
            Some(i) => 0 <= i < keys.len() && p(keys[i]) && forall|j: int| 0 <= j < i ==> !p(#[trigger] keys[j]),
            None => forall|j: int| 0 <= j < keys.len() ==> !p(#[trigger] keys[j]),
        },
    decreases keys.len(),
{
    if keys.len() > 0 {
        lemma_first_match(keys.drop_last(), p);
        assert forall|j: int| 0 <= j < keys.len() - 1 implies keys.drop_last()[j] == keys[j] by {}
    }
}

/// The keys of some local sets.
pub open spec fn set_keys(sets: Seq<LocalSet>) -> Seq<Auid> {
    sets.map_values(|s: LocalSet| s.key)
}

/// Which set is the essence descriptor: where the dictionary knows a class
/// below GenericDescriptor, the first set whose key is such a class (as it is
/// or with its version byte zeroed); failing that, the first set whose key
/// has a known descriptor class code.
pub open spec fn essence_descriptor_index<R: DefinitionResolver>(r: &R, keys: Seq<Auid>) -> Option<int> {
    let gd = Auid::Ul(choose|u: Ul| u@ == generic_descriptor_ul());
    let d = all_descendants(r, gd);
    let by_dict = if exists|x: Auid| d.contains(x) && x != gd {
        first_match(keys, dict_pred(d))
    } else {
        None
    };
    match by_dict {
        Some(i) => Some(i),
        None => first_match(keys, listed_pred()),
    }
}

fn auid_in(v: &Vec<Auid>, x: &Auid) -> (r: bool)
    ensures
        r == v@.contains(*x),
{
    let mut k: usize = 0;
    while k < v.len()
        invariant
            k <= v@.len(),
            forall|j: int| 0 <= j < k ==> v@[j] != *x,
        decreases v.len() - k,
    {
        if v[k].same(x) {
            return true;
        }
        k = k + 1;
    }
    false
}

fn generic_descriptor_key() -> (r: Ul)
    ensures
        r@ == generic_descriptor_ul(),
{
    let b = [0x06u8, 0x0E, 0x2B, 0x34, 0x02, 0x53, 0x01, 0x01, 0x0D, 0x01, 0x01, 0x01, 0x01, 0x01, 0x24, 0x00];
    proof {
        assert(b@ =~= generic_descriptor_ul());
    }
    Ul::from_bytes(b)
}

/// One step down the class hierarchy: `result` grows by the direct
/// subclasses of its classes.
fn add_subclasses<R: DefinitionResolver>(resolver: &R, result: &mut Vec<Auid>)
    requires
        old(result)@.no_duplicates(),
    ensures
        final(result)@.no_duplicates(),
        final(result)@.len() >= old(result)@.len(),
        final(result)@.subrange(0, old(result)@.len() as int) == old(result)@,
        final(result)@.to_set() == subclass_step(resolver, old(result)@.to_set()),
{
    let ghost snap = result@;
    let n = result.len();
    let mut i: usize = 0;
    while i < n
        invariant
            n == snap.len(),
            i <= n,
            result@.no_duplicates(),
            result@.len() >= n,
            result@.subrange(0, n as int) == snap,
            forall|b: Auid| #[trigger] result@.contains(b) <==> (snap.contains(b) || exists|j: int|
                0 <= j < i && #[trigger] class_children(resolver, snap[j]).contains(b)),
        decreases n - i,
    {
        let a = result[i];
        assert(a == snap[i as int]) by {
            assert(result@.subrange(0, n as int)[i as int] == result@[i as int]);
        }
        let ghost before = result@;
        match resolver.get_definition(&a) {
            Some(Definition::Class(cd)) => {
                let subs = resolver.get_subclasses_of(cd);
                let mut k: usize = 0;
                while k < subs.len()
                    invariant
                        n == snap.len(),
                        i < n,
                        a == snap[i as int],
                        subs@ == class_children(resolver, a),
                        k <= subs.len(),
                        result@.no_duplicates(),
                        result@.len() >= before.len(),
                        result@.subrange(0, before.len() as int) == before,
                        before.len() >= n,
                        before.subrange(0, n as int) == snap,
                        forall|b: Auid| #[trigger] result@.contains(b) <==> (before.contains(b) || exists|m: int|
                            0 <= m < k && subs@[m] == b),
                    decreases subs.len() - k,
                {
                    let s = subs[k];
                    if !auid_in(result, &s) {
                        let ghost prev = result@;
                        result.push(s);
                        proof {
                            assert(result@.subrange(0, before.len() as int) =~= before) by {
                                assert(prev.subrange(0, before.len() as int) == before);
                            }
                            assert forall|b: Auid| #[trigger] result@.contains(b) <==> (prev.contains(b) || b == s) by {
                                if result@.contains(b) {
                                    let idx = choose|idx: int| 0 <= idx < result@.len() && result@[idx] == b;
                                    if idx < prev.len() {
                                        assert(prev[idx] == b);
                                    }
                                }
                                if prev.contains(b) {
                                    let idx = choose|idx: int| 0 <= idx < prev.len() && prev[idx] == b;
                                    assert(result@[idx] == b);
                                }
                                if b == s {
                                    assert(result@[prev.len() as int] == b);
                                }
                            }
                        }
                    }
                    proof {
                        assert forall|b: Auid| #[trigger] result@.contains(b) <==> (before.contains(b) || exists|m: int|
                            0 <= m < k + 1 && subs@[m] == b) by {
                            if b == s {
                                assert(subs@[k as int] == b);
                            }
                        }
                    }
                    k = k + 1;
                }
                proof {
                    assert(class_children(resolver, a) == subs@);
                    assert forall|b: Auid| #[trigger] result@.contains(b) <==> (snap.contains(b) || exists|j: int|
                        0 <= j < i + 1 && #[trigger] class_children(resolver, snap[j]).contains(b)) by {
                        if exists|m: int| 0 <= m < subs@.len() && subs@[m] == b {
                            assert(class_children(resolver, snap[i as int]).contains(b));
                        }
                        if class_children(resolver, snap[i as int]).contains(b) {
                            let m = choose|m: int| 0 <= m < subs@.len() && subs@[m] == b;
                        }
                    }
                    assert(result@.subrange(0, n as int) =~= snap) by {
                        assert forall|j: int| 0 <= j < n implies result@[j] == snap[j] by {
                            assert(result@.subrange(0, before.len() as int)[j] == before[j]);
                            assert(before.subrange(0, n as int)[j] == snap[j]);
                        }
                    }
                }
            },
            _ => {
                proof {
                    assert(class_children(resolver, a) =~= Seq::<Auid>::empty());
                }
            },
        }
        i = i + 1;
    }
    proof {
        let step = subclass_step(resolver, snap.to_set());
        assert forall|b: Auid| result@.to_set().contains(b) <==> step.contains(b) by {
            if exists|j: int| 0 <= j < n && #[trigger] class_children(resolver, snap[j]).contains(b) {
                let j = choose|j: int| 0 <= j < n && #[trigger] class_children(resolver, snap[j]).contains(b);
                assert(snap.to_set().contains(snap[j]));
            }
            if exists|x: Auid| snap.to_set().contains(x) && #[trigger] class_children(resolver, x).contains(b) {
                let x = choose|x: Auid| snap.to_set().contains(x) && #[trigger] class_children(resolver, x).contains(b);
                let j = choose|j: int| 0 <= j < snap.len() && snap[j] == x;
                assert(class_children(resolver, snap[j]).contains(b));
            }
        }
        assert(result@.to_set() =~= step);
    }
}

/// GenericDescriptor and every class below it that the dictionary knows. The
/// first entry is GenericDescriptor.
fn collect_descriptor_auids<R: DefinitionResolver>(resolver: &R, root: Auid) -> (r: Vec<Auid>)
    ensures
        r@.to_set() == all_descendants(resolver, root),
        r@.no_duplicates(),
        r@.len() >= 1,
        r@[0] == root,
{
    let mut result: Vec<Auid> = Vec::new();
    result.push(root);
    proof {
        assert(result@.to_set() =~= set![root]);
    }
    let ghost mut level: nat = 0;
    loop
        invariant
            result@.no_duplicates(),
            result@.len() >= 1,
            result@[0] == root,
            result@.to_set() == descendants(resolver, root, level),
        decreases usize::MAX - result@.len(),
    {
        let before = result.len();
        let ghost snap = result@;
        add_subclasses(resolver, &mut result);
        proof {
            assert(result@[0] == result@.subrange(0, snap.len() as int)[0]);
            level = level + 1;
        }
        let after = result.len();
        if after == before {
            proof {
                assert(result@ =~= snap) by {
                    assert(result@ =~= result@.subrange(0, snap.len() as int));
                }
                lemma_descendants_closed(resolver, root, (level - 1) as nat);
            }
            return result;
        }
    }
}

/// The position of the essence descriptor among `all_sets`
/// (see [`essence_descriptor_index`]).
pub fn find_essence_descriptor<R: DefinitionResolver>(all_sets: &Vec<LocalSet>, resolver: &R) -> (r: Option<usize>)
    ensures
        match essence_descriptor_index(resolver, set_keys(all_sets@)) {
            Some(i) => 0 <= i < all_sets@.len() && r == Some(i as usize),
            None => r is None,
        },
        r matches Some(i) ==> i < all_sets@.len(),
{
    let gd_ul = generic_descriptor_key();
    let gd = Auid::Ul(gd_ul);
    broadcast use vstd::array::group_array_axioms;

    let ghost keys = set_keys(all_sets@);
    let ghost spec_gd = Auid::Ul(choose|u: Ul| u@ == generic_descriptor_ul());
    proof {
        let u = choose|u: Ul| u@ == generic_descriptor_ul();
        assert(u@ == generic_descriptor_ul());
        assert(u.0 =~= gd_ul.0);
        assert(spec_gd == gd);
    }
    let descriptor_auids = collect_descriptor_auids(resolver, gd);
    let ghost d = all_descendants(resolver, gd);
    proof {
        lemma_first_match(keys, dict_pred(d));
        lemma_first_match(keys, listed_pred());
    }
    let has_more = descriptor_auids.len() > 1;
    proof {
        if has_more {
            assert(d.contains(descriptor_auids@[1]));
            assert(descriptor_auids@[1] != gd);
        } else {
            assert forall|x: Auid| d.contains(x) implies x == gd by {
                assert(descriptor_auids@.to_set().contains(x));
            }
        }
    }
    if has_more {
        proof {
            assert(essence_descriptor_index(resolver, keys) == match first_match(keys, dict_pred(d)) {
                Some(i) => Some(i),
                None => first_match(keys, listed_pred()),
            });
        }
        let mut i: usize = 0;
        while i < all_sets.len()
            invariant
                essence_descriptor_index(resolver, keys) == match first_match(keys, dict_pred(d)) {
                    Some(i) => Some(i),
                    None => first_match(keys, listed_pred()),
                },
                i <= all_sets@.len(),
                keys == set_keys(all_sets@),
                descriptor_auids@.to_set() == d,
                forall|j: int| 0 <= j < i ==> !dict_descriptor(d, #[trigger] keys[j]),
            decreases all_sets.len() - i,
        {
            if let Some(ul) = all_sets[i].key.as_ul() {
                let exact = all_sets[i].key;
                let masked = ul_zero_version(exact);
                if auid_in(&descriptor_auids, &exact) || auid_in(&descriptor_auids, &masked) {
                    proof {
                        assert(keys[i as int] == exact);
                        assert(dict_descriptor(d, keys[i as int]));
                        assert(dict_pred(d)(keys[i as int]));
                        lemma_first_match(keys, dict_pred(d));
                        match first_match(keys, dict_pred(d)) {
                            Some(i0) => {
                                if i0 < i {
                                    assert(!dict_descriptor(d, keys[i0]));
                                }
                            },
                            None => {},
                        }
                    }
                    return Some(i);
                }
                proof {
                    assert(keys[i as int] == exact);
                }
            } else {
                proof {
                    assert(keys[i as int] == all_sets@[i as int].key);
                }
            }
            i = i + 1;
        }
    }
    proof {
        if has_more {
            assert forall|j: int| 0 <= j < keys.len() implies !dict_pred(d)(#[trigger] keys[j]) by {}
            lemma_first_match(keys, dict_pred(d));
        }
        assert(essence_descriptor_index(resolver, keys) == first_match(keys, listed_pred()));
    }
    let mut i: usize = 0;
    while i < all_sets.len()
        invariant
            essence_descriptor_index(resolver, keys) == first_match(keys, listed_pred()),
            i <= all_sets@.len(),
            keys == set_keys(all_sets@),
            forall|j: int| 0 <= j < i ==> !listed_descriptor(#[trigger] keys[j]),
        decreases all_sets.len() - i,
    {
        proof {
            assert(keys[i as int] == all_sets@[i as int].key);
        }
        if let Some(ul) = all_sets[i].key.as_ul() {
            let b = ul.as_bytes();
            let c = b[14];
            if b[8] == 0x0D && b[9] == 0x01 && b[10] == 0x01 && b[11] == 0x01 && b[12] == 0x01 && b[13] == 0x01
                && (c == 0x24 || c == 0x25 || c == 0x27 || c == 0x28 || c == 0x29 || c == 0x42 || c == 0x43
                || c == 0x44 || c == 0x45 || c == 0x48 || c == 0x49 || c == 0x4A || c == 0x4B || c == 0x51
                || c == 0x6B) {
                proof {
                    assert(listed_descriptor(keys[i as int]));
                    assert(listed_pred()(keys[i as int]));
                    lemma_first_match(keys, listed_pred());
                    match first_match(keys, listed_pred()) {
                        Some(i0) => {
                            if i0 < i {
                                assert(!listed_descriptor(keys[i0]));
                            }
                        },
                        None => {},
                    }
                }
                return Some(i);
            }
        }
        i = i + 1;
    }
    None
}

} // verus!
