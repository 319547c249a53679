//! Duplicate-free vectors of 64-bit values, used as executable sets.
//!
//! The replicated broadcast log and the per-peer knowledge sets are sets of
//! numbers; this module keeps them as vectors without duplicates, ordered by
//! first insertion, and relates every operation to the mathematical set the
//! vector holds (`to_set` of its view).

use vstd::prelude::*;

verus! {

broadcast use {
    vstd::seq_lib::group_seq_properties,
    vstd::seq::Seq::group_seq_extra,
    vstd::set::group_set_axioms,
};

/// No value occurs twice.
pub open spec fn nodup(s: Seq<u64>) -> bool {
    forall|i: int, j: int| 0 <= i < j < s.len() ==> s[i] != s[j]
}

pub fn contains_u64(v: &Vec<u64>, x: u64) -> (r: bool)
    ensures
        r == v@.contains(x),
{
    let mut k: usize = 0;
    while k < v.len()
        invariant
            0 <= k <= v@.len(),
            forall|i: int| 0 <= i < k ==> v@[i] != x,
        decreases v@.len() - k,
    {
        if v[k] == x {
            return true;
        }
        k += 1;
    }
    return false;
}

/// Adds `x` unless it is already present; insertion order is kept.
pub fn insert_new(v: &mut Vec<u64>, x: u64)
    ensures
        final(v)@.to_set() == old(v)@.to_set().insert(x),
        old(v)@.contains(x) ==> final(v)@ == old(v)@,
        !old(v)@.contains(x) ==> final(v)@ == old(v)@.push(x),
        nodup(old(v)@) ==> nodup(final(v)@),
{
    if !contains_u64(v, x) {
        v.push(x);
        proof {
            assert(v@.to_set() =~= old(v)@.to_set().insert(x));
        }
    } else {
        proof {
            assert(v@.to_set() =~= old(v)@.to_set().insert(x));
        }
    }
}

/// Unions `src` into `dst`; what was present stays in place, and a second
/// union of the same values changes nothing.
pub fn merge_into(dst: &mut Vec<u64>, src: &Vec<u64>)
    ensures
        final(dst)@.to_set() == old(dst)@.to_set().union(src@.to_set()),
        final(dst)@.len() >= old(dst)@.len(),
        forall|i: int| 0 <= i < old(dst)@.len() ==> final(dst)@[i] == old(dst)@[i],
        src@.to_set().subset_of(old(dst)@.to_set()) ==> final(dst)@ == old(dst)@,
        nodup(old(dst)@) ==> nodup(final(dst)@),
{
    let ghost dst0 = dst@;
    let mut k: usize = 0;
    while k < src.len()
        invariant
            0 <= k <= src@.len(),
            dst0.len() <= dst@.len() <= dst0.len() + k,
            dst@.to_set() == dst0.to_set().union(src@.subrange(0, k as int).to_set()),
            forall|i: int| 0 <= i < dst0.len() ==> dst@[i] == dst0[i],
            src@.subrange(0, k as int).to_set().subset_of(dst0.to_set()) ==> dst@ == dst0,
            nodup(dst0) ==> nodup(dst@),
        decreases src@.len() - k,
    {
        let ghost pre = dst@;
        insert_new(dst, src[k]);
        proof {
            assert(src@.subrange(0, k as int + 1) =~= src@.subrange(0, k as int).push(
                src@[k as int],
            ));
            assert(dst@.to_set() =~= dst0.to_set().union(
                src@.subrange(0, k as int + 1).to_set(),
            ));
            if src@.subrange(0, k as int + 1).to_set().subset_of(dst0.to_set()) {
                assert(src@.subrange(0, k as int + 1).to_set().contains(src@[k as int]));
                assert(pre.to_set().contains(src@[k as int]));
                assert(pre.contains(src@[k as int]));
            }
        }
        k += 1;
    }
    proof {
        assert(src@.subrange(0, src@.len() as int) =~= src@);
    }
}

/// The values of `a` that `b` does not hold, in the order of `a`.
pub fn diff_vec(a: &Vec<u64>, b: &Vec<u64>) -> (r: Vec<u64>)
    ensures
        r@.to_set() == a@.to_set().difference(b@.to_set()),
        nodup(a@) ==> nodup(r@),
        (r@.len() == 0 <==> a@.to_set().subset_of(b@.to_set())),
        forall|i: int| 0 <= i < r@.len() ==> a@.contains(r@[i]),
{
    let mut r: Vec<u64> = Vec::new();
    let mut k: usize = 0;
    while k < a.len()
        invariant
            0 <= k <= a@.len(),
            r@.to_set() == a@.subrange(0, k as int).to_set().difference(b@.to_set()),
            nodup(a@) ==> (forall|i: int, j: int|
                0 <= i < j < r@.len() ==> r@[i] != r@[j]),
            r@.len() == 0 <==> a@.subrange(0, k as int).to_set().subset_of(b@.to_set()),
            forall|i: int| 0 <= i < r@.len() ==> a@.contains(r@[i]),
            forall|i: int| #![trigger r@[i]]
                0 <= i < r@.len() ==> exists|j: int| 0 <= j < k && #[trigger] a@[j] == r@[i],
        decreases a@.len() - k,
    {
        let x = a[k];
        let in_b = contains_u64(b, x);
        if !in_b {
            let ghost pre = r@;
            r.push(x);
            proof {
                assert(a@[k as int] == r@[r@.len() - 1]);
                if nodup(a@) {
                    assert forall|i: int, j: int|
                        0 <= i < j < r@.len() implies r@[i] != r@[j] by {
                        if j == r@.len() - 1 {
                            assert(pre[i] == r@[i]);
                            let m = choose|m: int| 0 <= m < k && #[trigger] a@[m] == r@[i];
                            assert(a@[m] != a@[k as int]);
                        }
                    }
                }
            }
        }
        proof {
            let sub1 = a@.subrange(0, k as int);
            let sub2 = a@.subrange(0, k as int + 1);
            assert(sub2 =~= sub1.push(x));
            assert(sub2.to_set() =~= sub1.to_set().insert(x));
            assert(r@.to_set() =~= sub2.to_set().difference(b@.to_set()));
            assert(sub2.to_set().subset_of(b@.to_set()) <==> (sub1.to_set().subset_of(b@.to_set())
                && b@.to_set().contains(x)));
            if !b@.contains(x) {
                assert(r@.to_set().contains(x));
                assert(r@.len() != 0);
            }
        }
        k += 1;
    }
    proof {
        assert(a@.subrange(0, a@.len() as int) =~= a@);
    }
    return r;
}

/// A copy of the vector, value for value.
pub fn copy_vec(v: &Vec<u64>) -> (r: Vec<u64>)
    ensures
        r@ == v@,
{
    let mut r: Vec<u64> = Vec::new();
    let mut k: usize = 0;
    while k < v.len()
        invariant
            0 <= k <= v@.len(),
            r@ == v@.subrange(0, k as int),
        decreases v@.len() - k,
    {
        r.push(v[k]);
        proof {
            assert(r@ =~= v@.subrange(0, k as int + 1));
        }
        k += 1;
    }
    proof {
        assert(v@.subrange(0, v@.len() as int) =~= v@);
    }
    return r;
}

} // verus!
