//! Per-peer knowledge bookkeeping for the broadcast workload.
//!
//! For every peer the node keeps the subset of the replicated set it has
//! evidence the peer already holds. The table is a vector of entries with
//! distinct peer names; `known_of` reads it as a mathematical map from peer
//! name to set of values, with the empty set for peers that have no entry.

use vstd::prelude::*;

use crate::numset;
use crate::numset::nodup;

verus! {

broadcast use vstd::seq_lib::group_seq_properties;

pub struct KnownEntry {
    pub peer: String,
    pub known: Vec<u64>,
}

pub open spec fn distinct_peers(s: Seq<KnownEntry>) -> bool {
    forall|i: int, j: int|
        0 <= i < j < s.len() ==> (#[trigger] s[i]).peer@ != (#[trigger] s[j]).peer@
}

/// Every entry table the node holds: distinct peers, duplicate-free sets.
pub open spec fn wf_entries(s: Seq<KnownEntry>) -> bool {
    &&& distinct_peers(s)
    &&& forall|i: int| 0 <= i < s.len() ==> nodup((#[trigger] s[i]).known@)
}

pub open spec fn has_peer(s: Seq<KnownEntry>, p: Seq<char>) -> bool {
    exists|i: int| 0 <= i < s.len() && (#[trigger] s[i]).peer@ == p
}

pub open spec fn peer_index(s: Seq<KnownEntry>, p: Seq<char>) -> int {
    choose|i: int| 0 <= i < s.len() && (#[trigger] s[i]).peer@ == p
}

/// What the table says the peer named `p` knows; empty when `p` has no
/// entry.
pub open spec fn known_of(s: Seq<KnownEntry>, p: Seq<char>) -> Set<u64> {
    if has_peer(s, p) {
        s[peer_index(s, p)].known@.to_set()
    } else {
        Set::empty()
    }
}

/// With distinct peers, the entry holding `p` is the one `known_of` reads.
pub proof fn lemma_known_at(s: Seq<KnownEntry>, p: Seq<char>, i: int)
    requires
        distinct_peers(s),
        0 <= i < s.len(),
        s[i].peer@ == p,
    ensures
        has_peer(s, p),
        peer_index(s, p) == i,
        known_of(s, p) == s[i].known@.to_set(),
{
    assert(has_peer(s, p));
    let j = peer_index(s, p);
    assert(0 <= j < s.len() && s[j].peer@ == p);
    if j != i {
        assert(s[i].peer@ != s[j].peer@);
    }
}

/// Replacing the entry at `i` by one for the same peer touches only that
/// peer's set.
pub proof fn lemma_known_update(s: Seq<KnownEntry>, i: int, e: KnownEntry)
    requires
        distinct_peers(s),
        0 <= i < s.len(),
        e.peer@ == s[i].peer@,
    ensures
        distinct_peers(s.update(i, e)),
        known_of(s.update(i, e), e.peer@) == e.known@.to_set(),
        forall|p: Seq<char>|
            p != e.peer@ ==> known_of(s.update(i, e), p) == known_of(s, p),
        forall|p: Seq<char>| has_peer(s.update(i, e), p) == has_peer(s, p),
{
    let s2 = s.update(i, e);
    assert forall|x: int, y: int|
        0 <= x < y < s2.len() implies (#[trigger] s2[x]).peer@ != (#[trigger] s2[y]).peer@ by {
        assert(s[x].peer@ != s[y].peer@);
    }
    lemma_known_at(s2, e.peer@, i);
    assert forall|p: Seq<char>| has_peer(s2, p) == has_peer(s, p) by {
        if has_peer(s, p) {
            let x = choose|x: int| 0 <= x < s.len() && (#[trigger] s[x]).peer@ == p;
            if x == i {
                assert(s2[i].peer@ == p);
            } else {
                assert(s2[x].peer@ == p);
            }
            assert(has_peer(s2, p));
        }
        if has_peer(s2, p) {
            let x = choose|x: int| 0 <= x < s2.len() && (#[trigger] s2[x]).peer@ == p;
            if x == i {
                assert(s[i].peer@ == p);
            } else {
                assert(s[x].peer@ == p);
            }
            assert(has_peer(s, p));
        }
    }
    assert forall|p: Seq<char>| p != e.peer@ implies known_of(s2, p) == known_of(s, p) by {
        if has_peer(s, p) {
            let x = choose|x: int| 0 <= x < s.len() && (#[trigger] s[x]).peer@ == p;
            assert(x != i);
            lemma_known_at(s, p, x);
            assert(s2[x].peer@ == p);
            lemma_known_at(s2, p, x);
        }
    }
}

/// Appending an entry for a peer the table does not hold adds that peer and
/// touches nothing else.
pub proof fn lemma_known_push(s: Seq<KnownEntry>, e: KnownEntry)
    requires
        distinct_peers(s),
        !has_peer(s, e.peer@),
    ensures
        distinct_peers(s.push(e)),
        known_of(s.push(e), e.peer@) == e.known@.to_set(),
        forall|p: Seq<char>|
            p != e.peer@ ==> known_of(s.push(e), p) == known_of(s, p),
        forall|p: Seq<char>|
            has_peer(s.push(e), p) <==> (has_peer(s, p) || p == e.peer@),
{
    let s2 = s.push(e);
    assert forall|x: int, y: int|
        0 <= x < y < s2.len() implies (#[trigger] s2[x]).peer@ != (#[trigger] s2[y]).peer@ by {
        if y == s2.len() - 1 {
            assert(s2[x] == s[x]);
            if s[x].peer@ == e.peer@ {
                assert(has_peer(s, e.peer@));
            }
        } else {
            assert(s[x].peer@ != s[y].peer@);
        }
    }
    assert(s2[s.len() as int].peer@ == e.peer@);
    lemma_known_at(s2, e.peer@, s.len() as int);
    assert forall|p: Seq<char>|
        has_peer(s2, p) <==> (has_peer(s, p) || p == e.peer@) by {
        if has_peer(s, p) {
            let x = choose|x: int| 0 <= x < s.len() && (#[trigger] s[x]).peer@ == p;
            assert(s2[x].peer@ == p);
        }
        if has_peer(s2, p) && p != e.peer@ {
            let x = choose|x: int| 0 <= x < s2.len() && (#[trigger] s2[x]).peer@ == p;
            assert(x < s.len());
            assert(s[x].peer@ == p);
        }
    }
    assert forall|p: Seq<char>| p != e.peer@ implies known_of(s2, p) == known_of(s, p) by {
        if has_peer(s, p) {
            let x = choose|x: int| 0 <= x < s.len() && (#[trigger] s[x]).peer@ == p;
            lemma_known_at(s, p, x);
            assert(s2[x].peer@ == p);
            lemma_known_at(s2, p, x);
        }
    }
}

/// Two tables that record the same peers with the same sets.
pub open spec fn known_views_eq(a: Seq<KnownEntry>, b: Seq<KnownEntry>) -> bool {
    &&& a.len() == b.len()
    &&& forall|i: int|
        0 <= i < a.len() ==> (#[trigger] a[i]).known@ == b[i].known@ && a[i].peer@ == b[i].peer@
}

/// Finds the entry of `peer`, if the table holds one.
pub fn find_peer(list: &Vec<KnownEntry>, peer: &String) -> (r: Option<usize>)
    requires
        wf_entries(list@),
    ensures
        match r {
            Some(i) => i < list@.len() && list@[i as int].peer@ == peer@ && has_peer(list@, peer@)
                && known_of(list@, peer@) == list@[i as int].known@.to_set(),
            None => !has_peer(list@, peer@),
        },
{
    let mut k: usize = 0;
    while k < list.len()
        invariant
            0 <= k <= list@.len(),
            wf_entries(list@),
            forall|i: int| 0 <= i < k ==> (#[trigger] list@[i]).peer@ != peer@,
        decreases list@.len() - k,
    {
        if list[k].peer.eq(peer) {
            proof {
                lemma_known_at(list@, peer@, k as int);
            }
            return Some(k);
        }
        k += 1;
    }
    return None;
}

/// Finds the entry of `peer`, inserting a fresh empty one when it is
/// missing (a share from an unexpected source is tolerated). What any peer
/// is known to know is unchanged either way.
pub fn find_or_insert(list: &mut Vec<KnownEntry>, peer: &String) -> (idx: usize)
    requires
        wf_entries(old(list)@),
    ensures
        wf_entries(final(list)@),
        idx < final(list)@.len(),
        final(list)@[idx as int].peer@ == peer@,
        has_peer(final(list)@, peer@),
        forall|p: Seq<char>| known_of(final(list)@, p) == known_of(old(list)@, p),
        forall|p: Seq<char>|
            has_peer(final(list)@, p) <==> (has_peer(old(list)@, p) || p == peer@),
        has_peer(old(list)@, peer@) ==> final(list)@ == old(list)@,
{
    let mut k: usize = 0;
    while k < list.len()
        invariant
            0 <= k <= list@.len(),
            wf_entries(list@),
            list@ == old(list)@,
            forall|i: int| 0 <= i < k ==> (#[trigger] list@[i]).peer@ != peer@,
        decreases list@.len() - k,
    {
        if list[k].peer.eq(peer) {
            proof {
                lemma_known_at(list@, peer@, k as int);
            }
            return k;
        }
        k += 1;
    }
    proof {
        assert(!has_peer(list@, peer@));
    }
    let entry = KnownEntry { peer: peer.clone(), known: Vec::new() };
    proof {
        lemma_known_push(list@, entry);
        assert(entry.known@.to_set() =~= Set::<u64>::empty());
    }
    let idx = list.len();
    list.push(entry);
    return idx;
}

/// Unions `vals` into the set the entry at `idx` records; only that peer's
/// set grows, and it grows by exactly `vals`. When `vals` brings nothing
/// new, the table is left untouched.
pub fn merge_known(list: &mut Vec<KnownEntry>, idx: usize, vals: &Vec<u64>)
    requires
        wf_entries(old(list)@),
        idx < old(list)@.len(),
    ensures
        wf_entries(final(list)@),
        final(list)@.len() == old(list)@.len(),
        forall|i: int|
            0 <= i < old(list)@.len() ==> (#[trigger] final(list)@[i]).peer@ == old(list)@[
                i
            ].peer@,
        known_of(final(list)@, old(list)@[idx as int].peer@) == known_of(
            old(list)@,
            old(list)@[idx as int].peer@,
        ).union(vals@.to_set()),
        forall|p: Seq<char>|
            p != old(list)@[idx as int].peer@ ==> known_of(final(list)@, p) == known_of(
                old(list)@,
                p,
            ),
        forall|p: Seq<char>| has_peer(final(list)@, p) == has_peer(old(list)@, p),
        vals@.to_set().subset_of(known_of(old(list)@, old(list)@[idx as int].peer@)) ==> (
        forall|i: int|
            0 <= i < old(list)@.len() ==> (#[trigger] final(list)@[i]).known@ == old(list)@[
                i
            ].known@),
{
    proof {
        lemma_known_at(list@, list@[idx as int].peer@, idx as int);
    }
    let ghost s0 = list@;
    let entry = &mut list[idx];
    numset::merge_into(&mut entry.known, vals);
    proof {
        let s2 = list@;
        assert(s2 == s0.update(idx as int, s2[idx as int]));
        assert(s2[idx as int].peer@ == s0[idx as int].peer@);
        lemma_known_update(s0, idx as int, s2[idx as int]);
        if vals@.to_set().subset_of(known_of(s0, s0[idx as int].peer@)) {
            assert(s2[idx as int].known@ == s0[idx as int].known@);
            assert forall|i: int|
                0 <= i < s0.len() implies (#[trigger] s2[i]).known@ == s0[i].known@ by {}
        }
    }
}

} // verus!
