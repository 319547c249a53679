//! The broadcast workload: eventually-consistent replication of a set of
//! values over gossip.
//!
//! The node keeps the replicated set, the chosen neighbors, and a per-peer
//! record of what each peer is known to hold. Client `broadcast` requests
//! insert values; a periodic tick (the generated event) emits one `share`
//! to every neighbor that is not known to hold the whole set, carrying
//! exactly the values it is missing; incoming `share` and `share_ok`
//! messages grow the peer records, and `share` also merges into the set and
//! is echoed back. The `topology` request discards the harness-supplied
//! graph and re-derives a small-world graph from the cluster size alone.

use vstd::prelude::*;

use crate::knowledge::{
    KnownEntry, find_or_insert, has_peer, known_of, merge_known, wf_entries,
};
use crate::numset;
use crate::numset::nodup;
use crate::protocol::{Body, Event, InitNodes, Message, reply_to};
use crate::text::node_name_seq;
use crate::topology::{generate_small_world_topology, name_views, names_of_row, spec_topology};

verus! {

/// The cluster parameter the topology is re-derived with.
pub const TOPOLOGY_CLUSTER_COUNT: usize = 4;

/// The rewiring probability the topology is re-derived with, in
/// thousandths.
pub const TOPOLOGY_REWIRE_THOUSANDTHS: u64 = 300;

/// Declares uuid's `Uuid` so minted identifiers can ride through the
/// payloads; the crate treats the value as opaque.
#[verifier::external_type_specification]
#[verifier::external_body]
pub struct ExUuid(uuid::Uuid);

/// Relies on uuid's `Uuid::now_v1`: mints a version-1 UUID from the current
/// system time, a shared clock sequence, and the given node bytes. The
/// result depends on the clock, so nothing is promised of its value.
#[verifier::external_body]
fn mint_guid(node_bytes: &[u8; 6]) -> uuid::Uuid {
    uuid::Uuid::now_v1(node_bytes)
}

pub enum DistPayload {
    Echo { echo: String },
    EchoOk { echo: String },
    Generate,
    GenerateOk { guid: uuid::Uuid },
    Broadcast { message: u64 },
    BroadcastOk,
    Read,
    ReadOk { messages: Vec<u64> },
    Topology { topology: Vec<(String, Vec<String>)> },
    TopologyOk,
    Share { messages: Vec<u64> },
    ShareOk { messages: Vec<u64> },
}

/// The derivation of the topology fails only when the node's own id is not
/// among the generated names `n0 ..`; the session treats that as fatal.
#[derive(Debug)]
pub enum StepError {
    UnknownNode,
}

/// The neighbor names the re-derived topology assigns to node `i` in a
/// cluster of `n`.
pub open spec fn topo_names(n: nat, i: int) -> Seq<Seq<char>> {
    names_of_row(spec_topology(n, TOPOLOGY_CLUSTER_COUNT as nat, TOPOLOGY_REWIRE_THOUSANDTHS), i, n)
}

/// The values an event delivers into the replicated set.
pub open spec fn event_values(e: Event<DistPayload>) -> Set<u64> {
    match e {
        Event::Message(m) => match m.body.payload {
            DistPayload::Broadcast { message } => Set::empty().insert(message),
            DistPayload::Share { messages } => messages@.to_set(),
            _ => Set::empty(),
        },
        _ => Set::empty(),
    }
}

/// Receiving the same `share` twice leaves the replicated data unchanged
/// after the first: merging the same values again moves neither the set nor
/// the sender's record (only the reply counter advances, as it does for
/// every handled message). Together with `step`'s exact description of the
/// `share` transition, and its promise that a merge bringing nothing new
/// leaves the vectors untouched, a repeated `share` is a no-op.
pub proof fn lemma_share_idempotent(msgs: Set<u64>, known_src: Set<u64>, vals: Set<u64>)
    ensures
        msgs.union(vals).union(vals) == msgs.union(vals),
        known_src.union(vals).union(vals) == known_src.union(vals),
        vals <= msgs.union(vals),
        vals <= known_src.union(vals),
{
    assert(msgs.union(vals).union(vals) =~= msgs.union(vals));
    assert(known_src.union(vals).union(vals) =~= known_src.union(vals));
}

/// One delivered exchange catches a peer up. When what `a` has recorded
/// about `b` is honest evidence (everything recorded is indeed in `b`'s
/// set), then after `b` merges the share `a` emits for it, which carries
/// `a`'s set minus that record, `b` holds everything `a` holds. Repeated
/// ticks therefore drive any two connected nodes' sets together once
/// messages get through, which is the convergence step behind eventual set
/// equality; eventuality itself is a property of the network's scheduling,
/// not of one process.
pub proof fn lemma_share_exchange_covers(
    a_msgs: Set<u64>,
    a_known_b: Set<u64>,
    b_msgs: Set<u64>,
)
    requires
        a_known_b <= b_msgs,
    ensures
        a_msgs <= b_msgs.union(a_msgs.difference(a_known_b)),
{
    assert forall|x: u64| a_msgs.contains(x) implies b_msgs.union(
        a_msgs.difference(a_known_b),
    ).contains(x) by {
        if a_known_b.contains(x) {
            assert(b_msgs.contains(x));
        }
    }
}

/// Outgoing ids strictly increase within one process. A handled message's
/// reply carries the counter as it stood on arrival and leaves it one
/// higher, and no event ever lowers the counter (both are clauses of
/// `step`); so of two replies, the later carries the strictly greater id.
pub proof fn lemma_reply_ids_strictly_increase(
    first_id: u64,
    counter_after_first: int,
    counter_at_second: u64,
    second_id: u64,
)
    requires
        counter_after_first == first_id + 1,
        counter_at_second >= counter_after_first,
        second_id == counter_at_second,
    ensures
        second_id > first_id,
{
}

pub struct DistributedNode {
    pub node_id: String,
    pub local_id: u64,
    pub messages: Vec<u64>,
    pub neighbors: Vec<String>,
    pub known_by_node: Vec<KnownEntry>,
}

impl DistributedNode {
    /// The replicated set as a mathematical set.
    pub open spec fn messages_set(self) -> Set<u64> {
        self.messages@.to_set()
    }

    /// What peer `p` is known to know.
    pub open spec fn known_set(self, p: Seq<char>) -> Set<u64> {
        known_of(self.known_by_node@, p)
    }

    pub open spec fn wf(self) -> bool {
        &&& nodup(self.messages@)
        &&& wf_entries(self.known_by_node@)
        &&& forall|i: int, j: int|
            0 <= i < j < self.neighbors@.len() ==> (#[trigger] self.neighbors@[i])@ != (
            #[trigger] self.neighbors@[j])@
        &&& forall|i: int|
            0 <= i < self.neighbors@.len() ==> (#[trigger] self.neighbors@[i])@
                != self.node_id@
    }

    /// Every peer record stays inside the replicated set.
    pub open spec fn known_below(self) -> bool {
        forall|p: Seq<char>| #[trigger] self.known_set(p) <= self.messages_set()
    }

    /// A `share` the propagation tick emits on behalf of state `st`:
    /// fire-and-forget (no ids), addressed to one neighbor, carrying
    /// exactly the values that neighbor is not known to hold, and never
    /// empty.
    pub open spec fn share_out(st: DistributedNode, m: Message<DistPayload>) -> bool {
        &&& m.src@ == st.node_id@
        &&& m.body.id is None
        &&& m.body.in_reply_to is None
        &&& exists|i: int|
            0 <= i < st.neighbors@.len() && m.dest@ == (#[trigger] st.neighbors@[i])@
        &&& match m.body.payload {
            DistPayload::Share { messages } => {
                &&& messages@.to_set() == st.messages_set().difference(st.known_set(m.dest@))
                &&& nodup(messages@)
                &&& messages@.len() > 0
            },
            _ => false,
        }
    }

    /// Builds the node from the handshake: empty set, no neighbors yet, and
    /// an empty knowledge record for every announced peer.
    pub fn from_init(init: InitNodes) -> (r: DistributedNode)
        ensures
            r.wf(),
            r.known_below(),
            r.node_id == init.node_id,
            r.local_id == 1,
            r.messages@.len() == 0,
            r.neighbors@.len() == 0,
            forall|p: Seq<char>| r.known_set(p) == Set::<u64>::empty(),
            forall|p: Seq<char>|
                has_peer(r.known_by_node@, p) <==> exists|i: int|
                    0 <= i < init.node_ids@.len() && (#[trigger] init.node_ids@[i])@ == p,
    {
        let InitNodes { node_id, node_ids } = init;
        let mut known: Vec<KnownEntry> = Vec::new();
        let mut k: usize = 0;
        while k < node_ids.len()
            invariant
                0 <= k <= node_ids@.len(),
                wf_entries(known@),
                forall|p: Seq<char>| known_of(known@, p) == Set::<u64>::empty(),
                forall|p: Seq<char>|
                    has_peer(known@, p) <==> exists|i: int|
                        0 <= i < k && (#[trigger] node_ids@[i])@ == p,
            decreases node_ids@.len() - k,
        {
            find_or_insert(&mut known, &node_ids[k]);
            k += 1;
        }
        DistributedNode {
            node_id,
            local_id: 1,
            messages: Vec::new(),
            neighbors: Vec::new(),
            known_by_node: known,
        }
    }

    /// The propagation tick: one `share` per neighbor that is not known to
    /// hold the whole replicated set, carrying exactly what it is missing.
    /// A neighbor known to hold everything gets nothing, every other
    /// neighbor gets exactly one message, and the state does not change.
    #[verifier::rlimit(60)]
    pub fn propagate(&self) -> (out: Vec<Message<DistPayload>>)
        requires
            self.wf(),
        ensures
            forall|k: int| 0 <= k < out@.len() ==> Self::share_out(*self, #[trigger] out@[k]),
            forall|k1: int, k2: int|
                0 <= k1 < k2 < out@.len() ==> (#[trigger] out@[k1]).dest@ != (#[trigger] out@[
                    k2
                ]).dest@,
            forall|i: int|
                0 <= i < self.neighbors@.len() ==> (self.messages_set().subset_of(
                    self.known_set((#[trigger] self.neighbors@[i])@),
                ) <==> !exists|k: int|
                    0 <= k < out@.len() && (#[trigger] out@[k]).dest@ == self.neighbors@[i]@),
    {
        let empty_known: Vec<u64> = Vec::new();
        let mut out: Vec<Message<DistPayload>> = Vec::new();
        let mut i: usize = 0;
        while i < self.neighbors.len()
            invariant
                0 <= i <= self.neighbors@.len(),
                self.wf(),
                empty_known@ == Seq::<u64>::empty(),
                forall|k: int| 0 <= k < out@.len() ==> Self::share_out(*self, #[trigger] out@[k]),
                forall|k: int| #![trigger out@[k]]
                    0 <= k < out@.len() ==> exists|x: int|
                        0 <= x < i && out@[k].dest@ == (#[trigger] self.neighbors@[x])@,
                forall|k1: int, k2: int|
                    0 <= k1 < k2 < out@.len() ==> (#[trigger] out@[k1]).dest@ != (#[trigger] out@[
                        k2
                    ]).dest@,
                forall|x: int|
                    0 <= x < i ==> (self.messages_set().subset_of(
                        self.known_set((#[trigger] self.neighbors@[x])@),
                    ) <==> !exists|k: int|
                        0 <= k < out@.len() && (#[trigger] out@[k]).dest@
                            == self.neighbors@[x]@),
            decreases self.neighbors@.len() - i,
        {
            let peer = &self.neighbors[i];
            let found = crate::knowledge::find_peer(&self.known_by_node, peer);
            let to_send = match found {
                Some(fi) => numset::diff_vec(&self.messages, &self.known_by_node[fi].known),
                None => numset::diff_vec(&self.messages, &empty_known),
            };
            proof {
                if found is None {
                    assert(empty_known@.to_set() =~= Set::<u64>::empty());
                }
                assert(to_send@.to_set() == self.messages_set().difference(
                    self.known_set(peer@),
                ));
                assert(to_send@.len() == 0 <==> self.messages_set().subset_of(
                    self.known_set(peer@),
                ));
            }
            let ghost out_pre = out@;
            if to_send.len() > 0 {
                out.push(
                    Message {
                        src: self.node_id.clone(),
                        dest: peer.clone(),
                        body: Body {
                            id: None,
                            in_reply_to: None,
                            payload: DistPayload::Share { messages: to_send },
                        },
                    },
                );
                proof {
                    let newm = out@[out@.len() - 1];
                    assert(newm.dest@ == self.neighbors@[i as int]@);
                    assert(Self::share_out(*self, newm));
                    assert forall|k1: int, k2: int|
                        0 <= k1 < k2 < out@.len() implies (#[trigger] out@[k1]).dest@ != (
                    #[trigger] out@[k2]).dest@ by {
                        if k2 == out@.len() - 1 {
                            let x = choose|x: int|
                                0 <= x < i && out@[k1].dest@ == (#[trigger] self.neighbors@[x])@;
                            assert(self.neighbors@[x]@ != self.neighbors@[i as int]@);
                        }
                    }
                }
            }
            proof {
                assert forall|x: int|
                    0 <= x < i + 1 implies (self.messages_set().subset_of(
                        self.known_set((#[trigger] self.neighbors@[x])@),
                    ) <==> !exists|k: int|
                        0 <= k < out@.len() && (#[trigger] out@[k]).dest@
                            == self.neighbors@[x]@) by {
                    if x < i {
                        if exists|k: int|
                            0 <= k < out_pre.len() && (#[trigger] out_pre[k]).dest@
                                == self.neighbors@[x]@ {
                            let k = choose|k: int|
                                0 <= k < out_pre.len() && (#[trigger] out_pre[k]).dest@
                                    == self.neighbors@[x]@;
                            assert(out@[k].dest@ == self.neighbors@[x]@);
                        }
                        if exists|k: int|
                            0 <= k < out@.len() && (#[trigger] out@[k]).dest@
                                == self.neighbors@[x]@ {
                            let k = choose|k: int|
                                0 <= k < out@.len() && (#[trigger] out@[k]).dest@
                                    == self.neighbors@[x]@;
                            if k == out_pre.len() {
                                assert(self.neighbors@[x]@ != self.neighbors@[i as int]@);
                            }
                            assert(0 <= k < out_pre.len() && out_pre[k].dest@
                                == self.neighbors@[x]@);
                        }
                    } else {
                        if to_send@.len() > 0 {
                            assert(out@[out@.len() - 1].dest@ == self.neighbors@[i as int]@);
                        } else {
                            if exists|k: int|
                                0 <= k < out@.len() && (#[trigger] out@[k]).dest@
                                    == self.neighbors@[x]@ {
                                let k = choose|k: int|
                                    0 <= k < out@.len() && (#[trigger] out@[k]).dest@
                                        == self.neighbors@[x]@;
                                let y = choose|y: int|
                                    0 <= y < i && out@[k].dest@ == (#[trigger] self.neighbors@[
                                        y
                                    ])@;
                                assert(self.neighbors@[y]@ != self.neighbors@[i as int]@);
                            }
                        }
                    }
                }
            }
            i += 1;
        }
        return out;
    }

    /// One delivered share catches the receiver up. Let `m` be a share the
    /// tick emits on behalf of `a` (so it carries `a`'s set minus what `a`
    /// has recorded about the receiver), and let the record be honest
    /// evidence (everything recorded about the receiver is indeed in the
    /// receiver's set `b`). The receiver's `step` merges exactly the
    /// carried values into its set, and afterwards it holds everything `a`
    /// holds. Repeated ticks therefore close the gap between any two
    /// connected nodes once messages get through; eventuality itself is a
    /// property of the network's scheduling, not of one process.
    pub proof fn lemma_exchange_converges(a: DistributedNode, b: DistributedNode, m: Message<
        DistPayload,
    >)
        requires
            Self::share_out(a, m),
            a.known_set(m.dest@) <= b.messages_set(),
        ensures
            m.body.payload matches DistPayload::Share { messages } ==> a.messages_set()
                <= b.messages_set().union(messages@.to_set()),
    {
        if let DistPayload::Share { messages } = m.body.payload {
            lemma_share_exchange_covers(
                a.messages_set(),
                a.known_set(m.dest@),
                b.messages_set(),
            );
        }
    }

    /// Preservation of the record-below-set invariant when no record grows
    /// and the set does not shrink.
    proof fn lemma_known_below_still(pre: DistributedNode, post: DistributedNode)
        requires
            pre.known_below(),
            forall|p: Seq<char>| #[trigger] post.known_set(p) == pre.known_set(p),
            pre.messages_set() <= post.messages_set(),
        ensures
            post.known_below(),
    {
        assert forall|p: Seq<char>| #[trigger] post.known_set(p) <= post.messages_set() by {
            assert(pre.known_set(p) <= pre.messages_set());
        }
    }

    /// The data the handlers leave alone when they only reply.
    pub open spec fn same_data(a: DistributedNode, b: DistributedNode) -> bool {
        &&& a.messages == b.messages
        &&& a.neighbors == b.neighbors
        &&& a.known_by_node == b.known_by_node
    }

    /// Consumes one event and returns the messages to emit.
    ///
    /// A client `broadcast` inserts the value and is acknowledged; `read`
    /// answers with a snapshot of the set; `echo` and `generate` reply in
    /// kind; `topology` re-derives the small-world neighbors from the size
    /// of the supplied map and fails only when this node's id is not among
    /// the generated names; a `share` from a peer grows that peer's record
    /// and the set and is echoed back as `share_ok`; a `share_ok` grows the
    /// peer's record alone; mirrored acknowledgements are ignored. The tick
    /// (generated event) emits the shares `propagate` describes and leaves
    /// the state alone. Values are never forgotten, never invented, and no
    /// peer record ever shrinks.
    #[verifier::rlimit(100)]
    pub fn step(&mut self, event: Event<DistPayload>) -> (r: Result<
        Vec<Message<DistPayload>>,
        StepError,
    >)
        requires
            old(self).wf(),
            match event {
                Event::Message(m) => old(self).local_id < u64::MAX && match m.body.payload {
                    DistPayload::Topology { topology } => topology@.len() <= usize::MAX / 2,
                    _ => true,
                },
                _ => true,
            },
        ensures
            final(self).wf(),
            final(self).node_id == old(self).node_id,
            final(self).local_id >= old(self).local_id,
            old(self).messages_set() <= final(self).messages_set(),
            final(self).messages_set() <= old(self).messages_set().union(event_values(event)),
            forall|p: Seq<char>|
                old(self).known_set(p).subset_of(#[trigger] final(self).known_set(p)),
            (old(self).known_below() && match event {
                Event::Message(m) => match m.body.payload {
                    DistPayload::ShareOk { messages } => messages@.to_set() <= old(
                        self,
                    ).messages_set(),
                    _ => true,
                },
                _ => true,
            }) ==> final(self).known_below(),
            match event {
                Event::EndOfMessages => *final(self) == *old(self) && (r matches Ok(out)
                    && out@.len() == 0),
                Event::GeneratedEvent(_) => *final(self) == *old(self) && (r matches Ok(out) && {
                    &&& forall|k: int|
                        0 <= k < out@.len() ==> Self::share_out(*old(self), #[trigger] out@[k])
                    &&& forall|k1: int, k2: int|
                        0 <= k1 < k2 < out@.len() ==> (#[trigger] out@[k1]).dest@ != (
                        #[trigger] out@[k2]).dest@
                    &&& forall|i: int|
                        0 <= i < old(self).neighbors@.len() ==> (old(
                            self,
                        ).messages_set().subset_of(
                            old(self).known_set((#[trigger] old(self).neighbors@[i])@),
                        ) <==> !exists|k: int|
                            0 <= k < out@.len() && (#[trigger] out@[k]).dest@ == old(
                                self,
                            ).neighbors@[i]@)
                }),
                Event::Message(m) => final(self).local_id == old(self).local_id + 1 && match m
                    .body.payload {
                    DistPayload::Echo { echo } => Self::same_data(*final(self), *old(self)) && (
                    r matches Ok(out) && out@.len() == 1 && reply_to(
                        out@[0],
                        m,
                        old(self).local_id,
                    ) && (out@[0].body.payload matches DistPayload::EchoOk { echo: e } && e
                        == echo)),
                    DistPayload::Generate => Self::same_data(*final(self), *old(self)) && (
                    r matches Ok(out) && out@.len() == 1 && reply_to(
                        out@[0],
                        m,
                        old(self).local_id,
                    ) && out@[0].body.payload is GenerateOk),
                    DistPayload::Broadcast { message } => {
                        &&& final(self).messages_set() == old(self).messages_set().insert(message)
                        &&& (old(self).messages@.contains(message) ==> final(self).messages@
                            == old(self).messages@)
                        &&& (!old(self).messages@.contains(message) ==> final(self).messages@
                            == old(self).messages@.push(message))
                        &&& final(self).neighbors == old(self).neighbors
                        &&& final(self).known_by_node == old(self).known_by_node
                        &&& (r matches Ok(out) && out@.len() == 1 && reply_to(
                            out@[0],
                            m,
                            old(self).local_id,
                        ) && out@[0].body.payload is BroadcastOk)
                    },
                    DistPayload::Read => Self::same_data(*final(self), *old(self)) && (
                    r matches Ok(out) && out@.len() == 1 && reply_to(
                        out@[0],
                        m,
                        old(self).local_id,
                    ) && (out@[0].body.payload matches DistPayload::ReadOk { messages: ms } && ms@
                        == old(self).messages@)),
                    DistPayload::Topology { topology } => {
                        &&& final(self).messages == old(self).messages
                        &&& final(self).known_by_node == old(self).known_by_node
                        &&& ((exists|i: int|
                            0 <= i < topology@.len() && old(self).node_id@ == #[trigger]
                            node_name_seq(i as nat)) <==> r is Ok)
                        &&& match r {
                            Ok(out) => out@.len() == 1 && reply_to(out@[0], m, old(self).local_id)
                                && out@[0].body.payload is TopologyOk && exists|i: int|
                                0 <= i < topology@.len() && old(self).node_id@ == #[trigger]
                                node_name_seq(i as nat) && name_views(final(self).neighbors)
                                == topo_names(topology@.len() as nat, i),
                            Err(e) => e is UnknownNode && final(self).neighbors == old(
                                self,
                            ).neighbors,
                        }
                    },
                    DistPayload::Share { messages: vals } => {
                        &&& final(self).messages_set() == old(self).messages_set().union(
                            vals@.to_set(),
                        )
                        &&& final(self).known_set(m.src@) == old(self).known_set(m.src@).union(
                            vals@.to_set(),
                        )
                        &&& forall|p: Seq<char>|
                            p != m.src@ ==> #[trigger] final(self).known_set(p) == old(
                                self,
                            ).known_set(p)
                        &&& final(self).neighbors == old(self).neighbors
                        &&& (vals@.to_set() <= old(self).messages_set() ==> final(self).messages@
                            == old(self).messages@)
                        &&& ((has_peer(old(self).known_by_node@, m.src@) && vals@.to_set()
                            <= old(self).known_set(m.src@)) ==> crate::knowledge::known_views_eq(
                            final(self).known_by_node@,
                            old(self).known_by_node@,
                        ))
                        &&& (r matches Ok(out) && out@.len() == 1 && reply_to(
                            out@[0],
                            m,
                            old(self).local_id,
                        ) && (out@[0].body.payload matches DistPayload::ShareOk { messages: e } && e
                            == vals))
                    },
                    DistPayload::ShareOk { messages: vals } => {
                        &&& final(self).messages == old(self).messages
                        &&& final(self).known_set(m.src@) == old(self).known_set(m.src@).union(
                            vals@.to_set(),
                        )
                        &&& forall|p: Seq<char>|
                            p != m.src@ ==> #[trigger] final(self).known_set(p) == old(
                                self,
                            ).known_set(p)
                        &&& final(self).neighbors == old(self).neighbors
                        &&& (r matches Ok(out) && out@.len() == 0)
                    },
                    _ => Self::same_data(*final(self), *old(self)) && (r matches Ok(out)
                        && out@.len() == 0),
                },
            },
    {
        match event {
            Event::EndOfMessages => {
                proof {
                    if old(self).known_below() {
                        assert forall|p: Seq<char>| #[trigger] self.known_set(p) == old(
                            self,
                        ).known_set(p) by {}
                        Self::lemma_known_below_still(*old(self), *self);
                    }
                }
                Ok(Vec::new())
            },
            Event::GeneratedEvent(_) => {
                let out = self.propagate();
                proof {
                    if old(self).known_below() {
                        assert forall|p: Seq<char>| #[trigger] self.known_set(p) == old(
                            self,
                        ).known_set(p) by {}
                        Self::lemma_known_below_still(*old(self), *self);
                    }
                }
                Ok(out)
            },
            Event::Message(message) => {
                let reply = message.into_reply(&mut self.local_id);
                let Message { src, dest, body } = reply;
                let Body { id, in_reply_to, payload } = body;
                let mut out: Vec<Message<DistPayload>> = Vec::new();
                match payload {
                    DistPayload::Share { messages: vals } => {
                        let idx = find_or_insert(&mut self.known_by_node, &dest);
                        merge_known(&mut self.known_by_node, idx, &vals);
                        numset::merge_into(&mut self.messages, &vals);
                        proof {
                            if old(self).known_below() {
                                assert forall|p: Seq<char>| #[trigger] self.known_set(p)
                                    <= self.messages_set() by {
                                    if p == dest@ {
                                        assert(self.known_set(p) == old(self).known_set(p).union(
                                            vals@.to_set(),
                                        ));
                                    } else {
                                        assert(self.known_set(p) == old(self).known_set(p));
                                    }
                                }
                            }
                        }
                        out.push(
                            Message {
                                src,
                                dest,
                                body: Body {
                                    id,
                                    in_reply_to,
                                    payload: DistPayload::ShareOk { messages: vals },
                                },
                            },
                        );
                        Ok(out)
                    },
                    DistPayload::ShareOk { messages: vals } => {
                        let idx = find_or_insert(&mut self.known_by_node, &dest);
                        merge_known(&mut self.known_by_node, idx, &vals);
                        proof {
                            if old(self).known_below() && vals@.to_set() <= old(
                                self,
                            ).messages_set() {
                                assert forall|p: Seq<char>| #[trigger] self.known_set(p)
                                    <= self.messages_set() by {
                                    if p == dest@ {
                                        assert(self.known_set(p) == old(self).known_set(p).union(
                                            vals@.to_set(),
                                        ));
                                    } else {
                                        assert(self.known_set(p) == old(self).known_set(p));
                                    }
                                }
                            }
                        }
                        Ok(out)
                    },
                    DistPayload::Echo { echo } => {
                        proof {
                            if old(self).known_below() {
                                assert forall|p: Seq<char>| #[trigger] self.known_set(p) == old(
                                    self,
                                ).known_set(p) by {}
                                Self::lemma_known_below_still(*old(self), *self);
                            }
                        }
                        out.push(
                            Message {
                                src,
                                dest,
                                body: Body {
                                    id,
                                    in_reply_to,
                                    payload: DistPayload::EchoOk { echo },
                                },
                            },
                        );
                        Ok(out)
                    },
                    DistPayload::Generate => {
                        proof {
                            if old(self).known_below() {
                                assert forall|p: Seq<char>| #[trigger] self.known_set(p) == old(
                                    self,
                                ).known_set(p) by {}
                                Self::lemma_known_below_still(*old(self), *self);
                            }
                        }
                        let b = (self.local_id % 256) as u8;
                        let guid = mint_guid(&[b, b, b, b, b, b]);
                        out.push(
                            Message {
                                src,
                                dest,
                                body: Body {
                                    id,
                                    in_reply_to,
                                    payload: DistPayload::GenerateOk { guid },
                                },
                            },
                        );
                        Ok(out)
                    },
                    DistPayload::Broadcast { message } => {
                        numset::insert_new(&mut self.messages, message);
                        proof {
                            if old(self).known_below() {
                                assert forall|p: Seq<char>| #[trigger] self.known_set(p) == old(
                                    self,
                                ).known_set(p) by {}
                                assert(old(self).messages_set() <= self.messages_set());
                                Self::lemma_known_below_still(*old(self), *self);
                            }
                        }
                        out.push(
                            Message {
                                src,
                                dest,
                                body: Body { id, in_reply_to, payload: DistPayload::BroadcastOk },
                            },
                        );
                        Ok(out)
                    },
                    DistPayload::Read => {
                        proof {
                            if old(self).known_below() {
                                assert forall|p: Seq<char>| #[trigger] self.known_set(p) == old(
                                    self,
                                ).known_set(p) by {}
                                Self::lemma_known_below_still(*old(self), *self);
                            }
                        }
                        let snapshot = numset::copy_vec(&self.messages);
                        out.push(
                            Message {
                                src,
                                dest,
                                body: Body {
                                    id,
                                    in_reply_to,
                                    payload: DistPayload::ReadOk { messages: snapshot },
                                },
                            },
                        );
                        Ok(out)
                    },
                    DistPayload::Topology { topology } => {
                        let n = topology.len();
                        let ghost g = spec_topology(
                            n as nat,
                            TOPOLOGY_CLUSTER_COUNT as nat,
                            TOPOLOGY_REWIRE_THOUSANDTHS,
                        );
                        let mut map = generate_small_world_topology(
                            n,
                            TOPOLOGY_CLUSTER_COUNT,
                            TOPOLOGY_REWIRE_THOUSANDTHS,
                        );
                        let mut fi: usize = 0;
                        while fi < n
                            invariant
                                0 <= fi <= n,
                                self.wf(),
                                self.node_id == old(self).node_id,
                                self.local_id == old(self).local_id + 1,
                                self.messages == old(self).messages,
                                self.known_by_node == old(self).known_by_node,
                                self.neighbors == old(self).neighbors,
                                out@.len() == 0,
                                g == spec_topology(
                                    n as nat,
                                    TOPOLOGY_CLUSTER_COUNT as nat,
                                    TOPOLOGY_REWIRE_THOUSANDTHS,
                                ),
                                match event {
                                    Event::Message(m) => src == m.dest && dest == m.src && id
                                        == Some(old(self).local_id) && in_reply_to == m.body.id
                                        && match m.body.payload {
                                        DistPayload::Topology { topology } => topology@.len() == n,
                                        _ => false,
                                    },
                                    _ => false,
                                },
                                map@.len() == n,
                                forall|x: int|
                                    0 <= x < n ==> (#[trigger] map@[x]).0@ == node_name_seq(
                                        x as nat,
                                    ),
                                forall|x: int|
                                    0 <= x < n ==> name_views((#[trigger] map@[x]).1)
                                        == names_of_row(g, x, n as nat),
                                forall|x: int| 0 <= x < fi ==> (#[trigger] map@[x]).0@
                                    != self.node_id@,
                            decreases n - fi,
                        {
                            if map[fi].0.eq(&self.node_id) {
                                let entry = map.swap_remove(fi);
                                proof {
                                    crate::topology::lemma_names_of_row_distinct(
                                        g,
                                        fi as int,
                                        n as nat,
                                    );
                                    assert(self.node_id@ == node_name_seq(fi as nat));
                                }
                                self.neighbors = entry.1;
                                proof {
                                    assert(name_views(self.neighbors) == names_of_row(
                                        g,
                                        fi as int,
                                        n as nat,
                                    ));
                                    assert forall|a: int, b: int|
                                        0 <= a < b < self.neighbors@.len() implies (
                                    #[trigger] self.neighbors@[a])@ != (
                                    #[trigger] self.neighbors@[b])@ by {
                                        assert(name_views(self.neighbors)[a]
                                            == self.neighbors@[a]@);
                                        assert(name_views(self.neighbors)[b]
                                            == self.neighbors@[b]@);
                                    }
                                    assert forall|a: int|
                                        0 <= a < self.neighbors@.len() implies (
                                    #[trigger] self.neighbors@[a])@ != self.node_id@ by {
                                        assert(name_views(self.neighbors)[a]
                                            == self.neighbors@[a]@);
                                        if self.neighbors@[a]@ == self.node_id@ {
                                            assert(names_of_row(g, fi as int, n as nat).contains(
                                                node_name_seq(fi as nat),
                                            ));
                                        }
                                    }
                                }
                                proof {
                                    if old(self).known_below() {
                                        assert forall|p: Seq<char>| #[trigger] self.known_set(p)
                                            <= self.messages_set() by {
                                            assert(self.known_set(p) == old(self).known_set(p));
                                        }
                                    }
                                }
                                out.push(
                                    Message {
                                        src,
                                        dest,
                                        body: Body {
                                            id,
                                            in_reply_to,
                                            payload: DistPayload::TopologyOk,
                                        },
                                    },
                                );
                                return Ok(out);
                            }
                            fi += 1;
                        }
                        proof {
                            assert forall|i: int|
                                0 <= i < n implies old(self).node_id@ != #[trigger] node_name_seq(
                                i as nat,
                            ) by {
                                assert(map@[i].0@ == node_name_seq(i as nat));
                            }
                        }
                        Err(StepError::UnknownNode)
                    },
                    DistPayload::EchoOk { .. } => {
                        proof {
                            if old(self).known_below() {
                                assert forall|p: Seq<char>| #[trigger] self.known_set(p) == old(
                                    self,
                                ).known_set(p) by {}
                                Self::lemma_known_below_still(*old(self), *self);
                            }
                        }
                        Ok(out)
                    },
                    DistPayload::GenerateOk { .. } => {
                        proof {
                            if old(self).known_below() {
                                assert forall|p: Seq<char>| #[trigger] self.known_set(p) == old(
                                    self,
                                ).known_set(p) by {}
                                Self::lemma_known_below_still(*old(self), *self);
                            }
                        }
                        Ok(out)
                    },
                    DistPayload::BroadcastOk => {
                        proof {
                            if old(self).known_below() {
                                assert forall|p: Seq<char>| #[trigger] self.known_set(p) == old(
                                    self,
                                ).known_set(p) by {}
                                Self::lemma_known_below_still(*old(self), *self);
                            }
                        }
                        Ok(out)
                    },
                    DistPayload::ReadOk { .. } => {
                        proof {
                            if old(self).known_below() {
                                assert forall|p: Seq<char>| #[trigger] self.known_set(p) == old(
                                    self,
                                ).known_set(p) by {}
                                Self::lemma_known_below_still(*old(self), *self);
                            }
                        }
                        Ok(out)
                    },
                    DistPayload::TopologyOk => {
                        proof {
                            if old(self).known_below() {
                                assert forall|p: Seq<char>| #[trigger] self.known_set(p) == old(
                                    self,
                                ).known_set(p) by {}
                                Self::lemma_known_below_still(*old(self), *self);
                            }
                        }
                        Ok(out)
                    },

                }
            },
        }
    }
}

} // verus!
