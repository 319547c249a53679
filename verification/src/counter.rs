//! The counter workload: a node holding one global value that `add`
//! requests raise and `read` requests report.

use vstd::prelude::*;

use crate::protocol::{Body, Event, InitNodes, Message, reply_to};

verus! {

pub enum CounterPayload {
    Add { delta: u64 },
    AddOk,
    Read,
    ReadOk { value: u64 },
}

pub struct GlobalCounterNode {
    pub node_id: String,
    pub local_id: u64,
    pub global_value: u64,
}

impl GlobalCounterNode {
    /// Builds the node from the handshake: the counter starts at 1, as does
    /// the outgoing id counter (id 0 went to the `init_ok`).
    pub fn from_init(init: InitNodes) -> (r: GlobalCounterNode)
        ensures
            r.node_id == init.node_id,
            r.local_id == 1,
            r.global_value == 1,
    {
        GlobalCounterNode { node_id: init.node_id, local_id: 1, global_value: 1 }
    }

    /// Consumes one event. An `add` raises the value by the delta and is
    /// acknowledged; a `read` reports the current value; acknowledgement
    /// payloads mirrored back by the harness are ignored. Every handled
    /// message advances the outgoing id by one, replies carry the id the
    /// counter had on arrival, and the global value never moves except by
    /// the requested delta.
    pub fn step(&mut self, event: Event<CounterPayload>) -> (out: Vec<Message<CounterPayload>>)
        requires
            match event {
                Event::Message(m) => old(self).local_id < u64::MAX && match m.body.payload {
                    CounterPayload::Add { delta } => old(self).global_value + delta <= u64::MAX,
                    _ => true,
                },
                _ => true,
            },
        ensures
            final(self).node_id == old(self).node_id,
            match event {
                Event::EndOfMessages => *final(self) == *old(self) && out@.len() == 0,
                Event::GeneratedEvent(_) => *final(self) == *old(self) && out@.len() == 0,
                Event::Message(m) => {
                    &&& final(self).local_id == old(self).local_id + 1
                    &&& match m.body.payload {
                        CounterPayload::Add { delta } => {
                            &&& final(self).global_value == old(self).global_value + delta
                            &&& out@.len() == 1
                            &&& reply_to(out@[0], m, old(self).local_id)
                            &&& out@[0].body.payload is AddOk
                        },
                        CounterPayload::Read => {
                            &&& final(self).global_value == old(self).global_value
                            &&& out@.len() == 1
                            &&& reply_to(out@[0], m, old(self).local_id)
                            &&& out@[0].body.payload matches CounterPayload::ReadOk { value }
                                && value == old(self).global_value
                        },
                        _ => final(self).global_value == old(self).global_value && out@.len()
                            == 0,
                    }
                },
            },
    {
        let mut out: Vec<Message<CounterPayload>> = Vec::new();
        match event {
            Event::EndOfMessages => {},
            Event::GeneratedEvent(_) => {},
            Event::Message(message) => {
                let reply = message.into_reply(&mut self.local_id);
                let Message { src, dest, body } = reply;
                let Body { id, in_reply_to, payload } = body;
                match payload {
                    CounterPayload::Read => {
                        out.push(
                            Message {
                                src,
                                dest,
                                body: Body {
                                    id,
                                    in_reply_to,
                                    payload: CounterPayload::ReadOk { value: self.global_value },
                                },
                            },
                        );
                    },
                    CounterPayload::Add { delta } => {
                        self.global_value = self.global_value + delta;
                        out.push(
                            Message {
                                src,
                                dest,
                                body: Body { id, in_reply_to, payload: CounterPayload::AddOk },
                            },
                        );
                    },
                    _ => {},
                }
            },
        }
        return out;
    }
}

} // verus!
