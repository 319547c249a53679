//! Wire types and reply construction.
//!
//! A message is one JSON object per line on the wire; here it is the plain
//! value the I/O shell decodes it into. A body carries an optional outgoing
//! id, an optional correlation id, and the workload payload. Replies swap
//! source and destination, take the next outgoing id, and point
//! `in_reply_to` at the request's id.

use vstd::prelude::*;

verus! {

/// The payload of the handshake that opens every session.
pub struct InitNodes {
    pub node_id: String,
    pub node_ids: Vec<String>,
}

pub struct Body<Payload> {
    pub id: Option<u64>,
    pub in_reply_to: Option<u64>,
    pub payload: Payload,
}

pub struct Message<Payload> {
    pub src: String,
    pub dest: String,
    pub body: Body<Payload>,
}

/// What the event loop hands the node: a decoded message, an internally
/// generated payload (a timer tick), or the end of input.
pub enum Event<Payload> {
    Message(Message<Payload>),
    GeneratedEvent(Payload),
    EndOfMessages,
}

/// The handshake payload: the first inbound message must carry `Init`.
pub enum InitPayload {
    Init(InitNodes),
    InitOk,
}

/// The session is fatal before it starts when the first message is not an
/// `init`.
#[derive(Debug)]
pub enum ProtocolError {
    NotInit,
}

/// The reply shape every response has: source and destination swapped, the
/// given outgoing id, and correlation to the request's id.
pub open spec fn reply_to<P>(r: Message<P>, m: Message<P>, id: u64) -> bool {
    &&& r.src == m.dest
    &&& r.dest == m.src
    &&& r.body.id == Some(id)
    &&& r.body.in_reply_to == m.body.id
}

impl<Payload> Message<Payload> {
    /// Turn a message into a reply: source and destination swap, the reply
    /// takes the current outgoing id and correlates to the request's id, and
    /// the counter moves forward exactly once.
    pub fn into_reply(self, id: &mut u64) -> (r: Message<Payload>)
        requires
            *old(id) < u64::MAX,
        ensures
            r.src == self.dest,
            r.dest == self.src,
            r.body.id == Some(*old(id)),
            r.body.in_reply_to == self.body.id,
            r.body.payload == self.body.payload,
            *final(id) == *old(id) + 1,
    {
        let Message { src, dest, body } = self;
        let Body { id: req_id, in_reply_to: _, payload } = body;
        let out = Message {
            src: dest,
            dest: src,
            body: Body { id: Some(*id), in_reply_to: req_id, payload },
        };
        *id = *id + 1;
        return out;
    }
}

/// Opens the session: accepts the decoded first message, and returns the
/// init data together with the `init_ok` reply, which carries outgoing id 0
/// and correlates to the request. Any other first message is the fatal
/// protocol violation.
pub fn handle_init(msg: Message<InitPayload>) -> (r: Result<
    (InitNodes, Message<InitPayload>),
    ProtocolError,
>)
    ensures
        msg.body.payload is Init <==> r is Ok,
        match r {
            Ok(p) => {
                &&& msg.body.payload matches InitPayload::Init(init) && p.0 == init
                &&& p.1.src == msg.dest
                &&& p.1.dest == msg.src
                &&& p.1.body.id == Some(0u64)
                &&& p.1.body.in_reply_to == msg.body.id
                &&& p.1.body.payload is InitOk
            },
            Err(e) => e is NotInit,
        },
{
    let Message { src, dest, body } = msg;
    let Body { id, in_reply_to: _, payload } = body;
    match payload {
        InitPayload::Init(init) => {
            let reply = Message {
                src: dest,
                dest: src,
                body: Body { id: Some(0), in_reply_to: id, payload: InitPayload::InitOk },
            };
            Ok((init, reply))
        },
        InitPayload::InitOk => Err(ProtocolError::NotInit),
    }
}

} // verus!
