//! The request/reply envelope shared by every node kind.
use vstd::prelude::*;

verus! {

/// An envelope: sender, recipient and a body.
#[derive(Debug)]
pub struct Message<Payload> {
    pub src: String,
    pub dst: String,
    pub body: Body<Payload>,
}

/// A body: the correlation id of this message, the id of the request it
/// answers, and the payload.
#[derive(Debug)]
pub struct Body<Payload> {
    pub id: Option<usize>,
    pub in_reply_to: Option<usize>,
    pub payload: Payload,
}

impl<Payload> Message<Payload> {
    /// The reply to this message: sender and recipient swap, the reply
    /// answers this message's id, the payload is carried over, and the
    /// reply's own id is taken from the counter `id` when one is given.
    pub fn into_reply(self, id: Option<&mut usize>) -> (r: Self)
        requires
            id matches Some(c) ==> *c < usize::MAX,
        ensures
            r.src == self.dst,
            r.dst == self.src,
            r.body.in_reply_to == self.body.id,
            r.body.payload == self.body.payload,
            id matches Some(c) ==> r.body.id == Some(*c) && *final(c) == *c + 1,
            id is None ==> r.body.id is None,
    {
        let new_id = match id {
            Some(c) => {
                let mid = *c;
                *c = mid + 1;
                Some(mid)
            },
            None => None,
        };
        Message {
            src: self.dst,
            dst: self.src,
            body: Body { id: new_id, in_reply_to: self.body.id, payload: self.body.payload },
        }
    }
}

/// The handshake's payload: the request and its acknowledgement.
#[derive(Debug)]
pub enum InitPayload {
    Init(Init),
    InitOk,
}

/// This node's id and the roster of every node in the cluster.
#[derive(Debug)]
pub struct Init {
    pub node_id: String,
    pub node_ids: Vec<String>,
}

/// The echo node's payload: a request and its answer, which carry the same text.
#[derive(Debug)]
pub enum EchoPayload {
    Echo(Echo),
    EchoOk(Echo),
}

/// The text that an echo request carries.
#[derive(Debug)]
pub struct Echo {
    pub echo: String,
}

} // verus!
