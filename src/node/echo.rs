//! A node that answers each echo request with the same text.
use vstd::prelude::*;

use crate::message::{EchoPayload, Init, Message};
use crate::Node;

verus! {

/// The echo node: its id and its message-id counter.
pub struct EchoNode {
    pub node_id: String,
    pub id: usize,
}

impl Node<EchoPayload> for EchoNode {
    open spec fn inv(&self) -> bool {
        true
    }

    open spec fn counter(&self) -> usize {
        self.id
    }

    open spec fn room(&self) -> bool {
        self.id < usize::MAX
    }

    /// One reply per message: an echo request is answered by an echo
    /// answer with the same text; anything else is sent back as it came.
    open spec fn handled(
        pre: Self,
        m: Message<EchoPayload>,
        post: Self,
        out: Seq<Message<EchoPayload>>,
    ) -> bool {
        &&& post.node_id == pre.node_id
        &&& post.id == pre.id + 1
        &&& out.len() == 1
        &&& out[0].src == m.dst
        &&& out[0].dst == m.src
        &&& out[0].body.id == Some(pre.id)
        &&& out[0].body.in_reply_to == m.body.id
        &&& out[0].body.payload == match m.body.payload {
            EchoPayload::Echo(e) => EchoPayload::EchoOk(e),
            EchoPayload::EchoOk(e) => EchoPayload::EchoOk(e),
        }
    }

    open spec fn swept(pre: Self, post: Self, out: Seq<Message<EchoPayload>>) -> bool {
        post == pre && out.len() == 0
    }

    fn from_init(init: &Init) -> (r: Self)
        ensures
            r.node_id@ == init.node_id@,
    {
        EchoNode { node_id: init.node_id.clone(), id: 0 }
    }

    fn has_room(&self) -> (r: bool) {
        self.id < usize::MAX
    }

    fn process(&mut self, message: Message<EchoPayload>) -> (out: Vec<Message<EchoPayload>>) {
        let mut reply = message.into_reply(Some(&mut self.id));
        let payload = match reply.body.payload {
            EchoPayload::Echo(e) => EchoPayload::EchoOk(e),
            EchoPayload::EchoOk(e) => EchoPayload::EchoOk(e),
        };
        reply.body.payload = payload;
        let mut out = Vec::new();
        out.push(reply);
        out
    }

    fn on_timeout(&mut self) -> (out: Vec<Message<EchoPayload>>) {
        Vec::new()
    }

    fn id(&mut self) -> (r: &mut usize) {
        &mut self.id
    }
}

} // verus!
