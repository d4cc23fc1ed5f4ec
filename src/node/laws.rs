//! What holds of the broadcast node across steps: idempotent learning,
//! redundant gossip until evidence, no gossip to itself or back to the
//! origin of a value, and delivery over one hop.
use vstd::prelude::*;

use crate::message::Message;
use crate::node::broadcast::{
    absorb, is_gossip, lemma_push_contains, missing, plan, with_value, BroadcastNode,
    BroadcastPayload,
};
use crate::Node;

verus! {

/// `p` brings the value `v`.
pub open spec fn carries(p: BroadcastPayload, v: usize) -> bool {
    match p {
        BroadcastPayload::Broadcast { message } => message == v,
        BroadcastPayload::Gossip { messages } => messages@.contains(v),
        _ => false,
    }
}

/// `p` brings `v` and nothing else.
pub open spec fn carries_only(p: BroadcastPayload, v: usize) -> bool {
    match p {
        BroadcastPayload::Broadcast { message } => message == v,
        BroadcastPayload::Gossip { messages } => forall|i: int|
            0 <= i < messages@.len() ==> messages@[i] == v,
        _ => false,
    }
}

/// `m` is a gossip message to `dst` whose batch holds `v`.
pub open spec fn gossips(m: Message<BroadcastPayload>, dst: Seq<char>, v: usize) -> bool {
    &&& m.dst@ == dst
    &&& m.body.payload matches BroadcastPayload::Gossip { messages } && messages@.contains(v)
}

/// After absorbing a batch the values are those held before and those of the batch.
proof fn lemma_absorb_contains(vals: Seq<usize>, batch: Seq<usize>)
    ensures
        forall|x: usize| #[trigger]
            absorb(vals, batch).contains(x) <==> (vals.contains(x) || batch.contains(x)),
    decreases batch.len(),
{
    if batch.len() > 0 {
        let rest = absorb(vals, batch.drop_last());
        lemma_absorb_contains(vals, batch.drop_last());
        lemma_push_contains(rest, batch.last());
        lemma_push_contains(batch.drop_last(), batch.last());
        assert(batch.drop_last().push(batch.last()) == batch);
    }
}

/// A batch whose values are all held changes nothing.
proof fn lemma_absorb_held(vals: Seq<usize>, batch: Seq<usize>)
    requires
        forall|i: int| 0 <= i < batch.len() ==> vals.contains(#[trigger] batch[i]),
    ensures
        absorb(vals, batch) == vals,
    decreases batch.len(),
{
    if batch.len() > 0 {
        lemma_absorb_held(vals, batch.drop_last());
        assert(vals.contains(batch[batch.len() - 1]));
    }
}

/// A value is missing for a peer exactly when it is held and the peer is
/// not known to hold it.
proof fn lemma_missing_contains(vals: Seq<usize>, known: Set<(Seq<char>, usize)>, peer: Seq<char>)
    ensures
        forall|v: usize| #[trigger]
            missing(vals, known, peer).contains(v) <==> (vals.contains(v) && !known.contains(
                (peer, v),
            )),
    decreases vals.len(),
{
    if vals.len() > 0 {
        let rest = missing(vals.drop_last(), known, peer);
        lemma_missing_contains(vals.drop_last(), known, peer);
        lemma_push_contains(rest, vals.last());
        lemma_push_contains(vals.drop_last(), vals.last());
        assert(vals.drop_last().push(vals.last()) == vals);
    }
}

/// Each batch of a sweep goes to a neighbour and holds what that neighbour
/// lacks; each neighbour that lacks something gets a batch.
proof fn lemma_plan(nbrs: Seq<Seq<char>>, vals: Seq<usize>, known: Set<(Seq<char>, usize)>)
    ensures
        forall|i: int|
            0 <= i < plan(nbrs, vals, known).len() ==> nbrs.contains(
                #[trigger] plan(nbrs, vals, known)[i].0,
            ) && plan(nbrs, vals, known)[i].1 == missing(
                vals,
                known,
                plan(nbrs, vals, known)[i].0,
            ),
        forall|n: Seq<char>|
            nbrs.contains(n) && #[trigger] missing(vals, known, n).len() > 0 ==> exists|i: int|
                0 <= i < plan(nbrs, vals, known).len() && #[trigger] plan(nbrs, vals, known)[i].0
                    == n,
    decreases nbrs.len(),
{
    if nbrs.len() > 0 {
        let init = nbrs.drop_last();
        lemma_plan(init, vals, known);
        lemma_push_contains(init, nbrs.last());
        assert(init.push(nbrs.last()) == nbrs);
        let rest = plan(init, vals, known);
        let p = plan(nbrs, vals, known);
        assert forall|i: int| 0 <= i < p.len() implies nbrs.contains(#[trigger] p[i].0) && p[i].1
            == missing(vals, known, p[i].0) by {
            if i < rest.len() {
                assert(p[i] == rest[i]);
            }
        }
        assert forall|n: Seq<char>|
            nbrs.contains(n) && #[trigger] missing(vals, known, n).len() > 0 implies exists|i: int|
                0 <= i < p.len() && #[trigger] p[i].0 == n by {
            if n == nbrs.last() {
                assert(p[p.len() - 1].0 == n);
            } else {
                assert(init.contains(n));
                let i = choose|i: int| 0 <= i < rest.len() && #[trigger] rest[i].0 == n;
                assert(p[i] == rest[i]);
            }
        }
    }
}

/// Learning a value a second time, by broadcast or by gossip and from any
/// sender, leaves the values as they were after the first time.
pub proof fn idempotent_learning(
    pre: BroadcastNode,
    m1: Message<BroadcastPayload>,
    mid: BroadcastNode,
    out1: Seq<Message<BroadcastPayload>>,
    m2: Message<BroadcastPayload>,
    post: BroadcastNode,
    out2: Seq<Message<BroadcastPayload>>,
    v: usize,
)
    requires
        BroadcastNode::handled(pre, m1, mid, out1),
        BroadcastNode::handled(mid, m2, post, out2),
        carries(m1.body.payload, v),
        carries_only(m2.body.payload, v),
    ensures
        post.values() == mid.values(),
{
    match m1.body.payload {
        BroadcastPayload::Broadcast { message } => {
            assert(with_value(pre.values(), v).contains(v)) by {
                if !pre.values().contains(v) {
                    assert(pre.values().push(v)[pre.values().len() as int] == v);
                }
            }
        },
        BroadcastPayload::Gossip { messages } => {
            lemma_absorb_contains(pre.values(), messages@);
        },
        _ => {},
    }
    assert(mid.values().contains(v));
    match m2.body.payload {
        BroadcastPayload::Gossip { messages } => {
            lemma_absorb_held(mid.values(), messages@);
        },
        _ => {},
    }
}

/// A read reports every value once.
pub proof fn read_without_duplicates(
    pre: BroadcastNode,
    m: Message<BroadcastPayload>,
    post: BroadcastNode,
    out: Seq<Message<BroadcastPayload>>,
)
    requires
        pre.wf(),
        BroadcastNode::handled(pre, m, post, out),
        m.body.payload is Read,
    ensures
        out[0].body.payload matches BroadcastPayload::ReadOk { messages }
            && messages@.no_duplicates() && messages@.to_set() == pre.values().to_set(),
{
}

/// Sending teaches nothing: a value that a neighbour is not known to hold
/// is gossiped to it by a sweep, and again by the sweep after.
pub proof fn resent_until_shown(
    pre: BroadcastNode,
    mid: BroadcastNode,
    out1: Seq<Message<BroadcastPayload>>,
    post: BroadcastNode,
    out2: Seq<Message<BroadcastPayload>>,
    n: Seq<char>,
    v: usize,
)
    requires
        BroadcastNode::swept(pre, mid, out1),
        BroadcastNode::swept(mid, post, out2),
        pre.values().contains(v),
        pre.neighbor_list().contains(n),
        !pre.known().contains((n, v)),
    ensures
        exists|i: int| 0 <= i < out1.len() && #[trigger] gossips(out1[i], n, v),
        exists|i: int| 0 <= i < out2.len() && #[trigger] gossips(out2[i], n, v),
{
    let p = plan(pre.neighbor_list(), pre.values(), pre.known());
    lemma_missing_contains(pre.values(), pre.known(), n);
    lemma_plan(pre.neighbor_list(), pre.values(), pre.known());
    assert(missing(pre.values(), pre.known(), n).contains(v));
    assert(missing(pre.values(), pre.known(), n).len() > 0);
    let i = choose|i: int| 0 <= i < p.len() && #[trigger] p[i].0 == n;
    assert(is_gossip(out1[i], pre.me(), p[i].0, (pre.next_id() + i) as usize, p[i].1));
    assert(gossips(out1[i], n, v));
    assert(gossips(out2[i], n, v)) by {
        assert(is_gossip(out2[i], mid.me(), p[i].0, (mid.next_id() + i) as usize, p[i].1));
    }
}

/// A sweep never gossips to the node itself.
pub proof fn no_gossip_to_self(pre: BroadcastNode, post: BroadcastNode, out: Seq<Message<BroadcastPayload>>)
    requires
        pre.wf(),
        BroadcastNode::swept(pre, post, out),
    ensures
        forall|i: int| 0 <= i < out.len() ==> (#[trigger] out[i]).dst@ != pre.me(),
{
    let p = plan(pre.neighbor_list(), pre.values(), pre.known());
    lemma_plan(pre.neighbor_list(), pre.values(), pre.known());
    assert forall|i: int| 0 <= i < out.len() implies (#[trigger] out[i]).dst@ != pre.me() by {
        assert(is_gossip(out[i], pre.me(), p[i].0, (pre.next_id() + i) as usize, p[i].1));
        assert(pre.neighbor_list().contains(p[i].0));
    }
}

/// A value that came from a peer, by gossip or by a broadcast from a node
/// on the roster, is not gossiped back to that peer by the next sweep.
pub proof fn no_gossip_back_to_origin(
    pre: BroadcastNode,
    m: Message<BroadcastPayload>,
    mid: BroadcastNode,
    out1: Seq<Message<BroadcastPayload>>,
    post: BroadcastNode,
    out2: Seq<Message<BroadcastPayload>>,
    v: usize,
)
    requires
        BroadcastNode::handled(pre, m, mid, out1),
        BroadcastNode::swept(mid, post, out2),
        carries(m.body.payload, v),
        m.body.payload is Gossip || pre.roster().contains(m.src@),
    ensures
        forall|i: int| 0 <= i < out2.len() ==> !(#[trigger] gossips(out2[i], m.src@, v)),
{
    assert(mid.known().contains((m.src@, v)));
    let p = plan(mid.neighbor_list(), mid.values(), mid.known());
    lemma_plan(mid.neighbor_list(), mid.values(), mid.known());
    assert forall|i: int| 0 <= i < out2.len() implies !(#[trigger] gossips(out2[i], m.src@, v)) by {
        assert(is_gossip(out2[i], mid.me(), p[i].0, (mid.next_id() + i) as usize, p[i].1));
        lemma_missing_contains(mid.values(), mid.known(), p[i].0);
    }
}

/// Delivery over one hop: when a neighbour handles the gossip a sweep sent
/// it, the neighbour holds every value the sender held and did not know it
/// to hold.
pub proof fn one_hop_delivery(
    a_pre: BroadcastNode,
    a_post: BroadcastNode,
    sent: Seq<Message<BroadcastPayload>>,
    i: int,
    b_pre: BroadcastNode,
    b_post: BroadcastNode,
    b_out: Seq<Message<BroadcastPayload>>,
    v: usize,
)
    requires
        BroadcastNode::swept(a_pre, a_post, sent),
        0 <= i < sent.len(),
        BroadcastNode::handled(b_pre, sent[i], b_post, b_out),
        a_pre.values().contains(v),
        !a_pre.known().contains((sent[i].dst@, v)),
    ensures
        b_post.values().contains(v),
{
    let p = plan(a_pre.neighbor_list(), a_pre.values(), a_pre.known());
    assert(is_gossip(sent[i], a_pre.me(), p[i].0, (a_pre.next_id() + i) as usize, p[i].1));
    lemma_plan(a_pre.neighbor_list(), a_pre.values(), a_pre.known());
    lemma_missing_contains(a_pre.values(), a_pre.known(), p[i].0);
    match sent[i].body.payload {
        BroadcastPayload::Gossip { messages } => {
            lemma_absorb_contains(b_pre.values(), messages@);
        },
        _ => {},
    }
}

} // verus!
