//! The broadcast node: it keeps the values it has learned, the neighbours
//! it gossips to, and what each peer is known to hold, and pushes values
//! toward the neighbours that are not known to hold them.
use vstd::prelude::*;

use crate::message::{Body, Init, Message};
use crate::Node;

verus! {

/// One node's entry in a topology assignment: its id and its neighbours.
#[derive(Debug)]
pub struct Adjacency {
    pub node: String,
    pub neighbors: Vec<String>,
}

/// The broadcast node's payload.
#[derive(Debug)]
pub enum BroadcastPayload {
    Broadcast { message: usize },
    BroadcastOk,
    Read,
    ReadOk { messages: Vec<usize> },
    Topology { topology: Vec<Adjacency> },
    TopologyOk,
    Gossip { messages: Vec<usize> },
    GossipOk,
}

/// The broadcast node's state.
pub struct BroadcastNode {
    node_id: String,
    node_ids: Vec<String>,
    id: usize,
    /// Every value learned, each once, in the order learned.
    vals: Vec<usize>,
    /// The peers to gossip to, each once.
    neighbors: Vec<String>,
    /// Pairs (peer, value): the peer has shown that it holds the value.
    known: Vec<(String, usize)>,
}

/// The character sequences of a list of strings.
pub open spec fn names(s: Seq<String>) -> Seq<Seq<char>> {
    s.map_values(|x: String| x@)
}

/// The values of `vals`, in order, that `peer` is not known to hold.
pub open spec fn missing(vals: Seq<usize>, known: Set<(Seq<char>, usize)>, peer: Seq<char>) -> Seq<usize>
    decreases vals.len(),
{
    if vals.len() == 0 {
        seq![]
    } else {
        let rest = missing(vals.drop_last(), known, peer);
        if known.contains((peer, vals.last())) {
            rest
        } else {
            rest.push(vals.last())
        }
    }
}

/// `vals` with `v` appended, unless it holds `v` already.
pub open spec fn with_value(vals: Seq<usize>, v: usize) -> Seq<usize> {
    if vals.contains(v) {
        vals
    } else {
        vals.push(v)
    }
}

/// `vals` with each value of `batch` that it lacks appended, in the batch's order.
pub open spec fn absorb(vals: Seq<usize>, batch: Seq<usize>) -> Seq<usize>
    decreases batch.len(),
{
    if batch.len() == 0 {
        vals
    } else {
        with_value(absorb(vals, batch.drop_last()), batch.last())
    }
}

/// The neighbours that `topology` assigns to `me`.
pub open spec fn assigned(topology: Seq<Adjacency>, me: Seq<char>) -> Set<Seq<char>> {
    Set::new(
        |n: Seq<char>|
            exists|i: int|
                0 <= i < topology.len() && topology[i].node@ == me && names(
                    topology[i].neighbors@,
                ).contains(n),
    )
}

/// The pairs saying that `peer` holds each value of `batch`.
pub open spec fn shown_by(peer: Seq<char>, batch: Seq<usize>) -> Set<(Seq<char>, usize)> {
    Set::new(|pv: (Seq<char>, usize)| pv.0 == peer && batch.contains(pv.1))
}

/// `r` answers `m` with id `id`: sender and recipient swapped.
pub open spec fn is_reply(r: Message<BroadcastPayload>, m: Message<BroadcastPayload>, id: usize) -> bool {
    &&& r.src == m.dst
    &&& r.dst == m.src
    &&& r.body.id == Some(id)
    &&& r.body.in_reply_to == m.body.id
}

/// The acknowledgements, which call for no answer.
pub open spec fn is_ack(p: BroadcastPayload) -> bool {
    ||| p is BroadcastOk
    ||| p is ReadOk
    ||| p is TopologyOk
    ||| p is GossipOk
}

/// The gossip batches of one sweep: for each neighbour in order, the values
/// it is not known to hold, leaving out the neighbours that lack none.
pub open spec fn plan(
    nbrs: Seq<Seq<char>>,
    vals: Seq<usize>,
    known: Set<(Seq<char>, usize)>,
) -> Seq<(Seq<char>, Seq<usize>)>
    decreases nbrs.len(),
{
    if nbrs.len() == 0 {
        seq![]
    } else {
        let rest = plan(nbrs.drop_last(), vals, known);
        let batch = missing(vals, known, nbrs.last());
        if batch.len() == 0 {
            rest
        } else {
            rest.push((nbrs.last(), batch))
        }
    }
}

/// `m` is a gossip message from `src` to `dst`, with id `id`, that answers
/// nothing and carries `batch`.
pub open spec fn is_gossip(
    m: Message<BroadcastPayload>,
    src: Seq<char>,
    dst: Seq<char>,
    id: usize,
    batch: Seq<usize>,
) -> bool {
    &&& m.src@ == src
    &&& m.dst@ == dst
    &&& m.body.id == Some(id)
    &&& m.body.in_reply_to is None
    &&& m.body.payload matches BroadcastPayload::Gossip { messages } && messages@ == batch
}

/// A sequence with `x` appended holds what it held, and `x`.
pub(crate) proof fn lemma_push_contains<A>(s: Seq<A>, x: A)
    ensures
        forall|n: A| #[trigger] s.push(x).contains(n) <==> (s.contains(n) || n == x),
{
    assert forall|n: A| #[trigger] s.push(x).contains(n) <==> (s.contains(n) || n == x) by {
        if s.contains(n) {
            let k = choose|k: int| 0 <= k < s.len() && s[k] == n;
            assert(s.push(x)[k] == n);
        }
        if n == x {
            assert(s.push(x)[s.len() as int] == n);
        }
        if s.push(x).contains(n) {
            let k = choose|k: int| 0 <= k < s.len() + 1 && s.push(x)[k] == n;
            if k < s.len() {
                assert(s[k] == n);
            }
        }
    }
}

impl BroadcastNode {
    /// This node's id.
    pub closed spec fn me(&self) -> Seq<char> {
        self.node_id@
    }

    /// The cluster's roster.
    pub closed spec fn roster(&self) -> Seq<Seq<char>> {
        names(self.node_ids@)
    }

    /// The values learned, in the order learned.
    pub closed spec fn values(&self) -> Seq<usize> {
        self.vals@
    }

    /// The neighbours, in the order they were assigned.
    pub closed spec fn neighbor_list(&self) -> Seq<Seq<char>> {
        names(self.neighbors@)
    }

    /// The set of neighbours.
    pub open spec fn neighbor_set(&self) -> Set<Seq<char>> {
        self.neighbor_list().to_set()
    }

    /// The pairs (peer, value) such that the peer is known to hold the value.
    pub closed spec fn known(&self) -> Set<(Seq<char>, usize)> {
        Set::new(
            |pv: (Seq<char>, usize)|
                exists|i: int|
                    0 <= i < self.known@.len() && self.known@[i].0@ == pv.0 && self.known@[i].1
                        == pv.1,
        )
    }

    /// The next message id.
    pub closed spec fn next_id(&self) -> usize {
        self.id
    }

    /// This state with the next message id set to `n`.
    pub closed spec fn with_id(self, n: usize) -> Self {
        BroadcastNode { id: n, ..self }
    }

    /// Values are held once each, neighbours are distinct and never this
    /// node itself, and a peer is only known to hold values this node holds.
    pub open spec fn wf(&self) -> bool {
        &&& self.values().no_duplicates()
        &&& self.neighbor_list().no_duplicates()
        &&& !self.neighbor_list().contains(self.me())
        &&& forall|pv: (Seq<char>, usize)| #[trigger]
            self.known().contains(pv) ==> self.values().contains(pv.1)
    }

    /// A node fresh from the handshake: no values, no neighbours, nothing
    /// known of any peer.
    pub fn new(init: &Init) -> (r: Self)
        ensures
            r.wf(),
            r.me() == init.node_id@,
            r.roster() == names(init.node_ids@),
            r.values() == Seq::<usize>::empty(),
            r.neighbor_list() == Seq::<Seq<char>>::empty(),
            r.known() == Set::<(Seq<char>, usize)>::empty(),
            r.next_id() == 0,
    {
        let mut node_ids: Vec<String> = Vec::new();
        let mut i: usize = 0;
        while i < init.node_ids.len()
            invariant
                i <= init.node_ids@.len(),
                node_ids@.len() == i,
                forall|j: int| 0 <= j < i ==> node_ids@[j]@ == init.node_ids@[j]@,
            decreases init.node_ids@.len() - i,
        {
            let s = init.node_ids[i].clone();
            node_ids.push(s);
            i = i + 1;
        }
        assert(names(node_ids@) =~= names(init.node_ids@));
        let r = BroadcastNode {
            node_id: init.node_id.clone(),
            node_ids,
            id: 0,
            vals: Vec::new(),
            neighbors: Vec::new(),
            known: Vec::new(),
        };
        assert(r.known() =~= Set::<(Seq<char>, usize)>::empty());
        assert(r.neighbor_list() =~= Seq::<Seq<char>>::empty());
        r
    }

    /// Setting the message-id counter changes nothing else.
    proof fn lemma_with_id(self, n: usize)
        requires
            self.wf(),
        ensures
            self.with_id(n).wf(),
            self.with_id(n).values() == self.values(),
            self.with_id(n).known() == self.known(),
            self.with_id(n).neighbor_list() == self.neighbor_list(),
            self.with_id(n).me() == self.me(),
            self.with_id(n).roster() == self.roster(),
            self.with_id(n).next_id() == n,
    {
        assert(self.with_id(n).known() =~= self.known());
    }

    /// Whether `v` has been learned.
    fn has_val(&self, v: usize) -> (r: bool)
        ensures
            r == self.values().contains(v),
    {
        let mut i: usize = 0;
        while i < self.vals.len()
            invariant
                i <= self.vals@.len(),
                forall|j: int| 0 <= j < i ==> self.vals@[j] != v,
            decreases self.vals@.len() - i,
        {
            if self.vals[i] == v {
                return true;
            }
            i = i + 1;
        }
        false
    }

    /// Whether `peer` is known to hold `v`.
    fn knows(&self, peer: &String, v: usize) -> (r: bool)
        ensures
            r == self.known().contains((peer@, v)),
    {
        let mut i: usize = 0;
        while i < self.known.len()
            invariant
                i <= self.known@.len(),
                forall|j: int|
                    0 <= j < i ==> !(self.known@[j].0@ == peer@ && self.known@[j].1 == v),
            decreases self.known@.len() - i,
        {
            if self.known[i].1 == v && self.known[i].0 == *peer {
                return true;
            }
            i = i + 1;
        }
        false
    }

    /// The values, in order, that `peer` is not known to hold.
    fn missing_for(&self, peer: &String) -> (r: Vec<usize>)
        ensures
            r@ == missing(self.values(), self.known(), peer@),
    {
        let mut r: Vec<usize> = Vec::new();
        let mut i: usize = 0;
        while i < self.vals.len()
            invariant
                i <= self.vals@.len(),
                r@ == missing(self.values().take(i as int), self.known(), peer@),
            decreases self.vals@.len() - i,
        {
            let v = self.vals[i];
            assert(self.values().take(i as int + 1).drop_last() == self.values().take(i as int));
            if !self.knows(peer, v) {
                r.push(v);
            }
            i = i + 1;
        }
        assert(self.values().take(i as int) == self.values());
        r
    }

    /// One gossip sweep: each neighbour that is not known to hold every value
    /// is sent one gossip message with the values it lacks. Sending teaches
    /// nothing about the neighbour: the known pairs stay as they were.
    fn sweep(&mut self) -> (out: Vec<Message<BroadcastPayload>>)
        requires
            old(self).wf(),
            old(self).next_id() + old(self).neighbor_list().len() <= usize::MAX,
        ensures
            final(self).wf(),
            final(self).values() == old(self).values(),
            final(self).known() == old(self).known(),
            final(self).neighbor_list() == old(self).neighbor_list(),
            final(self).me() == old(self).me(),
            final(self).roster() == old(self).roster(),
            ({
                let p = plan(old(self).neighbor_list(), old(self).values(), old(self).known());
                &&& out@.len() == p.len()
                &&& final(self).next_id() == old(self).next_id() + p.len()
                &&& forall|i: int|
                    0 <= i < p.len() ==> #[trigger] is_gossip(
                        out@[i],
                        old(self).me(),
                        p[i].0,
                        (old(self).next_id() + i) as usize,
                        p[i].1,
                    )
            }),
    {
        let ghost pre = *self;
        let ghost nbrs = pre.neighbor_list();
        let mut out: Vec<Message<BroadcastPayload>> = Vec::new();
        let mut i: usize = 0;
        while i < self.neighbors.len()
            invariant
                i <= nbrs.len(),
                nbrs == self.neighbor_list(),
                self.vals == pre.vals,
                self.known == pre.known,
                self.neighbors == pre.neighbors,
                self.node_id == pre.node_id,
                self.node_ids == pre.node_ids,
                out@.len() <= i,
                out@.len() == plan(nbrs.take(i as int), pre.values(), pre.known()).len(),
                self.id == pre.id + out@.len(),
                pre.id + nbrs.len() <= usize::MAX,
                forall|j: int|
                    0 <= j < out@.len() ==> #[trigger] is_gossip(
                        out@[j],
                        pre.me(),
                        plan(nbrs.take(i as int), pre.values(), pre.known())[j].0,
                        (pre.id + j) as usize,
                        plan(nbrs.take(i as int), pre.values(), pre.known())[j].1,
                    ),
            decreases nbrs.len() - i,
        {
            let ghost before = plan(nbrs.take(i as int), pre.values(), pre.known());
            assert(nbrs.take(i as int + 1).drop_last() == nbrs.take(i as int));
            assert(nbrs.take(i as int + 1).last() == self.neighbors@[i as int]@);
            let messages = self.missing_for(&self.neighbors[i]);
            if messages.len() > 0 {
                let mid = self.id;
                self.id = self.id + 1;
                let gossip = Message {
                    src: self.node_id.clone(),
                    dst: self.neighbors[i].clone(),
                    body: Body {
                        id: Some(mid),
                        in_reply_to: None,
                        payload: BroadcastPayload::Gossip { messages },
                    },
                };
                let ghost out_before = out@;
                out.push(gossip);
                assert forall|j: int| 0 <= j < out@.len() implies #[trigger] is_gossip(
                    out@[j],
                    pre.me(),
                    plan(nbrs.take(i as int + 1), pre.values(), pre.known())[j].0,
                    (pre.id + j) as usize,
                    plan(nbrs.take(i as int + 1), pre.values(), pre.known())[j].1,
                ) by {
                    if j < out@.len() - 1 {
                        assert(out@[j] == out_before[j]);
                        assert(is_gossip(out@[j], pre.me(), before[j].0, (pre.id + j) as usize, before[j].1));
                    }
                }
            }
            i = i + 1;
        }
        assert(nbrs.take(i as int) == nbrs);
        out
    }

    /// Whether `peer` is in the cluster's roster.
    fn in_roster(&self, peer: &String) -> (r: bool)
        ensures
            r == self.roster().contains(peer@),
    {
        let mut i: usize = 0;
        while i < self.node_ids.len()
            invariant
                i <= self.node_ids@.len(),
                forall|j: int| 0 <= j < i ==> self.node_ids@[j]@ != peer@,
            decreases self.node_ids@.len() - i,
        {
            if self.node_ids[i] == *peer {
                assert(self.roster()[i as int] == peer@);
                return true;
            }
            i = i + 1;
        }
        false
    }

    /// Whether `peer` is a neighbour.
    fn has_neighbor(&self, peer: &String) -> (r: bool)
        ensures
            r == self.neighbor_list().contains(peer@),
    {
        let mut i: usize = 0;
        while i < self.neighbors.len()
            invariant
                i <= self.neighbors@.len(),
                forall|j: int| 0 <= j < i ==> self.neighbors@[j]@ != peer@,
            decreases self.neighbors@.len() - i,
        {
            if self.neighbors[i] == *peer {
                assert(self.neighbor_list()[i as int] == peer@);
                return true;
            }
            i = i + 1;
        }
        false
    }

    /// Take `peer` as a neighbour, unless it is one already or this node itself.
    fn add_neighbor(&mut self, peer: &String)
        requires
            old(self).wf(),
        ensures
            final(self).wf(),
            final(self).neighbor_set() == old(self).neighbor_set().insert(peer@).remove(
                old(self).me(),
            ),
            final(self).values() == old(self).values(),
            final(self).known() == old(self).known(),
            final(self).me() == old(self).me(),
            final(self).roster() == old(self).roster(),
            final(self).next_id() == old(self).next_id(),
    {
        let ghost pre = *self;
        if !(*peer == self.node_id) && !self.has_neighbor(peer) {
            let p = peer.clone();
            self.neighbors.push(p);
            assert(self.neighbor_list() =~= pre.neighbor_list().push(peer@));
            assert(self.known() =~= pre.known());
            proof {
                lemma_push_contains(pre.neighbor_list(), peer@);
                assert forall|a: int, b: int|
                    0 <= a < self.neighbor_list().len() && 0 <= b < self.neighbor_list().len()
                        && a != b implies self.neighbor_list()[a] != self.neighbor_list()[b] by {
                    if a < pre.neighbor_list().len() && b < pre.neighbor_list().len() {
                    } else if a < pre.neighbor_list().len() {
                        assert(pre.neighbor_list().contains(self.neighbor_list()[a]));
                    } else {
                        assert(pre.neighbor_list().contains(self.neighbor_list()[b]));
                    }
                }
            }
        }
        assert(self.neighbor_set() =~= pre.neighbor_set().insert(peer@).remove(pre.me()));
    }

    /// Merge the neighbours that `topology` assigns to this node.
    fn merge_topology(&mut self, topology: &Vec<Adjacency>)
        requires
            old(self).wf(),
        ensures
            final(self).wf(),
            final(self).neighbor_set() == old(self).neighbor_set().union(
                assigned(topology@, old(self).me()),
            ).remove(old(self).me()),
            final(self).values() == old(self).values(),
            final(self).known() == old(self).known(),
            final(self).me() == old(self).me(),
            final(self).roster() == old(self).roster(),
            final(self).next_id() == old(self).next_id(),
    {
        let ghost pre = *self;
        let ghost me = pre.me();
        let mut i: usize = 0;
        while i < topology.len()
            invariant
                i <= topology@.len(),
                self.wf(),
                self.neighbor_set() == pre.neighbor_set().union(
                    assigned(topology@.take(i as int), me),
                ).remove(me),
                self.values() == pre.values(),
                self.known() == pre.known(),
                self.me() == me,
                self.roster() == pre.roster(),
                self.next_id() == pre.next_id(),
            decreases topology@.len() - i,
        {
            let ghost before = self.neighbor_set();
            let entry = &topology[i];
            if entry.node == self.node_id {
                let mut j: usize = 0;
                while j < entry.neighbors.len()
                    invariant
                        i < topology@.len(),
                        entry == topology@[i as int],
                        j <= entry.neighbors@.len(),
                        self.wf(),
                        self.neighbor_set() == before.union(
                            names(entry.neighbors@.take(j as int)).to_set(),
                        ).remove(me),
                        self.values() == pre.values(),
                        self.known() == pre.known(),
                        self.me() == me,
                        self.roster() == pre.roster(),
                        self.next_id() == pre.next_id(),
                    decreases entry.neighbors@.len() - j,
                {
                    self.add_neighbor(&entry.neighbors[j]);
                    assert(names(entry.neighbors@.take(j as int + 1)) == names(
                        entry.neighbors@.take(j as int),
                    ).push(entry.neighbors@[j as int]@));
                    proof {
                        lemma_push_contains(
                            names(entry.neighbors@.take(j as int)),
                            entry.neighbors@[j as int]@,
                        );
                    }
                    assert(names(entry.neighbors@.take(j as int + 1)).to_set() =~= names(
                        entry.neighbors@.take(j as int),
                    ).to_set().insert(entry.neighbors@[j as int]@));
                    assert(self.neighbor_set() =~= before.union(
                        names(entry.neighbors@.take(j as int + 1)).to_set(),
                    ).remove(me));
                    j = j + 1;
                }
                assert(entry.neighbors@.take(j as int) == entry.neighbors@);
                assert forall|n: Seq<char>|
                    assigned(topology@.take(i as int + 1), me).contains(n) <==> (assigned(
                        topology@.take(i as int),
                        me,
                    ).contains(n) || names(entry.neighbors@).contains(n)) by {
                    if assigned(topology@.take(i as int + 1), me).contains(n) {
                        let k = choose|k: int|
                            0 <= k < i + 1 && (#[trigger] topology@.take(i as int + 1)[k]).node@ == me && names(
                                topology@.take(i as int + 1)[k].neighbors@,
                            ).contains(n);
                        if k < i {
                            assert(topology@.take(i as int)[k] == topology@[k]);
                        }
                    }
                    if assigned(topology@.take(i as int), me).contains(n) {
                        let k = choose|k: int|
                            0 <= k < i && (#[trigger] topology@.take(i as int)[k]).node@ == me && names(
                                topology@.take(i as int)[k].neighbors@,
                            ).contains(n);
                        assert(topology@.take(i as int + 1)[k] == topology@[k]);
                    }
                    if names(entry.neighbors@).contains(n) {
                        assert(topology@.take(i as int + 1)[i as int] == entry);
                    }
                }
            } else {
                assert forall|n: Seq<char>|
                    assigned(topology@.take(i as int + 1), me).contains(n) <==> assigned(
                        topology@.take(i as int),
                        me,
                    ).contains(n) by {
                    if assigned(topology@.take(i as int + 1), me).contains(n) {
                        let k = choose|k: int|
                            0 <= k < i + 1 && (#[trigger] topology@.take(i as int + 1)[k]).node@ == me && names(
                                topology@.take(i as int + 1)[k].neighbors@,
                            ).contains(n);
                        assert(topology@.take(i as int)[k] == topology@[k]);
                    }
                    if assigned(topology@.take(i as int), me).contains(n) {
                        let k = choose|k: int|
                            0 <= k < i && (#[trigger] topology@.take(i as int)[k]).node@ == me && names(
                                topology@.take(i as int)[k].neighbors@,
                            ).contains(n);
                        assert(topology@.take(i as int + 1)[k] == topology@[k]);
                    }
                }
            }
            assert(self.neighbor_set() =~= pre.neighbor_set().union(
                assigned(topology@.take(i as int + 1), me),
            ).remove(me));
            i = i + 1;
        }
        assert(topology@.take(i as int) == topology@);
    }

    /// Learn every value of `batch`, and record that `peer` holds each of them.
    fn absorb_gossip(&mut self, peer: &String, batch: &Vec<usize>)
        requires
            old(self).wf(),
        ensures
            final(self).wf(),
            final(self).values() == absorb(old(self).values(), batch@),
            final(self).known() == old(self).known().union(shown_by(peer@, batch@)),
            final(self).neighbor_list() == old(self).neighbor_list(),
            final(self).me() == old(self).me(),
            final(self).roster() == old(self).roster(),
            final(self).next_id() == old(self).next_id(),
    {
        let ghost pre = *self;
        let mut j: usize = 0;
        while j < batch.len()
            invariant
                j <= batch@.len(),
                self.wf(),
                self.values() == absorb(pre.values(), batch@.take(j as int)),
                self.known() == pre.known().union(shown_by(peer@, batch@.take(j as int))),
                self.neighbor_list() == pre.neighbor_list(),
                self.me() == pre.me(),
                self.roster() == pre.roster(),
                self.next_id() == pre.next_id(),
            decreases batch@.len() - j,
        {
            let v = batch[j];
            let ghost known_before = self.known();
            self.insert_val(v);
            self.learn(peer, v);
            assert(batch@.take(j as int + 1).drop_last() == batch@.take(j as int));
            assert(batch@.take(j as int + 1) == batch@.take(j as int).push(v));
            proof {
                lemma_push_contains(batch@.take(j as int), v);
            }
            assert(shown_by(peer@, batch@.take(j as int + 1)) =~= shown_by(
                peer@,
                batch@.take(j as int),
            ).insert((peer@, v)));
            assert(self.known() =~= pre.known().union(shown_by(peer@, batch@.take(j as int + 1))));
            j = j + 1;
        }
        assert(batch@.take(j as int) == batch@);
    }

    /// Learn `v`, if it is new.
    fn insert_val(&mut self, v: usize)
        requires
            old(self).wf(),
        ensures
            final(self).wf(),
            final(self).values() == with_value(old(self).values(), v),
            final(self).values().contains(v),
            final(self).known() == old(self).known(),
            final(self).neighbor_list() == old(self).neighbor_list(),
            final(self).me() == old(self).me(),
            final(self).roster() == old(self).roster(),
            final(self).next_id() == old(self).next_id(),
    {
        if !self.has_val(v) {
            self.vals.push(v);
            assert(self.vals@[self.vals@.len() - 1] == v);
            assert(self.known() =~= old(self).known());
            assert forall|pv: (Seq<char>, usize)| #[trigger]
                self.known().contains(pv) implies self.values().contains(pv.1) by {
                assert(old(self).values().contains(pv.1));
                let k = choose|k: int| 0 <= k < old(self).vals@.len() && old(self).vals@[k] == pv.1;
                assert(self.vals@[k] == pv.1);
            }
        }
    }

    /// Record that `peer` holds `v`, a value this node holds.
    fn learn(&mut self, peer: &String, v: usize)
        requires
            old(self).wf(),
            old(self).values().contains(v),
        ensures
            final(self).wf(),
            final(self).known() == old(self).known().insert((peer@, v)),
            final(self).values() == old(self).values(),
            final(self).neighbor_list() == old(self).neighbor_list(),
            final(self).me() == old(self).me(),
            final(self).roster() == old(self).roster(),
            final(self).next_id() == old(self).next_id(),
    {
        if !self.knows(peer, v) {
            let p = peer.clone();
            self.known.push((p, v));
            assert forall|pv: (Seq<char>, usize)|
                #[trigger] self.known().contains(pv) == old(self).known().insert((peer@, v)).contains(pv) by {
                if old(self).known().contains(pv) {
                    let k = choose|k: int|
                        0 <= k < old(self).known@.len() && old(self).known@[k].0@ == pv.0
                            && old(self).known@[k].1 == pv.1;
                    assert(self.known@[k] == old(self).known@[k]);
                }
                if pv == (peer@, v) {
                    assert(self.known@[old(self).known@.len() as int] == (p, v));
                }
            }
            assert(self.known() =~= old(self).known().insert((peer@, v)));
        } else {
            assert(old(self).known().insert((peer@, v)) =~= old(self).known());
        }
    }
}

impl Node<BroadcastPayload> for BroadcastNode {
    open spec fn inv(&self) -> bool {
        self.wf()
    }

    open spec fn counter(&self) -> usize {
        self.next_id()
    }

    /// Room for a reply and for a sweep over every neighbour.
    open spec fn room(&self) -> bool {
        self.next_id() + self.neighbor_list().len() < usize::MAX
    }

    /// A request is answered once, with the next message id; an
    /// acknowledgement changes nothing and is not answered.
    /// - broadcast: the value is learned; a sender on the roster is
    ///   recorded as holding it.
    /// - read: the answer carries every value learned, in order.
    /// - topology: the neighbours this node is assigned are merged in.
    /// - gossip: every value is learned, and the sender is recorded as
    ///   holding each of them.
    open spec fn handled(
        pre: Self,
        m: Message<BroadcastPayload>,
        post: Self,
        out: Seq<Message<BroadcastPayload>>,
    ) -> bool {
        &&& post.me() == pre.me()
        &&& post.roster() == pre.roster()
        &&& if is_ack(m.body.payload) {
            post == pre && out.len() == 0
        } else {
            &&& post.next_id() == pre.next_id() + 1
            &&& out.len() == 1
            &&& is_reply(out[0], m, pre.next_id())
            &&& match m.body.payload {
                BroadcastPayload::Broadcast { message } => {
                    &&& post.values() == with_value(pre.values(), message)
                    &&& post.known() == if pre.roster().contains(m.src@) {
                        pre.known().insert((m.src@, message))
                    } else {
                        pre.known()
                    }
                    &&& post.neighbor_list() == pre.neighbor_list()
                    &&& out[0].body.payload is BroadcastOk
                },
                BroadcastPayload::Read => {
                    &&& post.values() == pre.values()
                    &&& post.known() == pre.known()
                    &&& post.neighbor_list() == pre.neighbor_list()
                    &&& out[0].body.payload matches BroadcastPayload::ReadOk { messages }
                        && messages@ == pre.values()
                },
                BroadcastPayload::Topology { topology } => {
                    &&& post.values() == pre.values()
                    &&& post.known() == pre.known()
                    &&& post.neighbor_set() == pre.neighbor_set().union(
                        assigned(topology@, pre.me()),
                    ).remove(pre.me())
                    &&& out[0].body.payload is TopologyOk
                },
                BroadcastPayload::Gossip { messages } => {
                    &&& post.values() == absorb(pre.values(), messages@)
                    &&& post.known() == pre.known().union(shown_by(m.src@, messages@))
                    &&& post.neighbor_list() == pre.neighbor_list()
                    &&& out[0].body.payload is GossipOk
                },
                _ => false,
            }
        }
    }

    /// A sweep sends the batches of `plan`, with consecutive ids, and
    /// changes nothing but the message-id counter.
    open spec fn swept(pre: Self, post: Self, out: Seq<Message<BroadcastPayload>>) -> bool {
        let p = plan(pre.neighbor_list(), pre.values(), pre.known());
        &&& post.values() == pre.values()
        &&& post.known() == pre.known()
        &&& post.neighbor_list() == pre.neighbor_list()
        &&& post.me() == pre.me()
        &&& post.roster() == pre.roster()
        &&& post.next_id() == pre.next_id() + p.len()
        &&& out.len() == p.len()
        &&& forall|i: int|
            0 <= i < p.len() ==> #[trigger] is_gossip(
                out[i],
                pre.me(),
                p[i].0,
                (pre.next_id() + i) as usize,
                p[i].1,
            )
    }

    fn from_init(init: &Init) -> (r: Self)
        ensures
            r.me() == init.node_id@,
            r.roster() == names(init.node_ids@),
            r.values() == Seq::<usize>::empty(),
            r.neighbor_list() == Seq::<Seq<char>>::empty(),
            r.known() == Set::<(Seq<char>, usize)>::empty(),
    {
        BroadcastNode::new(init)
    }

    fn has_room(&self) -> (r: bool) {
        self.id < usize::MAX && self.neighbors.len() < usize::MAX - self.id
    }

    fn process(&mut self, message: Message<BroadcastPayload>) -> (out: Vec<Message<BroadcastPayload>>) {
        match &message.body.payload {
            BroadcastPayload::BroadcastOk
            | BroadcastPayload::ReadOk { .. }
            | BroadcastPayload::TopologyOk
            | BroadcastPayload::GossipOk => {
                return Vec::new();
            },
            _ => {},
        }
        let ghost pre = *self;
        let mut reply = message.into_reply(Some(&mut self.id));
        assert(*self == pre.with_id(self.id));
        proof {
            pre.lemma_with_id(self.id);
        }
        let answer = match &reply.body.payload {
            BroadcastPayload::Broadcast { message } => {
                let v = *message;
                self.insert_val(v);
                if self.in_roster(&reply.dst) {
                    self.learn(&reply.dst, v);
                }
                BroadcastPayload::BroadcastOk
            },
            BroadcastPayload::Read => {
                let mut messages: Vec<usize> = Vec::new();
                let mut i: usize = 0;
                while i < self.vals.len()
                    invariant
                        i <= self.vals@.len(),
                        messages@ == self.vals@.take(i as int),
                    decreases self.vals@.len() - i,
                {
                    messages.push(self.vals[i]);
                    assert(self.vals@.take(i as int + 1) == self.vals@.take(i as int).push(
                        self.vals@[i as int],
                    ));
                    i = i + 1;
                }
                assert(self.vals@.take(i as int) == self.vals@);
                BroadcastPayload::ReadOk { messages }
            },
            BroadcastPayload::Topology { topology } => {
                self.merge_topology(topology);
                BroadcastPayload::TopologyOk
            },
            BroadcastPayload::Gossip { messages } => {
                self.absorb_gossip(&reply.dst, messages);
                BroadcastPayload::GossipOk
            },
            // The acknowledgements returned above.
            _ => BroadcastPayload::GossipOk,
        };
        reply.body.payload = answer;
        let mut out = Vec::new();
        out.push(reply);
        out
    }

    fn on_timeout(&mut self) -> (out: Vec<Message<BroadcastPayload>>) {
        self.sweep()
    }

    fn id(&mut self) -> (r: &mut usize)
        ensures
            *final(self) == old(self).with_id(*final(r)),
    {
        let ghost pre = *self;
        proof {
            assert forall|n: usize| #[trigger] pre.with_id(n).wf() by {
                pre.lemma_with_id(n);
            }
        }
        let r = &mut self.id;
        assert(pre.with_id(*final(r)).wf());
        r
    }
}

} // verus!
