//! The transactions of a channel and the queues that hold them. A channel keeps its
//! transactions and history entries in tables and their list nodes in one node table:
//! transaction `t` owns node `t`, history entry `h` owns the node just past the
//! transactions, at `h` more. Each queue is a circular list over that table, and the
//! housekeeping data of the channel counts the nodes of each queue.
#![allow(non_snake_case)]
#![allow(non_upper_case_globals)]

use vstd::prelude::*;
use crate::app_data::{CfHkChannelData, CF_QUEUE_COUNT, CF_NUM_CHANNELS, cf_counter_inc};
use crate::cfdp::{CfHistory, CfTransaction, set_status, CF_TxnStatus_IsError};
use crate::clist::{
    cf_clist_insert_after, cf_clist_insert_back, cf_clist_remove, cf_clist_traverse, cf_clist_traverse_r,
    clist_wf, insert_after_spec, insert_back_spec, law_clist_insert_after, law_clist_insert_back,
    law_clist_remove, law_clist_traverse_in_order, law_clist_traverse_r_in_order, lemma_trace_keeps,
    lemma_trace_keeps_all, node_linked, trace_link, law_clist_traverse_in_order_until_exit, lemma_trace_ctx_stays, remove_spec, head_linked, lemma_wf_head_linked, trace_ok, CListNode,
    CListTraverseStatus, TravCall,
};

verus! {

/// Transactions waiting to start.
pub const CF_QueueIdx_PEND: usize = 0;
/// Active sending transactions.
pub const CF_QueueIdx_TXA: usize = 1;
/// Sending transactions waiting for the peer.
pub const CF_QueueIdx_TXW: usize = 2;
/// Receiving transactions.
pub const CF_QueueIdx_RX: usize = 3;
/// History entries of finished transactions.
pub const CF_QueueIdx_HIST: usize = 4;
/// Unused history entries.
pub const CF_QueueIdx_HIST_FREE: usize = 5;
/// Unused transactions.
pub const CF_QueueIdx_FREE: usize = 6;

/// A transfer direction: sending.
pub const CF_Direction_TX: u8 = 0;
/// A transfer direction: receiving.
pub const CF_Direction_RX: u8 = 1;
/// The number of directions.
pub const CF_Direction_NUM: u8 = 2;

/// A channel: its node table, the head of each queue, the head of the chunk list of each
/// direction, and its transactions and history entries.
#[derive(Clone, Debug, PartialEq, Eq)]
pub struct CfChannel {
    pub nodes: Vec<CListNode>,
    pub qs: [Option<usize>; 7],
    pub cs: [Option<usize>; 2],
    pub txns: Vec<CfTransaction>,
    pub hists: Vec<CfHistory>,
}

impl CfChannel {
    /// The node of history entry `h`.
    pub open spec fn hist_node(&self, h: int) -> int {
        self.txns@.len() + h
    }

    /// The node table has one node per transaction and history entry.
    pub open spec fn layout_ok(&self) -> bool {
        self.nodes@.len() == self.txns@.len() + self.hists@.len()
    }
}

/// The channel `c1` is `c0` with queue `q` set to `head` and the node table to `nodes`.
pub open spec fn queue_changed(c0: CfChannel, c1: CfChannel, q: int, nodes: Seq<CListNode>, head: Option<usize>) -> bool {
    &&& c1.nodes@ == nodes
    &&& c1.qs@ == c0.qs@.update(q, head)
    &&& c1.cs == c0.cs
    &&& c1.txns == c0.txns
    &&& c1.hists == c0.hists
}

/// The housekeeping entry `h1` is `h0` with the size of queue `q` set to `n`.
pub open spec fn size_changed(h0: CfHkChannelData, h1: CfHkChannelData, q: int, n: u16) -> bool {
    &&& h1.counters == h0.counters
    &&& h1.q_size@ == h0.q_size@.update(q, n)
}

/// Unlinks `node` from queue `queueidx` and counts one node less in it.
pub fn CF_CList_Remove_Ex(chan: &mut CfChannel, hk: &mut CfHkChannelData, queueidx: usize, node: usize)
    requires
        queueidx < CF_QUEUE_COUNT,
        node_linked(old(chan).nodes@, node),
        old(hk).q_size[queueidx as int] > 0,
    ensures
        queue_changed(
            *old(chan),
            *final(chan),
            queueidx as int,
            remove_spec(old(chan).nodes@, old(chan).qs[queueidx as int], node).0,
            remove_spec(old(chan).nodes@, old(chan).qs[queueidx as int], node).1,
        ),
        size_changed(*old(hk), *final(hk), queueidx as int, (old(hk).q_size[queueidx as int] - 1) as u16),
{
    let mut head = chan.qs[queueidx];
    cf_clist_remove(&mut chan.nodes, &mut head, node);
    chan.qs[queueidx] = head;
    hk.q_size[queueidx] = hk.q_size[queueidx] - 1;
}

/// Links `after` in after `start` in queue `queueidx` and counts one node more in it.
pub fn CF_CList_InsertAfter_Ex(
    chan: &mut CfChannel,
    hk: &mut CfHkChannelData,
    queueidx: usize,
    start: usize,
    after: usize,
)
    requires
        queueidx < CF_QUEUE_COUNT,
        node_linked(old(chan).nodes@, start),
        after < old(chan).nodes@.len(),
    ensures
        queue_changed(
            *old(chan),
            *final(chan),
            queueidx as int,
            insert_after_spec(old(chan).nodes@, start, after),
            old(chan).qs[queueidx as int],
        ),
        size_changed(*old(hk), *final(hk), queueidx as int, ((old(hk).q_size[queueidx as int] + 1) % 0x1_0000) as u16),
{
    let mut head = chan.qs[queueidx];
    cf_clist_insert_after(&mut chan.nodes, &mut head, start, after);
    assert(chan.qs@ =~= old(chan).qs@.update(queueidx as int, old(chan).qs[queueidx as int]));
    hk.q_size[queueidx] = cf_counter_inc(hk.q_size[queueidx]);
}

/// Links `node` in at the back of queue `queueidx` and counts one node more in it.
pub fn CF_CList_InsertBack_Ex(chan: &mut CfChannel, hk: &mut CfHkChannelData, queueidx: usize, node: usize)
    requires
        queueidx < CF_QUEUE_COUNT,
        node < old(chan).nodes@.len(),
        head_linked(old(chan).nodes@, old(chan).qs[queueidx as int]),
    ensures
        queue_changed(
            *old(chan),
            *final(chan),
            queueidx as int,
            insert_back_spec(old(chan).nodes@, old(chan).qs[queueidx as int], node).0,
            insert_back_spec(old(chan).nodes@, old(chan).qs[queueidx as int], node).1,
        ),
        size_changed(*old(hk), *final(hk), queueidx as int, ((old(hk).q_size[queueidx as int] + 1) % 0x1_0000) as u16),
{
    let mut head = chan.qs[queueidx];
    cf_clist_insert_back(&mut chan.nodes, &mut head, node);
    chan.qs[queueidx] = head;
    hk.q_size[queueidx] = cf_counter_inc(hk.q_size[queueidx]);
}

/// Queue `q` of the channel is the list of the nodes `s`, in order, and its size is `s`'s
/// length.
pub open spec fn queue_ok(chan: CfChannel, hk: CfHkChannelData, q: int, s: Seq<usize>) -> bool {
    &&& clist_wf(chan.nodes@, chan.qs[q], s)
    &&& hk.q_size[q] == s.len()
}

/// Each queue `q` of the channel is the list of the nodes `ss[q]`, counted right, and no
/// node is on two queues.
pub open spec fn channel_ok(chan: CfChannel, hk: CfHkChannelData, ss: Seq<Seq<usize>>) -> bool {
    &&& ss.len() == CF_QUEUE_COUNT
    &&& forall|q: int| 0 <= q < CF_QUEUE_COUNT ==> #[trigger] queue_ok(chan, hk, q, ss[q])
    &&& forall|q1: int, q2: int, x: usize|
        0 <= q1 < CF_QUEUE_COUNT && 0 <= q2 < CF_QUEUE_COUNT && q1 != q2 && #[trigger] ss[q1].contains(x)
            ==> !#[trigger] ss[q2].contains(x)
}

/// The node `x` is on none of the queues `ss`.
pub open spec fn on_no_queue(ss: Seq<Seq<usize>>, x: usize) -> bool {
    forall|q: int| 0 <= q < ss.len() ==> !#[trigger] ss[q].contains(x)
}

/// A list stays a list when the nodes on it keep their links.
proof fn lemma_wf_frame(n0: Seq<CListNode>, n1: Seq<CListNode>, head: Option<usize>, s: Seq<usize>)
    requires
        clist_wf(n0, head, s),
        n1.len() == n0.len(),
        forall|k: int| 0 <= k < s.len() ==> n1[#[trigger] s[k] as int] == n0[s[k] as int],
    ensures
        clist_wf(n1, head, s),
{
    assert forall|k: int| 0 <= k < s.len() implies (#[trigger] n1[s[k] as int]).next == Some(
        s[crate::clist::ring_next(k, s.len() as int)],
    ) && n1[s[k] as int].prev == Some(s[crate::clist::ring_prev(k, s.len() as int)]) by {
        assert(n1[s[k] as int] == n0[s[k] as int]);
    }
}

/// The queues other than `q` stay lists, counted right, when the channel changes only
/// queue `q`, the size of queue `q`, and nodes that are on no other queue.
proof fn lemma_other_queues(
    c0: CfChannel,
    h0: CfHkChannelData,
    c1: CfChannel,
    h1: CfHkChannelData,
    ss: Seq<Seq<usize>>,
    q: int,
)
    requires
        channel_ok(c0, h0, ss),
        0 <= q < CF_QUEUE_COUNT,
        c1.nodes@.len() == c0.nodes@.len(),
        forall|i: int| 0 <= i < CF_QUEUE_COUNT && i != q ==> #[trigger] c1.qs[i] == c0.qs[i],
        forall|i: int| 0 <= i < CF_QUEUE_COUNT && i != q ==> #[trigger] h1.q_size[i] == h0.q_size[i],
        forall|x: usize, i: int|
            x < c0.nodes@.len() && #[trigger] c1.nodes@[x as int] != c0.nodes@[x as int] && 0 <= i
                < CF_QUEUE_COUNT && i != q ==> !#[trigger] ss[i].contains(x),
    ensures
        forall|i: int| 0 <= i < CF_QUEUE_COUNT && i != q ==> #[trigger] queue_ok(c1, h1, i, ss[i]),
{
    assert forall|i: int| 0 <= i < CF_QUEUE_COUNT && i != q implies #[trigger] queue_ok(c1, h1, i, ss[i]) by {
        assert(queue_ok(c0, h0, i, ss[i]));
        let s = ss[i];
        assert forall|k: int| 0 <= k < s.len() implies c1.nodes@[#[trigger] s[k] as int] == c0.nodes@[s[k] as int] by {
            assert(s.contains(s[k]));
            assert(s[k] < c0.nodes@.len());
        }
        lemma_wf_frame(c0.nodes@, c1.nodes@, c0.qs[i], s);
    }
}

/// The removal law of a queue: taking the node at position `k` off queue `q` leaves every
/// queue a list counted right, queue `q` without that node, which is then on no queue.
pub proof fn law_remove_ex(
    c0: CfChannel,
    h0: CfHkChannelData,
    c1: CfChannel,
    h1: CfHkChannelData,
    ss: Seq<Seq<usize>>,
    q: int,
    k: int,
)
    requires
        channel_ok(c0, h0, ss),
        0 <= q < CF_QUEUE_COUNT,
        0 <= k < ss[q].len(),
        queue_changed(
            c0,
            c1,
            q,
            remove_spec(c0.nodes@, c0.qs[q], ss[q][k]).0,
            remove_spec(c0.nodes@, c0.qs[q], ss[q][k]).1,
        ),
        size_changed(h0, h1, q, (h0.q_size[q] - 1) as u16),
    ensures
        channel_ok(c1, h1, ss.update(q, ss[q].remove(k))),
        on_no_queue(ss.update(q, ss[q].remove(k)), ss[q][k]),
{
    let s = ss[q];
    let ss1 = ss.update(q, s.remove(k));
    assert(queue_ok(c0, h0, q, s));
    law_clist_remove(c0.nodes@, c0.qs[q], s, k);
    assert(queue_ok(c1, h1, q, s.remove(k)));
    lemma_other_queues(c0, h0, c1, h1, ss, q);
    assert forall|i: int| 0 <= i < CF_QUEUE_COUNT implies #[trigger] queue_ok(c1, h1, i, ss1[i]) by {
        if i != q {
            assert(ss1[i] == ss[i]);
        }
    }
    assert forall|q1: int, q2: int, x: usize|
        0 <= q1 < CF_QUEUE_COUNT && 0 <= q2 < CF_QUEUE_COUNT && q1 != q2 && #[trigger] ss1[q1].contains(x)
            implies !#[trigger] ss1[q2].contains(x) by {
        if q1 == q {
            let j = choose|j: int| 0 <= j < s.remove(k).len() && s.remove(k)[j] == x;
            assert(s.contains(x)) by {
                if j < k {
                    assert(s[j] == x);
                } else {
                    assert(s[j + 1] == x);
                }
            }
        }
        if q2 == q && ss1[q2].contains(x) {
            let j = choose|j: int| 0 <= j < s.remove(k).len() && s.remove(k)[j] == x;
            assert(s.contains(x)) by {
                if j < k {
                    assert(s[j] == x);
                } else {
                    assert(s[j + 1] == x);
                }
            }
        }
    }
    assert forall|i: int| 0 <= i < ss1.len() implies !#[trigger] ss1[i].contains(s[k]) by {
        if i == q {
            if s.remove(k).contains(s[k]) {
                let j = choose|j: int| 0 <= j < s.remove(k).len() && s.remove(k)[j] == s[k];
                if j < k {
                    assert(s[j] == s[k]);
                } else {
                    assert(s[j + 1] == s[k]);
                }
            }
        } else {
            assert(s.contains(s[k]));
        }
    }
}

/// The law of insertion at the back of a queue: a node that is on no queue, put at the
/// back of queue `q`, leaves every queue a list counted right, queue `q` ending with it.
pub proof fn law_insert_back_ex(
    c0: CfChannel,
    h0: CfHkChannelData,
    c1: CfChannel,
    h1: CfHkChannelData,
    ss: Seq<Seq<usize>>,
    q: int,
    node: usize,
)
    requires
        channel_ok(c0, h0, ss),
        0 <= q < CF_QUEUE_COUNT,
        node < c0.nodes@.len(),
        on_no_queue(ss, node),
        ss[q].len() + 1 < 0x1_0000,
        queue_changed(
            c0,
            c1,
            q,
            insert_back_spec(c0.nodes@, c0.qs[q], node).0,
            insert_back_spec(c0.nodes@, c0.qs[q], node).1,
        ),
        size_changed(h0, h1, q, ((h0.q_size[q] + 1) % 0x1_0000) as u16),
    ensures
        channel_ok(c1, h1, ss.update(q, ss[q].push(node))),
{
    let s = ss[q];
    let ss1 = ss.update(q, s.push(node));
    assert(queue_ok(c0, h0, q, s));
    assert(!s.contains(node));
    law_clist_insert_back(c0.nodes@, c0.qs[q], s, node);
    assert(queue_ok(c1, h1, q, s.push(node)));
    assert forall|x: usize, i: int|
        x < c0.nodes@.len() && #[trigger] c1.nodes@[x as int] != c0.nodes@[x as int] && 0 <= i < CF_QUEUE_COUNT
            && i != q implies !#[trigger] ss[i].contains(x) by {
        if x != node {
            assert(s.contains(x));
        }
    }
    lemma_other_queues(c0, h0, c1, h1, ss, q);
    assert forall|i: int| 0 <= i < CF_QUEUE_COUNT implies #[trigger] queue_ok(c1, h1, i, ss1[i]) by {
        if i != q {
            assert(ss1[i] == ss[i]);
        }
    }
    assert forall|q1: int, q2: int, x: usize|
        0 <= q1 < CF_QUEUE_COUNT && 0 <= q2 < CF_QUEUE_COUNT && q1 != q2 && #[trigger] ss1[q1].contains(x)
            implies !#[trigger] ss1[q2].contains(x) by {
        if q1 != q {
            assert(ss1[q1] == ss[q1]);
        }
        if q2 != q {
            assert(ss1[q2] == ss[q2]);
        }
        if q1 == q && x != node {
            let j = choose|j: int| 0 <= j < s.push(node).len() && s.push(node)[j] == x;
            assert(s[j] == x);
            assert(ss[q].contains(x));
        }
        if q2 == q && ss1[q2].contains(x) && x != node {
            let j = choose|j: int| 0 <= j < s.push(node).len() && s.push(node)[j] == x;
            assert(s[j] == x);
            assert(ss[q].contains(x));
        }
        if x == node {
            assert(!ss[q1].contains(node));
            assert(!ss[q2].contains(node));
        }
    }
}

/// The law of insertion after a node of a queue: a node that is on no queue, linked in
/// after the node at position `k` of queue `q`, leaves every queue a list counted right,
/// queue `q` with it at position `k + 1`.
pub proof fn law_insert_after_ex(
    c0: CfChannel,
    h0: CfHkChannelData,
    c1: CfChannel,
    h1: CfHkChannelData,
    ss: Seq<Seq<usize>>,
    q: int,
    k: int,
    after: usize,
)
    requires
        channel_ok(c0, h0, ss),
        0 <= q < CF_QUEUE_COUNT,
        0 <= k < ss[q].len(),
        after < c0.nodes@.len(),
        on_no_queue(ss, after),
        ss[q].len() + 1 < 0x1_0000,
        queue_changed(c0, c1, q, insert_after_spec(c0.nodes@, ss[q][k], after), c0.qs[q]),
        size_changed(h0, h1, q, ((h0.q_size[q] + 1) % 0x1_0000) as u16),
    ensures
        channel_ok(c1, h1, ss.update(q, ss[q].insert(k + 1, after))),
{
    let s = ss[q];
    let s1 = s.insert(k + 1, after);
    let ss1 = ss.update(q, s1);
    assert(queue_ok(c0, h0, q, s));
    assert(!s.contains(after));
    law_clist_insert_after(c0.nodes@, c0.qs[q], s, k, after);
    assert(queue_ok(c1, h1, q, s1));
    assert forall|x: usize, i: int|
        x < c0.nodes@.len() && #[trigger] c1.nodes@[x as int] != c0.nodes@[x as int] && 0 <= i < CF_QUEUE_COUNT
            && i != q implies !#[trigger] ss[i].contains(x) by {
        if x != after {
            assert(s.contains(x));
        }
    }
    lemma_other_queues(c0, h0, c1, h1, ss, q);
    assert forall|i: int| 0 <= i < CF_QUEUE_COUNT implies #[trigger] queue_ok(c1, h1, i, ss1[i]) by {
        if i != q {
            assert(ss1[i] == ss[i]);
        }
    }
    assert forall|q1: int, q2: int, x: usize|
        0 <= q1 < CF_QUEUE_COUNT && 0 <= q2 < CF_QUEUE_COUNT && q1 != q2 && #[trigger] ss1[q1].contains(x)
            implies !#[trigger] ss1[q2].contains(x) by {
        if q1 != q {
            assert(ss1[q1] == ss[q1]);
        }
        if q2 != q {
            assert(ss1[q2] == ss[q2]);
        }
        if x == after {
            assert(!ss[q1].contains(after));
            assert(!ss[q2].contains(after));
        } else {
            if q1 == q {
                let j = choose|j: int| 0 <= j < s1.len() && s1[j] == x;
                if j <= k {
                    assert(s[j] == x);
                } else {
                    assert(s[j - 1] == x);
                }
                assert(ss[q].contains(x));
            }
            if q2 == q && ss1[q2].contains(x) {
                let j = choose|j: int| 0 <= j < s1.len() && s1[j] == x;
                if j <= k {
                    assert(s[j] == x);
                } else {
                    assert(s[j - 1] == x);
                }
                assert(ss[q].contains(x));
            }
        }
    }
}

/// The queues `ss` after moving the node `x` from queue `from` to the back of queue `to`.
pub open spec fn moved_queues(ss: Seq<Seq<usize>>, from: int, x: usize, to: int) -> Seq<Seq<usize>> {
    let ss1 = ss.update(from, ss[from].remove(ss[from].index_of(x)));
    ss1.update(to, ss1[to].push(x))
}

/// What the operations need of a channel whose queues are `ss`: each queue's head and
/// nodes are linked.
proof fn lemma_channel_linked(chan: CfChannel, hk: CfHkChannelData, ss: Seq<Seq<usize>>)
    requires
        channel_ok(chan, hk, ss),
    ensures
        forall|q: int| 0 <= q < CF_QUEUE_COUNT ==> head_linked(chan.nodes@, #[trigger] chan.qs[q]),
        forall|q: int, k: int|
            0 <= q < CF_QUEUE_COUNT && 0 <= k < ss[q].len() ==> node_linked(chan.nodes@, #[trigger] ss[q][k]),
{
    assert forall|q: int| 0 <= q < CF_QUEUE_COUNT implies head_linked(chan.nodes@, #[trigger] chan.qs[q]) by {
        assert(queue_ok(chan, hk, q, ss[q]));
        lemma_wf_head_linked(chan.nodes@, chan.qs[q], ss[q]);
    }
    assert forall|q: int, k: int| 0 <= q < CF_QUEUE_COUNT && 0 <= k < ss[q].len() implies node_linked(
        chan.nodes@,
        #[trigger] ss[q][k],
    ) by {
        assert(queue_ok(chan, hk, q, ss[q]));
        lemma_wf_head_linked(chan.nodes@, chan.qs[q], ss[q]);
    }
}

/// Where `x` is in a list without repeats.
proof fn lemma_index_of(s: Seq<usize>, x: usize)
    requires
        s.contains(x),
    ensures
        0 <= s.index_of(x) < s.len(),
        s[s.index_of(x)] == x,
{
}

/// Moves the node `x` from queue `from` to the back of queue `to`: the removal, then the
/// insertion.
fn cf_move_node(
    chan: &mut CfChannel,
    hk: &mut CfHkChannelData,
    from: usize,
    x: usize,
    to: usize,
    Ghost(ss): Ghost<Seq<Seq<usize>>>,
)
    requires
        from < CF_QUEUE_COUNT,
        to < CF_QUEUE_COUNT,
        channel_ok(*old(chan), *old(hk), ss),
        ss[from as int].contains(x),
    ensures
        final(chan).txns == old(chan).txns,
        final(chan).hists == old(chan).hists,
        final(chan).cs == old(chan).cs,
        final(hk).counters == old(hk).counters,
        moved_queues(ss, from as int, x, to as int)[to as int].len() < 0x1_0000 ==> channel_ok(
            *final(chan),
            *final(hk),
            moved_queues(ss, from as int, x, to as int),
        ),
{
    let ghost c0 = *chan;
    let ghost h0 = *hk;
    let ghost k = ss[from as int].index_of(x);
    proof {
        lemma_index_of(ss[from as int], x);
        lemma_channel_linked(*chan, *hk, ss);
        assert(queue_ok(*chan, *hk, from as int, ss[from as int]));
        assert(node_linked(chan.nodes@, ss[from as int][k]));
    }
    CF_CList_Remove_Ex(chan, hk, from, x);
    let ghost ss1 = ss.update(from as int, ss[from as int].remove(k));
    proof {
        law_remove_ex(c0, h0, *chan, *hk, ss, from as int, k);
        lemma_channel_linked(*chan, *hk, ss1);
        assert(node_linked(c0.nodes@, x));
    }
    let ghost c1 = *chan;
    let ghost h1 = *hk;
    CF_CList_InsertBack_Ex(chan, hk, to, x);
    proof {
        if moved_queues(ss, from as int, x, to as int)[to as int].len() < 0x1_0000 {
            assert(ss1[to as int].push(x).len() < 0x1_0000);
            law_insert_back_ex(c1, h1, *chan, *hk, ss1, to as int, x);
        }
    }
}

/// Takes the transaction `t` off its queue.
pub fn CF_DequeueTransaction(chan: &mut CfChannel, hk: &mut CfHkChannelData, t: usize)
    requires
        t < old(chan).txns@.len(),
        old(chan).txns@[t as int].q_index < CF_QUEUE_COUNT,
        node_linked(old(chan).nodes@, t),
        old(hk).q_size[old(chan).txns@[t as int].q_index as int] > 0,
    ensures
        queue_changed(
            *old(chan),
            *final(chan),
            old(chan).txns@[t as int].q_index as int,
            remove_spec(old(chan).nodes@, old(chan).qs[old(chan).txns@[t as int].q_index as int], t).0,
            remove_spec(old(chan).nodes@, old(chan).qs[old(chan).txns@[t as int].q_index as int], t).1,
        ),
        size_changed(
            *old(hk),
            *final(hk),
            old(chan).txns@[t as int].q_index as int,
            (old(hk).q_size[old(chan).txns@[t as int].q_index as int] - 1) as u16,
        ),
{
    let q = chan.txns[t].q_index;
    CF_CList_Remove_Ex(chan, hk, q, t);
}

/// Moves the transaction `t` from its queue to the back of queue `queue`, and records
/// that it is there.
pub fn CF_MoveTransaction(chan: &mut CfChannel, hk: &mut CfHkChannelData, t: usize, queue: usize)
    requires
        t < old(chan).txns@.len(),
        queue < CF_QUEUE_COUNT,
        old(chan).txns@[t as int].q_index < CF_QUEUE_COUNT,
        exists|ss: Seq<Seq<usize>>|
            channel_ok(*old(chan), *old(hk), ss) && #[trigger] ss[old(chan).txns@[t as int].q_index as int].contains(
                t,
            ),
    ensures
        final(chan).txns@ == old(chan).txns@.update(
            t as int,
            CfTransaction { q_index: queue, ..old(chan).txns@[t as int] },
        ),
        final(chan).hists == old(chan).hists,
        final(chan).cs == old(chan).cs,
        final(hk).counters == old(hk).counters,
        forall|ss: Seq<Seq<usize>>|
            channel_ok(*old(chan), *old(hk), ss) && #[trigger] ss[old(chan).txns@[t as int].q_index as int].contains(t)
                && moved_queues(ss, old(chan).txns@[t as int].q_index as int, t, queue as int)[queue as int].len()
                < 0x1_0000 ==> channel_ok(
                *final(chan),
                *final(hk),
                moved_queues(ss, old(chan).txns@[t as int].q_index as int, t, queue as int),
            ),
{
    let ghost c0 = *chan;
    let ghost h0 = *hk;
    let from = chan.txns[t].q_index;
    let ghost ss = choose|ss: Seq<Seq<usize>>| channel_ok(c0, h0, ss) && #[trigger] ss[from as int].contains(t);
    cf_move_node(chan, hk, from, t, queue, Ghost(ss));
    let ghost c1 = *chan;
    let ghost h1 = *hk;
    let mut txn = chan.txns[t];
    txn.q_index = queue;
    chan.txns.set(t, txn);
    proof {
        assert forall|ss2: Seq<Seq<usize>>|
            channel_ok(c0, h0, ss2) && #[trigger] ss2[from as int].contains(t) && moved_queues(
                ss2,
                from as int,
                t,
                queue as int,
            )[queue as int].len() < 0x1_0000 implies channel_ok(
            *chan,
            *hk,
            moved_queues(ss2, from as int, t, queue as int),
        ) by {
            lemma_same_queues(c0, h0, ss, ss2);
            let m = moved_queues(ss2, from as int, t, queue as int);
            assert(channel_ok(c1, h1, m));
            assert forall|q: int| 0 <= q < CF_QUEUE_COUNT implies #[trigger] queue_ok(*chan, *hk, q, m[q]) by {
                assert(queue_ok(c1, h1, q, m[q]));
            }
        }
    }
}

/// A channel's queues are the lists they are: two sequences that both describe them
/// are the same.
proof fn lemma_same_queues(chan: CfChannel, hk: CfHkChannelData, ss1: Seq<Seq<usize>>, ss2: Seq<Seq<usize>>)
    requires
        channel_ok(chan, hk, ss1),
        channel_ok(chan, hk, ss2),
    ensures
        ss1 == ss2,
{
    assert forall|q: int| 0 <= q < CF_QUEUE_COUNT implies #[trigger] ss1[q] == ss2[q] by {
        assert(queue_ok(chan, hk, q, ss1[q]));
        assert(queue_ok(chan, hk, q, ss2[q]));
        crate::clist::lemma_clist_unique(chan.nodes@, chan.qs[q], ss1[q], ss2[q]);
    }
    assert(ss1 =~= ss2);
}

/// The channel stays as described by `ss` when its queues and sizes stay and only nodes
/// that are on no queue change.
proof fn lemma_channel_frame(
    c0: CfChannel,
    h0: CfHkChannelData,
    c1: CfChannel,
    h1: CfHkChannelData,
    ss: Seq<Seq<usize>>,
)
    requires
        channel_ok(c0, h0, ss),
        c1.qs == c0.qs,
        h1.q_size == h0.q_size,
        c1.nodes@.len() == c0.nodes@.len(),
        forall|x: usize| x < c0.nodes@.len() && #[trigger] c1.nodes@[x as int] != c0.nodes@[x as int] ==> on_no_queue(ss, x),
    ensures
        channel_ok(c1, h1, ss),
{
    assert forall|q: int| 0 <= q < CF_QUEUE_COUNT implies #[trigger] queue_ok(c1, h1, q, ss[q]) by {
        assert(queue_ok(c0, h0, q, ss[q]));
        let s = ss[q];
        assert forall|k: int| 0 <= k < s.len() implies c1.nodes@[#[trigger] s[k] as int] == c0.nodes@[s[k] as int] by {
            assert(s.contains(s[k]));
            if c1.nodes@[s[k] as int] != c0.nodes@[s[k] as int] {
                assert(on_no_queue(ss, s[k]));
                assert(!ss[q].contains(s[k]));
            }
        }
        lemma_wf_frame(c0.nodes@, c1.nodes@, c0.qs[q], s);
    }
}

/// Moves history entry `h` from the history queue to the free history queue.
pub fn CF_ResetHistory(chan: &mut CfChannel, hk: &mut CfHkChannelData, h: usize)
    requires
        old(chan).layout_ok(),
        h < old(chan).hists@.len(),
        exists|ss: Seq<Seq<usize>>|
            channel_ok(*old(chan), *old(hk), ss) && #[trigger] ss[CF_QueueIdx_HIST as int].contains(
                old(chan).hist_node(h as int) as usize,
            ),
    ensures
        final(chan).txns == old(chan).txns,
        final(chan).hists == old(chan).hists,
        final(chan).cs == old(chan).cs,
        final(hk).counters == old(hk).counters,
        forall|ss: Seq<Seq<usize>>|
            channel_ok(*old(chan), *old(hk), ss) && #[trigger] ss[CF_QueueIdx_HIST as int].contains(
                old(chan).hist_node(h as int) as usize,
            ) && ss[CF_QueueIdx_HIST_FREE as int].len() + 1 < 0x1_0000 ==> channel_ok(
                *final(chan),
                *final(hk),
                moved_queues(
                    ss,
                    CF_QueueIdx_HIST as int,
                    old(chan).hist_node(h as int) as usize,
                    CF_QueueIdx_HIST_FREE as int,
                ),
            ),
{
    let ghost c0 = *chan;
    let ghost h0 = *hk;
    proof {
        vstd::std_specs::vec::axiom_spec_len(&chan.nodes);
    }
    let node = chan.txns.len() + h;
    let ghost ss = choose|ss: Seq<Seq<usize>>|
        channel_ok(c0, h0, ss) && #[trigger] ss[CF_QueueIdx_HIST as int].contains(node);
    cf_move_node(chan, hk, CF_QueueIdx_HIST, node, CF_QueueIdx_HIST_FREE, Ghost(ss));
    proof {
        assert forall|ss2: Seq<Seq<usize>>|
            channel_ok(c0, h0, ss2) && #[trigger] ss2[CF_QueueIdx_HIST as int].contains(node)
                && ss2[CF_QueueIdx_HIST_FREE as int].len() + 1 < 0x1_0000 implies channel_ok(
            *chan,
            *hk,
            moved_queues(ss2, CF_QueueIdx_HIST as int, node, CF_QueueIdx_HIST_FREE as int),
        ) by {
            lemma_same_queues(c0, h0, ss, ss2);
            let m = moved_queues(ss2, CF_QueueIdx_HIST as int, node, CF_QueueIdx_HIST_FREE as int);
            assert(m[CF_QueueIdx_HIST_FREE as int] == ss2[CF_QueueIdx_HIST_FREE as int].push(node));
        }
    }
}

/// An unused transaction of channel `chan_num`: every field cleared but the channel.
pub open spec fn cleared_txn(chan_num: u8) -> CfTransaction {
    CfTransaction { state: 0, chan_num, priority: 0, q_index: 0, history: None }
}

/// Clears transaction `t`, which is on no queue, and puts it at the back of the free
/// queue.
pub fn CF_FreeTransaction(chan: &mut CfChannel, hk: &mut CfHkChannelData, t: usize, chan_num: u8)
    requires
        old(chan).layout_ok(),
        t < old(chan).txns@.len(),
        exists|ss: Seq<Seq<usize>>| channel_ok(*old(chan), *old(hk), ss) && #[trigger] on_no_queue(ss, t),
    ensures
        final(chan).txns@ == old(chan).txns@.update(t as int, cleared_txn(chan_num)),
        final(chan).hists == old(chan).hists,
        final(chan).cs == old(chan).cs,
        final(hk).counters == old(hk).counters,
        forall|ss: Seq<Seq<usize>>|
            channel_ok(*old(chan), *old(hk), ss) && #[trigger] on_no_queue(ss, t)
                && ss[CF_QueueIdx_FREE as int].len() + 1 < 0x1_0000 ==> channel_ok(
                *final(chan),
                *final(hk),
                ss.update(CF_QueueIdx_FREE as int, ss[CF_QueueIdx_FREE as int].push(t)),
            ),
{
    let ghost c0 = *chan;
    let ghost h0 = *hk;
    let ghost ss = choose|ss: Seq<Seq<usize>>| channel_ok(c0, h0, ss) && #[trigger] on_no_queue(ss, t);
    chan.txns.set(t, CfTransaction { state: 0, chan_num, priority: 0, q_index: 0, history: None });
    crate::clist::cf_clist_init_node(&mut chan.nodes, t);
    proof {
        lemma_channel_frame(c0, h0, *chan, *hk, ss);
        lemma_channel_linked(*chan, *hk, ss);
    }
    let ghost c1 = *chan;
    CF_CList_InsertBack_Ex(chan, hk, CF_QueueIdx_FREE, t);
    proof {
        assert forall|ss2: Seq<Seq<usize>>|
            channel_ok(c0, h0, ss2) && #[trigger] on_no_queue(ss2, t) && ss2[CF_QueueIdx_FREE as int].len() + 1
                < 0x1_0000 implies channel_ok(
            *chan,
            *hk,
            ss2.update(CF_QueueIdx_FREE as int, ss2[CF_QueueIdx_FREE as int].push(t)),
        ) by {
            lemma_same_queues(c0, h0, ss, ss2);
            law_insert_back_ex(c1, h0, *chan, *hk, ss, CF_QueueIdx_FREE as int, t);
        }
    }
}

/// The free transaction queue holds transactions and the two history queues hold history
/// entries, and a history entry is there for a free transaction to take.
pub open spec fn pools_ok(chan: CfChannel, ss: Seq<Seq<usize>>) -> bool {
    let n = chan.txns@.len();
    &&& forall|k: int|
        0 <= k < ss[CF_QueueIdx_FREE as int].len() ==> #[trigger] ss[CF_QueueIdx_FREE as int][k] < n
    &&& forall|k: int|
        0 <= k < ss[CF_QueueIdx_HIST as int].len() ==> n <= #[trigger] ss[CF_QueueIdx_HIST as int][k]
    &&& forall|k: int|
        0 <= k < ss[CF_QueueIdx_HIST_FREE as int].len() ==> n <= #[trigger] ss[CF_QueueIdx_HIST_FREE as int][k]
    &&& ss[CF_QueueIdx_FREE as int].len() > 0 ==> ss[CF_QueueIdx_HIST as int].len() + ss[CF_QueueIdx_HIST_FREE as int].len() > 0
}

/// The history queue that a new transaction takes its entry from: the free one when it is
/// not empty, else the oldest entry of the history queue.
pub open spec fn hist_source(chan: CfChannel) -> int {
    if chan.qs[CF_QueueIdx_HIST_FREE as int] is Some {
        CF_QueueIdx_HIST_FREE as int
    } else {
        CF_QueueIdx_HIST as int
    }
}

/// The effect of taking the free transaction at the head of the free queue, with the
/// history entry at the head of `hist_source`, for a transfer in `direction`.
pub open spec fn take_unused(c0: CfChannel, c1: CfChannel, t: usize, direction: u8) -> bool {
    let hn = c0.qs[hist_source(c0)].unwrap();
    let h = hn - c0.txns@.len();
    &&& c1.txns@ == c0.txns@.update(
        t as int,
        CfTransaction { state: crate::cfdp::CF_TxnState_INIT, history: Some(h as usize), ..c0.txns@[t as int] },
    )
    &&& c1.hists@ == c0.hists@.update(h, CfHistory { dir: direction, ..c0.hists@[h] })
    &&& c1.cs == c0.cs
    &&& c1.nodes@[t as int] == crate::clist::link(t, t)
}

/// The queues `ss` after the head of the free queue and the head of `hq` are taken off.
pub open spec fn taken_queues(ss: Seq<Seq<usize>>, hq: int) -> Seq<Seq<usize>> {
    let ss1 = ss.update(CF_QueueIdx_FREE as int, ss[CF_QueueIdx_FREE as int].drop_first());
    ss1.update(hq, ss1[hq].drop_first())
}

/// A node missing from a list is missing from the list less one node.
proof fn lemma_drop_first_absent(s: Seq<usize>, x: usize)
    requires
        !s.contains(x),
        s.len() > 0,
    ensures
        !s.drop_first().contains(x),
{
    if s.drop_first().contains(x) {
        let j = choose|j: int| 0 <= j < s.drop_first().len() && s.drop_first()[j] == x;
        assert(s[j + 1] == x);
    }
}

/// Takes the head off queue `q`, which is not empty, and returns it.
fn cf_take_head(chan: &mut CfChannel, hk: &mut CfHkChannelData, q: usize, Ghost(ss): Ghost<Seq<Seq<usize>>>) -> (x: usize)
    requires
        q < CF_QUEUE_COUNT,
        channel_ok(*old(chan), *old(hk), ss),
        ss[q as int].len() > 0,
    ensures
        old(chan).qs[q as int] == Some(x),
        x == ss[q as int][0],
        channel_ok(*final(chan), *final(hk), ss.update(q as int, ss[q as int].drop_first())),
        on_no_queue(ss.update(q as int, ss[q as int].drop_first()), x),
        final(chan).txns == old(chan).txns,
        final(chan).hists == old(chan).hists,
        final(chan).cs == old(chan).cs,
        final(chan).nodes@.len() == old(chan).nodes@.len(),
        forall|i: int| 0 <= i < CF_QUEUE_COUNT && i != q ==> #[trigger] final(chan).qs[i] == old(chan).qs[i],
        final(hk).counters == old(hk).counters,
{
    let ghost c0 = *chan;
    let ghost h0 = *hk;
    let ghost s = ss[q as int];
    proof {
        assert(queue_ok(c0, h0, q as int, s));
        lemma_channel_linked(c0, h0, ss);
        assert(node_linked(c0.nodes@, s[0]));
    }
    let x = chan.qs[q].unwrap();
    CF_CList_Remove_Ex(chan, hk, q, x);
    proof {
        law_remove_ex(c0, h0, *chan, *hk, ss, q as int, 0);
        assert(s.remove(0) =~= s.drop_first());
    }
    x
}

/// What the pools of a channel give: the free queue's head is a transaction, and when
/// there is one, the history queue it takes an entry from holds a history entry first.
proof fn lemma_pools(chan: CfChannel, hk: CfHkChannelData, ss: Seq<Seq<usize>>)
    requires
        channel_ok(chan, hk, ss),
        pools_ok(chan, ss),
        ss[CF_QueueIdx_FREE as int].len() > 0,
    ensures
        ss[CF_QueueIdx_FREE as int][0] < chan.txns@.len(),
        ss[hist_source(chan)].len() > 0,
        chan.txns@.len() <= ss[hist_source(chan)][0],
{
    assert(queue_ok(chan, hk, CF_QueueIdx_HIST_FREE as int, ss[CF_QueueIdx_HIST_FREE as int]));
    assert(queue_ok(chan, hk, CF_QueueIdx_HIST as int, ss[CF_QueueIdx_HIST as int]));
    assert(ss[CF_QueueIdx_FREE as int][0] < chan.txns@.len());
    assert(chan.txns@.len() <= ss[hist_source(chan)][0]);
}

/// Takes an unused transaction for a transfer in `direction`: the head of the free queue,
/// given the history entry at the head of the free history queue, or else the oldest one
/// of the history queue. None when no transaction is free.
pub fn CF_FindUnusedTransaction(chan: &mut CfChannel, hk: &mut CfHkChannelData, direction: u8) -> (r: Option<usize>)
    requires
        old(chan).layout_ok(),
        exists|ss: Seq<Seq<usize>>| #[trigger] channel_ok(*old(chan), *old(hk), ss) && pools_ok(*old(chan), ss),
    ensures
        old(chan).qs[CF_QueueIdx_FREE as int] is None ==> r is None && *final(chan) == *old(chan) && *final(hk)
            == *old(hk),
        old(chan).qs[CF_QueueIdx_FREE as int] matches Some(t) ==> {
            &&& r == Some(t)
            &&& take_unused(*old(chan), *final(chan), t, direction)
            &&& final(hk).counters == old(hk).counters
            &&& forall|ss: Seq<Seq<usize>>|
                #[trigger] channel_ok(*old(chan), *old(hk), ss) && pools_ok(*old(chan), ss) ==> channel_ok(
                    *final(chan),
                    *final(hk),
                    taken_queues(ss, hist_source(*old(chan))),
                )
        },
{
    let ghost c0 = *chan;
    let ghost h0 = *hk;
    let ghost ss = choose|ss: Seq<Seq<usize>>| #[trigger] channel_ok(c0, h0, ss) && pools_ok(c0, ss);
    if chan.qs[CF_QueueIdx_FREE].is_none() {
        return None;
    }
    proof {
        assert(queue_ok(c0, h0, CF_QueueIdx_FREE as int, ss[CF_QueueIdx_FREE as int]));
        lemma_pools(c0, h0, ss);
    }
    let hq = if chan.qs[CF_QueueIdx_HIST_FREE].is_some() { CF_QueueIdx_HIST_FREE } else { CF_QueueIdx_HIST };
    let t = cf_take_head(chan, hk, CF_QueueIdx_FREE, Ghost(ss));
    let ghost ss1 = ss.update(CF_QueueIdx_FREE as int, ss[CF_QueueIdx_FREE as int].drop_first());
    assert(ss1[hq as int] == ss[hq as int]);
    let hn = cf_take_head(chan, hk, hq, Ghost(ss1));
    let ghost ss2 = ss1.update(hq as int, ss1[hq as int].drop_first());
    proof {
        assert(ss2 == taken_queues(ss, hq as int));
        assert forall|q: int| 0 <= q < ss2.len() implies !#[trigger] ss2[q].contains(t) by {
            assert(!ss1[q].contains(t));
            if q == hq as int {
                lemma_drop_first_absent(ss1[q], t);
            }
        }
    }
    proof {
        assert(queue_ok(c0, h0, hq as int, ss[hq as int]));
        assert(hn < c0.nodes@.len());
    }
    let ghost c_rm = *chan;
    let h = hn - chan.txns.len();
    let mut txn = chan.txns[t];
    txn.state = crate::cfdp::CF_TxnState_INIT;
    txn.history = Some(h);
    chan.txns.set(t, txn);
    let mut hist = chan.hists[h];
    hist.dir = direction;
    chan.hists.set(h, hist);
    let ghost c2 = *chan;
    crate::clist::cf_clist_init_node(&mut chan.nodes, t);
    proof {
        lemma_channel_frame(c_rm, *hk, c2, *hk, ss2);
        lemma_channel_frame(c2, *hk, *chan, *hk, ss2);
        assert forall|ss3: Seq<Seq<usize>>|
            #[trigger] channel_ok(c0, h0, ss3) && pools_ok(c0, ss3) implies channel_ok(
            *chan,
            *hk,
            taken_queues(ss3, hist_source(c0)),
        ) by {
            lemma_same_queues(c0, h0, ss, ss3);
        }
    }
    Some(t)
}

/// The arguments of a search by sequence number, and the transaction found.
#[derive(Clone, Copy, Debug, PartialEq, Eq, Default)]
pub struct CfTraverseTransSeqArg {
    pub transaction_sequence_number: u32,
    pub src_eid: u32,
    pub txn: Option<usize>,
}

/// The node `x` is a transaction whose history entry has the source entity `src_eid` and
/// the sequence number `seq`.
pub open spec fn seq_match(txns: Seq<CfTransaction>, hists: Seq<CfHistory>, x: usize, src_eid: u32, seq: u32) -> bool {
    &&& x < txns.len()
    &&& txns[x as int].history matches Some(h) && h < hists.len() && hists[h as int].src_eid == src_eid
        && hists[h as int].seq_num == seq
}

/// One step of the search by sequence number at node `x`: a match is recorded and ends
/// the search.
pub open spec fn trans_seq_step(
    v: Vec<CListNode>,
    x: usize,
    c: CfTraverseTransSeqArg,
    txns: Seq<CfTransaction>,
    hists: Seq<CfHistory>,
) -> (Vec<CListNode>, CfTraverseTransSeqArg, CListTraverseStatus) {
    if seq_match(txns, hists, x, c.src_eid, c.transaction_sequence_number) {
        (v, CfTraverseTransSeqArg { txn: Some(x), ..c }, CListTraverseStatus::Exit)
    } else {
        (v, c, CListTraverseStatus::Cont)
    }
}

/// The search by sequence number at one node (see `trans_seq_step`).
pub fn CF_FindTransactionBySequenceNumber_Impl(
    nodes: Vec<CListNode>,
    node: usize,
    context: CfTraverseTransSeqArg,
    txns: &Vec<CfTransaction>,
    hists: &Vec<CfHistory>,
) -> (r: (Vec<CListNode>, CfTraverseTransSeqArg, CListTraverseStatus))
    ensures
        r == trans_seq_step(nodes, node, context, txns@, hists@),
{
    if node < txns.len() {
        match txns[node].history {
            Some(h) => {
                if h < hists.len() && hists[h].src_eid == context.src_eid && hists[h].seq_num
                    == context.transaction_sequence_number {
                    return (nodes, CfTraverseTransSeqArg { txn: Some(node), ..context }, CListTraverseStatus::Exit);
                }
            },
            None => {},
        }
    }
    (nodes, context, CListTraverseStatus::Cont)
}

/// A copy of a node table.
fn cf_copy_nodes(v: &Vec<CListNode>) -> (r: Vec<CListNode>)
    ensures
        r@ == v@,
{
    let mut r: Vec<CListNode> = Vec::new();
    let mut i: usize = 0;
    while i < v.len()
        invariant
            i <= v@.len(),
            r@ == v@.take(i as int),
        decreases v@.len() - i,
    {
        r.push(v[i]);
        i = i + 1;
        assert(r@ =~= v@.take(i as int));
    }
    assert(v@.take(v@.len() as int) =~= v@);
    r
}

/// The position of the first node of `s`, from position `i` on, that matches the source
/// entity `e` and sequence number `sq`; the length of `s` when none does.
pub open spec fn first_match_from(
    s: Seq<usize>,
    txns: Seq<CfTransaction>,
    hists: Seq<CfHistory>,
    e: u32,
    sq: u32,
    i: int,
) -> int
    decreases s.len() - i,
{
    if i < 0 || i >= s.len() {
        s.len() as int
    } else if seq_match(txns, hists, s[i], e, sq) {
        i
    } else {
        first_match_from(s, txns, hists, e, sq, i + 1)
    }
}

/// What a search of the nodes `s`, in order, finds: the first that matches.
pub open spec fn search_result(s: Seq<usize>, txns: Seq<CfTransaction>, hists: Seq<CfHistory>, e: u32, sq: u32) -> Option<usize> {
    let k = first_match_from(s, txns, hists, e, sq, 0);
    if k < s.len() { Some(s[k]) } else { None }
}

/// `first_match_from` is the first matching position.
proof fn lemma_first_match(s: Seq<usize>, txns: Seq<CfTransaction>, hists: Seq<CfHistory>, e: u32, sq: u32, i: int, m: int)
    requires
        0 <= i <= m <= s.len(),
        forall|j: int| i <= j < m ==> !seq_match(txns, hists, #[trigger] s[j], e, sq),
        m < s.len() ==> seq_match(txns, hists, s[m], e, sq),
    ensures
        first_match_from(s, txns, hists, e, sq, i) == m,
    decreases m - i,
{
    if i < m {
        assert(!seq_match(txns, hists, s[i], e, sq));
        lemma_first_match(s, txns, hists, e, sq, i + 1, m);
    }
}

/// A search of two lists, one after the other, finds what the search of the first finds,
/// or else what the search of the second finds.
proof fn lemma_search_concat(a: Seq<usize>, b: Seq<usize>, txns: Seq<CfTransaction>, hists: Seq<CfHistory>, e: u32, sq: u32)
    ensures
        search_result(a + b, txns, hists, e, sq) == (if search_result(a, txns, hists, e, sq) is Some {
            search_result(a, txns, hists, e, sq)
        } else {
            search_result(b, txns, hists, e, sq)
        }),
{
    let ab = a + b;
    let ka = first_match_from(a, txns, hists, e, sq, 0);
    let kb = first_match_from(b, txns, hists, e, sq, 0);
    lemma_first_match_bound(a, txns, hists, e, sq, 0);
    lemma_first_match_bound(b, txns, hists, e, sq, 0);
    lemma_first_match_prefix(a, txns, hists, e, sq, 0);
    lemma_first_match_prefix(b, txns, hists, e, sq, 0);
    if ka < a.len() {
        assert forall|j: int| 0 <= j < ka implies !seq_match(txns, hists, #[trigger] ab[j], e, sq) by {
            assert(ab[j] == a[j]);
        }
        assert(ab[ka] == a[ka]);
        lemma_first_match(ab, txns, hists, e, sq, 0, ka);
    } else {
        let m = a.len() + kb;
        assert forall|j: int| 0 <= j < m implies !seq_match(txns, hists, #[trigger] ab[j], e, sq) by {
            if j < a.len() {
                assert(ab[j] == a[j]);
            } else {
                assert(ab[j] == b[j - a.len()]);
            }
        }
        if kb < b.len() {
            assert(ab[m] == b[kb]);
        }
        lemma_first_match(ab, txns, hists, e, sq, 0, m);
    }
}

/// `first_match_from` lies between its start and the length, and matches when it is
/// short of the length.
proof fn lemma_first_match_bound(s: Seq<usize>, txns: Seq<CfTransaction>, hists: Seq<CfHistory>, e: u32, sq: u32, i: int)
    requires
        0 <= i <= s.len(),
    ensures
        i <= first_match_from(s, txns, hists, e, sq, i) <= s.len(),
        first_match_from(s, txns, hists, e, sq, i) < s.len() ==> seq_match(
            txns,
            hists,
            s[first_match_from(s, txns, hists, e, sq, i)],
            e,
            sq,
        ),
    decreases s.len() - i,
{
    if i < s.len() && !seq_match(txns, hists, s[i], e, sq) {
        lemma_first_match_bound(s, txns, hists, e, sq, i + 1);
    }
}

/// Nothing before `first_match_from` matches.
proof fn lemma_first_match_prefix(s: Seq<usize>, txns: Seq<CfTransaction>, hists: Seq<CfHistory>, e: u32, sq: u32, i: int)
    requires
        0 <= i <= s.len(),
    ensures
        forall|j: int| i <= j < first_match_from(s, txns, hists, e, sq, i) ==> !seq_match(txns, hists, #[trigger] s[j], e, sq),
    decreases s.len() - i,
{
    if i < s.len() && !seq_match(txns, hists, s[i], e, sq) {
        lemma_first_match_prefix(s, txns, hists, e, sq, i + 1);
    }
}

/// Searches the list at `head` for a transaction with the sequence number and source of
/// `ctx`, which has found none yet: the first one in the list's order.
fn cf_search_queue(
    nodes: Vec<CListNode>,
    head: Option<usize>,
    ctx: CfTraverseTransSeqArg,
    txns: &Vec<CfTransaction>,
    hists: &Vec<CfHistory>,
) -> (r: (Vec<CListNode>, CfTraverseTransSeqArg))
    requires
        head matches Some(h) ==> h < nodes@.len(),
        ctx.txn is None,
    ensures
        r.0@ == nodes@,
        r.1.src_eid == ctx.src_eid,
        r.1.transaction_sequence_number == ctx.transaction_sequence_number,
        r.1.txn matches Some(t) ==> seq_match(txns@, hists@, t, ctx.src_eid, ctx.transaction_sequence_number),
        forall|s: Seq<usize>|
            #[trigger] clist_wf(nodes@, head, s) ==> r.1.txn == search_result(
                s,
                txns@,
                hists@,
                ctx.src_eid,
                ctx.transaction_sequence_number,
            ),
{
    let f = |v: Vec<CListNode>, x: usize, c: CfTraverseTransSeqArg| -> (r: (
        Vec<CListNode>,
        CfTraverseTransSeqArg,
        CListTraverseStatus,
    ))
        ensures
            r == trans_seq_step(v, x, c, txns@, hists@),
        { CF_FindTransactionBySequenceNumber_Impl(v, x, c, txns, hists) };
    let ghost nodes0 = nodes;
    let r = cf_clist_traverse(nodes, head, f, ctx);
    proof {
        let e = ctx.src_eid;
        let sq = ctx.transaction_sequence_number;
        match head {
            None => {
                assert forall|s: Seq<usize>| #[trigger] clist_wf(nodes0@, head, s) implies r.1.txn == search_result(
                    s,
                    txns@,
                    hists@,
                    e,
                    sq,
                ) by {
                    assert(s.len() == 0);
                }
            },
            Some(h) => {
                let calls = choose|calls: Seq<TravCall<CfTraverseTransSeqArg>>|
                    trace_ok(f, nodes0, ctx, h, h, true, calls) && r == (calls.last().nodes_out, calls.last().ctx_out);
                let inv1 = |v: Vec<CListNode>, c: CfTraverseTransSeqArg|
                    v == nodes0 && c.src_eid == e && c.transaction_sequence_number == sq && (c.txn matches Some(t)
                        ==> seq_match(txns@, hists@, t, e, sq));
                assert forall|v: Vec<CListNode>, x: usize, c: CfTraverseTransSeqArg, rr: (Vec<CListNode>, CfTraverseTransSeqArg, CListTraverseStatus)|
                    inv1(v, c) && #[trigger] call_ensures(f, (v, x, c), rr) implies inv1(rr.0, rr.1) by {
                    assert(rr == trans_seq_step(v, x, c, txns@, hists@));
                }
                lemma_trace_keeps_all(f, nodes0, ctx, h, h, true, calls, inv1);
                assert forall|i: int| 0 <= i < calls.len() implies (#[trigger] calls[i]).nodes_out == calls[i].nodes_in
                    && (calls[i].status == CListTraverseStatus::Cont ==> calls[i].ctx_out == calls[i].ctx_in
                    && !seq_match(txns@, hists@, calls[i].node, calls[i].ctx_in.src_eid, calls[i].ctx_in.transaction_sequence_number))
                    && (calls[i].status == CListTraverseStatus::Exit ==> calls[i].ctx_out.txn == Some(calls[i].node)
                    && seq_match(txns@, hists@, calls[i].node, calls[i].ctx_in.src_eid, calls[i].ctx_in.transaction_sequence_number)) by {
                    let c = calls[i];
                    assert(call_ensures(f, (c.nodes_in, c.node, c.ctx_in), (c.nodes_out, c.ctx_out, c.status)));
                }
                assert forall|s: Seq<usize>| #[trigger] clist_wf(nodes0@, head, s) implies r.1.txn == search_result(
                    s,
                    txns@,
                    hists@,
                    e,
                    sq,
                ) by {
                    law_clist_traverse_in_order_until_exit(f, nodes0, ctx, s, calls);
                    let l = calls.len() as int;
                    assert forall|j: int| 0 <= j < l implies (#[trigger] calls[j]).ctx_in == ctx by {
                        lemma_trace_ctx_stays(f, nodes0, ctx, h, h, true, calls, j);
                    }
                    assert forall|j: int| 0 <= j < l - 1 implies !seq_match(txns@, hists@, #[trigger] s[j], e, sq) by {
                        assert(calls[j].node == s[j]);
                        assert(calls[j].ctx_in == ctx);
                    }
                    let c = calls[l - 1];
                    assert(c.node == s[l - 1]);
                    assert(c.ctx_in == ctx);
                    if c.status == CListTraverseStatus::Exit {
                        lemma_first_match(s, txns@, hists@, e, sq, 0, l - 1);
                    } else {
                        assert(l == s.len());
                        lemma_first_match(s, txns@, hists@, e, sq, 0, l);
                    }
                }
            },
        }
    }
    r
}

/// The queues that a search by sequence number looks in, in its order: receiving,
/// pending, and the two sending queues.
pub open spec fn searched_lists(chan: CfChannel, s0: Seq<usize>, s1: Seq<usize>, s2: Seq<usize>, s3: Seq<usize>) -> bool {
    &&& clist_wf(chan.nodes@, chan.qs[CF_QueueIdx_RX as int], s0)
    &&& clist_wf(chan.nodes@, chan.qs[CF_QueueIdx_PEND as int], s1)
    &&& clist_wf(chan.nodes@, chan.qs[CF_QueueIdx_TXA as int], s2)
    &&& clist_wf(chan.nodes@, chan.qs[CF_QueueIdx_TXW as int], s3)
}

/// Finds a transaction of the channel by the sequence number and source entity of its
/// history entry: the first one in the receiving, pending and sending queues, in this
/// order.
pub fn CF_FindTransactionBySequenceNumber(chan: &CfChannel, transaction_sequence_number: u32, src_eid: u32) -> (r:
    Option<usize>)
    requires
        forall|q: int| 0 <= q < CF_QUEUE_COUNT ==> head_linked(chan.nodes@, #[trigger] chan.qs[q]),
    ensures
        r matches Some(t) ==> seq_match(chan.txns@, chan.hists@, t, src_eid, transaction_sequence_number),
        forall|s0: Seq<usize>, s1: Seq<usize>, s2: Seq<usize>, s3: Seq<usize>|
            #[trigger] searched_lists(*chan, s0, s1, s2, s3) ==> r == search_result(
                s0 + s1 + s2 + s3,
                chan.txns@,
                chan.hists@,
                src_eid,
                transaction_sequence_number,
            ),
{
    let ctx = CfTraverseTransSeqArg { transaction_sequence_number, src_eid, txn: None };
    let ghost e = src_eid;
    let ghost sq = transaction_sequence_number;
    let ghost tx = chan.txns@;
    let ghost hs = chan.hists@;
    let nodes = cf_copy_nodes(&chan.nodes);
    let (nodes, c0) = cf_search_queue(nodes, chan.qs[CF_QueueIdx_RX], ctx, &chan.txns, &chan.hists);
    let (nodes, c1) = if c0.txn.is_none() {
        cf_search_queue(nodes, chan.qs[CF_QueueIdx_PEND], ctx, &chan.txns, &chan.hists)
    } else {
        (nodes, c0)
    };
    let (nodes, c2) = if c0.txn.is_none() && c1.txn.is_none() {
        cf_search_queue(nodes, chan.qs[CF_QueueIdx_TXA], ctx, &chan.txns, &chan.hists)
    } else {
        (nodes, c1)
    };
    let (_nodes, c3) = if c0.txn.is_none() && c1.txn.is_none() && c2.txn.is_none() {
        cf_search_queue(nodes, chan.qs[CF_QueueIdx_TXW], ctx, &chan.txns, &chan.hists)
    } else {
        (nodes, c2)
    };
    proof {
        assert forall|s0: Seq<usize>, s1: Seq<usize>, s2: Seq<usize>, s3: Seq<usize>|
            #[trigger] searched_lists(*chan, s0, s1, s2, s3) implies c3.txn == search_result(s0 + s1 + s2 + s3, tx, hs, e, sq) by {
            lemma_search_concat(s0, s1, tx, hs, e, sq);
            lemma_search_concat(s0 + s1, s2, tx, hs, e, sq);
            lemma_search_concat(s0 + s1 + s2, s3, tx, hs, e, sq);
        }
    }
    c3.txn
}

/// The arguments of a search by priority, and the transaction found.
#[derive(Clone, Copy, Debug, PartialEq, Eq, Default)]
pub struct CfTraversePriorityArg {
    pub txn: Option<usize>,
    pub priority: u8,
}

/// The node `x` is a transaction of priority at most `p`.
pub open spec fn prio_le(txns: Seq<CfTransaction>, x: usize, p: u8) -> bool {
    x < txns.len() && txns[x as int].priority <= p
}

/// One step of the search by priority at node `x`: a transaction of priority at most the
/// one sought is recorded and ends the search.
pub open spec fn prio_step(v: Vec<CListNode>, x: usize, c: CfTraversePriorityArg, txns: Seq<CfTransaction>) -> (
    Vec<CListNode>,
    CfTraversePriorityArg,
    CListTraverseStatus,
) {
    if prio_le(txns, x, c.priority) {
        (v, CfTraversePriorityArg { txn: Some(x), ..c }, CListTraverseStatus::Exit)
    } else {
        (v, c, CListTraverseStatus::Cont)
    }
}

/// The search by priority at one node (see `prio_step`).
pub fn CF_PrioSearch(nodes: Vec<CListNode>, node: usize, context: CfTraversePriorityArg, txns: &Vec<CfTransaction>) -> (r: (
    Vec<CListNode>,
    CfTraversePriorityArg,
    CListTraverseStatus,
))
    ensures
        r == prio_step(nodes, node, context, txns@),
{
    if node < txns.len() && txns[node].priority <= context.priority {
        (nodes, CfTraversePriorityArg { txn: Some(node), ..context }, CListTraverseStatus::Exit)
    } else {
        (nodes, context, CListTraverseStatus::Cont)
    }
}

/// The position of the last node of `s` before position `n` that is a transaction of
/// priority at most `p`; -1 when there is none.
pub open spec fn last_le(s: Seq<usize>, txns: Seq<CfTransaction>, p: u8, n: int) -> int
    decreases n,
{
    if n <= 0 {
        -1
    } else if prio_le(txns, s[n - 1], p) {
        n - 1
    } else {
        last_le(s, txns, p, n - 1)
    }
}

/// Where a transaction of priority `p` goes in the queue `s`: right after the last
/// transaction of priority at most `p`, or at the back when there is none.
pub open spec fn prio_insert_pos(s: Seq<usize>, txns: Seq<CfTransaction>, p: u8) -> int {
    let k = last_le(s, txns, p, s.len() as int);
    if k >= 0 { k + 1 } else { s.len() as int }
}

/// `last_le` is the last matching position.
proof fn lemma_last_le(s: Seq<usize>, txns: Seq<CfTransaction>, p: u8, n: int, m: int)
    requires
        0 <= m < n <= s.len(),
        prio_le(txns, s[m], p),
        forall|j: int| m < j < n ==> !prio_le(txns, #[trigger] s[j], p),
    ensures
        last_le(s, txns, p, n) == m,
    decreases n,
{
    if n - 1 > m {
        assert(!prio_le(txns, s[n - 1], p));
        lemma_last_le(s, txns, p, n - 1, m);
    }
}

/// `last_le` is -1 when no position matches.
proof fn lemma_last_le_none(s: Seq<usize>, txns: Seq<CfTransaction>, p: u8, n: int)
    requires
        0 <= n <= s.len(),
        forall|j: int| 0 <= j < n ==> !prio_le(txns, #[trigger] s[j], p),
    ensures
        last_le(s, txns, p, n) == -1,
    decreases n,
{
    if n > 0 {
        assert(!prio_le(txns, s[n - 1], p));
        lemma_last_le_none(s, txns, p, n - 1);
    }
}

/// Searches the queue `s`, not empty, from its back for the last transaction of priority
/// at most `p`.
fn cf_prio_search_queue(
    nodes: Vec<CListNode>,
    head: Option<usize>,
    p: u8,
    txns: &Vec<CfTransaction>,
    Ghost(s): Ghost<Seq<usize>>,
) -> (r: Option<usize>)
    requires
        s.len() > 0,
        clist_wf(nodes@, head, s),
    ensures
        r == (if last_le(s, txns@, p, s.len() as int) >= 0 {
            Some(s[last_le(s, txns@, p, s.len() as int)])
        } else {
            None::<usize>
        }),
        last_le(s, txns@, p, s.len() as int) < s.len(),
{
    let f = |v: Vec<CListNode>, x: usize, c: CfTraversePriorityArg| -> (r: (
        Vec<CListNode>,
        CfTraversePriorityArg,
        CListTraverseStatus,
    ))
        ensures
            r == prio_step(v, x, c, txns@),
        { CF_PrioSearch(v, x, c, txns) };
    let arg = CfTraversePriorityArg { txn: None, priority: p };
    let ghost nodes0 = nodes;
    let ghost n = s.len() as int;
    proof {
        lemma_wf_head_linked(nodes@, head, s);
        assert(nodes@[s[0] as int].prev == Some(s[crate::clist::ring_prev(0, n)]));
    }
    let r = cf_clist_traverse_r(nodes, head, f, arg);
    proof {
        let pv = s[n - 1];
        let calls = choose|calls: Seq<TravCall<CfTraversePriorityArg>>|
            trace_ok(f, nodes0, arg, pv, pv, false, calls) && r == (calls.last().nodes_out, calls.last().ctx_out);
        assert forall|v: Vec<CListNode>, x: usize, c: CfTraversePriorityArg, rr: (Vec<CListNode>, CfTraversePriorityArg, CListTraverseStatus)|
            #[trigger] call_ensures(f, (v, x, c), rr) implies rr == prio_step(v, x, c, txns@) by {
        }
        assert forall|i: int| 0 <= i < calls.len() implies (#[trigger] calls[i]).nodes_out == calls[i].nodes_in by {
            let c = calls[i];
            assert(call_ensures(f, (c.nodes_in, c.node, c.ctx_in), (c.nodes_out, c.ctx_out, c.status)));
        }
        law_clist_traverse_r_in_order(f, nodes0, arg, s, calls);
        let l = calls.len() as int;
        assert forall|i: int|
            0 <= i < l && (#[trigger] calls[i]).status == CListTraverseStatus::Cont implies calls[i].ctx_out
            == calls[i].ctx_in by {
            let c = calls[i];
            assert(call_ensures(f, (c.nodes_in, c.node, c.ctx_in), (c.nodes_out, c.ctx_out, c.status)));
        }
        assert forall|i: int| 0 <= i < l implies (#[trigger] calls[i]).ctx_in == arg by {
            lemma_trace_ctx_stays(f, nodes0, arg, pv, pv, false, calls, i);
        }
        assert forall|j: int| n - l < j < n implies !prio_le(txns@, #[trigger] s[j], p) by {
            let i = n - 1 - j;
            let c = calls[i];
            assert(c.node == s[n - 1 - i]);
            assert(c.status == CListTraverseStatus::Cont);
            assert(call_ensures(f, (c.nodes_in, c.node, c.ctx_in), (c.nodes_out, c.ctx_out, c.status)));
        }
        let c = calls[l - 1];
        assert(call_ensures(f, (c.nodes_in, c.node, c.ctx_in), (c.nodes_out, c.ctx_out, c.status)));
        assert(c.node == s[n - l]);
        if c.status == CListTraverseStatus::Exit {
            lemma_last_le(s, txns@, p, n, n - l);
        } else {
            assert(l == n);
            lemma_last_le_none(s, txns@, p, n);
        }
    }
    r.1.txn
}

/// The queue `s` holds transactions whose priorities do not decrease from front to back.
pub open spec fn prio_sorted(s: Seq<usize>, txns: Seq<CfTransaction>) -> bool {
    &&& forall|k: int| 0 <= k < s.len() ==> #[trigger] s[k] < txns.len()
    &&& forall|a: int, b: int|
        0 <= a < b < s.len() ==> txns[(#[trigger] s[a]) as int].priority <= txns[(#[trigger] s[b]) as int].priority
}

/// The priority sort law: a transaction put into a queue sorted by priority, whose front
/// is of the same or a better priority, leaves the queue sorted.
pub proof fn law_insert_sort_prio_sorted(s: Seq<usize>, txns: Seq<CfTransaction>, t: usize)
    requires
        prio_sorted(s, txns),
        t < txns.len(),
        s.len() > 0 ==> txns[s[0] as int].priority <= txns[t as int].priority,
    ensures
        prio_sorted(s.insert(prio_insert_pos(s, txns, txns[t as int].priority), t), txns),
{
    let p = txns[t as int].priority;
    let n = s.len() as int;
    let k = last_le(s, txns, p, n);
    lemma_last_le_facts(s, txns, p, n);
    let pos = prio_insert_pos(s, txns, p);
    let s1 = s.insert(pos, t);
    if n > 0 {
        assert(prio_le(txns, s[0], p));
        assert(k >= 0);
    }
    assert forall|j: int| 0 <= j < pos implies txns[s[j] as int].priority <= p by {
        if j < k {
            assert(txns[s[j] as int].priority <= txns[s[k] as int].priority);
        }
    }
    assert forall|j: int| pos <= j < n implies txns[s[j] as int].priority > p by {
        assert(!prio_le(txns, s[j], p));
    }
    assert forall|a: int, b: int| 0 <= a < b < s1.len() implies txns[(#[trigger] s1[a]) as int].priority
        <= txns[(#[trigger] s1[b]) as int].priority by {
        if b < pos {
            assert(s1[a] == s[a] && s1[b] == s[b]);
        } else if b == pos {
            assert(s1[a] == s[a]);
        } else if a < pos {
            assert(s1[a] == s[a] && s1[b] == s[b - 1]);
        } else if a == pos {
            assert(s1[b] == s[b - 1]);
        } else {
            assert(s1[a] == s[a - 1] && s1[b] == s[b - 1]);
        }
    }
    assert forall|j: int| 0 <= j < s1.len() implies #[trigger] s1[j] < txns.len() by {
        if j < pos {
            assert(s1[j] == s[j]);
        } else if j > pos {
            assert(s1[j] == s[j - 1]);
        }
    }
}

/// What `last_le` says of the positions of `s` before `n`: a match at it, none after it.
proof fn lemma_last_le_facts(s: Seq<usize>, txns: Seq<CfTransaction>, p: u8, n: int)
    requires
        0 <= n <= s.len(),
    ensures
        -1 <= last_le(s, txns, p, n) < n,
        last_le(s, txns, p, n) >= 0 ==> prio_le(txns, s[last_le(s, txns, p, n)], p),
        forall|j: int| last_le(s, txns, p, n) < j < n ==> !prio_le(txns, #[trigger] s[j], p),
    decreases n,
{
    if n > 0 && !prio_le(txns, s[n - 1], p) {
        lemma_last_le_facts(s, txns, p, n - 1);
    }
}

/// Puts the transaction `t`, which is on no queue, on queue `queue` after the last
/// transaction there of the same or a better (lower) priority, searching from the back;
/// at the back when there is none. Records that it is on that queue.
pub fn CF_InsertSortPrio(chan: &mut CfChannel, hk: &mut CfHkChannelData, t: usize, queue: usize)
    requires
        t < old(chan).txns@.len(),
        t < old(chan).nodes@.len(),
        queue < CF_QUEUE_COUNT,
        exists|ss: Seq<Seq<usize>>| #[trigger] channel_ok(*old(chan), *old(hk), ss) && on_no_queue(ss, t),
    ensures
        final(chan).txns@ == old(chan).txns@.update(
            t as int,
            CfTransaction { q_index: queue, ..old(chan).txns@[t as int] },
        ),
        final(chan).hists == old(chan).hists,
        final(chan).cs == old(chan).cs,
        final(hk).counters == old(hk).counters,
        forall|ss: Seq<Seq<usize>>|
            #[trigger] channel_ok(*old(chan), *old(hk), ss) && on_no_queue(ss, t) && ss[queue as int].len() + 1
                < 0x1_0000 ==> channel_ok(
                *final(chan),
                *final(hk),
                ss.update(
                    queue as int,
                    ss[queue as int].insert(
                        prio_insert_pos(ss[queue as int], old(chan).txns@, old(chan).txns@[t as int].priority),
                        t,
                    ),
                ),
            ),
{
    let ghost c0 = *chan;
    let ghost h0 = *hk;
    let ghost ss = choose|ss: Seq<Seq<usize>>| #[trigger] channel_ok(c0, h0, ss) && on_no_queue(ss, t);
    let ghost s = ss[queue as int];
    let ghost pos = prio_insert_pos(s, c0.txns@, c0.txns@[t as int].priority);
    proof {
        assert(queue_ok(c0, h0, queue as int, s));
        lemma_channel_linked(c0, h0, ss);
    }
    let p = chan.txns[t].priority;
    let found = if chan.qs[queue].is_none() {
        None
    } else {
        let nodes = cf_copy_nodes(&chan.nodes);
        cf_prio_search_queue(nodes, chan.qs[queue], p, &chan.txns, Ghost(s))
    };
    match found {
        Some(pt) => {
            let ghost k = last_le(s, c0.txns@, p, s.len() as int);
            proof {
                assert(node_linked(c0.nodes@, s[k]));
            }
            CF_CList_InsertAfter_Ex(chan, hk, queue, pt, t);
            proof {
                if s.len() + 1 < 0x1_0000 {
                    law_insert_after_ex(c0, h0, *chan, *hk, ss, queue as int, k, t);
                }
            }
        },
        None => {
            CF_CList_InsertBack_Ex(chan, hk, queue, t);
            proof {
                assert(pos == s.len());
                assert(s.insert(s.len() as int, t) =~= s.push(t));
                if s.len() + 1 < 0x1_0000 {
                    law_insert_back_ex(c0, h0, *chan, *hk, ss, queue as int, t);
                }
            }
        },
    }
    let ghost c1 = *chan;
    let mut txn = chan.txns[t];
    txn.q_index = queue;
    chan.txns.set(t, txn);
    proof {
        let ss1 = ss.update(queue as int, s.insert(pos, t));
        if s.len() + 1 < 0x1_0000 {
            lemma_channel_frame(c1, *hk, *chan, *hk, ss1);
        }
        assert forall|ss2: Seq<Seq<usize>>|
            #[trigger] channel_ok(c0, h0, ss2) && on_no_queue(ss2, t) && ss2[queue as int].len() + 1 < 0x1_0000
                implies channel_ok(
            *chan,
            *hk,
            ss2.update(
                queue as int,
                ss2[queue as int].insert(prio_insert_pos(ss2[queue as int], c0.txns@, c0.txns@[t as int].priority), t),
            ),
        ) by {
            lemma_same_queues(c0, h0, ss, ss2);
        }
    }
}

/// The channel of a transaction, when its channel number is one.
pub fn CF_GetChannelFromTxn(txn: &CfTransaction) -> (r: Option<usize>)
    ensures
        r == (if (txn.chan_num as usize) < CF_NUM_CHANNELS { Some(txn.chan_num as usize) } else { None::<usize> }),
{
    if (txn.chan_num as usize) < CF_NUM_CHANNELS {
        Some(txn.chan_num as usize)
    } else {
        None
    }
}

/// The head of a channel's chunk list for `direction`; none without a channel or for a
/// direction that is not one.
pub fn CF_GetChunkListHead(chan: Option<&CfChannel>, direction: u8) -> (r: Option<Option<usize>>)
    ensures
        r == (match chan {
            Some(c) => if direction < CF_Direction_NUM { Some(c.cs[direction as int]) } else { None },
            None => None,
        }),
{
    match chan {
        Some(c) => {
            if direction < CF_Direction_NUM {
                Some(c.cs[direction as usize])
            } else {
                None
            }
        },
        None => None,
    }
}

/// The transaction `t` has a history entry in the channel.
pub open spec fn has_history(chan: CfChannel, t: usize) -> bool {
    &&& t < chan.txns@.len()
    &&& chan.txns@[t as int].history matches Some(h) && h < chan.hists@.len()
}

/// The status recorded in the history entry of transaction `t`.
pub fn CF_CFDP_GetTxnStatus(chan: &CfChannel, t: usize) -> (r: i32)
    requires
        has_history(*chan, t),
    ensures
        r == chan.hists@[chan.txns@[t as int].history.unwrap() as int].txn_stat,
{
    let h = chan.txns[t].history.unwrap();
    chan.hists[h].txn_stat
}

/// Records `txn_stat` as the status of transaction `t`, unless an error is already
/// recorded (see `set_status`).
pub fn CF_CFDP_SetTxnStatus(chan: &mut CfChannel, t: usize, txn_stat: i32)
    requires
        has_history(*old(chan), t),
    ensures
        ({
            let h = old(chan).txns@[t as int].history.unwrap() as int;
            &&& final(chan).hists@ == old(chan).hists@.update(
                h,
                CfHistory { txn_stat: set_status(old(chan).hists@[h].txn_stat, txn_stat), ..old(chan).hists@[h] },
            )
            &&& final(chan).txns == old(chan).txns
            &&& final(chan).nodes == old(chan).nodes
            &&& final(chan).qs == old(chan).qs
            &&& final(chan).cs == old(chan).cs
        }),
{
    let h = chan.txns[t].history.unwrap();
    let mut hist = chan.hists[h];
    if !CF_TxnStatus_IsError(hist.txn_stat) {
        hist.txn_stat = txn_stat;
    }
    chan.hists.set(h, hist);
}

/// `func` can take the contexts `cs` from `c0` to `c1` over the transactions `xs`: each
/// call on `xs[i]` with `cs[i]` may give `cs[i + 1]`.
pub open spec fn fold_calls<C, G: Fn(usize, C) -> C>(func: G, xs: Seq<usize>, cs: Seq<C>, c0: C, c1: C) -> bool {
    &&& cs.len() == xs.len() + 1
    &&& cs[0] == c0
    &&& cs[xs.len() as int] == c1
    &&& forall|i: int| 0 <= i < xs.len() ==> call_ensures(func, (#[trigger] xs[i], cs[i]), cs[i + 1])
}

/// Calling `func` on the transactions `xs` in order may take the context from `c0` to
/// `c1`.
pub open spec fn fold_ok<C, G: Fn(usize, C) -> C>(func: G, xs: Seq<usize>, c0: C, c1: C) -> bool {
    exists|cs: Seq<C>| fold_calls(func, xs, cs, c0, c1)
}

/// Two runs of calls, one after the other, make a run over both lists.
proof fn lemma_fold_concat<C, G: Fn(usize, C) -> C>(func: G, xs1: Seq<usize>, xs2: Seq<usize>, c0: C, c1: C, c2: C)
    requires
        fold_ok(func, xs1, c0, c1),
        fold_ok(func, xs2, c1, c2),
    ensures
        fold_ok(func, xs1 + xs2, c0, c2),
{
    let cs1 = choose|cs: Seq<C>| fold_calls(func, xs1, cs, c0, c1);
    let cs2 = choose|cs: Seq<C>| fold_calls(func, xs2, cs, c1, c2);
    let cs = cs1 + cs2.drop_first();
    let xs = xs1 + xs2;
    let n1 = xs1.len() as int;
    assert forall|i: int| 0 <= i < xs.len() implies call_ensures(func, (#[trigger] xs[i], cs[i]), cs[i + 1]) by {
        if i < n1 {
            assert(xs[i] == xs1[i]);
            assert(call_ensures(func, (xs1[i], cs1[i]), cs1[i + 1]));
            if i + 1 == n1 {
                assert(cs[i + 1] == cs2[0]);
            }
        } else {
            assert(xs[i] == xs2[i - n1]);
            assert(call_ensures(func, (xs2[i - n1], cs2[i - n1]), cs2[i - n1 + 1]));
            if i == n1 {
                assert(cs[i] == cs1[n1]);
            } else {
                assert(cs[i] == cs2[i - n1]);
            }
        }
    }
    assert(fold_calls(func, xs, cs, c0, c2));
}

/// The counter after one more transaction, wrapping round.
pub open spec fn count_step(n: i32) -> i32 {
    if n == i32::MAX { i32::MIN } else { (n + 1) as i32 }
}

/// One step of a traversal of all transactions at node `x`: `func` is called on the
/// transaction and the transaction is counted.
pub fn CF_TraverseAllTransactions_Impl<C, G: Fn(usize, C) -> C>(
    nodes: Vec<CListNode>,
    node: usize,
    args: (C, i32),
    func: &G,
) -> (r: (Vec<CListNode>, (C, i32), CListTraverseStatus))
    requires
        call_requires(func, (node, args.0)),
    ensures
        r.0 == nodes,
        call_ensures(func, (node, args.0), r.1.0),
        r.1.1 == count_step(args.1),
        r.2 == CListTraverseStatus::Cont,
{
    let (c, n) = args;
    let c1 = func(node, c);
    (nodes, (c1, n.wrapping_add(1)), CListTraverseStatus::Cont)
}

/// Every call of a traversal that counts with `count_step` sees the count grown by one
/// per earlier call.
proof fn lemma_count_calls<C, F: Fn(Vec<CListNode>, usize, (C, i32)) -> (Vec<CListNode>, (C, i32), CListTraverseStatus)>(
    f: F,
    nodes: Vec<CListNode>,
    args: (C, i32),
    h: usize,
    calls: Seq<TravCall<(C, i32)>>,
    j: int,
)
    requires
        trace_ok(f, nodes, args, h, h, true, calls),
        forall|i: int| 0 <= i < calls.len() ==> (#[trigger] calls[i]).ctx_out.1 == count_step(calls[i].ctx_in.1),
        0 <= j < calls.len(),
        args.1 + calls.len() <= i32::MAX,
    ensures
        calls[j].ctx_in.1 == args.1 + j,
    decreases j,
{
    if j > 0 {
        lemma_count_calls(f, nodes, args, h, calls, j - 1);
        assert(trace_link(calls, h, true, j - 1));
        assert(calls[j - 1].ctx_out.1 == count_step(calls[j - 1].ctx_in.1));
    }
}

/// Calls `func` on each transaction of the list at `head`, in order, counting them.
fn cf_traverse_queue_all<C, G: Fn(usize, C) -> C>(
    nodes: Vec<CListNode>,
    head: Option<usize>,
    func: &G,
    args: (C, i32),
) -> (r: (Vec<CListNode>, (C, i32)))
    requires
        head matches Some(h) ==> h < nodes@.len(),
        forall|x: usize, c: C| call_requires(func, (x, c)),
    ensures
        r.0 == nodes,
        forall|s: Seq<usize>|
            #[trigger] clist_wf(nodes@, head, s) && args.1 + s.len() <= i32::MAX ==> r.1.1 == args.1 + s.len()
                && fold_ok(func, s, args.0, r.1.0),
{
    let f = |v: Vec<CListNode>, x: usize, a: (C, i32)| -> (r: (Vec<CListNode>, (C, i32), CListTraverseStatus))
        requires
            call_requires(func, (x, a.0)),
        ensures
            r.0 == v,
            call_ensures(func, (x, a.0), r.1.0),
            r.1.1 == count_step(a.1),
            r.2 == CListTraverseStatus::Cont,
        { CF_TraverseAllTransactions_Impl(v, x, a, func) };
    let ghost nodes0 = nodes;
    let ghost args0 = args;
    assert forall|v: Vec<CListNode>, x: usize, c: (C, i32)| x < v@.len() implies call_requires(f, (v, x, c)) by {
        assert(call_requires(func, (x, c.0)));
    }
    let r = cf_clist_traverse(nodes, head, f, args);
    proof {
        match head {
            None => {
                assert forall|s: Seq<usize>|
                    #[trigger] clist_wf(nodes0@, head, s) && args0.1 + s.len() <= i32::MAX implies r.1.1 == args0.1 + s.len()
                        && fold_ok(func, s, args0.0, r.1.0) by {
                    assert(fold_calls(func, s, seq![args0.0], args0.0, r.1.0));
                }
            },
            Some(h) => {
                let calls = choose|calls: Seq<TravCall<(C, i32)>>|
                    trace_ok(f, nodes0, args0, h, h, true, calls) && r == (calls.last().nodes_out, calls.last().ctx_out);
                assert forall|i: int| 0 <= i < calls.len() implies (#[trigger] calls[i]).status
                    == CListTraverseStatus::Cont && calls[i].nodes_out == calls[i].nodes_in
                    && calls[i].ctx_out.1 == count_step(calls[i].ctx_in.1) && call_ensures(
                    func,
                    (calls[i].node, calls[i].ctx_in.0),
                    calls[i].ctx_out.0,
                ) by {
                    let c = calls[i];
                    assert(call_ensures(f, (c.nodes_in, c.node, c.ctx_in), (c.nodes_out, c.ctx_out, c.status)));
                }
                let inv = |v: Vec<CListNode>, c: (C, i32)| v == nodes0;
                assert forall|v: Vec<CListNode>, x: usize, c: (C, i32), rr: (Vec<CListNode>, (C, i32), CListTraverseStatus)|
                    inv(v, c) && #[trigger] call_ensures(f, (v, x, c), rr) implies inv(rr.0, rr.1) by {
                }
                lemma_trace_keeps_all(f, nodes0, args0, h, h, true, calls, inv);
                assert forall|s: Seq<usize>|
                    #[trigger] clist_wf(nodes0@, head, s) && args0.1 + s.len() <= i32::MAX implies r.1.1 == args0.1 + s.len()
                        && fold_ok(func, s, args0.0, r.1.0) by {
                    law_clist_traverse_in_order(f, nodes0, args0, s, calls);
                    let l = calls.len() as int;
                    lemma_count_calls(f, nodes0, args0, h, calls, l - 1);
                    let cs = Seq::new((l + 1) as nat, |i: int| if i < l { calls[i].ctx_in.0 } else { calls[l - 1].ctx_out.0 });
                    assert forall|i: int| 0 <= i < s.len() implies call_ensures(func, (#[trigger] s[i], cs[i]), cs[i + 1]) by {
                        assert(calls[i].node == s[i]);
                        if i + 1 < l {
                            assert(trace_link(calls, h, true, i));
                        }
                    }
                    assert(fold_calls(func, s, cs, args0.0, r.1.0));
                }
            },
        }
    }
    r
}

/// The first match from position `i` on comes no later than a match at `j`.
proof fn lemma_first_match_le(s: Seq<usize>, txns: Seq<CfTransaction>, hists: Seq<CfHistory>, e: u32, sq: u32, i: int, j: int)
    requires
        0 <= i <= j < s.len(),
        seq_match(txns, hists, s[j], e, sq),
    ensures
        i <= first_match_from(s, txns, hists, e, sq, i) <= j,
    decreases j - i,
{
    if i < j && !seq_match(txns, hists, s[i], e, sq) {
        lemma_first_match_le(s, txns, hists, e, sq, i + 1, j);
    }
}

/// What a search of the nodes `s` finds, if anything, is one of them and matches.
proof fn lemma_search_result_found(s: Seq<usize>, txns: Seq<CfTransaction>, hists: Seq<CfHistory>, e: u32, sq: u32, i: int)
    requires
        0 <= i <= s.len(),
    ensures
        first_match_from(s, txns, hists, e, sq, i) == s.len() || (i <= first_match_from(s, txns, hists, e, sq, i)
            < s.len() && seq_match(txns, hists, s[first_match_from(s, txns, hists, e, sq, i)], e, sq)),
    decreases s.len() - i,
{
    if i < s.len() && !seq_match(txns, hists, s[i], e, sq) {
        lemma_search_result_found(s, txns, hists, e, sq, i + 1);
    }
}

/// The search law: a search by sequence number (see `CF_FindTransactionBySequenceNumber`)
/// finds a transaction whenever one on the receiving, pending or either sending queue
/// has a history entry with that source entity and sequence number; and what it finds
/// is a transaction on one of those queues that matches.
pub proof fn law_find_by_sequence_number(
    chan: CfChannel,
    src_eid: u32,
    seq: u32,
    s0: Seq<usize>,
    s1: Seq<usize>,
    s2: Seq<usize>,
    s3: Seq<usize>,
)
    requires
        searched_lists(chan, s0, s1, s2, s3),
    ensures
        (exists|q: int, s: Seq<usize>, x: usize|
            (q == CF_QueueIdx_RX || q == CF_QueueIdx_PEND || q == CF_QueueIdx_TXA || q == CF_QueueIdx_TXW)
                && #[trigger] clist_wf(chan.nodes@, chan.qs[q], s) && s.contains(x) && #[trigger] seq_match(
                chan.txns@,
                chan.hists@,
                x,
                src_eid,
                seq,
            )) ==> search_result(s0 + s1 + s2 + s3, chan.txns@, chan.hists@, src_eid, seq) is Some,
        search_result(s0 + s1 + s2 + s3, chan.txns@, chan.hists@, src_eid, seq) matches Some(t) ==> (s0 + s1 + s2
            + s3).contains(t) && seq_match(chan.txns@, chan.hists@, t, src_eid, seq),
{
    let all = s0 + s1 + s2 + s3;
    let tx = chan.txns@;
    let hs = chan.hists@;
    lemma_search_result_found(all, tx, hs, src_eid, seq, 0);
    let k = first_match_from(all, tx, hs, src_eid, seq, 0);
    if k < all.len() {
        assert(all.contains(all[k]));
    }
    if exists|q: int, s: Seq<usize>, x: usize|
        (q == CF_QueueIdx_RX || q == CF_QueueIdx_PEND || q == CF_QueueIdx_TXA || q == CF_QueueIdx_TXW)
            && #[trigger] clist_wf(chan.nodes@, chan.qs[q], s) && s.contains(x) && #[trigger] seq_match(tx, hs, x, src_eid, seq) {
        let (q, s, x) = choose|q: int, s: Seq<usize>, x: usize|
            (q == CF_QueueIdx_RX || q == CF_QueueIdx_PEND || q == CF_QueueIdx_TXA || q == CF_QueueIdx_TXW)
                && #[trigger] clist_wf(chan.nodes@, chan.qs[q], s) && s.contains(x) && #[trigger] seq_match(tx, hs, x, src_eid, seq);
        let j = choose|j: int| 0 <= j < s.len() && s[j] == x;
        let off: int = if q == CF_QueueIdx_RX {
            crate::clist::lemma_clist_unique(chan.nodes@, chan.qs[q], s, s0);
            0
        } else if q == CF_QueueIdx_PEND {
            crate::clist::lemma_clist_unique(chan.nodes@, chan.qs[q], s, s1);
            s0.len() as int
        } else if q == CF_QueueIdx_TXA {
            crate::clist::lemma_clist_unique(chan.nodes@, chan.qs[q], s, s2);
            (s0.len() + s1.len()) as int
        } else {
            crate::clist::lemma_clist_unique(chan.nodes@, chan.qs[q], s, s3);
            (s0.len() + s1.len() + s2.len()) as int
        };
        assert(all[off + j] == x);
        lemma_first_match_le(all, tx, hs, src_eid, seq, 0, off + j);
    }
}

/// The four queues of active transactions: pending, the two sending queues, receiving.
pub open spec fn active_lists(chan: CfChannel, s0: Seq<usize>, s1: Seq<usize>, s2: Seq<usize>, s3: Seq<usize>) -> bool {
    &&& clist_wf(chan.nodes@, chan.qs[CF_QueueIdx_PEND as int], s0)
    &&& clist_wf(chan.nodes@, chan.qs[CF_QueueIdx_TXA as int], s1)
    &&& clist_wf(chan.nodes@, chan.qs[CF_QueueIdx_TXW as int], s2)
    &&& clist_wf(chan.nodes@, chan.qs[CF_QueueIdx_RX as int], s3)
}

/// Calls `func` on every active transaction of the channel, queue by queue (pending, the
/// two sending queues, receiving) and in each queue in order, and returns how many there
/// were, with the context that the calls leave.
pub fn CF_TraverseAllTransactions<C, G: Fn(usize, C) -> C>(chan: &CfChannel, func: G, context: C) -> (r: (i32, C))
    requires
        forall|q: int| 0 <= q < CF_QUEUE_COUNT ==> head_linked(chan.nodes@, #[trigger] chan.qs[q]),
        forall|x: usize, c: C| call_requires(func, (x, c)),
    ensures
        forall|s0: Seq<usize>, s1: Seq<usize>, s2: Seq<usize>, s3: Seq<usize>|
            #[trigger] active_lists(*chan, s0, s1, s2, s3) && s0.len() + s1.len() + s2.len() + s3.len() <= i32::MAX
                ==> r.0 == s0.len() + s1.len() + s2.len() + s3.len() && fold_ok(&func, s0 + s1 + s2 + s3, context, r.1),
{
    let nodes = cf_copy_nodes(&chan.nodes);
    let ghost nodes0 = nodes;
    let a0 = (context, 0i32);
    let ghost c0 = a0.0;
    let (nodes, a1) = cf_traverse_queue_all(nodes, chan.qs[CF_QueueIdx_PEND], &func, a0);
    let ghost c1 = a1.0;
    let (nodes, a2) = cf_traverse_queue_all(nodes, chan.qs[CF_QueueIdx_TXA], &func, a1);
    let ghost c2 = a2.0;
    let (nodes, a3) = cf_traverse_queue_all(nodes, chan.qs[CF_QueueIdx_TXW], &func, a2);
    let ghost c3 = a3.0;
    let (_nodes, a4) = cf_traverse_queue_all(nodes, chan.qs[CF_QueueIdx_RX], &func, a3);
    proof {
        assert forall|s0: Seq<usize>, s1: Seq<usize>, s2: Seq<usize>, s3: Seq<usize>|
            #[trigger] active_lists(*chan, s0, s1, s2, s3) && s0.len() + s1.len() + s2.len() + s3.len() <= i32::MAX
                implies a4.1 == s0.len() + s1.len() + s2.len() + s3.len() && fold_ok(&func, s0 + s1 + s2 + s3, context, a4.0) by {
            assert(clist_wf(nodes0@, chan.qs[CF_QueueIdx_PEND as int], s0));
            assert(clist_wf(nodes0@, chan.qs[CF_QueueIdx_TXA as int], s1));
            assert(clist_wf(nodes0@, chan.qs[CF_QueueIdx_TXW as int], s2));
            assert(clist_wf(nodes0@, chan.qs[CF_QueueIdx_RX as int], s3));
            lemma_fold_concat(&func, s0, s1, context, a1.0, a2.0);
            lemma_fold_concat(&func, s0 + s1, s2, context, a2.0, a3.0);
            lemma_fold_concat(&func, s0 + s1 + s2, s3, context, a3.0, a4.0);
        }
    }
    (a4.1, a4.0)
}

} // verus!
