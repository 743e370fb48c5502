//! Writing the entries of a channel's queues to a file: which entries are written, in
//! what order, how they are counted, and where a failed write stops the walk. Writing
//! one history entry is the host's work: it is the `write` function, which gives 0 when
//! the entry was written.
#![allow(non_snake_case)]
#![allow(non_camel_case_types)]

use vstd::prelude::*;
use crate::cfdp::CfHistory;
use crate::clist::{clist_wf, ring_next, CListNode, CListTraverseStatus};
use crate::utils::{CfChannel, CF_Direction_NUM, CF_QueueIdx_HIST};

verus! {

/// The nodes of the list at `head`, in order.
fn cf_list_nodes(nodes: &Vec<CListNode>, head: Option<usize>) -> (r: Vec<usize>)
    requires
        exists|s: Seq<usize>| clist_wf(nodes@, head, s),
    ensures
        clist_wf(nodes@, head, r@),
{
    let ghost s = choose|s: Seq<usize>| clist_wf(nodes@, head, s);
    let mut out: Vec<usize> = Vec::new();
    match head {
        None => {
            assert(out@ =~= s);
            out
        },
        Some(h) => {
            assert(s[0] < nodes@.len());
            out.push(h);
            let mut cur = nodes[h].next.unwrap();
            while cur != h
                invariant
                    clist_wf(nodes@, head, s),
                    head == Some(h),
                    1 <= out@.len() <= s.len(),
                    out@ == s.subrange(0, out@.len() as int),
                    cur == s[ring_next(out@.len() - 1, s.len() as int)],
                decreases s.len() - out@.len(),
            {
                let ghost k = out@.len() as int;
                proof {
                    if k == s.len() as int {
                        assert(ring_next(k - 1, s.len() as int) == 0);
                    }
                }
                assert(k < s.len());
                assert(s[k] < nodes@.len());
                out.push(cur);
                assert(out@ =~= s.subrange(0, k + 1));
                cur = nodes[cur].next.unwrap();
            }
            let ghost k = out@.len() as int;
            proof {
                if k < s.len() as int {
                    assert(ring_next(k - 1, s.len() as int) == k);
                    assert(s[k] == s[0]);
                }
            }
            assert(out@ =~= s);
            out
        },
    }
}

/// Whether a history entry in direction `dir` passes the filter `filter_dir`
/// (`CF_Direction_NUM` lets every direction pass).
pub open spec fn dir_matches(filter_dir: u8, dir: u8) -> bool {
    filter_dir == CF_Direction_NUM || dir == filter_dir
}

/// The state of a walk that writes history entries: the direction filter, whether a
/// write failed, and how many entries were written.
#[derive(Clone, Copy, Debug, PartialEq, Eq, Default)]
pub struct CF_Traverse_WriteHistoryFileArg {
    pub filter_dir: u8,
    pub error: bool,
    pub counter: u32,
}

/// The state of a walk that writes the history entries of transactions: whether a
/// write failed, and how many entries were written.
#[derive(Clone, Copy, Debug, PartialEq, Eq, Default)]
pub struct CF_Traverse_WriteTxnFileArg {
    pub error: bool,
    pub counter: u32,
}

/// A walk's error flag and count, and whether it goes on, after a write with status
/// `st`: a failed write stops the walk with the error set; a good one is counted (the
/// count wraps round).
pub open spec fn after_write(error: bool, counter: u32, st: i32) -> (bool, u32, CListTraverseStatus) {
    if st != 0 {
        (true, counter, CListTraverseStatus::Exit)
    } else {
        (error, ((counter + 1) % 0x1_0000_0000) as u32, CListTraverseStatus::Cont)
    }
}

/// Writes `history` with `write` when its direction passes the walk's filter, counting
/// it, or stopping the walk when the write fails; an entry that does not pass is left
/// alone and the walk goes on.
pub fn CF_Traverse_WriteHistoryQueueEntryToFile<W: Fn(CfHistory) -> i32>(
    history: &CfHistory,
    args: &mut CF_Traverse_WriteHistoryFileArg,
    write: &W,
) -> (r: CListTraverseStatus)
    requires
        call_requires(*write, (*history,)),
    ensures
        old(args).filter_dir != CF_Direction_NUM && history.dir != old(args).filter_dir ==> r
            == CListTraverseStatus::Cont && *final(args) == *old(args),
        (old(args).filter_dir == CF_Direction_NUM || history.dir == old(args).filter_dir) ==> exists|st: i32|
            #![trigger call_ensures(*write, (*history,), st)]
            call_ensures(*write, (*history,), st) && final(args).filter_dir == old(args).filter_dir && (
            final(args).error,
            final(args).counter,
            r,
        ) == after_write(old(args).error, old(args).counter, st),
        !dir_matches(old(args).filter_dir, history.dir) ==> r == CListTraverseStatus::Cont && *final(args)
            == *old(args),
        dir_matches(old(args).filter_dir, history.dir) ==> exists|st: i32|
            #![trigger call_ensures(*write, (*history,), st)]
            call_ensures(*write, (*history,), st) && final(args).filter_dir == old(args).filter_dir && (
            final(args).error,
            final(args).counter,
            r,
        ) == after_write(old(args).error, old(args).counter, st),
{
    if args.filter_dir == CF_Direction_NUM || history.dir == args.filter_dir {
        let st = write(*history);
        if st != 0 {
            args.error = true;
            return CListTraverseStatus::Exit;
        }
        args.counter = args.counter.wrapping_add(1);
    }
    CListTraverseStatus::Cont
}

/// Writes the history entry of a transaction with `write`, counting it, or stopping the
/// walk when the write fails.
pub fn CF_Traverse_WriteTxnQueueEntryToFile<W: Fn(CfHistory) -> i32>(
    history: &CfHistory,
    args: &mut CF_Traverse_WriteTxnFileArg,
    write: &W,
) -> (r: CListTraverseStatus)
    requires
        call_requires(*write, (*history,)),
    ensures
        exists|st: i32|
            #![trigger call_ensures(*write, (*history,), st)]
            call_ensures(*write, (*history,), st) && (final(args).error, final(args).counter, r) == after_write(
                old(args).error,
                old(args).counter,
                st,
            ),
{
    let st = write(*history);
    if st != 0 {
        args.error = true;
        return CListTraverseStatus::Exit;
    }
    args.counter = args.counter.wrapping_add(1);
    CListTraverseStatus::Cont
}

/// The first part of a walk over the entries `hs` with the filter `filter_dir`: `st[i]`
/// is the status of the write of `hs[i]`, or none where the entry did not pass the
/// filter; every write but the last succeeded, and `error` tells whether the last failed.
pub open spec fn write_trace_prefix<W: Fn(CfHistory) -> i32>(
    write: W,
    hs: Seq<CfHistory>,
    filter_dir: u8,
    st: Seq<Option<i32>>,
    error: bool,
) -> bool {
    &&& st.len() <= hs.len()
    &&& forall|i: int| 0 <= i < st.len() ==> (#[trigger] st[i] is None <==> !dir_matches(filter_dir, hs[i].dir))
    &&& forall|i: int|
        0 <= i < st.len() && #[trigger] st[i] is Some ==> call_ensures(write, (hs[i],), st[i].unwrap())
    &&& forall|i: int| 0 <= i < st.len() - 1 && #[trigger] st[i] is Some ==> st[i].unwrap() == 0
    &&& error <==> (st.len() > 0 && st.last() is Some && st.last().unwrap() != 0)
}

/// A whole walk that gives `r` (non-zero when a write failed): as
/// `write_trace_prefix`, and without an error every entry was reached.
pub open spec fn write_trace_ok<W: Fn(CfHistory) -> i32>(
    write: W,
    hs: Seq<CfHistory>,
    filter_dir: u8,
    st: Seq<Option<i32>>,
    r: i32,
) -> bool {
    &&& write_trace_prefix(write, hs, filter_dir, st, r != 0)
    &&& r == 0 ==> st.len() == hs.len()
}

/// The filter law of a walk over history entries: an entry is written exactly when the
/// filter is `CF_Direction_NUM` or the entry's direction is the filter; entries of the
/// other direction are passed over. Every write but the last in the walk succeeded.
pub proof fn law_write_trace_filter<W: Fn(CfHistory) -> i32>(
    write: W,
    hs: Seq<CfHistory>,
    filter_dir: u8,
    st: Seq<Option<i32>>,
    error: bool,
    i: int,
)
    requires
        write_trace_prefix(write, hs, filter_dir, st, error),
        0 <= i < st.len(),
    ensures
        st[i] is Some <==> (filter_dir == CF_Direction_NUM || hs[i].dir == filter_dir),
        st[i] is Some ==> call_ensures(write, (hs[i],), st[i].unwrap()),
        st[i] is Some && i < st.len() - 1 ==> st[i].unwrap() == 0,
{
    assert(st[i] is None <==> !dir_matches(filter_dir, hs[i].dir));
}

/// The history queue of the channel is the list `s` of history nodes.
pub open spec fn hist_queue_ok(chan: CfChannel, s: Seq<usize>) -> bool {
    &&& clist_wf(chan.nodes@, chan.qs[CF_QueueIdx_HIST as int], s)
    &&& forall|k: int|
        0 <= k < s.len() ==> chan.txns@.len() <= #[trigger] s[k] < chan.txns@.len() + chan.hists@.len()
}

/// The history entries of the history nodes `s`.
pub open spec fn hist_entries(chan: CfChannel, s: Seq<usize>) -> Seq<CfHistory> {
    s.map_values(|x: usize| chan.hists@[x - chan.txns@.len()])
}

/// Queue `q` of the channel is the list `s` of transactions that all have a history
/// entry.
pub open spec fn txn_queue_ok(chan: CfChannel, q: int, s: Seq<usize>) -> bool {
    &&& clist_wf(chan.nodes@, chan.qs[q], s)
    &&& forall|k: int|
        0 <= k < s.len() ==> #[trigger] s[k] < chan.txns@.len() && chan.txns@[s[k] as int].history is Some
            && chan.txns@[s[k] as int].history.unwrap() < chan.hists@.len()
}

/// The history entries of the transactions `s`.
pub open spec fn txn_entries(chan: CfChannel, s: Seq<usize>) -> Seq<CfHistory> {
    s.map_values(|x: usize| chan.hists@[chan.txns@[x as int].history.unwrap() as int])
}

/// Writes, with `write`, the history entries of the channel's history queue whose
/// direction passes `dir` (`CF_Direction_NUM` for both), in queue order, stopping at
/// the first failed write; gives 1 when a write failed, else 0.
pub fn CF_WriteHistoryQueueDataToFile<W: Fn(CfHistory) -> i32>(chan: &CfChannel, dir: u8, write: &W) -> (r: i32)
    requires
        exists|s: Seq<usize>| hist_queue_ok(*chan, s),
        forall|h: CfHistory| call_requires(*write, (h,)),
    ensures
        r == 0 || r == 1,
        forall|s: Seq<usize>|
            #[trigger] hist_queue_ok(*chan, s) ==> exists|st: Seq<Option<i32>>|
                #[trigger] write_trace_ok(*write, hist_entries(*chan, s), dir, st, r),
{
    let ghost s = choose|s: Seq<usize>| hist_queue_ok(*chan, s);
    let out = cf_list_nodes(&chan.nodes, chan.qs[CF_QueueIdx_HIST]);
    proof {
        crate::clist::lemma_clist_unique(chan.nodes@, chan.qs[CF_QueueIdx_HIST as int], s, out@);
    }
    let ghost hs = hist_entries(*chan, s);
    let mut args = CF_Traverse_WriteHistoryFileArg { filter_dir: dir, error: false, counter: 0 };
    let ghost mut st: Seq<Option<i32>> = Seq::empty();
    let mut i: usize = 0;
    while i < out.len() && !args.error
        invariant
            out@ == s,
            hist_queue_ok(*chan, s),
            hs == hist_entries(*chan, s),
            forall|h: CfHistory| call_requires(*write, (h,)),
            i <= out@.len(),
            st.len() == i,
            args.filter_dir == dir,
            write_trace_prefix(*write, hs, dir, st, args.error),
        decreases out@.len() - i,
    {
        let x = out[i];
        assert(chan.txns@.len() <= s[i as int] < chan.txns@.len() + chan.hists@.len());
        let h = chan.hists[x - chan.txns.len()];
        assert(h == hs[i as int]);
        let ghost a0 = args;
        let _ = CF_Traverse_WriteHistoryQueueEntryToFile(&h, &mut args, write);
        proof {
            if dir_matches(dir, h.dir) {
                let w = choose|w: i32|
                    #![trigger call_ensures(*write, (h,), w)]
                    call_ensures(*write, (h,), w) && (args.error, args.counter, CListTraverseStatus::Cont)
                        .0 == after_write(a0.error, a0.counter, w).0;
                st = st.push(Some(w));
            } else {
                st = st.push(None);
            }
        }
        i = i + 1;
    }
    let r: i32 = if args.error {
        1
    } else {
        0
    };
    proof {
        assert(write_trace_ok(*write, hs, dir, st, r));
        assert forall|s2: Seq<usize>| #[trigger] hist_queue_ok(*chan, s2) implies exists|st2: Seq<Option<i32>>|
            #[trigger] write_trace_ok(*write, hist_entries(*chan, s2), dir, st2, r) by {
            crate::clist::lemma_clist_unique(chan.nodes@, chan.qs[CF_QueueIdx_HIST as int], s, s2);
            assert(hist_entries(*chan, s2) == hs);
        }
    }
    r
}

/// Writes, with `write`, the history entries of the transactions on queue `queue`, in
/// queue order, stopping at the first failed write; gives 1 when a write failed, else 0.
pub fn CF_WriteTxnQueueDataToFile<W: Fn(CfHistory) -> i32>(chan: &CfChannel, queue: usize, write: &W) -> (r: i32)
    requires
        queue < 7,
        exists|s: Seq<usize>| txn_queue_ok(*chan, queue as int, s),
        forall|h: CfHistory| call_requires(*write, (h,)),
    ensures
        r == 0 || r == 1,
        forall|s: Seq<usize>|
            #[trigger] txn_queue_ok(*chan, queue as int, s) ==> exists|st: Seq<Option<i32>>|
                #[trigger] write_trace_ok(*write, txn_entries(*chan, s), CF_Direction_NUM, st, r),
{
    let ghost s = choose|s: Seq<usize>| txn_queue_ok(*chan, queue as int, s);
    let out = cf_list_nodes(&chan.nodes, chan.qs[queue]);
    proof {
        crate::clist::lemma_clist_unique(chan.nodes@, chan.qs[queue as int], s, out@);
    }
    let ghost hs = txn_entries(*chan, s);
    let mut args = CF_Traverse_WriteTxnFileArg { error: false, counter: 0 };
    let ghost mut st: Seq<Option<i32>> = Seq::empty();
    let mut i: usize = 0;
    while i < out.len() && !args.error
        invariant
            out@ == s,
            txn_queue_ok(*chan, queue as int, s),
            hs == txn_entries(*chan, s),
            forall|h: CfHistory| call_requires(*write, (h,)),
            i <= out@.len(),
            st.len() == i,
            write_trace_prefix(*write, hs, CF_Direction_NUM, st, args.error),
        decreases out@.len() - i,
    {
        let x = out[i];
        assert(s[i as int] < chan.txns@.len());
        let hi = chan.txns[x].history.unwrap();
        let h = chan.hists[hi];
        assert(h == hs[i as int]);
        let ghost a0 = args;
        let _ = CF_Traverse_WriteTxnQueueEntryToFile(&h, &mut args, write);
        proof {
            let w = choose|w: i32|
                #![trigger call_ensures(*write, (h,), w)]
                call_ensures(*write, (h,), w) && args.error == after_write(a0.error, a0.counter, w).0;
            st = st.push(Some(w));
        }
        i = i + 1;
    }
    let r: i32 = if args.error {
        1
    } else {
        0
    };
    proof {
        assert(write_trace_ok(*write, hs, CF_Direction_NUM, st, r));
        assert forall|s2: Seq<usize>| #[trigger] txn_queue_ok(*chan, queue as int, s2) implies exists|st2: Seq<Option<i32>>|
            #[trigger] write_trace_ok(*write, txn_entries(*chan, s2), CF_Direction_NUM, st2, r) by {
            crate::clist::lemma_clist_unique(chan.nodes@, chan.qs[queue as int], s, s2);
            assert(txn_entries(*chan, s2) == hs);
        }
    }
    r
}

} // verus!
