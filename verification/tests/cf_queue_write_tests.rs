use lib::app_data::CfHkChannelData;
use lib::cfdp::{CfHistory, CfTransaction};
use lib::clist::{CListNode, CListTraverseStatus};
use lib::queue_write::{
    CF_Traverse_WriteHistoryFileArg, CF_Traverse_WriteHistoryQueueEntryToFile, CF_Traverse_WriteTxnFileArg,
    CF_Traverse_WriteTxnQueueEntryToFile, CF_WriteHistoryQueueDataToFile, CF_WriteTxnQueueDataToFile,
};
use lib::utils::{CF_CList_InsertBack_Ex, CfChannel, CF_Direction_NUM, CF_Direction_RX, CF_Direction_TX, CF_QueueIdx_HIST, CF_QueueIdx_TXA};
use std::cell::RefCell;

/// A channel with `ntx` transactions, each with its own history entry, and `nh` more
/// history entries, every queue empty.
fn new_channel(ntx: usize, nh: usize) -> CfChannel {
    let mut txns = vec![CfTransaction::default(); ntx];
    for (i, t) in txns.iter_mut().enumerate() {
        t.history = Some(i);
    }
    CfChannel {
        nodes: vec![CListNode::default(); ntx + ntx + nh],
        qs: [None; 7],
        cs: [None; 2],
        txns,
        hists: (0..ntx + nh).map(|i| CfHistory { seq_num: i as u32, ..Default::default() }).collect(),
    }
}

#[test]
fn test_CF_Traverse_WriteHistoryQueueEntryToFile() {
    let hist = CfHistory::default();
    let mut args = CF_Traverse_WriteHistoryFileArg { counter: 0, error: false, filter_dir: CF_Direction_TX };
    assert_eq!(CF_Traverse_WriteHistoryQueueEntryToFile(&hist, &mut args, &|_h: CfHistory| 0), CListTraverseStatus::Cont);
    assert_eq!(args.counter, 1);
    assert!(!args.error);
}

#[test]
fn test_CF_Traverse_WriteTxnQueueEntryToFile() {
    let hist = CfHistory::default();
    let mut args = CF_Traverse_WriteTxnFileArg { counter: 0, error: false };
    assert_eq!(CF_Traverse_WriteTxnQueueEntryToFile(&hist, &mut args, &|_h: CfHistory| 0), CListTraverseStatus::Cont);
    assert_eq!(args.counter, 1);
    assert!(!args.error);
}

#[test]
fn test_CF_WriteTxnQueueDataToFile() {
    let ch = new_channel(2, 0);
    assert_eq!(CF_WriteTxnQueueDataToFile(&ch, CF_QueueIdx_TXA, &|_h: CfHistory| 0), 0);
}

#[test]
fn test_CF_WriteHistoryQueueDataToFile() {
    let ch = new_channel(2, 2);
    assert_eq!(CF_WriteHistoryQueueDataToFile(&ch, CF_QueueIdx_HIST as u8, &|_h: CfHistory| 0), 0);
}

#[test]
fn history_entry_of_the_other_direction_is_passed_over() {
    let hist = CfHistory { dir: CF_Direction_RX, ..Default::default() };
    let mut args = CF_Traverse_WriteHistoryFileArg { counter: 3, error: false, filter_dir: CF_Direction_TX };
    let calls = RefCell::new(0);
    let w = |_h: CfHistory| {
        *calls.borrow_mut() += 1;
        0
    };
    assert_eq!(CF_Traverse_WriteHistoryQueueEntryToFile(&hist, &mut args, &w), CListTraverseStatus::Cont);
    assert_eq!(*calls.borrow(), 0);
    assert_eq!(args.counter, 3);
}

#[test]
fn failed_entry_write_stops_the_walk() {
    let hist = CfHistory::default();
    let mut args = CF_Traverse_WriteTxnFileArg { counter: 2, error: false };
    assert_eq!(CF_Traverse_WriteTxnQueueEntryToFile(&hist, &mut args, &|_h: CfHistory| -1), CListTraverseStatus::Exit);
    assert!(args.error);
    assert_eq!(args.counter, 2);
}

#[test]
fn history_queue_is_written_in_order_with_the_filter() {
    let mut ch = new_channel(1, 3);
    let mut hk = CfHkChannelData::default();
    ch.hists[1].dir = CF_Direction_TX;
    ch.hists[2].dir = CF_Direction_RX;
    ch.hists[3].dir = CF_Direction_TX;
    // history entry h sits at node (number of transactions) + h
    for h in 1..4 {
        CF_CList_InsertBack_Ex(&mut ch, &mut hk, CF_QueueIdx_HIST, 1 + h);
    }
    let written = RefCell::new(Vec::new());
    let w = |h: CfHistory| {
        written.borrow_mut().push(h.seq_num);
        0
    };
    assert_eq!(CF_WriteHistoryQueueDataToFile(&ch, CF_Direction_TX, &w), 0);
    assert_eq!(*written.borrow(), vec![1, 3]);
    written.borrow_mut().clear();
    assert_eq!(CF_WriteHistoryQueueDataToFile(&ch, CF_Direction_NUM, &w), 0);
    assert_eq!(*written.borrow(), vec![1, 2, 3]);
}

#[test]
fn txn_queue_write_stops_at_the_first_failure() {
    let mut ch = new_channel(3, 0);
    let mut hk = CfHkChannelData::default();
    for t in 0..3 {
        CF_CList_InsertBack_Ex(&mut ch, &mut hk, CF_QueueIdx_TXA, t);
    }
    let written = RefCell::new(Vec::new());
    let w = |h: CfHistory| {
        written.borrow_mut().push(h.seq_num);
        if h.seq_num == 1 { -1 } else { 0 }
    };
    assert_eq!(CF_WriteTxnQueueDataToFile(&ch, CF_QueueIdx_TXA, &w), 1);
    assert_eq!(*written.borrow(), vec![0, 1]);
}
