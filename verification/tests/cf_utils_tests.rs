use lib::app_data::CfHkChannelData;
use lib::cfdp::{
    CF_CFDP_GetAckTxnStatus, CF_TxnStatus_From_ConditionCode, CF_TxnStatus_IsError, CF_TxnStatus_To_ConditionCode,
    CfHistory, CfTransaction, CF_CFDP_AckTxnStatus_ACTIVE, CF_CFDP_AckTxnStatus_INVALID,
    CF_CFDP_AckTxnStatus_TERMINATED, CF_CFDP_AckTxnStatus_UNRECOGNIZED, CF_CFDP_ConditionCode_CANCEL_REQUEST_RECEIVED,
    CF_CFDP_ConditionCode_CHECK_LIMIT_REACHED, CF_CFDP_ConditionCode_FILESTORE_REJECTION,
    CF_CFDP_ConditionCode_FILE_CHECKSUM_FAILURE, CF_CFDP_ConditionCode_FILE_SIZE_ERROR,
    CF_CFDP_ConditionCode_INACTIVITY_DETECTED, CF_CFDP_ConditionCode_INVALID_FILE_STRUCTURE,
    CF_CFDP_ConditionCode_INVALID_TRANSMISSION_MODE, CF_CFDP_ConditionCode_KEEP_ALIVE_LIMIT_REACHED,
    CF_CFDP_ConditionCode_NAK_LIMIT_REACHED, CF_CFDP_ConditionCode_NO_ERROR,
    CF_CFDP_ConditionCode_POS_ACK_LIMIT_REACHED, CF_CFDP_ConditionCode_SUSPEND_REQUEST_RECEIVED,
    CF_CFDP_ConditionCode_UNSUPPORTED_CHECKSUM_TYPE, CF_TxnState_HOLD, CF_TxnState_INIT, CF_TxnState_S2,
    CF_TxnStatus_ACK_LIMIT_NO_EOF, CF_TxnStatus_ACK_LIMIT_NO_FIN, CF_TxnStatus_CANCEL_REQUEST_RECEIVED,
    CF_TxnStatus_CHECK_LIMIT_REACHED, CF_TxnStatus_FILESTORE_REJECTION, CF_TxnStatus_FILE_CHECKSUM_FAILURE,
    CF_TxnStatus_FILE_SIZE_ERROR, CF_TxnStatus_INACTIVITY_DETECTED, CF_TxnStatus_INVALID_FILE_STRUCTURE,
    CF_TxnStatus_INVALID_TRANSMISSION_MODE, CF_TxnStatus_KEEP_ALIVE_LIMIT_REACHED, CF_TxnStatus_MAX,
    CF_TxnStatus_NAK_LIMIT_REACHED, CF_TxnStatus_NO_ERROR, CF_TxnStatus_POS_ACK_LIMIT_REACHED,
    CF_TxnStatus_PROTOCOL_ERROR, CF_TxnStatus_SUSPEND_REQUEST_RECEIVED, CF_TxnStatus_UNDEFINED,
    CF_TxnStatus_UNSUPPORTED_CHECKSUM_TYPE,
};
use lib::clist::{CListNode, CListTraverseStatus};
use lib::utils::{
    CF_CFDP_GetTxnStatus, CF_CFDP_SetTxnStatus, CF_CList_InsertAfter_Ex, CF_CList_InsertBack_Ex, CF_CList_Remove_Ex,
    CF_DequeueTransaction, CF_FindTransactionBySequenceNumber, CF_FindTransactionBySequenceNumber_Impl,
    CF_FindUnusedTransaction, CF_FreeTransaction, CF_GetChannelFromTxn, CF_GetChunkListHead, CF_InsertSortPrio,
    CF_MoveTransaction, CF_PrioSearch, CF_ResetHistory, CF_TraverseAllTransactions, CF_TraverseAllTransactions_Impl, CfChannel, CfTraversePriorityArg, CfTraverseTransSeqArg,
    CF_Direction_NUM, CF_Direction_RX, CF_Direction_TX, CF_QueueIdx_FREE, CF_QueueIdx_HIST, CF_QueueIdx_HIST_FREE,
    CF_QueueIdx_PEND, CF_QueueIdx_RX, CF_QueueIdx_TXA, CF_QueueIdx_TXW,
};

/// A queue index picked for the tests.
const ANY_QUEUE: usize = 5;

/// A channel with `ntx` transactions and `nh` history entries, every queue empty.
fn new_channel(ntx: usize, nh: usize) -> CfChannel {
    CfChannel {
        nodes: vec![CListNode::default(); ntx + nh],
        qs: [None; 7],
        cs: [None; 2],
        txns: vec![CfTransaction::default(); ntx],
        hists: vec![CfHistory::default(); nh],
    }
}

fn queue_contents(chan: &CfChannel, q: usize) -> Vec<usize> {
    let mut out = Vec::new();
    if let Some(h) = chan.qs[q] {
        let mut x = h;
        loop {
            out.push(x);
            x = chan.nodes[x].next.unwrap();
            if x == h || out.len() > chan.nodes.len() {
                break;
            }
        }
    }
    out
}

#[test]
fn test_CF_ResetHistory() {
    let mut chan = new_channel(1, 1);
    let mut hk = CfHkChannelData::default();
    CF_CList_InsertBack_Ex(&mut chan, &mut hk, CF_QueueIdx_HIST, 1);
    hk.q_size[CF_QueueIdx_HIST] = 4;
    CF_ResetHistory(&mut chan, &mut hk, 0);
    assert_eq!(hk.q_size[CF_QueueIdx_HIST], 3);
    assert_eq!(hk.q_size[CF_QueueIdx_HIST_FREE], 1);
    assert_eq!(chan.qs[CF_QueueIdx_HIST], None);
    assert_eq!(chan.qs[CF_QueueIdx_HIST_FREE], Some(1));
}

#[test]
fn test_CF_FindUnusedTransaction() {
    let mut chan = new_channel(1, 1);
    let mut hk = CfHkChannelData::default();
    hk.q_size[CF_QueueIdx_FREE] = 2;
    hk.q_size[CF_QueueIdx_HIST_FREE] = 1;
    hk.q_size[CF_QueueIdx_HIST] = 1;
    assert!(CF_FindUnusedTransaction(&mut chan, &mut hk, CF_Direction_TX).is_none());
}

#[test]
fn test_CF_FreeTransaction() {
    let mut chan = new_channel(2, 1);
    let mut hk = CfHkChannelData::default();
    chan.txns[1].state = CF_TxnState_S2;
    chan.txns[1].priority = 9;
    CF_FreeTransaction(&mut chan, &mut hk, 1, 0);
    assert_eq!(chan.txns[1], CfTransaction { chan_num: 0, ..Default::default() });
    assert_eq!(chan.qs[CF_QueueIdx_FREE], Some(1));
    assert_eq!(hk.q_size[CF_QueueIdx_FREE], 1);
}

#[test]
fn test_CF_FindTransactionBySequenceNumber_Impl() {
    let mut txns = vec![CfTransaction::default(); 1];
    txns[0].history = Some(0);
    let hists = vec![CfHistory { src_eid: 23, seq_num: 67, ..Default::default() }];
    let nodes = vec![CListNode::default(); 2];

    // non-matching
    let ctxt = CfTraverseTransSeqArg { src_eid: 34, transaction_sequence_number: 78, txn: None };
    let (nodes, ctxt, status) = CF_FindTransactionBySequenceNumber_Impl(nodes, 0, ctxt, &txns, &hists);
    assert_eq!(status, CListTraverseStatus::Cont);
    assert!(ctxt.txn.is_none());

    // matching
    let ctxt = CfTraverseTransSeqArg { src_eid: 23, transaction_sequence_number: 67, txn: None };
    let (_nodes, ctxt, status) = CF_FindTransactionBySequenceNumber_Impl(nodes, 0, ctxt, &txns, &hists);
    assert_eq!(status, CListTraverseStatus::Exit);
    assert_eq!(ctxt.txn, Some(0));
}

#[test]
fn test_CF_FindTransactionBySequenceNumber() {
    let chan = new_channel(2, 2);
    assert!(CF_FindTransactionBySequenceNumber(&chan, 12, 34).is_none());
}

#[test]
fn test_CF_GetChannelFromTxn() {
    let txn = CfTransaction::default();
    assert!(CF_GetChannelFromTxn(&txn).is_some());
    let txn = CfTransaction { chan_num: 7, ..Default::default() };
    assert!(CF_GetChannelFromTxn(&txn).is_none());
}

#[test]
fn test_CF_GetChunkListHead() {
    let chan = new_channel(1, 1);
    assert!(CF_GetChunkListHead(None, CF_Direction_RX).is_none());
    assert!(CF_GetChunkListHead(Some(&chan), CF_Direction_NUM).is_none());
    assert!(CF_GetChunkListHead(Some(&chan), CF_Direction_RX).is_some());
    assert!(CF_GetChunkListHead(Some(&chan), CF_Direction_TX).is_some());
}

#[test]
fn test_CF_CFDP_GetTxnStatus() {
    let txn = CfTransaction::default();
    assert_eq!(CF_CFDP_GetAckTxnStatus(None), CF_CFDP_AckTxnStatus_UNRECOGNIZED);
    assert_eq!(CF_CFDP_GetAckTxnStatus(Some(&txn)), CF_CFDP_AckTxnStatus_INVALID);
    let active = CfTransaction { state: CF_TxnState_S2, ..Default::default() };
    assert_eq!(CF_CFDP_GetAckTxnStatus(Some(&active)), CF_CFDP_AckTxnStatus_ACTIVE);
    let held = CfTransaction { state: CF_TxnState_HOLD, ..Default::default() };
    assert_eq!(CF_CFDP_GetAckTxnStatus(Some(&held)), CF_CFDP_AckTxnStatus_TERMINATED);
}

#[test]
fn test_cf_dequeue_transaction_Call_CF_CList_Remove_AndDecrement_q_size() {
    let mut chan = new_channel(1, 0);
    let mut hk = CfHkChannelData::default();
    CF_CList_InsertBack_Ex(&mut chan, &mut hk, CF_QueueIdx_PEND, 0);
    let initial_q_size: u16 = 100;
    hk.q_size[CF_QueueIdx_PEND] = initial_q_size;

    CF_DequeueTransaction(&mut chan, &mut hk, 0);

    assert_eq!(hk.q_size[CF_QueueIdx_PEND], initial_q_size - 1);
    assert_eq!(chan.qs[CF_QueueIdx_PEND], None);
}

#[test]
fn test_cf_move_transaction_Call_CF_CList_InsertBack_AndSet_q_index_ToGiven_q() {
    let mut chan = new_channel(1, 0);
    let mut hk = CfHkChannelData::default();
    CF_CList_InsertBack_Ex(&mut chan, &mut hk, CF_QueueIdx_PEND, 0);
    hk.q_size[CF_QueueIdx_PEND] = 1;

    CF_MoveTransaction(&mut chan, &mut hk, 0, ANY_QUEUE);

    assert_eq!(chan.txns[0].q_index, ANY_QUEUE);
    assert_eq!(chan.qs[CF_QueueIdx_PEND], None);
    assert_eq!(chan.qs[ANY_QUEUE], Some(0));
    assert_eq!(hk.q_size[CF_QueueIdx_PEND], 0);
    assert_eq!(hk.q_size[ANY_QUEUE], 1);
}

#[test]
fn test_CF_CList_Remove_Ex_Call_CF_CList_Remove_AndDecrement_q_size() {
    let mut chan = new_channel(1, 0);
    let mut hk = CfHkChannelData::default();
    CF_CList_InsertBack_Ex(&mut chan, &mut hk, ANY_QUEUE, 0);
    let initial_q_size: u16 = 100;
    hk.q_size[ANY_QUEUE] = initial_q_size;

    CF_CList_Remove_Ex(&mut chan, &mut hk, ANY_QUEUE, 0);

    assert_eq!(hk.q_size[ANY_QUEUE], initial_q_size - 1);
}

#[test]
fn test_CF_CList_InsertAfter_Ex_Call_CF_CList_InsertAfter_AndIncrement_q_size() {
    let mut chan = new_channel(2, 0);
    let mut hk = CfHkChannelData::default();
    CF_CList_InsertBack_Ex(&mut chan, &mut hk, ANY_QUEUE, 0);
    let initial_q_size: u16 = 50;
    hk.q_size[ANY_QUEUE] = initial_q_size;

    CF_CList_InsertAfter_Ex(&mut chan, &mut hk, ANY_QUEUE, 0, 1);

    assert_eq!(hk.q_size[ANY_QUEUE], initial_q_size + 1);
    assert_eq!(queue_contents(&chan, ANY_QUEUE), vec![0, 1]);
}

#[test]
fn test_CF_CList_InsertBack_Ex_Call_CF_CList_InsertBack_AndIncrement_q_size() {
    let mut chan = new_channel(1, 0);
    let mut hk = CfHkChannelData::default();
    let initial_q_size: u16 = 50;
    hk.q_size[ANY_QUEUE] = initial_q_size;

    CF_CList_InsertBack_Ex(&mut chan, &mut hk, ANY_QUEUE, 0);

    assert_eq!(hk.q_size[ANY_QUEUE], initial_q_size + 1);
    assert_eq!(chan.qs[ANY_QUEUE], Some(0));
}

#[test]
fn test_CF_PrioSearch_When_t_PrioIsGreaterThanContextPrioReturn_CLIST_CONT() {
    let txns = vec![CfTransaction { priority: 5, ..Default::default() }];
    let arg = CfTraversePriorityArg { priority: 3, txn: None };
    let (_n, arg, status) = CF_PrioSearch(vec![CListNode::default(); 1], 0, arg, &txns);
    assert_eq!(status, CListTraverseStatus::Cont);
    assert!(arg.txn.is_none());
}

#[test]
fn test_CF_PrioSearch_When_t_PrioIsEqToContextPrio_Set_context_t_To_t_AndReturn_CLIST_EXIT() {
    let txns = vec![CfTransaction { priority: 5, ..Default::default() }];
    let arg = CfTraversePriorityArg { priority: 5, txn: None };
    let (_n, arg, status) = CF_PrioSearch(vec![CListNode::default(); 1], 0, arg, &txns);
    assert_eq!(status, CListTraverseStatus::Exit);
    assert_eq!(arg.txn, Some(0));
}

#[test]
fn test_CF_PrioSearch_When_t_PrioIsLessThanContextPrio_Set_context_t_To_t_AndReturn_CLIST_EXIT() {
    let txns = vec![CfTransaction { priority: 0, ..Default::default() }];
    let arg = CfTraversePriorityArg { priority: 42, txn: None };
    let (_n, arg, status) = CF_PrioSearch(vec![CListNode::default(); 1], 0, arg, &txns);
    assert_eq!(status, CListTraverseStatus::Exit);
    assert_eq!(arg.txn, Some(0));
}

#[test]
fn test_CF_InsertSortPrio_Call_CF_CList_InsertBack_Ex_ListIsEmpty_AndSet_q_index_To_q() {
    let mut chan = new_channel(1, 0);
    let mut hk = CfHkChannelData::default();
    CF_InsertSortPrio(&mut chan, &mut hk, 0, ANY_QUEUE);
    assert_eq!(chan.txns[0].q_index, ANY_QUEUE);
    assert_eq!(queue_contents(&chan, ANY_QUEUE), vec![0]);
    assert_eq!(hk.q_size[ANY_QUEUE], 1);
}

#[test]
fn test_CF_InsertSortPrio_Call_CF_CList_InsertAfter_Ex_AndSet_q_index_To_q() {
    let mut chan = new_channel(3, 0);
    let mut hk = CfHkChannelData::default();
    chan.txns[0].priority = 1;
    chan.txns[1].priority = 9;
    chan.txns[2].priority = 5;
    CF_InsertSortPrio(&mut chan, &mut hk, 0, ANY_QUEUE);
    CF_InsertSortPrio(&mut chan, &mut hk, 1, ANY_QUEUE);
    // priority 5 goes after the priority 1 entry, before the priority 9 one
    CF_InsertSortPrio(&mut chan, &mut hk, 2, ANY_QUEUE);
    assert_eq!(chan.txns[2].q_index, ANY_QUEUE);
    assert_eq!(queue_contents(&chan, ANY_QUEUE), vec![0, 2, 1]);
    assert_eq!(hk.q_size[ANY_QUEUE], 3);
}

#[test]
fn test_CF_InsertSortPrio_When_p_t_Is_NULL_Call_CF_CList_InsertBack_Ex() {
    let mut chan = new_channel(2, 0);
    let mut hk = CfHkChannelData::default();
    chan.txns[0].priority = 9;
    chan.txns[1].priority = 1;
    CF_InsertSortPrio(&mut chan, &mut hk, 0, ANY_QUEUE);
    // nothing of priority 1 or better: at the back
    CF_InsertSortPrio(&mut chan, &mut hk, 1, ANY_QUEUE);
    assert_eq!(chan.txns[1].q_index, ANY_QUEUE);
    assert_eq!(queue_contents(&chan, ANY_QUEUE), vec![0, 1]);
}

#[test]
fn test_CF_TxnStatus_IsError() {
    assert!(!CF_TxnStatus_IsError(CF_TxnStatus_UNDEFINED));
    assert!(!CF_TxnStatus_IsError(CF_TxnStatus_NO_ERROR));
    assert!(CF_TxnStatus_IsError(CF_TxnStatus_INACTIVITY_DETECTED));
    assert!(CF_TxnStatus_IsError(CF_TxnStatus_MAX));
}

#[test]
fn test_CF_TxnStatus_To_ConditionCode() {
    assert_eq!(CF_TxnStatus_To_ConditionCode(CF_TxnStatus_UNDEFINED), CF_CFDP_ConditionCode_NO_ERROR);
    assert_eq!(CF_TxnStatus_To_ConditionCode(CF_TxnStatus_NO_ERROR), CF_CFDP_ConditionCode_NO_ERROR);
    assert_eq!(
        CF_TxnStatus_To_ConditionCode(CF_TxnStatus_POS_ACK_LIMIT_REACHED),
        CF_CFDP_ConditionCode_POS_ACK_LIMIT_REACHED
    );
    assert_eq!(
        CF_TxnStatus_To_ConditionCode(CF_TxnStatus_KEEP_ALIVE_LIMIT_REACHED),
        CF_CFDP_ConditionCode_KEEP_ALIVE_LIMIT_REACHED
    );
    assert_eq!(
        CF_TxnStatus_To_ConditionCode(CF_TxnStatus_INVALID_TRANSMISSION_MODE),
        CF_CFDP_ConditionCode_INVALID_TRANSMISSION_MODE
    );
    assert_eq!(
        CF_TxnStatus_To_ConditionCode(CF_TxnStatus_FILESTORE_REJECTION),
        CF_CFDP_ConditionCode_FILESTORE_REJECTION
    );
    assert_eq!(
        CF_TxnStatus_To_ConditionCode(CF_TxnStatus_FILE_CHECKSUM_FAILURE),
        CF_CFDP_ConditionCode_FILE_CHECKSUM_FAILURE
    );
    assert_eq!(CF_TxnStatus_To_ConditionCode(CF_TxnStatus_FILE_SIZE_ERROR), CF_CFDP_ConditionCode_FILE_SIZE_ERROR);
    assert_eq!(
        CF_TxnStatus_To_ConditionCode(CF_TxnStatus_NAK_LIMIT_REACHED),
        CF_CFDP_ConditionCode_NAK_LIMIT_REACHED
    );
    assert_eq!(
        CF_TxnStatus_To_ConditionCode(CF_TxnStatus_INACTIVITY_DETECTED),
        CF_CFDP_ConditionCode_INACTIVITY_DETECTED
    );
    assert_eq!(
        CF_TxnStatus_To_ConditionCode(CF_TxnStatus_INVALID_FILE_STRUCTURE),
        CF_CFDP_ConditionCode_INVALID_FILE_STRUCTURE
    );
    assert_eq!(
        CF_TxnStatus_To_ConditionCode(CF_TxnStatus_CHECK_LIMIT_REACHED),
        CF_CFDP_ConditionCode_CHECK_LIMIT_REACHED
    );
    assert_eq!(
        CF_TxnStatus_To_ConditionCode(CF_TxnStatus_UNSUPPORTED_CHECKSUM_TYPE),
        CF_CFDP_ConditionCode_UNSUPPORTED_CHECKSUM_TYPE
    );
    assert_eq!(
        CF_TxnStatus_To_ConditionCode(CF_TxnStatus_SUSPEND_REQUEST_RECEIVED),
        CF_CFDP_ConditionCode_SUSPEND_REQUEST_RECEIVED
    );
    assert_eq!(
        CF_TxnStatus_To_ConditionCode(CF_TxnStatus_CANCEL_REQUEST_RECEIVED),
        CF_CFDP_ConditionCode_CANCEL_REQUEST_RECEIVED
    );
    assert_eq!(CF_TxnStatus_To_ConditionCode(CF_TxnStatus_ACK_LIMIT_NO_FIN), CF_CFDP_ConditionCode_INACTIVITY_DETECTED);
    assert_eq!(CF_TxnStatus_To_ConditionCode(CF_TxnStatus_ACK_LIMIT_NO_EOF), CF_CFDP_ConditionCode_INACTIVITY_DETECTED);
    assert_eq!(
        CF_TxnStatus_To_ConditionCode(CF_TxnStatus_PROTOCOL_ERROR),
        CF_CFDP_ConditionCode_CANCEL_REQUEST_RECEIVED
    );
    assert_eq!(CF_TxnStatus_To_ConditionCode(CF_TxnStatus_MAX), CF_CFDP_ConditionCode_CANCEL_REQUEST_RECEIVED);
}

#[test]
fn test_CF_TxnStatus_From_ConditionCode() {
    for i in 0u8..=15 {
        assert_eq!(CF_TxnStatus_From_ConditionCode(i), i as i32);
    }
}

#[test]
fn test_condition_code_roundtrip_values() {
    for cc in [0u8, 1, 7, 8, 14, 15] {
        assert_eq!(CF_TxnStatus_To_ConditionCode(CF_TxnStatus_From_ConditionCode(cc)), cc);
    }
}

#[test]
fn test_find_unused_takes_free_txn_and_history() {
    let mut chan = new_channel(2, 2);
    let mut hk = CfHkChannelData::default();
    CF_FreeTransaction(&mut chan, &mut hk, 1, 0);
    CF_FreeTransaction(&mut chan, &mut hk, 0, 0);
    // history entries are nodes 2 and 3: entry 1 on the history queue, entry 0 free
    CF_CList_InsertBack_Ex(&mut chan, &mut hk, CF_QueueIdx_HIST, 3);
    CF_CList_InsertBack_Ex(&mut chan, &mut hk, CF_QueueIdx_HIST_FREE, 2);

    let t = CF_FindUnusedTransaction(&mut chan, &mut hk, CF_Direction_RX);
    assert_eq!(t, Some(1));
    assert_eq!(chan.txns[1].state, CF_TxnState_INIT);
    assert_eq!(chan.txns[1].history, Some(0));
    assert_eq!(chan.hists[0].dir, CF_Direction_RX);
    assert_eq!(queue_contents(&chan, CF_QueueIdx_FREE), vec![0]);
    assert_eq!(chan.qs[CF_QueueIdx_HIST_FREE], None);
    assert_eq!(hk.q_size[CF_QueueIdx_FREE], 1);

    // no free history entry left: the oldest one of the history queue is taken
    let t = CF_FindUnusedTransaction(&mut chan, &mut hk, CF_Direction_TX);
    assert_eq!(t, Some(0));
    assert_eq!(chan.txns[0].history, Some(1));
    assert_eq!(chan.qs[CF_QueueIdx_HIST], None);
    assert_eq!(CF_FindUnusedTransaction(&mut chan, &mut hk, CF_Direction_TX), None);
}

#[test]
fn test_find_by_sequence_number_on_queues() {
    let mut chan = new_channel(3, 3);
    let mut hk = CfHkChannelData::default();
    for t in 0..3 {
        chan.txns[t].history = Some(t);
        chan.hists[t] = CfHistory { src_eid: 7, seq_num: 100 + t as u32, ..Default::default() };
    }
    CF_CList_InsertBack_Ex(&mut chan, &mut hk, CF_QueueIdx_RX, 0);
    CF_CList_InsertBack_Ex(&mut chan, &mut hk, CF_QueueIdx_TXA, 2);
    assert_eq!(CF_FindTransactionBySequenceNumber(&chan, 102, 7), Some(2));
    assert_eq!(CF_FindTransactionBySequenceNumber(&chan, 100, 7), Some(0));
    // transaction 1 is on no searched queue
    assert_eq!(CF_FindTransactionBySequenceNumber(&chan, 101, 7), None);
    assert_eq!(CF_FindTransactionBySequenceNumber(&chan, 100, 8), None);
}

#[test]
fn test_txn_status_first_error_stays() {
    let mut chan = new_channel(1, 1);
    chan.txns[0].history = Some(0);
    chan.hists[0].txn_stat = CF_TxnStatus_UNDEFINED;
    assert_eq!(CF_CFDP_GetTxnStatus(&chan, 0), CF_TxnStatus_UNDEFINED);
    CF_CFDP_SetTxnStatus(&mut chan, 0, CF_TxnStatus_NO_ERROR);
    assert_eq!(CF_CFDP_GetTxnStatus(&chan, 0), CF_TxnStatus_NO_ERROR);
    CF_CFDP_SetTxnStatus(&mut chan, 0, CF_TxnStatus_FILESTORE_REJECTION);
    assert_eq!(CF_CFDP_GetTxnStatus(&chan, 0), CF_TxnStatus_FILESTORE_REJECTION);
    CF_CFDP_SetTxnStatus(&mut chan, 0, CF_TxnStatus_NO_ERROR);
    assert_eq!(CF_CFDP_GetTxnStatus(&chan, 0), CF_TxnStatus_FILESTORE_REJECTION);
}

#[test]
fn test_CF_TraverseAllTransactions_Impl_GetContainer_t_Call_args_fn_AndAdd_1_ToCounter() {
    let record = |t: usize, seen: Vec<usize>| {
        let mut seen = seen;
        seen.push(t);
        seen
    };
    let initial_args_counter = 57;
    let (_n, (seen, counter), status) =
        CF_TraverseAllTransactions_Impl(vec![CListNode::default(); 1], 0, (vec![42], initial_args_counter), &record);
    assert_eq!(status, CListTraverseStatus::Cont);
    assert_eq!(seen, vec![42, 0]);
    assert_eq!(counter, initial_args_counter + 1);
}

#[test]
fn test_CF_TraverseAllTransactions_CallOtherFunction_CF_Q_RX_TimesAndReturn_args_counter() {
    // one transaction on each active queue, from pending to receiving
    let mut chan = new_channel(5, 0);
    let mut hk = CfHkChannelData::default();
    CF_CList_InsertBack_Ex(&mut chan, &mut hk, CF_QueueIdx_RX, 0);
    CF_CList_InsertBack_Ex(&mut chan, &mut hk, CF_QueueIdx_PEND, 1);
    CF_CList_InsertBack_Ex(&mut chan, &mut hk, CF_QueueIdx_TXA, 2);
    CF_CList_InsertBack_Ex(&mut chan, &mut hk, CF_QueueIdx_TXW, 3);
    CF_CList_InsertBack_Ex(&mut chan, &mut hk, CF_QueueIdx_FREE, 4);
    let expected_count = (CF_QueueIdx_RX - CF_QueueIdx_PEND + 1) as i32;
    let record = |t: usize, seen: Vec<usize>| {
        let mut seen = seen;
        seen.push(t);
        seen
    };
    let (count, seen) = CF_TraverseAllTransactions(&chan, record, Vec::new());
    assert_eq!(count, expected_count);
    assert_eq!(seen, vec![1, 2, 3, 0]);
}

#[test]
fn test_traverse_all_in_queue_order() {
    let mut chan = new_channel(4, 0);
    let mut hk = CfHkChannelData::default();
    CF_CList_InsertBack_Ex(&mut chan, &mut hk, CF_QueueIdx_PEND, 2);
    CF_CList_InsertBack_Ex(&mut chan, &mut hk, CF_QueueIdx_PEND, 0);
    CF_CList_InsertBack_Ex(&mut chan, &mut hk, CF_QueueIdx_PEND, 3);
    let (count, sum) = CF_TraverseAllTransactions(&chan, |t: usize, acc: usize| acc * 10 + t, 0usize);
    assert_eq!(count, 3);
    assert_eq!(sum, 203);
}

#[test]
fn test_find_by_sequence_number_first_in_search_order() {
    let mut chan = new_channel(3, 3);
    let mut hk = CfHkChannelData::default();
    for t in 0..3 {
        chan.txns[t].history = Some(t);
        chan.hists[t] = CfHistory { src_eid: 5, seq_num: 9, ..Default::default() };
    }
    CF_CList_InsertBack_Ex(&mut chan, &mut hk, CF_QueueIdx_PEND, 0);
    CF_CList_InsertBack_Ex(&mut chan, &mut hk, CF_QueueIdx_RX, 2);
    CF_CList_InsertBack_Ex(&mut chan, &mut hk, CF_QueueIdx_RX, 1);
    // the receiving queue is searched first, from its head
    assert_eq!(CF_FindTransactionBySequenceNumber(&chan, 9, 5), Some(2));
}

#[test]
fn test_insert_sort_prio_keeps_queue_sorted() {
    let prios = [1u8, 5, 3, 5, 9, 2];
    let mut chan = new_channel(prios.len(), 0);
    let mut hk = CfHkChannelData::default();
    for (t, p) in prios.iter().enumerate() {
        chan.txns[t].priority = *p;
        CF_InsertSortPrio(&mut chan, &mut hk, t, CF_QueueIdx_PEND);
    }
    // equal priorities keep their arrival order
    assert_eq!(queue_contents(&chan, CF_QueueIdx_PEND), vec![0, 5, 2, 1, 3, 4]);
    assert_eq!(hk.q_size[CF_QueueIdx_PEND], 6);
}
