//! Transaction statuses and their CFDP condition codes, and the file names that a
//! transaction uses: the string in a length-value field, the temporary name of a file
//! being received, and where a finished file is moved.
#![allow(non_snake_case)]
#![allow(non_upper_case_globals)]

use vstd::prelude::*;
use crate::app_data::{CfEventId, CfReport};
use crate::codec::LogicalLv;

verus! {

/// A generic failure.
pub const CF_ERROR: i32 = -1;

/// No status recorded yet.
pub const CF_TxnStatus_UNDEFINED: i32 = -1;
/// The transaction went without error.
pub const CF_TxnStatus_NO_ERROR: i32 = 0;
pub const CF_TxnStatus_POS_ACK_LIMIT_REACHED: i32 = 1;
pub const CF_TxnStatus_KEEP_ALIVE_LIMIT_REACHED: i32 = 2;
pub const CF_TxnStatus_INVALID_TRANSMISSION_MODE: i32 = 3;
pub const CF_TxnStatus_FILESTORE_REJECTION: i32 = 4;
pub const CF_TxnStatus_FILE_CHECKSUM_FAILURE: i32 = 5;
pub const CF_TxnStatus_FILE_SIZE_ERROR: i32 = 6;
pub const CF_TxnStatus_NAK_LIMIT_REACHED: i32 = 7;
pub const CF_TxnStatus_INACTIVITY_DETECTED: i32 = 8;
pub const CF_TxnStatus_INVALID_FILE_STRUCTURE: i32 = 9;
pub const CF_TxnStatus_CHECK_LIMIT_REACHED: i32 = 10;
pub const CF_TxnStatus_UNSUPPORTED_CHECKSUM_TYPE: i32 = 11;
pub const CF_TxnStatus_SUSPEND_REQUEST_RECEIVED: i32 = 14;
pub const CF_TxnStatus_CANCEL_REQUEST_RECEIVED: i32 = 15;
/// The acknowledgement limit was reached with no FIN received.
pub const CF_TxnStatus_ACK_LIMIT_NO_FIN: i32 = 16;
/// The acknowledgement limit was reached with no EOF received.
pub const CF_TxnStatus_ACK_LIMIT_NO_EOF: i32 = 17;
/// The peer broke the protocol.
pub const CF_TxnStatus_PROTOCOL_ERROR: i32 = 18;
/// Past the last status.
pub const CF_TxnStatus_MAX: i32 = 20;

pub const CF_CFDP_ConditionCode_NO_ERROR: u8 = 0;
pub const CF_CFDP_ConditionCode_POS_ACK_LIMIT_REACHED: u8 = 1;
pub const CF_CFDP_ConditionCode_KEEP_ALIVE_LIMIT_REACHED: u8 = 2;
pub const CF_CFDP_ConditionCode_INVALID_TRANSMISSION_MODE: u8 = 3;
pub const CF_CFDP_ConditionCode_FILESTORE_REJECTION: u8 = 4;
pub const CF_CFDP_ConditionCode_FILE_CHECKSUM_FAILURE: u8 = 5;
pub const CF_CFDP_ConditionCode_FILE_SIZE_ERROR: u8 = 6;
pub const CF_CFDP_ConditionCode_NAK_LIMIT_REACHED: u8 = 7;
pub const CF_CFDP_ConditionCode_INACTIVITY_DETECTED: u8 = 8;
pub const CF_CFDP_ConditionCode_INVALID_FILE_STRUCTURE: u8 = 9;
pub const CF_CFDP_ConditionCode_CHECK_LIMIT_REACHED: u8 = 10;
pub const CF_CFDP_ConditionCode_UNSUPPORTED_CHECKSUM_TYPE: u8 = 11;
pub const CF_CFDP_ConditionCode_SUSPEND_REQUEST_RECEIVED: u8 = 14;
pub const CF_CFDP_ConditionCode_CANCEL_REQUEST_RECEIVED: u8 = 15;

/// The largest condition code.
pub const CF_CFDP_ConditionCode_MAX: u8 = 15;

/// A status is an error when it is past `NO_ERROR`.
pub open spec fn txn_status_is_error(s: i32) -> bool {
    s > CF_TxnStatus_NO_ERROR
}

/// Whether the status `txn_stat` is an error.
pub fn CF_TxnStatus_IsError(txn_stat: i32) -> (r: bool)
    ensures
        r == txn_status_is_error(txn_stat),
{
    txn_stat > CF_TxnStatus_NO_ERROR
}

/// The condition code that reports a status: `NO_ERROR` for a status that is no error,
/// the code of the same number for the statuses that are condition codes, inactivity for
/// the acknowledgement limits, and a cancel for any other status.
pub open spec fn status_to_cc(s: i32) -> u8 {
    if !txn_status_is_error(s) {
        CF_CFDP_ConditionCode_NO_ERROR
    } else if s <= CF_CFDP_ConditionCode_MAX as i32 {
        s as u8
    } else if s == CF_TxnStatus_ACK_LIMIT_NO_FIN || s == CF_TxnStatus_ACK_LIMIT_NO_EOF {
        CF_CFDP_ConditionCode_INACTIVITY_DETECTED
    } else {
        CF_CFDP_ConditionCode_CANCEL_REQUEST_RECEIVED
    }
}

/// The condition code that reports the status `txn_stat` (see `status_to_cc`).
pub fn CF_TxnStatus_To_ConditionCode(txn_stat: i32) -> (r: u8)
    ensures
        r == status_to_cc(txn_stat),
{
    if !CF_TxnStatus_IsError(txn_stat) {
        CF_CFDP_ConditionCode_NO_ERROR
    } else if txn_stat <= 15 {
        txn_stat as u8
    } else if txn_stat == CF_TxnStatus_ACK_LIMIT_NO_FIN || txn_stat == CF_TxnStatus_ACK_LIMIT_NO_EOF {
        CF_CFDP_ConditionCode_INACTIVITY_DETECTED
    } else {
        CF_CFDP_ConditionCode_CANCEL_REQUEST_RECEIVED
    }
}

/// The status that a received condition code stands for: the status of the same number.
pub fn CF_TxnStatus_From_ConditionCode(cc: u8) -> (r: i32)
    ensures
        r == cc as i32,
{
    cc as i32
}

/// A condition code survives the trip to a status and back, and it is an error status
/// exactly when it is not `NO_ERROR`.
pub proof fn law_condition_code_roundtrip(cc: u8)
    requires
        cc <= CF_CFDP_ConditionCode_MAX,
    ensures
        status_to_cc(cc as i32) == cc,
        txn_status_is_error(cc as i32) <==> cc != CF_CFDP_ConditionCode_NO_ERROR,
{
}

/// The state of a transaction.
pub const CF_TxnState_UNDEF: u8 = 0;
pub const CF_TxnState_INIT: u8 = 1;
pub const CF_TxnState_S1: u8 = 2;
pub const CF_TxnState_R1: u8 = 3;
pub const CF_TxnState_S2: u8 = 4;
pub const CF_TxnState_R2: u8 = 5;
pub const CF_TxnState_DROP: u8 = 6;
pub const CF_TxnState_HOLD: u8 = 7;
pub const CF_TxnState_INVALID: u8 = 8;

/// The transaction status that an ACK PDU reports.
pub const CF_CFDP_AckTxnStatus_UNRECOGNIZED: u8 = 0;
pub const CF_CFDP_AckTxnStatus_INVALID: u8 = 1;
pub const CF_CFDP_AckTxnStatus_ACTIVE: u8 = 2;
pub const CF_CFDP_AckTxnStatus_TERMINATED: u8 = 3;

/// The ACK status of a transaction in state `state`: active while sending or receiving,
/// terminated once dropped or held, invalid otherwise.
pub open spec fn ack_status_of_state(state: u8) -> u8 {
    if state == CF_TxnState_S1 || state == CF_TxnState_R1 || state == CF_TxnState_S2 || state == CF_TxnState_R2 {
        CF_CFDP_AckTxnStatus_ACTIVE
    } else if state == CF_TxnState_DROP || state == CF_TxnState_HOLD {
        CF_CFDP_AckTxnStatus_TERMINATED
    } else {
        CF_CFDP_AckTxnStatus_INVALID
    }
}

/// The record of a transaction, kept after it ends: who started it, its sequence
/// number, its direction and its status.
#[derive(Clone, Copy, Debug, PartialEq, Eq, Default)]
pub struct CfHistory {
    pub src_eid: u32,
    pub seq_num: u32,
    pub dir: u8,
    pub txn_stat: i32,
}

/// A transaction: its state, channel and priority, the queue it is on, and the position
/// of its history entry in the channel (none while it is unused).
#[derive(Clone, Copy, Debug, PartialEq, Eq, Default)]
pub struct CfTransaction {
    pub state: u8,
    pub chan_num: u8,
    pub priority: u8,
    pub q_index: usize,
    pub history: Option<usize>,
}

/// The ACK-status law: a transaction that is sending or receiving (S1, R1, S2, R2) is
/// acknowledged as active, one that is dropped or held as terminated, and one in any
/// other state (unused, just set up, or invalid) as invalid; these three statuses are
/// distinct, and none of them is the status given when there is no transaction.
pub proof fn law_ack_status_of_state(state: u8)
    ensures
        state == CF_TxnState_S1 || state == CF_TxnState_R1 || state == CF_TxnState_S2 || state == CF_TxnState_R2
            ==> ack_status_of_state(state) == CF_CFDP_AckTxnStatus_ACTIVE,
        state == CF_TxnState_DROP || state == CF_TxnState_HOLD ==> ack_status_of_state(state)
            == CF_CFDP_AckTxnStatus_TERMINATED,
        state == CF_TxnState_UNDEF || state == CF_TxnState_INIT || state >= CF_TxnState_INVALID ==> ack_status_of_state(
            state,
        ) == CF_CFDP_AckTxnStatus_INVALID,
        CF_CFDP_AckTxnStatus_ACTIVE != CF_CFDP_AckTxnStatus_TERMINATED,
        CF_CFDP_AckTxnStatus_ACTIVE != CF_CFDP_AckTxnStatus_INVALID,
        CF_CFDP_AckTxnStatus_TERMINATED != CF_CFDP_AckTxnStatus_INVALID,
        ack_status_of_state(state) != CF_CFDP_AckTxnStatus_UNRECOGNIZED,
{
}

/// The ACK status of the transaction `txn`, if there is one; unrecognized when there is
/// none.
pub fn CF_CFDP_GetAckTxnStatus(txn: Option<&CfTransaction>) -> (r: u8)
    ensures
        r == (match txn {
            None => CF_CFDP_AckTxnStatus_UNRECOGNIZED,
            Some(t) => ack_status_of_state(t.state),
        }),
{
    match txn {
        None => CF_CFDP_AckTxnStatus_UNRECOGNIZED,
        Some(t) => {
            let s = t.state;
            if s == CF_TxnState_S1 || s == CF_TxnState_R1 || s == CF_TxnState_S2 || s == CF_TxnState_R2 {
                CF_CFDP_AckTxnStatus_ACTIVE
            } else if s == CF_TxnState_DROP || s == CF_TxnState_HOLD {
                CF_CFDP_AckTxnStatus_TERMINATED
            } else {
                CF_CFDP_AckTxnStatus_INVALID
            }
        },
    }
}

/// The status that a transaction has after `txn_stat` is set on it: the first error
/// stays.
pub open spec fn set_status(old_stat: i32, txn_stat: i32) -> i32 {
    if txn_status_is_error(old_stat) { old_stat } else { txn_stat }
}

/// Once an error is recorded, setting any status leaves it; before that, the status set
/// last is the one recorded.
pub proof fn law_first_error_stays(s: i32, t: i32, u: i32)
    ensures
        txn_status_is_error(s) ==> set_status(s, t) == s,
        !txn_status_is_error(s) ==> set_status(s, t) == t,
        txn_status_is_error(set_status(s, t)) ==> set_status(set_status(s, t), u) == set_status(s, t),
{
}

/// The string of an LV field, copied into a buffer of `buf_maxsz` bytes (terminator
/// included): its length when it fits, else `CF_ERROR` and an empty string.
pub fn CF_CFDP_CopyStringFromLV(buf: &mut Vec<u8>, buf_maxsz: usize, src_lv: &LogicalLv) -> (r: i32)
    requires
        (src_lv.length as usize) < buf_maxsz && src_lv.length > 0 ==> (src_lv.data_ptr matches Some(d)
            && d@.len() >= src_lv.length),
    ensures
        (src_lv.length as usize) < buf_maxsz ==> r == src_lv.length as i32 && (if src_lv.length == 0 {
            final(buf)@ == Seq::<u8>::empty()
        } else {
            final(buf)@ == src_lv.data_ptr.unwrap()@.take(src_lv.length as int)
        }),
        (src_lv.length as usize) >= buf_maxsz ==> r == CF_ERROR && final(buf)@ == Seq::<u8>::empty(),
{
    let len = src_lv.length as usize;
    let mut out: Vec<u8> = Vec::new();
    if len < buf_maxsz {
        if len > 0 {
            match &src_lv.data_ptr {
                Some(d) => {
                    let mut i: usize = 0;
                    while i < len
                        invariant
                            i <= len,
                            len <= d@.len(),
                            out@ == d@.take(i as int),
                        decreases len - i,
                    {
                        out.push(d[i]);
                        i = i + 1;
                        assert(out@ =~= d@.take(i as int));
                    }
                },
                None => {},
            }
        }
        *buf = out;
        src_lv.length as i32
    } else {
        *buf = out;
        CF_ERROR
    }
}

/// The decimal digits of `n`, most significant first, as ASCII.
pub open spec fn decimal(n: nat) -> Seq<u8>
    decreases n,
{
    if n < 10 {
        seq![(48 + n) as u8]
    } else {
        decimal(n / 10).push((48 + n % 10) as u8)
    }
}

/// Appends the decimal digits of `n` to `out`.
fn cf_append_decimal(out: &mut Vec<u8>, n: u32)
    ensures
        final(out)@ == old(out)@ + decimal(n as nat),
    decreases n,
{
    if n >= 10 {
        cf_append_decimal(out, n / 10);
    }
    out.push(48u8 + (n % 10) as u8);
    proof {
        if n < 10 {
            assert(final(out)@ =~= old(out)@ + decimal(n as nat)) by {
                assert(decimal(n as nat) =~= seq![(48 + n) as u8]);
            }
        }
    }
}

/// The longest path in a file name.
pub const CF_FILENAME_MAX_PATH: usize = 64;

/// Appends the bytes of `s` to `out`.
fn cf_append_bytes(out: &mut Vec<u8>, s: &Vec<u8>, n: usize)
    requires
        n <= s@.len(),
    ensures
        final(out)@ == old(out)@ + s@.take(n as int),
{
    let ghost o = out@;
    let mut i: usize = 0;
    while i < n
        invariant
            i <= n,
            n <= s@.len(),
            out@ == o + s@.take(i as int),
        decreases n - i,
    {
        out.push(s[i]);
        i = i + 1;
        assert(out@ =~= o + s@.take(i as int));
    }
}

/// The first `n` bytes of `s`, or all of it when it is shorter.
pub open spec fn clip(s: Seq<u8>, n: int) -> Seq<u8> {
    if s.len() <= n { s } else { s.take(n) }
}

/// The temporary name of the file that the transaction `src_eid`/`seq_num` receives, in
/// the directory `tmp_dir`: "tmp_dir/src_eid_seq_num.tmp", the directory cut to the path
/// limit.
pub open spec fn temp_name(tmp_dir: Seq<u8>, src_eid: u32, seq_num: u32) -> Seq<u8> {
    clip(tmp_dir, CF_FILENAME_MAX_PATH - 1) + seq!['/' as u8] + decimal(src_eid as nat) + seq!['_' as u8]
        + decimal(seq_num as nat) + seq!['.' as u8, 't' as u8, 'm' as u8, 'p' as u8]
}

/// The temporary name of the file that the transaction of `hist` receives (see
/// `temp_name`), as a buffer of `file_name_size` bytes holds it: cut to leave room for the
/// terminator.
pub fn CF_CFDP_GetTempName(hist: &CfHistory, tmp_dir: &Vec<u8>, file_name_size: usize) -> (r: Vec<u8>)
    requires
        file_name_size > 0,
    ensures
        r@ == clip(temp_name(tmp_dir@, hist.src_eid, hist.seq_num), file_name_size - 1),
{
    let src_eid = hist.src_eid;
    let seq_num = hist.seq_num;
    let mut full: Vec<u8> = Vec::new();
    let dir_len = if tmp_dir.len() <= CF_FILENAME_MAX_PATH - 1 { tmp_dir.len() } else { CF_FILENAME_MAX_PATH - 1 };
    cf_append_bytes(&mut full, tmp_dir, dir_len);
    assert(full@ =~= clip(tmp_dir@, CF_FILENAME_MAX_PATH - 1));
    full.push('/' as u8);
    cf_append_decimal(&mut full, src_eid);
    full.push('_' as u8);
    cf_append_decimal(&mut full, seq_num);
    full.push('.' as u8);
    full.push('t' as u8);
    full.push('m' as u8);
    full.push('p' as u8);
    assert(full@ =~= temp_name(tmp_dir@, src_eid, seq_num));
    cf_clip(full, file_name_size - 1)
}

/// The first `n` bytes of `v`, or all of it when it is shorter.
fn cf_clip(v: Vec<u8>, n: usize) -> (r: Vec<u8>)
    ensures
        r@ == clip(v@, n as int),
{
    if v.len() <= n {
        v
    } else {
        let mut out: Vec<u8> = Vec::new();
        cf_append_bytes(&mut out, &v, n);
        assert(out@ =~= v@.take(n as int));
        out
    }
}

/// The part of a path after its last '/' (all of it when there is none).
pub open spec fn base_name(s: Seq<u8>) -> Seq<u8>
    decreases s.len(),
{
    if s.len() == 0 {
        s
    } else if s.last() == '/' as u8 {
        Seq::empty()
    } else {
        base_name(s.drop_last()).push(s.last())
    }
}

/// The base-name law: the base name of a path holds no '/', and it is the end of the
/// path: all of the path, or what follows the '/' just before it. (So it is what comes
/// after the last '/'.)
pub proof fn law_base_name(s: Seq<u8>)
    ensures
        !base_name(s).contains('/' as u8),
        base_name(s).len() <= s.len(),
        s.subrange(s.len() - base_name(s).len(), s.len() as int) == base_name(s),
        base_name(s).len() == s.len() || s[s.len() - base_name(s).len() - 1] == '/' as u8,
    decreases s.len(),
{
    if s.len() == 0 {
        assert(s.subrange(0, 0) =~= s);
    } else if s.last() == '/' as u8 {
        assert(s.subrange(s.len() as int, s.len() as int) =~= Seq::<u8>::empty());
    } else {
        let d = s.drop_last();
        law_base_name(d);
        let b0 = base_name(d);
        let b = base_name(s);
        assert(b == b0.push(s.last()));
        assert forall|k: int| 0 <= k < b.len() implies b[k] != '/' as u8 by {
            if k < b0.len() {
                assert(b[k] == b0[k]);
                assert(!b0.contains(b0[k]) || b0[k] != '/' as u8);
            }
        }
        assert(s.subrange(s.len() - b.len(), s.len() as int) =~= d.subrange(d.len() - b0.len(), d.len() as int).push(
            s.last(),
        ));
        if b0.len() < d.len() {
            assert(s[s.len() - b.len() - 1] == d[d.len() - b0.len() - 1]);
        }
    }
}

/// Where the last '/' of `s` is followed from: the start of its base name.
fn cf_base_name_start(s: &Vec<u8>) -> (r: usize)
    ensures
        r <= s@.len(),
        s@.subrange(r as int, s@.len() as int) == base_name(s@),
{
    let mut start: usize = 0;
    let mut i: usize = 0;
    while i < s.len()
        invariant
            start <= i <= s@.len(),
            s@.subrange(start as int, i as int) == base_name(s@.take(i as int)),
        decreases s@.len() - i,
    {
        let ghost t = s@.take(i as int + 1);
        assert(t.drop_last() =~= s@.take(i as int));
        assert(t.last() == s@[i as int]);
        if s[i] == '/' as u8 {
            start = i + 1;
            assert(s@.subrange(start as int, i as int + 1) =~= base_name(t));
        } else {
            assert(s@.subrange(start as int, i as int + 1) =~= s@.subrange(start as int, i as int).push(s@[i as int]));
        }
        i = i + 1;
    }
    assert(s@.take(s@.len() as int) =~= s@);
    start
}

/// The truncation mark put at the end of a file name that did not fit.
pub const CF_FILENAME_TRUNCATED: u8 = 36;

/// The path that the file `subject_file` is moved to in `dest_dir`: "dest_dir/base name",
/// as a buffer of `dest_size` bytes holds it. A path that does not fit is cut, its last
/// kept byte replaced by the truncation mark when the buffer holds more than two bytes.
pub open spec fn move_target(dest_dir: Seq<u8>, subject_file: Seq<u8>, dest_size: int) -> Seq<u8> {
    let full = dest_dir + seq!['/' as u8] + base_name(subject_file);
    if full.len() <= dest_size - 1 {
        full
    } else if dest_size > 2 {
        full.take(dest_size - 1).update(dest_size - 2, CF_FILENAME_TRUNCATED)
    } else {
        full.take(dest_size - 1)
    }
}

/// Where to move `subject_file` once done: nothing without a destination directory;
/// otherwise the path of `move_target`, with a report when it had to be cut.
pub fn CF_CFDP_GetMoveTarget(
    dest_dir: Option<&Vec<u8>>,
    subject_file: &Vec<u8>,
    dest_size: usize,
    reports: &mut Vec<CfReport>,
) -> (r: Option<Vec<u8>>)
    requires
        dest_size > 0,
    ensures
        match dest_dir {
            None => r is None && final(reports)@ == old(reports)@,
            Some(d) => if d@.len() == 0 {
                r is None && final(reports)@ == old(reports)@
            } else {
                let full_len = d@.len() + 1 + base_name(subject_file@).len();
                &&& r matches Some(v) && v@ == move_target(d@, subject_file@, dest_size as int)
                &&& full_len > dest_size - 1 ==> final(reports)@ == old(reports)@.push(
                    CfReport::Event(CfEventId::BufExceedInf),
                )
                &&& full_len <= dest_size - 1 ==> final(reports)@ == old(reports)@
            },
        },
{
    match dest_dir {
        None => None,
        Some(d) => {
            if d.len() == 0 {
                None
            } else {
                let start = cf_base_name_start(subject_file);
                let mut full: Vec<u8> = Vec::new();
                cf_append_bytes(&mut full, d, d.len());
                full.push('/' as u8);
                let mut i: usize = start;
                let ghost f0 = full@;
                while i < subject_file.len()
                    invariant
                        start <= i <= subject_file@.len(),
                        full@ == f0 + subject_file@.subrange(start as int, i as int),
                    decreases subject_file@.len() - i,
                {
                    full.push(subject_file[i]);
                    i = i + 1;
                    assert(full@ =~= f0 + subject_file@.subrange(start as int, i as int));
                }
                assert(d@.take(d@.len() as int) =~= d@);
                assert(full@ =~= d@ + seq!['/' as u8] + base_name(subject_file@));
                let n = dest_size - 1;
                if full.len() <= n {
                    Some(full)
                } else {
                    let mut out = cf_clip(full, n);
                    if dest_size > 2 {
                        out.set(dest_size - 2, CF_FILENAME_TRUNCATED);
                    }
                    reports.push(CfReport::Event(CfEventId::BufExceedInf));
                    Some(out)
                }
            }
        },
    }
}

} // verus!
