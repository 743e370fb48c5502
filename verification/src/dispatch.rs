//! Routing of software bus messages and ground commands to their handlers.
#![allow(non_camel_case_types)]

use vstd::prelude::*;
use crate::app_data::{CfAppData, CfReport, CfEventId, cf_counter_inc};
use crate::cmd::{
    CF_NoopCmd_t, CF_ResetCountersCmd_t, CF_UnionArgs_Payload, cf_noop_cmd, cf_reset_counters_cmd, noop_effect,
    reset_effect,
};

verus! {

/// Message id of ground commands.
pub const CF_CMD_MID: u32 = 0x18B3;
/// Message id of housekeeping requests.
pub const CF_SEND_HK_MID: u32 = 0x18B4;
/// Message id of the periodic wake-up.
pub const CF_WAKE_UP_MID: u32 = 0x18B5;
/// A message id that no message has.
pub const CFE_SB_INVALID_MSG_ID: u32 = 0;

/// The number of ground command codes.
pub const CF_NUM_COMMANDS: u16 = 24;
/// Command code of the no-op command.
pub const CF_NOOP_CC: u16 = 0;
/// Command code of the counter reset command.
pub const CF_RESET_CC: u16 = 1;

/// Size of a command message header.
pub const CF_CMD_HDR_SIZE: usize = 8;
/// Size of a command without arguments.
pub const CF_NOOP_CMD_SIZE: usize = 8;
/// Size of a command with small arguments.
pub const CF_UNION_ARGS_CMD_SIZE: usize = 12;
/// Size of a file transfer or directory playback command.
pub const CF_TX_FILE_CMD_SIZE: usize = 144;
/// Size of a command on one transaction.
pub const CF_TRANSACTION_CMD_SIZE: usize = 20;
/// Size of a parameter set command.
pub const CF_SET_PARAM_CMD_SIZE: usize = 16;
/// Size of a parameter get command.
pub const CF_GET_PARAM_CMD_SIZE: usize = 10;
/// Size of a queue write command.
pub const CF_WRITE_QUEUE_CMD_SIZE: usize = 76;

/// A message from the software bus: its id, command code, size and argument bytes.
#[derive(Clone, Copy, Debug, PartialEq, Eq, Default)]
pub struct CfeSbBuffer {
    pub msg_id: u32,
    pub fcn_code: u16,
    pub size: usize,
    pub args: CF_UnionArgs_Payload,
}

/// The size that a ground command with code `cc` has; 0 for the codes without a command.
pub open spec fn expected_length(cc: u16) -> usize {
    if cc == 0 {
        CF_NOOP_CMD_SIZE
    } else if cc == 1 || cc == 4 || cc == 5 {
        CF_UNION_ARGS_CMD_SIZE
    } else if cc == 2 || cc == 3 {
        CF_TX_FILE_CMD_SIZE
    } else if 6 <= cc <= 9 {
        CF_TRANSACTION_CMD_SIZE
    } else if cc == 10 {
        CF_SET_PARAM_CMD_SIZE
    } else if cc == 11 {
        CF_GET_PARAM_CMD_SIZE
    } else if cc == 15 {
        CF_WRITE_QUEUE_CMD_SIZE
    } else if 16 <= cc <= 19 || cc == 21 {
        CF_UNION_ARGS_CMD_SIZE
    } else if cc == 22 || cc == 23 {
        CF_NOOP_CMD_SIZE
    } else {
        0
    }
}

/// Whether a handler exists for the command code `cc`.
pub open spec fn has_handler(cc: u16) -> bool {
    cc < CF_NUM_COMMANDS && cc != 12 && cc != 13 && cc != 14 && cc != 20
}

/// The size that a ground command with code `cc` has (see `expected_length`).
pub fn cf_cmd_expected_length(cc: u16) -> (r: usize)
    ensures
        r == expected_length(cc),
{
    if cc == 0 {
        CF_NOOP_CMD_SIZE
    } else if cc == 1 || cc == 4 || cc == 5 {
        CF_UNION_ARGS_CMD_SIZE
    } else if cc == 2 || cc == 3 {
        CF_TX_FILE_CMD_SIZE
    } else if 6 <= cc && cc <= 9 {
        CF_TRANSACTION_CMD_SIZE
    } else if cc == 10 {
        CF_SET_PARAM_CMD_SIZE
    } else if cc == 11 {
        CF_GET_PARAM_CMD_SIZE
    } else if cc == 15 {
        CF_WRITE_QUEUE_CMD_SIZE
    } else if (16 <= cc && cc <= 19) || cc == 21 {
        CF_UNION_ARGS_CMD_SIZE
    } else if cc == 22 || cc == 23 {
        CF_NOOP_CMD_SIZE
    } else {
        0
    }
}

/// What became of a ground command.
#[derive(Clone, Copy, Debug, PartialEq, Eq)]
pub enum CfGroundCmdResult {
    /// Handled here (no-op or counter reset).
    Handled,
    /// Valid, for the handler of this code, which lives with the engine.
    Forwarded(u16),
    /// Valid, but no handler takes this code.
    NoHandler,
    /// Rejected: the message does not have the command's size.
    LengthError,
    /// Rejected: no command has this code.
    CodeError,
}

/// What becomes of the ground command `msg`.
pub open spec fn ground_cmd_result(msg: CfeSbBuffer) -> CfGroundCmdResult {
    let cc = msg.fcn_code;
    if cc >= CF_NUM_COMMANDS {
        CfGroundCmdResult::CodeError
    } else if msg.size != expected_length(cc) {
        CfGroundCmdResult::LengthError
    } else if cc == CF_NOOP_CC || cc == CF_RESET_CC {
        CfGroundCmdResult::Handled
    } else if has_handler(cc) {
        CfGroundCmdResult::Forwarded(cc)
    } else {
        CfGroundCmdResult::NoHandler
    }
}

/// A rejected message is reported with `e` and counted as an error.
pub open spec fn reject_effect(a0: CfAppData, a1: CfAppData, r0: Seq<CfReport>, r1: Seq<CfReport>, e: CfEventId) -> bool {
    &&& a1.hk.payload.counters.err == (a0.hk.payload.counters.err + 1) % 0x1_0000
    &&& a1.hk.payload.counters.cmd == a0.hk.payload.counters.cmd
    &&& a1.hk.payload.channel_hk == a0.hk.payload.channel_hk
    &&& r1 == r0.push(CfReport::Event(e))
}

/// The effect of the ground command `msg` on the application's data and reports.
pub open spec fn ground_cmd_effect(a0: CfAppData, a1: CfAppData, r0: Seq<CfReport>, r1: Seq<CfReport>, msg: CfeSbBuffer) -> bool {
    match ground_cmd_result(msg) {
        CfGroundCmdResult::CodeError => reject_effect(a0, a1, r0, r1, CfEventId::CcErr),
        CfGroundCmdResult::LengthError => reject_effect(a0, a1, r0, r1, CfEventId::CmdLenErr),
        CfGroundCmdResult::Handled => if msg.fcn_code == CF_NOOP_CC {
            noop_effect(a0, a1, r0, r1)
        } else {
            reset_effect(a0, a1, r0, r1, msg.args.byte[0])
        },
        _ => a1 == a0 && r1 == r0,
    }
}

/// Checks a ground command and runs it or says which handler should: an unknown code or a
/// wrong size is reported and counted as an error.
pub fn cf_process_ground_command(app: &mut CfAppData, msg: &CfeSbBuffer, reports: &mut Vec<CfReport>) -> (r: CfGroundCmdResult)
    requires
        old(app).wf(),
    ensures
        final(app).wf(),
        r == ground_cmd_result(*msg),
        ground_cmd_effect(*old(app), *final(app), old(reports)@, final(reports)@, *msg),
{
    let cc = msg.fcn_code;
    if cc < CF_NUM_COMMANDS {
        let len = msg.size;
        if len == cf_cmd_expected_length(cc) {
            if cc == CF_NOOP_CC {
                cf_noop_cmd(app, &CF_NoopCmd_t {}, reports);
                CfGroundCmdResult::Handled
            } else if cc == CF_RESET_CC {
                cf_reset_counters_cmd(app, &CF_ResetCountersCmd_t { payload: msg.args }, reports);
                CfGroundCmdResult::Handled
            } else if cc != 12 && cc != 13 && cc != 14 && cc != 20 {
                CfGroundCmdResult::Forwarded(cc)
            } else {
                CfGroundCmdResult::NoHandler
            }
        } else {
            reports.push(CfReport::Event(CfEventId::CmdLenErr));
            app.hk.payload.counters.err = cf_counter_inc(app.hk.payload.counters.err);
            CfGroundCmdResult::LengthError
        }
    } else {
        reports.push(CfReport::Event(CfEventId::CcErr));
        app.hk.payload.counters.err = cf_counter_inc(app.hk.payload.counters.err);
        CfGroundCmdResult::CodeError
    }
}

/// What became of a message from the software bus.
#[derive(Clone, Copy, Debug, PartialEq, Eq)]
pub enum CfPipeResult {
    /// A ground command, and what became of it.
    Ground(CfGroundCmdResult),
    /// The periodic wake-up: the engine is to run a cycle.
    WakeUp,
    /// A housekeeping request: the housekeeping packet is to be sent.
    SendHk,
    /// A message id that the application does not take; reported and counted as an error.
    UnknownMid,
}

/// Routes a message by its id: ground commands to `cf_process_ground_command`, wake-ups
/// and housekeeping requests to the engine and the housekeeping sender; any other id is
/// reported and counted as an error.
pub fn cf_app_pipe(app: &mut CfAppData, msg: &CfeSbBuffer, reports: &mut Vec<CfReport>) -> (r: CfPipeResult)
    requires
        old(app).wf(),
    ensures
        final(app).wf(),
        msg.msg_id == CF_CMD_MID ==> r == CfPipeResult::Ground(ground_cmd_result(*msg)) && ground_cmd_effect(
            *old(app),
            *final(app),
            old(reports)@,
            final(reports)@,
            *msg,
        ),
        msg.msg_id == CF_WAKE_UP_MID ==> r == CfPipeResult::WakeUp && *final(app) == *old(app)
            && final(reports)@ == old(reports)@,
        msg.msg_id == CF_SEND_HK_MID ==> r == CfPipeResult::SendHk && *final(app) == *old(app)
            && final(reports)@ == old(reports)@,
        msg.msg_id != CF_CMD_MID && msg.msg_id != CF_WAKE_UP_MID && msg.msg_id != CF_SEND_HK_MID ==> r
            == CfPipeResult::UnknownMid && reject_effect(
            *old(app),
            *final(app),
            old(reports)@,
            final(reports)@,
            CfEventId::MidErr,
        ),
{
    let id = msg.msg_id;
    if id == CF_CMD_MID {
        CfPipeResult::Ground(cf_process_ground_command(app, msg, reports))
    } else if id == CF_WAKE_UP_MID {
        CfPipeResult::WakeUp
    } else if id == CF_SEND_HK_MID {
        CfPipeResult::SendHk
    } else {
        app.hk.payload.counters.err = cf_counter_inc(app.hk.payload.counters.err);
        reports.push(CfReport::Event(CfEventId::MidErr));
        CfPipeResult::UnknownMid
    }
}

} // verus!
