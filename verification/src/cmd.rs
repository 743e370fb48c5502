//! Ground command handlers that act on the housekeeping counters.
#![allow(non_camel_case_types)]
#![allow(non_upper_case_globals)]

use vstd::prelude::*;
use crate::app_data::{
    CfAppData, CfHkChannelData, CfHkFaultCounters, CfHkRecvCounters, CfHkSentCounters, CfReport,
    CfEventId, cf_counter_inc, CF_NUM_CHANNELS,
};

verus! {

/// A command without arguments.
#[derive(Clone, Copy, Debug, PartialEq, Eq, Default)]
pub struct CF_NoopCmd_t {}

/// The argument bytes of a command that takes small arguments.
#[derive(Clone, Copy, Debug, PartialEq, Eq, Default)]
pub struct CF_UnionArgs_Payload {
    pub byte: [u8; 4],
}

/// A counter reset command: its first argument byte says which counters.
#[derive(Clone, Copy, Debug, PartialEq, Eq, Default)]
pub struct CF_ResetCountersCmd_t {
    pub payload: CF_UnionArgs_Payload,
}

/// Reset every counter.
pub const CF_Reset_all: u8 = 0;
/// Reset the command counters.
pub const CF_Reset_command: u8 = 1;
/// Reset the fault counters.
pub const CF_Reset_fault: u8 = 2;
/// Reset the receive counters.
pub const CF_Reset_up: u8 = 3;
/// Reset the send counters.
pub const CF_Reset_down: u8 = 4;

/// The effect of a no-op command: it is reported and counted as accepted.
pub open spec fn noop_effect(a0: CfAppData, a1: CfAppData, r0: Seq<CfReport>, r1: Seq<CfReport>) -> bool {
    &&& a1.hk.payload.counters.cmd == (a0.hk.payload.counters.cmd + 1) % 0x1_0000
    &&& a1.hk.payload.counters.err == a0.hk.payload.counters.err
    &&& a1.hk.payload.channel_hk == a0.hk.payload.channel_hk
    &&& r1 == r0.push(CfReport::Event(CfEventId::NoopInf))
}

/// Reports a no-op command and counts it as accepted.
pub fn cf_noop_cmd(app: &mut CfAppData, _msg: &CF_NoopCmd_t, reports: &mut Vec<CfReport>)
    ensures
        noop_effect(*old(app), *final(app), old(reports)@, final(reports)@),
{
    reports.push(CfReport::Event(CfEventId::NoopInf));
    app.hk.payload.counters.cmd = cf_counter_inc(app.hk.payload.counters.cmd);
}

/// Fault counters at zero.
pub open spec fn fault_zero() -> CfHkFaultCounters {
    CfHkFaultCounters {
        file_open: 0,
        file_read: 0,
        file_seek: 0,
        file_write: 0,
        file_rename: 0,
        directory_read: 0,
        crc_mismatch: 0,
        file_size_mismatch: 0,
        nak_limit: 0,
        ack_limit: 0,
        inactivity_timer: 0,
    }
}

/// Receive counters at zero.
pub open spec fn recv_zero() -> CfHkRecvCounters {
    CfHkRecvCounters {
        file_data_bytes: 0,
        pdu: 0,
        error: 0,
        spurious: 0,
        dropped: 0,
        nak_segment_requests: 0,
    }
}

/// Send counters at zero.
pub open spec fn sent_zero() -> CfHkSentCounters {
    CfHkSentCounters { file_data_bytes: 0, nak_segment_requests: 0, pdu: 0 }
}

/// A channel's entry after a reset of the counters that `param` selects.
pub open spec fn reset_channel(ch: CfHkChannelData, param: u8) -> CfHkChannelData {
    let c = ch.counters;
    let fault = if param == CF_Reset_all || param == CF_Reset_fault { fault_zero() } else { c.fault };
    let recv = if param == CF_Reset_all || param == CF_Reset_up { recv_zero() } else { c.recv };
    let sent = if param == CF_Reset_all || param == CF_Reset_down { sent_zero() } else { c.sent };
    CfHkChannelData { counters: crate::app_data::CfHkChannelCounters { fault, recv, sent }, ..ch }
}

/// The effect of a counter reset with argument `param`: values past `CF_Reset_down` are
/// reported and counted as errors; otherwise the selected counters are cleared, the reset
/// is reported, and it counts as an accepted command unless it cleared the command
/// counters.
pub open spec fn reset_effect(a0: CfAppData, a1: CfAppData, r0: Seq<CfReport>, r1: Seq<CfReport>, param: u8) -> bool {
    let c0 = a0.hk.payload.counters;
    let c1 = a1.hk.payload.counters;
    if param > CF_Reset_down {
        &&& c1.err == (c0.err + 1) % 0x1_0000
        &&& c1.cmd == c0.cmd
        &&& a1.hk.payload.channel_hk == a0.hk.payload.channel_hk
        &&& r1 == r0.push(CfReport::Event(CfEventId::CmdResetInvalidErr))
    } else {
        &&& (param == CF_Reset_all || param == CF_Reset_command) ==> c1.cmd == 0 && c1.err == 0
        &&& !(param == CF_Reset_all || param == CF_Reset_command) ==> c1.cmd == (c0.cmd + 1) % 0x1_0000
            && c1.err == c0.err
        &&& a1.hk.payload.channel_hk@.len() == a0.hk.payload.channel_hk@.len()
        &&& forall|i: int|
            0 <= i < a0.hk.payload.channel_hk@.len() ==> #[trigger] a1.hk.payload.channel_hk@[i]
                == reset_channel(a0.hk.payload.channel_hk@[i], param)
        &&& r1 == r0.push(CfReport::Event(CfEventId::ResetInf))
    }
}

/// Resets the counters that the command's first argument byte selects: all of them (0),
/// the command counters (1), the fault (2), receive (3) or send (4) counters of every
/// channel. Any other value is rejected. An accepted reset counts as an accepted command
/// unless it cleared the command counters.
pub fn cf_reset_counters_cmd(app: &mut CfAppData, msg: &CF_ResetCountersCmd_t, reports: &mut Vec<CfReport>)
    requires
        old(app).wf(),
    ensures
        final(app).wf(),
        reset_effect(*old(app), *final(app), old(reports)@, final(reports)@, msg.payload.byte[0]),
{
    let param = msg.payload.byte[0];
    if param > CF_Reset_down {
        reports.push(CfReport::Event(CfEventId::CmdResetInvalidErr));
        app.hk.payload.counters.err = cf_counter_inc(app.hk.payload.counters.err);
        return;
    }
    reports.push(CfReport::Event(CfEventId::ResetInf));
    let mut acc = true;
    if param == CF_Reset_all || param == CF_Reset_command {
        app.hk.payload.counters.cmd = 0;
        app.hk.payload.counters.err = 0;
        acc = false;
    }
    let ghost before = app.hk.payload.channel_hk@;
    let ghost counters_mid = app.hk.payload.counters;
    let ghost reports_mid = reports@;
    assert(before == old(app).hk.payload.channel_hk@);
    let mut i: usize = 0;
    while i < CF_NUM_CHANNELS
        invariant
            i <= CF_NUM_CHANNELS,
            app.hk.payload.counters == counters_mid,
            reports@ == reports_mid,
            app.hk.payload.channel_hk@.len() == CF_NUM_CHANNELS,
            before.len() == CF_NUM_CHANNELS,
            forall|j: int| 0 <= j < i ==> #[trigger] app.hk.payload.channel_hk@[j] == reset_channel(before[j], param),
            forall|j: int| i <= j < CF_NUM_CHANNELS ==> #[trigger] app.hk.payload.channel_hk@[j] == before[j],
        decreases CF_NUM_CHANNELS - i,
    {
        let mut ch = app.hk.payload.channel_hk[i];
        if param == CF_Reset_all || param == CF_Reset_fault {
            ch.counters.fault = CfHkFaultCounters {
                file_open: 0,
                file_read: 0,
                file_seek: 0,
                file_write: 0,
                file_rename: 0,
                directory_read: 0,
                crc_mismatch: 0,
                file_size_mismatch: 0,
                nak_limit: 0,
                ack_limit: 0,
                inactivity_timer: 0,
            };
        }
        if param == CF_Reset_all || param == CF_Reset_up {
            ch.counters.recv = CfHkRecvCounters {
                file_data_bytes: 0,
                pdu: 0,
                error: 0,
                spurious: 0,
                dropped: 0,
                nak_segment_requests: 0,
            };
        }
        if param == CF_Reset_all || param == CF_Reset_down {
            ch.counters.sent = CfHkSentCounters { file_data_bytes: 0, nak_segment_requests: 0, pdu: 0 };
        }
        app.hk.payload.channel_hk.set(i, ch);
        i = i + 1;
    }
    if acc {
        app.hk.payload.counters.cmd = cf_counter_inc(app.hk.payload.counters.cmd);
    }
}

} // verus!
