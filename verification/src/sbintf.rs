//! The engine's side of the software bus: counting the PDUs that are sent, and deciding
//! whether a transaction may have a buffer for an outgoing message. The bus itself (the
//! buffers, the transmission, the channel semaphores) belongs to the host: it performs
//! the calls that a step asks for and hands back their status.
#![allow(non_snake_case)]

use vstd::prelude::*;
use crate::app_data::{CfAppData, CfEventId, CfHkChannelCounters, CfHkChannelData, CfHkSentCounters, CfReport, CF_NUM_CHANNELS};

verus! {

/// Success of an operating system call.
pub const OS_SUCCESS: i32 = 0;
/// A timed wait ran out.
pub const OS_ERROR_TIMEOUT: i32 = -2;

/// The channel's housekeeping data with one more PDU counted as sent (the counter wraps
/// round).
pub open spec fn pdu_sent(c: CfHkChannelData) -> CfHkChannelData {
    let sent = CfHkSentCounters { pdu: ((c.counters.sent.pdu + 1) % 0x1_0000_0000) as u32, ..c.counters.sent };
    CfHkChannelData { counters: CfHkChannelCounters { sent: sent, ..c.counters }, ..c }
}

/// Counts a PDU sent on channel `chan_num` (the host transmits the message).
pub fn CF_CFDP_Send(app: &mut CfAppData, chan_num: u8)
    requires
        old(app).wf(),
        chan_num < CF_NUM_CHANNELS,
    ensures
        final(app).wf(),
        final(app).hk.payload.counters == old(app).hk.payload.counters,
        final(app).hk.payload.channel_hk@ == old(app).hk.payload.channel_hk@.update(
            chan_num as int,
            pdu_sent(old(app).hk.payload.channel_hk@[chan_num as int]),
        ),
{
    let i = chan_num as usize;
    let mut c = app.hk.payload.channel_hk[i];
    c.counters.sent.pdu = c.counters.sent.pdu.wrapping_add(1);
    app.hk.payload.channel_hk.set(i, c);
}

/// A call that getting an outgoing message needs the host to make.
#[derive(Clone, Copy, Debug, PartialEq, Eq)]
pub enum CfOutService {
    /// Take the channel's semaphore without waiting (status `OS_SUCCESS` when taken).
    SemTimedWait,
    /// Allocate a message buffer (status `OS_SUCCESS` when one was had).
    AllocateBuffer,
}

/// What a step of getting an outgoing message asks for next.
#[derive(Clone, Copy, Debug, PartialEq, Eq)]
pub enum CfOutStep {
    /// Make this call and hand its status to the next step.
    Call(CfOutService),
    /// A buffer is ready for the PDU.
    Ready,
    /// No buffer now.
    NoBuffer,
}

/// What decides whether a transaction may have an outgoing message now.
#[derive(Clone, Copy, Debug, PartialEq, Eq, Default)]
pub struct CfMsgOutConditions {
    /// The channel's limit of messages per wake-up (0: no limit).
    pub max_outgoing_per_wakeup: u32,
    /// Whether the channel has a semaphore to take first.
    pub sem_defined: bool,
    /// Whether the channel is frozen.
    pub frozen: bool,
    /// Whether the transaction is suspended.
    pub suspended: bool,
    /// Whether a lack of buffer goes unreported.
    pub silent: bool,
}

/// The event for a lack of buffer, unless the call is silent.
pub open spec fn no_msg_event(c: CfMsgOutConditions) -> Option<CfEventId> {
    if c.silent { None } else { Some(CfEventId::CfdpNoMsgErr) }
}

/// After the semaphore (if any) is taken: allocate a buffer unless the channel is frozen
/// or the transaction suspended.
pub open spec fn msg_out_eligible(c: CfMsgOutConditions) -> (CfOutStep, Option<CfEventId>) {
    if !c.frozen && !c.suspended {
        (CfOutStep::Call(CfOutService::AllocateBuffer), None)
    } else {
        (CfOutStep::NoBuffer, no_msg_event(c))
    }
}

/// The next step of getting an outgoing message, the count of messages of this wake-up
/// after it, and the event it sends, after `last` returned `status` (nothing called yet
/// when `last` is none): within the channel's limit (or with no limit), take the
/// semaphore if there is one (failing to take it gives no buffer and no event), then
/// allocate a buffer unless the channel is frozen or the transaction suspended; a buffer
/// had is counted. Over the limit, frozen, suspended or out of buffers, there is no
/// buffer, and an event unless the call is silent.
pub open spec fn msg_out_next(counter: u32, c: CfMsgOutConditions, last: Option<CfOutService>, status: i32) -> (CfOutStep, u32, Option<CfEventId>) {
    match last {
        None => if c.max_outgoing_per_wakeup == 0 || counter < c.max_outgoing_per_wakeup {
            if c.sem_defined {
                (CfOutStep::Call(CfOutService::SemTimedWait), counter, None)
            } else {
                (msg_out_eligible(c).0, counter, msg_out_eligible(c).1)
            }
        } else {
            (CfOutStep::NoBuffer, counter, no_msg_event(c))
        },
        Some(CfOutService::SemTimedWait) => if status != OS_SUCCESS {
            (CfOutStep::NoBuffer, counter, None)
        } else {
            (msg_out_eligible(c).0, counter, msg_out_eligible(c).1)
        },
        Some(CfOutService::AllocateBuffer) => if status == OS_SUCCESS {
            (CfOutStep::Ready, ((counter + 1) % 0x1_0000_0000) as u32, None)
        } else {
            (CfOutStep::NoBuffer, counter, no_msg_event(c))
        },
    }
}

/// One step of getting an outgoing message for a transaction (see `msg_out_next`);
/// `outgoing_counter` counts the messages had in this wake-up.
pub fn CF_CFDP_MsgOutGet(
    outgoing_counter: &mut u32,
    c: &CfMsgOutConditions,
    last: Option<CfOutService>,
    status: i32,
    reports: &mut Vec<CfReport>,
) -> (r: CfOutStep)
    ensures
        r == msg_out_next(*old(outgoing_counter), *c, last, status).0,
        *final(outgoing_counter) == msg_out_next(*old(outgoing_counter), *c, last, status).1,
        final(reports)@ == crate::app::with_event(old(reports)@, msg_out_next(*old(outgoing_counter), *c, last, status).2),
{
    let eligible_or_fail = !c.frozen && !c.suspended;
    match last {
        None => {
            if c.max_outgoing_per_wakeup == 0 || *outgoing_counter < c.max_outgoing_per_wakeup {
                if c.sem_defined {
                    return CfOutStep::Call(CfOutService::SemTimedWait);
                }
                if eligible_or_fail {
                    return CfOutStep::Call(CfOutService::AllocateBuffer);
                }
            }
        },
        Some(CfOutService::SemTimedWait) => {
            if status != OS_SUCCESS {
                return CfOutStep::NoBuffer;
            }
            if eligible_or_fail {
                return CfOutStep::Call(CfOutService::AllocateBuffer);
            }
        },
        Some(CfOutService::AllocateBuffer) => {
            if status == OS_SUCCESS {
                *outgoing_counter = outgoing_counter.wrapping_add(1);
                return CfOutStep::Ready;
            }
        },
    }
    if !c.silent {
        reports.push(CfReport::Event(CfEventId::CfdpNoMsgErr));
    }
    CfOutStep::NoBuffer
}

} // verus!
