//! Housekeeping counters of the application and the reports (events and system log
//! entries) that its logic asks to send.
use vstd::prelude::*;

verus! {

/// The number of transfer channels.
pub const CF_NUM_CHANNELS: usize = 2;

/// The number of transaction queues of a channel.
pub const CF_QUEUE_COUNT: usize = 7;

/// Counters of accepted and rejected commands.
#[derive(Clone, Copy, Debug, PartialEq, Eq, Default)]
pub struct CfHkCmdCounters {
    pub cmd: u16,
    pub err: u16,
}

/// Fault counters of a channel.
#[derive(Clone, Copy, Debug, PartialEq, Eq, Default)]
pub struct CfHkFaultCounters {
    pub file_open: u16,
    pub file_read: u16,
    pub file_seek: u16,
    pub file_write: u16,
    pub file_rename: u16,
    pub directory_read: u16,
    pub crc_mismatch: u16,
    pub file_size_mismatch: u16,
    pub nak_limit: u16,
    pub ack_limit: u16,
    pub inactivity_timer: u16,
}

/// Receive counters of a channel.
#[derive(Clone, Copy, Debug, PartialEq, Eq, Default)]
pub struct CfHkRecvCounters {
    pub file_data_bytes: u64,
    pub pdu: u32,
    pub error: u32,
    pub spurious: u16,
    pub dropped: u16,
    pub nak_segment_requests: u32,
}

/// Send counters of a channel.
#[derive(Clone, Copy, Debug, PartialEq, Eq, Default)]
pub struct CfHkSentCounters {
    pub file_data_bytes: u64,
    pub nak_segment_requests: u32,
    pub pdu: u32,
}

/// All counters of a channel.
#[derive(Clone, Copy, Debug, PartialEq, Eq, Default)]
pub struct CfHkChannelCounters {
    pub fault: CfHkFaultCounters,
    pub recv: CfHkRecvCounters,
    pub sent: CfHkSentCounters,
}

/// The housekeeping data of a channel: its counters and the size of each of its queues.
#[derive(Clone, Copy, Debug, PartialEq, Eq, Default)]
pub struct CfHkChannelData {
    pub counters: CfHkChannelCounters,
    pub q_size: [u16; 7],
}

/// The housekeeping payload: command counters and one entry per channel.
#[derive(Clone, Debug, PartialEq, Eq)]
pub struct CfHkPayload {
    pub counters: CfHkCmdCounters,
    pub channel_hk: Vec<CfHkChannelData>,
}

impl CfHkPayload {
    /// There is one entry per channel.
    pub open spec fn wf(&self) -> bool {
        self.channel_hk@.len() == CF_NUM_CHANNELS
    }
}

/// The housekeeping packet.
#[derive(Clone, Debug, PartialEq, Eq)]
pub struct CfHk {
    pub payload: CfHkPayload,
}

/// The application's data that its command logic works on.
#[derive(Clone, Debug, PartialEq, Eq)]
pub struct CfAppData {
    pub hk: CfHk,
}

impl CfAppData {
    pub open spec fn wf(&self) -> bool {
        self.hk.payload.wf()
    }
}

impl Default for CfAppData {
    fn default() -> (r: Self)
        ensures
            r.wf(),
            r.hk.payload.counters == (CfHkCmdCounters { cmd: 0, err: 0 }),
            forall|i: int| 0 <= i < CF_NUM_CHANNELS ==> #[trigger] r.hk.payload.channel_hk@[i] == (CfHkChannelData {
                counters: CfHkChannelCounters {
                    fault: CfHkFaultCounters {
                        file_open: 0,
                        file_read: 0,
                        file_seek: 0,
                        file_write: 0,
                        file_rename: 0,
                        directory_read: 0,
                        crc_mismatch: 0,
                        file_size_mismatch: 0,
                        nak_limit: 0,
                        ack_limit: 0,
                        inactivity_timer: 0,
                    },
                    recv: CfHkRecvCounters {
                        file_data_bytes: 0,
                        pdu: 0,
                        error: 0,
                        spurious: 0,
                        dropped: 0,
                        nak_segment_requests: 0,
                    },
                    sent: CfHkSentCounters { file_data_bytes: 0, nak_segment_requests: 0, pdu: 0 },
                },
                q_size: [0u16, 0u16, 0u16, 0u16, 0u16, 0u16, 0u16],
            }),
    {
        let mut channel_hk: Vec<CfHkChannelData> = Vec::new();
        let mut i: usize = 0;
        while i < CF_NUM_CHANNELS
            invariant
                i <= CF_NUM_CHANNELS,
                channel_hk@.len() == i,
                forall|j: int| 0 <= j < i ==> #[trigger] channel_hk@[j] == cf_hk_channel_zero(),
            decreases CF_NUM_CHANNELS - i,
        {
            channel_hk.push(cf_hk_channel_new());
            i = i + 1;
        }
        CfAppData { hk: CfHk { payload: CfHkPayload { counters: CfHkCmdCounters { cmd: 0, err: 0 }, channel_hk } } }
    }
}

/// A channel entry with every counter and queue size at zero.
pub open spec fn cf_hk_channel_zero() -> CfHkChannelData {
    CfHkChannelData {
        counters: CfHkChannelCounters {
            fault: CfHkFaultCounters {
                file_open: 0,
                file_read: 0,
                file_seek: 0,
                file_write: 0,
                file_rename: 0,
                directory_read: 0,
                crc_mismatch: 0,
                file_size_mismatch: 0,
                nak_limit: 0,
                ack_limit: 0,
                inactivity_timer: 0,
            },
            recv: CfHkRecvCounters {
                file_data_bytes: 0,
                pdu: 0,
                error: 0,
                spurious: 0,
                dropped: 0,
                nak_segment_requests: 0,
            },
            sent: CfHkSentCounters { file_data_bytes: 0, nak_segment_requests: 0, pdu: 0 },
        },
        q_size: [0u16, 0u16, 0u16, 0u16, 0u16, 0u16, 0u16],
    }
}

/// A channel entry with every counter and queue size at zero.
fn cf_hk_channel_new() -> (r: CfHkChannelData)
    ensures
        r == cf_hk_channel_zero(),
{
    CfHkChannelData {
        counters: CfHkChannelCounters {
            fault: CfHkFaultCounters {
                file_open: 0,
                file_read: 0,
                file_seek: 0,
                file_write: 0,
                file_rename: 0,
                directory_read: 0,
                crc_mismatch: 0,
                file_size_mismatch: 0,
                nak_limit: 0,
                ack_limit: 0,
                inactivity_timer: 0,
            },
            recv: CfHkRecvCounters {
                file_data_bytes: 0,
                pdu: 0,
                error: 0,
                spurious: 0,
                dropped: 0,
                nak_segment_requests: 0,
            },
            sent: CfHkSentCounters { file_data_bytes: 0, nak_segment_requests: 0, pdu: 0 },
        },
        q_size: [0u16, 0u16, 0u16, 0u16, 0u16, 0u16, 0u16],
    }
}

/// The events that the application sends.
#[derive(Clone, Copy, Debug, PartialEq, Eq)]
pub enum CfEventId {
    InitInf,
    InitTblRegErr,
    InitTblLoadErr,
    InitTblManageErr,
    InitTblGetAddrErr,
    InitTblCheckRelErr,
    InitTblCheckManErr,
    InitTblCheckGaErr,
    CrPipeErr,
    InitMsgRecvErr,
    NoopInf,
    ResetInf,
    CmdResetInvalidErr,
    CcErr,
    CmdLenErr,
    MidErr,
    BufExceedInf,
    CfdpNoMsgErr,
}

/// A report: an event, or an entry in the system log (used before events can be sent).
#[derive(Clone, Copy, Debug, PartialEq, Eq)]
pub enum CfReport {
    Event(CfEventId),
    SysLog,
}

/// Adds one to a 16-bit counter, wrapping round.
pub fn cf_counter_inc(c: u16) -> (r: u16)
    ensures
        r == (c + 1) % 0x1_0000,
{
    c.wrapping_add(1)
}

} // verus!
