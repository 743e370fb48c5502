//! Verified core of the CFDP file transfer application: PDU encoding and decoding,
//! checksums, timers, chunk lists, circular lists and the rules around them.
use vstd::prelude::*;

pub mod codec;
pub mod codec_laws;
pub mod app;
pub mod app_data;
pub mod cfdp;
pub mod chunk;
pub mod clist;
pub mod cmd;
pub mod crc;
pub mod dispatch;
pub mod queue_write;
pub mod sbintf;
pub mod test_utils;
pub mod timer;
pub mod utils;

verus! {
}
