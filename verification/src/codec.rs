//! Encoding and decoding of CFDP protocol data units.
//!
//! An encoder appends big-endian fields to a byte buffer, a decoder reads them
//! back. Both keep a cursor (`next_offset`), a limit (`max_size`) and a validity
//! flag: once a request does not fit in the remaining space, the state is marked
//! done and every later request fails.
#![allow(non_snake_case)]

use vstd::prelude::*;

verus! {

/// Cursor of an encoder or decoder.
#[derive(Clone, Copy, Debug, PartialEq, Eq, Default)]
pub struct CodecState {
    pub is_valid: bool,
    pub next_offset: usize,
    pub max_size: usize,
}

/// Writes PDU fields into `base`.
#[derive(Debug)]
pub struct EncoderState {
    pub base: Vec<u8>,
    pub codec_state: CodecState,
}

/// Reads PDU fields from `base`.
#[derive(Debug)]
pub struct DecoderState {
    pub base: Vec<u8>,
    pub codec_state: CodecState,
}

/// The state of a codec over a buffer of `len` bytes is consistent.
pub open spec fn codec_wf(c: CodecState, len: nat) -> bool {
    c.next_offset <= c.max_size && c.max_size <= len
}

/// A request for `n` more bytes can be served.
pub open spec fn codec_fits(c: CodecState, n: int) -> bool {
    c.is_valid && c.next_offset + n <= c.max_size
}

/// The cursor after a request for `n` bytes: advanced when it fits, marked done otherwise.
pub open spec fn codec_advance(c: CodecState, n: int) -> CodecState {
    if codec_fits(c, n) {
        CodecState { next_offset: (c.next_offset + n) as usize, ..c }
    } else {
        CodecState { is_valid: false, ..c }
    }
}

/// `s` with `b` written over it from position `pos` on.
pub open spec fn splice(s: Seq<u8>, pos: int, b: Seq<u8>) -> Seq<u8> {
    s.subrange(0, pos) + b + s.subrange(pos + b.len(), s.len() as int)
}

impl EncoderState {
    pub open spec fn wf(&self) -> bool {
        codec_wf(self.codec_state, self.base@.len())
    }

    /// The bytes that the encoder may still write to.
    pub open spec fn pos(&self) -> int {
        self.codec_state.next_offset as int
    }
}

impl DecoderState {
    pub open spec fn wf(&self) -> bool {
        codec_wf(self.codec_state, self.base@.len())
    }

    pub open spec fn pos(&self) -> int {
        self.codec_state.next_offset as int
    }

    /// The bytes that the decoder has not consumed yet.
    pub open spec fn remaining(&self) -> Seq<u8> {
        self.base@.subrange(self.codec_state.next_offset as int, self.codec_state.max_size as int)
    }
}

/// The effect of writing `bytes` at the cursor in one request: the bytes land in the
/// buffer and the cursor moves past them when there is room and the encoder is still
/// valid; otherwise nothing is written and the encoder is marked done. `None` stands for
/// a field that cannot be encoded, which marks the encoder done as well.
pub open spec fn put_result(old: EncoderState, new: EncoderState, bytes: Option<Seq<u8>>) -> bool {
    &&& new.codec_state.max_size == old.codec_state.max_size
    &&& new.base@.len() == old.base@.len()
    &&& match bytes {
        Some(b) => if codec_fits(old.codec_state, b.len() as int) {
            &&& new.codec_state == codec_advance(old.codec_state, b.len() as int)
            &&& new.base@ == splice(old.base@, old.pos(), b)
        } else {
            &&& new.codec_state == CodecState { is_valid: false, ..old.codec_state }
            &&& new.base@ == old.base@
        },
        None => {
            &&& new.codec_state == CodecState { is_valid: false, ..old.codec_state }
            &&& new.base@ == old.base@
        },
    }
}

/// Resets a codec to the start of a buffer of `max_size` usable bytes.
pub fn CF_CFDP_CodecReset(state: &mut CodecState, max_size: usize)
    ensures
        *final(state) == (CodecState { is_valid: true, next_offset: 0, max_size }),
{
    state.is_valid = true;
    state.next_offset = 0;
    state.max_size = max_size;
}

/// Whether no request has failed yet.
pub fn cf_codec_is_ok(state: &CodecState) -> (r: bool)
    ensures
        r == state.is_valid,
{
    state.is_valid
}

/// The number of bytes consumed or produced so far.
pub fn cf_codec_get_position(state: &CodecState) -> (r: usize)
    ensures
        r == state.next_offset,
{
    state.next_offset
}

/// The number of bytes still available.
pub fn cf_codec_get_remain(state: &CodecState) -> (r: usize)
    requires
        state.next_offset <= state.max_size,
    ensures
        r == state.max_size - state.next_offset,
{
    state.max_size - state.next_offset
}

/// The total number of usable bytes.
pub fn cf_codec_get_size(state: &CodecState) -> (r: usize)
    ensures
        r == state.max_size,
{
    state.max_size
}

/// Marks the codec done: every later request fails.
pub fn cf_codec_set_done(state: &mut CodecState)
    ensures
        *final(state) == (CodecState { is_valid: false, ..*old(state) }),
{
    state.is_valid = false;
}

/// Reserves `n` bytes at the cursor; returns where they start, or `None` (and marks the
/// codec done) when they do not fit.
pub fn CF_CFDP_CodecCheckSize(state: &mut CodecState, n: usize) -> (r: Option<usize>)
    requires
        old(state).next_offset <= old(state).max_size,
    ensures
        *final(state) == codec_advance(*old(state), n as int),
        r == (if codec_fits(*old(state), n as int) {
            Some(old(state).next_offset)
        } else {
            None::<usize>
        }),
{
    if state.is_valid && n <= state.max_size - state.next_offset {
        let at = state.next_offset;
        state.next_offset = state.next_offset + n;
        Some(at)
    } else {
        state.is_valid = false;
        None
    }
}

/// Writes `bytes` at the cursor in one request (see `put_result`).
pub fn cf_encode_put(state: &mut EncoderState, bytes: &Vec<u8>)
    requires
        old(state).wf(),
    ensures
        final(state).wf(),
        put_result(*old(state), *final(state), Some(bytes@)),
{
    let ghost old_base = state.base@;
    let ghost old_codec = state.codec_state;
    match CF_CFDP_CodecCheckSize(&mut state.codec_state, bytes.len()) {
        Some(at) => {
            let mut i: usize = 0;
            while i < bytes.len()
                invariant
                    0 <= i <= bytes.len(),
                    at + bytes.len() <= state.codec_state.max_size,
                    state.codec_state.max_size <= old_base.len(),
                    state.base@.len() == old_base.len(),
                    state.codec_state == codec_advance(old_codec, bytes.len() as int),
                    at == old_codec.next_offset,
                    codec_fits(old_codec, bytes.len() as int),
                    state.base@ == splice(old_base, at as int, bytes@.subrange(0, i as int)),
                decreases bytes.len() - i,
            {
                state.base.set(at + i, bytes[i]);
                i = i + 1;
                assert(state.base@ =~= splice(old_base, at as int, bytes@.subrange(0, i as int)));
            }
            assert(bytes@.subrange(0, bytes.len() as int) =~= bytes@);
        },
        None => {},
    }
}

/// Marks the encoder done without writing: used for fields that cannot be encoded.
fn cf_encode_fail(state: &mut EncoderState)
    requires
        old(state).wf(),
    ensures
        final(state).wf(),
        put_result(*old(state), *final(state), None),
{
    state.codec_state.is_valid = false;
}

/// Reads `n` bytes at the cursor in one request; `None` (and the decoder marked done)
/// when they are not there.
pub fn cf_decode_take(state: &mut DecoderState, n: usize) -> (r: Option<Vec<u8>>)
    requires
        old(state).wf(),
    ensures
        final(state).wf(),
        final(state).base@ == old(state).base@,
        final(state).codec_state == codec_advance(old(state).codec_state, n as int),
        r is Some <==> codec_fits(old(state).codec_state, n as int),
        r is Some ==> r->0@ == old(state).remaining().subrange(0, n as int),
{
    match CF_CFDP_CodecCheckSize(&mut state.codec_state, n) {
        Some(at) => {
            let mut out: Vec<u8> = Vec::new();
            let mut i: usize = 0;
            while i < n
                invariant
                    0 <= i <= n,
                    at + n <= state.codec_state.max_size,
                    state.codec_state.max_size <= state.base@.len(),
                    out@ == state.base@.subrange(at as int, at + i),
                decreases n - i,
            {
                out.push(state.base[at + i]);
                i = i + 1;
                assert(out@ =~= state.base@.subrange(at as int, at + i));
            }
            Some(out)
        },
        None => None,
    }
}

/// The `n`-byte big-endian representation of `v` (taken modulo 256^n).
pub open spec fn be_bytes(v: nat, n: nat) -> Seq<u8>
    decreases n,
{
    if n == 0 {
        Seq::empty()
    } else {
        be_bytes(v / 256, (n - 1) as nat).push((v % 256) as u8)
    }
}

/// The number that the big-endian bytes `s` stand for.
pub open spec fn be_value(s: Seq<u8>) -> nat
    decreases s.len(),
{
    if s.len() == 0 {
        0
    } else {
        be_value(s.drop_last()) * 256 + s.last() as nat
    }
}

/// What a 64-bit accumulator holds after reading the big-endian bytes `s`.
pub open spec fn be_value_u64(s: Seq<u8>) -> u64 {
    (be_value(s) % 0x1_0000_0000_0000_0000) as u64
}

/// The bytes of `value` in `size` big-endian bytes.
pub fn cf_be_bytes(value: u64, size: u8) -> (out: Vec<u8>)
    ensures
        out@ == be_bytes(value as nat, size as nat),
{
    let mut out: Vec<u8> = Vec::new();
    let mut i: u8 = 0;
    while i < size
        invariant
            i <= size,
            out@.len() == i,
        decreases size - i,
    {
        out.push(0);
        i = i + 1;
    }
    let mut v: u64 = value;
    let mut k: u8 = size;
    while k > 0
        invariant
            k <= size,
            out@.len() == size,
            be_bytes(value as nat, size as nat) == be_bytes(v as nat, k as nat) + out@.subrange(
                k as int,
                size as int,
            ),
        decreases k,
    {
        let ghost before = out@;
        let ghost vk = v;
        k = k - 1;
        out.set(k as usize, (v % 256) as u8);
        v = v / 256;
        assert(out@.subrange(k as int, size as int) =~= seq![(vk % 256) as u8] + before.subrange(
            k + 1,
            size as int,
        ));
        assert(be_bytes(vk as nat, (k + 1) as nat) == be_bytes(v as nat, k as nat).push(
            (vk % 256) as u8,
        ));
        assert(be_bytes(v as nat, k as nat).push((vk % 256) as u8) + before.subrange(
            k + 1,
            size as int,
        ) =~= be_bytes(v as nat, k as nat) + out@.subrange(k as int, size as int));
    }
    assert(out@.subrange(0, size as int) =~= out@);
    out
}

pub(crate) proof fn lemma_be_value_step(s: Seq<u8>, b: u8)
    ensures
        be_value(s.push(b)) == be_value(s) * 256 + b,
        be_value_u64(s.push(b)) == ((be_value_u64(s) as int * 256 + b) % 0x1_0000_0000_0000_0000)
            as u64,
{
    assert(s.push(b).drop_last() =~= s);
    let m: int = 0x1_0000_0000_0000_0000;
    let x = be_value(s) as int;
    vstd::arithmetic::div_mod::lemma_mul_mod_noop_left(x, 256, m);
    vstd::arithmetic::div_mod::lemma_add_mod_noop(x * 256, b as int, m);
    vstd::arithmetic::div_mod::lemma_add_mod_noop((x % m) * 256, b as int, m);
    vstd::arithmetic::div_mod::lemma_mod_bound(x, m);
    vstd::arithmetic::div_mod::lemma_small_mod(b as nat, m as nat);
    vstd::arithmetic::div_mod::lemma_mod_bound((x % m) * 256, m);
    vstd::arithmetic::div_mod::lemma_mod_bound(x * 256, m);
}

/// The number that the big-endian bytes `s` stand for, kept to 64 bits.
pub fn cf_be_value(s: &Vec<u8>) -> (v: u64)
    ensures
        v == be_value_u64(s@),
{
    let mut v: u64 = 0;
    let mut i: usize = 0;
    while i < s.len()
        invariant
            i <= s.len(),
            v == be_value_u64(s@.subrange(0, i as int)),
        decreases s.len() - i,
    {
        proof {
            lemma_be_value_step(s@.subrange(0, i as int), s@[i as int]);
            assert(s@.subrange(0, i as int).push(s@[i as int]) =~= s@.subrange(0, i + 1));
        }
        v = v.wrapping_mul(256).wrapping_add(s[i] as u64);
        i = i + 1;
    }
    assert(s@.subrange(0, s.len() as int) =~= s@);
    v
}

/// The number of bytes used to encode a value in this implementation.
pub fn CF_CFDP_GetValueEncodedSize(_value: u64) -> (r: u8)
    ensures
        r == 1,
{
    1
}

/// Writes `value` as `encode_size` big-endian bytes.
pub fn CF_EncodeIntegerInSize(state: &mut EncoderState, value: u64, encode_size: u8)
    requires
        old(state).wf(),
    ensures
        final(state).wf(),
        put_result(*old(state), *final(state), Some(be_bytes(value as nat, encode_size as nat))),
{
    let bytes = cf_be_bytes(value, encode_size);
    cf_encode_put(state, &bytes);
}

/// Reads `decode_size` big-endian bytes as an integer (kept to 64 bits); 0 when the bytes
/// are not there, in which case the decoder is marked done.
pub fn CF_DecodeIntegerInSize(state: &mut DecoderState, decode_size: u8) -> (v: u64)
    requires
        old(state).wf(),
    ensures
        final(state).wf(),
        final(state).base@ == old(state).base@,
        final(state).codec_state == codec_advance(old(state).codec_state, decode_size as int),
        v == (if codec_fits(old(state).codec_state, decode_size as int) {
            be_value_u64(old(state).remaining().subrange(0, decode_size as int))
        } else {
            0
        }),
{
    match cf_decode_take(state, decode_size as usize) {
        Some(bytes) => cf_be_value(&bytes),
        None => 0,
    }
}

/// Type code of a TLV that carries an entity id.
pub const CF_CFDP_TLV_TYPE_ENTITY_ID: u8 = 6;
/// Directive code of a NAK PDU.
pub const CF_CFDP_FileDirective_NAK: u8 = 8;
/// Capacity of a TLV list.
pub const CF_PDU_MAX_TLV: u8 = 10;
/// Capacity of a segment list.
pub const CF_PDU_MAX_SEGMENTS: u8 = 10;
/// Size in bytes of an entity id in this implementation.
pub const CF_ENTITY_ID_SIZE: u8 = 4;
/// Size in bytes of a transaction sequence number in this implementation.
pub const CF_TRANSACTION_SEQ_SIZE: u8 = 4;
/// Size in bytes of the fixed part of the PDU header.
pub const CF_CFDP_PDU_HEADER_SIZE: usize = 4;

/// The fields of a PDU header.
#[derive(Clone, Copy, Debug, PartialEq, Eq, Default)]
pub struct LogicalPduHeader {
    pub version: u8,
    pub direction: u8,
    pub pdu_type: u8,
    pub txm_mode: u8,
    pub txn_seq_length: u8,
    pub eid_length: u8,
    pub source_eid: u64,
    pub sequence_num: u64,
    pub destination_eid: u64,
    pub data_encoded_length: u16,
    pub header_encoded_length: usize,
}

/// The directive code that starts a file directive PDU.
#[derive(Clone, Copy, Debug, PartialEq, Eq, Default)]
pub struct LogicalPduFileDirectiveHeader {
    pub directive_code: u8,
}

/// A length-value field; `data` holds at least `length` bytes when it is there.
#[derive(Clone, Debug, PartialEq, Eq)]
pub struct LogicalLv {
    pub length: u8,
    pub data_ptr: Option<Vec<u8>>,
}

/// The value of a TLV: an entity id for `CF_CFDP_TLV_TYPE_ENTITY_ID`, raw bytes otherwise.
#[derive(Clone, Debug, PartialEq, Eq)]
pub struct TlvData {
    pub eid: u64,
    pub data_ptr: Option<Vec<u8>>,
}

/// A type-length-value field.
#[derive(Clone, Debug, PartialEq, Eq)]
pub struct LogicalTlv {
    pub type_: u8,
    pub length: u8,
    pub data: TlvData,
}

/// A range of file offsets that a receiver asks for again.
#[derive(Clone, Copy, Debug, PartialEq, Eq, Default)]
pub struct LogicalSegmentRequest {
    pub offset_start: u32,
    pub offset_end: u32,
}

/// The first `num_tlv` entries of `tlv` are in use.
#[derive(Clone, Debug, PartialEq, Eq)]
pub struct LogicalTlvList {
    pub num_tlv: u8,
    pub tlv: Vec<LogicalTlv>,
}

/// The first `num_segments` entries of `segments` are in use.
#[derive(Clone, Debug, PartialEq, Eq)]
pub struct LogicalSegmentList {
    pub num_segments: u8,
    pub segments: Vec<LogicalSegmentRequest>,
}

/// Metadata PDU.
#[derive(Clone, Debug, PartialEq, Eq)]
pub struct LogicalPduMd {
    pub size: u32,
    pub source_filename: LogicalLv,
    pub dest_filename: LogicalLv,
}

/// Header of a file data PDU.
#[derive(Clone, Debug, PartialEq, Eq)]
pub struct LogicalPduFileDataHeader {
    pub offset: u32,
    pub data_len: usize,
    pub data_ptr: Option<Vec<u8>>,
    pub continuation_state: u8,
    pub segment_list: LogicalSegmentList,
}

/// End-of-file PDU.
#[derive(Clone, Debug, PartialEq, Eq)]
pub struct LogicalPduEof {
    pub crc: u32,
    pub size: u32,
    pub cc: u8,
    pub tlv_list: LogicalTlvList,
}

/// Finished PDU.
#[derive(Clone, Copy, Debug, PartialEq, Eq, Default)]
pub struct LogicalPduFin {
    pub cc: u8,
    pub delivery_code: u8,
    pub file_status: u8,
}

/// Acknowledgment PDU.
#[derive(Clone, Copy, Debug, PartialEq, Eq, Default)]
pub struct LogicalPduAck {
    pub ack_directive_code: u8,
    pub ack_subtype_code: u8,
    pub cc: u8,
    pub txn_status: u8,
}

/// Negative acknowledgment PDU.
#[derive(Clone, Debug, PartialEq, Eq)]
pub struct LogicalPduNak {
    pub scope_start: u32,
    pub scope_end: u32,
    pub segment_list: LogicalSegmentList,
}

impl LogicalTlvList {
    pub open spec fn wf(&self) -> bool {
        self.num_tlv <= self.tlv@.len()
    }

    /// The entries in use.
    pub open spec fn used(&self) -> Seq<LogicalTlv> {
        self.tlv@.subrange(0, self.num_tlv as int)
    }
}

impl LogicalSegmentList {
    pub open spec fn wf(&self) -> bool {
        self.num_segments <= self.segments@.len()
    }

    /// The entries in use.
    pub open spec fn used(&self) -> Seq<LogicalSegmentRequest> {
        self.segments@.subrange(0, self.num_segments as int)
    }
}

/// Both parts present: their concatenation.
pub open spec fn opt_cat(a: Option<Seq<u8>>, b: Option<Seq<u8>>) -> Option<Seq<u8>> {
    match (a, b) {
        (Some(x), Some(y)) => Some(x + y),
        _ => None,
    }
}

/// Appends `w` to `v`.
pub fn cf_bytes_extend(v: &mut Vec<u8>, w: &Vec<u8>)
    ensures
        final(v)@ == old(v)@ + w@,
{
    let ghost v0 = v@;
    let mut i: usize = 0;
    while i < w.len()
        invariant
            i <= w.len(),
            v@ == v0 + w@.subrange(0, i as int),
        decreases w.len() - i,
    {
        v.push(w[i]);
        i = i + 1;
        assert(v@ =~= v0 + w@.subrange(0, i as int));
    }
    assert(w@.subrange(0, w.len() as int) =~= w@);
}

/// First byte of the PDU header: version, type, direction and mode bits.
pub open spec fn header_flags(h: LogicalPduHeader) -> u8 {
    (((h.version & 7) << 5u8) | ((h.pdu_type & 1) << 4u8) | ((h.direction & 1) << 3u8) | ((
    h.txm_mode & 1) << 2u8)) as u8
}

/// Fourth byte of the PDU header: entity id and sequence number lengths, each minus one.
pub open spec fn header_lengths(h: LogicalPduHeader) -> u8 {
    (((((h.eid_length as int - 1) % 256) as u8 & 7) << 4u8) | (((h.txn_seq_length as int - 1)
        % 256) as u8 & 7)) as u8
}

/// The PDU header with its data length bytes `len_hi`, `len_lo`.
pub open spec fn header_bytes(h: LogicalPduHeader, len_hi: u8, len_lo: u8) -> Seq<u8> {
    seq![header_flags(h), len_hi, len_lo, header_lengths(h)] + be_bytes(
        h.source_eid as nat,
        h.eid_length as nat,
    ) + be_bytes(h.sequence_num as nat, h.txn_seq_length as nat) + be_bytes(
        h.destination_eid as nat,
        h.eid_length as nat,
    )
}

/// The number of bytes of an encoded PDU header.
pub open spec fn header_size(h: LogicalPduHeader) -> int {
    4 + 2 * h.eid_length + h.txn_seq_length
}

/// Encoding of a length-value field; `None` when the data is missing.
pub open spec fn lv_bytes(lv: LogicalLv) -> Option<Seq<u8>> {
    if lv.length == 0 {
        Some(seq![0u8])
    } else {
        match lv.data_ptr {
            Some(d) => if d@.len() >= lv.length {
                Some(seq![lv.length] + d@.subrange(0, lv.length as int))
            } else {
                None
            },
            None => None,
        }
    }
}

/// Encoding of a TLV field; `None` when its data is missing.
pub open spec fn tlv_bytes(t: LogicalTlv) -> Option<Seq<u8>> {
    if t.type_ == CF_CFDP_TLV_TYPE_ENTITY_ID {
        Some(seq![t.type_, t.length] + be_bytes(t.data.eid as nat, t.length as nat))
    } else if t.length == 0 {
        Some(seq![t.type_, 0u8])
    } else {
        match t.data.data_ptr {
            Some(d) => if d@.len() >= t.length {
                Some(seq![t.type_, t.length] + d@.subrange(0, t.length as int))
            } else {
                None
            },
            None => None,
        }
    }
}

/// Encoding of a sequence of TLV fields, one after the other.
pub open spec fn tlvs_bytes(ts: Seq<LogicalTlv>) -> Option<Seq<u8>>
    decreases ts.len(),
{
    if ts.len() == 0 {
        Some(Seq::empty())
    } else {
        opt_cat(tlvs_bytes(ts.drop_last()), tlv_bytes(ts.last()))
    }
}

/// Encoding of a segment request: start and end offsets, 4 bytes each.
pub open spec fn segment_bytes(s: LogicalSegmentRequest) -> Seq<u8> {
    be_bytes(s.offset_start as nat, 4) + be_bytes(s.offset_end as nat, 4)
}

/// Encoding of a sequence of segment requests, one after the other.
pub open spec fn segments_bytes(ss: Seq<LogicalSegmentRequest>) -> Seq<u8>
    decreases ss.len(),
{
    if ss.len() == 0 {
        Seq::empty()
    } else {
        segments_bytes(ss.drop_last()) + segment_bytes(ss.last())
    }
}

/// Encoding of a metadata PDU body.
pub open spec fn md_bytes(md: LogicalPduMd) -> Option<Seq<u8>> {
    opt_cat(
        opt_cat(Some(seq![0u8] + be_bytes(md.size as nat, 4)), lv_bytes(md.source_filename)),
        lv_bytes(md.dest_filename),
    )
}

/// Optional-fields byte of a file data header: continuation state and segment count.
pub open spec fn fd_meta_byte(fd: LogicalPduFileDataHeader) -> u8 {
    (((fd.continuation_state & 3) << 6u8) | (fd.segment_list.num_segments & 0x3f)) as u8
}

/// Encoding of a file data header.
pub open spec fn fd_header_bytes(fd: LogicalPduFileDataHeader, with_meta: bool) -> Seq<u8> {
    if with_meta {
        seq![fd_meta_byte(fd)] + segments_bytes(fd.segment_list.used()) + be_bytes(
            fd.offset as nat,
            4,
        )
    } else {
        be_bytes(fd.offset as nat, 4)
    }
}

/// Encoding of an end-of-file PDU body.
pub open spec fn eof_bytes(eof: LogicalPduEof) -> Option<Seq<u8>> {
    opt_cat(
        Some(seq![((eof.cc & 0xf) << 4u8) as u8] + be_bytes(eof.crc as nat, 4) + be_bytes(
            eof.size as nat,
            4,
        )),
        tlvs_bytes(eof.tlv_list.used()),
    )
}

/// The flags byte of a finished PDU.
pub open spec fn fin_byte(fin: LogicalPduFin) -> u8 {
    (((fin.cc & 0xf) << 4u8) | ((fin.delivery_code & 1) << 2u8) | (fin.file_status & 3)) as u8
}

/// Encoding of an acknowledgment PDU body.
pub open spec fn ack_bytes(ack: LogicalPduAck) -> Seq<u8> {
    seq![
        (((ack.ack_directive_code & 0xf) << 4u8) | (ack.ack_subtype_code & 0xf)) as u8,
        (((ack.cc & 0xf) << 4u8) | (ack.txn_status & 3)) as u8,
    ]
}

/// Encoding of a negative acknowledgment PDU body.
pub open spec fn nak_bytes(nak: LogicalPduNak) -> Seq<u8> {
    be_bytes(nak.scope_start as nat, 4) + be_bytes(nak.scope_end as nat, 4) + segments_bytes(
        nak.segment_list.used(),
    )
}

/// Writes the PDU header, leaving its two data length bytes as they are: the length
/// is only known once the PDU is complete (see `CF_CFDP_EncodeHeaderFinalSize`).
pub fn CF_CFDP_EncodeHeaderWithoutSize(state: &mut EncoderState, plh: &LogicalPduHeader)
    requires
        old(state).wf(),
    ensures
        final(state).wf(),
        put_result(
            *old(state),
            *final(state),
            Some(
                header_bytes(
                    *plh,
                    old(state).base@[old(state).pos() + 1],
                    old(state).base@[old(state).pos() + 2],
                ),
            ),
        ),
{
    let flags: u8 = ((plh.version & 7) << 5u8) | ((plh.pdu_type & 1) << 4u8) | ((plh.direction
        & 1) << 3u8) | ((plh.txm_mode & 1) << 2u8);
    let lengths: u8 = ((plh.eid_length.wrapping_sub(1) & 7) << 4u8) | (
    plh.txn_seq_length.wrapping_sub(1) & 7);
    let pos = state.codec_state.next_offset;
    let hi: u8 = if state.base.len() > 1 && pos < state.base.len() - 1 { state.base[pos + 1] } else { 0 };
    let lo: u8 = if state.base.len() > 2 && pos < state.base.len() - 2 { state.base[pos + 2] } else { 0 };
    let mut bytes: Vec<u8> = Vec::new();
    bytes.push(flags);
    bytes.push(hi);
    bytes.push(lo);
    bytes.push(lengths);
    let src = cf_be_bytes(plh.source_eid, plh.eid_length);
    let seq = cf_be_bytes(plh.sequence_num, plh.txn_seq_length);
    let dst = cf_be_bytes(plh.destination_eid, plh.eid_length);
    cf_bytes_extend(&mut bytes, &src);
    cf_bytes_extend(&mut bytes, &seq);
    cf_bytes_extend(&mut bytes, &dst);
    proof {
        assert(flags == header_flags(*plh));
        assert(lengths == header_lengths(*plh)) by {
            assert(plh.eid_length.wrapping_sub(1) == ((plh.eid_length as int - 1) % 256) as u8);
        }
    }
    let ghost old_state = *state;
    assert(bytes@ =~= header_bytes(*plh, hi, lo));
    cf_encode_put(state, &bytes);
    proof {
        let want = header_bytes(*plh, old_state.base@[pos + 1], old_state.base@[pos + 2]);
        assert(want.len() == bytes@.len());
        if codec_fits(old_state.codec_state, bytes@.len() as int) {
            assert(bytes@ =~= want);
        }
    }
}

/// The bytes held by an optional buffer.
pub open spec fn opt_view(r: Option<Vec<u8>>) -> Option<Seq<u8>> {
    match r {
        Some(v) => Some(v@),
        None => None,
    }
}

/// Writes `bytes` when they are there, marks the encoder done otherwise.
fn cf_encode_put_opt(state: &mut EncoderState, bytes: Option<Vec<u8>>)
    requires
        old(state).wf(),
    ensures
        final(state).wf(),
        put_result(*old(state), *final(state), opt_view(bytes)),
{
    match bytes {
        Some(b) => cf_encode_put(state, &b),
        None => cf_encode_fail(state),
    }
}

/// Fills in the data length bytes of a PDU header already written at the start of the
/// buffer, then closes the encoder: nothing may follow the final size. The bytes are
/// written only when the encoder is still valid and holds at least a whole fixed header.
pub fn CF_CFDP_EncodeHeaderFinalSize(state: &mut EncoderState, plh: &LogicalPduHeader)
    requires
        old(state).wf(),
    ensures
        final(state).wf(),
        final(state).codec_state == (CodecState { is_valid: false, ..old(state).codec_state }),
        final(state).base@ == (if old(state).codec_state.is_valid && old(state).pos()
            >= CF_CFDP_PDU_HEADER_SIZE {
            old(state).base@.update(1, (plh.data_encoded_length / 256) as u8).update(
                2,
                (plh.data_encoded_length % 256) as u8,
            )
        } else {
            old(state).base@
        }),
{
    if state.codec_state.is_valid && state.codec_state.next_offset >= CF_CFDP_PDU_HEADER_SIZE {
        state.base.set(1, (plh.data_encoded_length / 256) as u8);
        state.base.set(2, (plh.data_encoded_length % 256) as u8);
    }
    state.codec_state.is_valid = false;
}

/// Writes the directive code of a file directive PDU.
pub fn CF_CFDP_EncodeFileDirectiveHeader(
    state: &mut EncoderState,
    pfdir: &LogicalPduFileDirectiveHeader,
)
    requires
        old(state).wf(),
    ensures
        final(state).wf(),
        put_result(*old(state), *final(state), Some(seq![pfdir.directive_code])),
{
    let mut bytes: Vec<u8> = Vec::new();
    bytes.push(pfdir.directive_code);
    assert(bytes@ =~= seq![pfdir.directive_code]);
    cf_encode_put(state, &bytes);
}

/// The first `n` bytes of `d`.
fn cf_bytes_prefix(d: &Vec<u8>, n: usize) -> (out: Vec<u8>)
    requires
        n <= d@.len(),
    ensures
        out@ == d@.subrange(0, n as int),
{
    let mut out: Vec<u8> = Vec::new();
    let mut i: usize = 0;
    while i < n
        invariant
            i <= n,
            n <= d@.len(),
            out@ == d@.subrange(0, i as int),
        decreases n - i,
    {
        out.push(d[i]);
        i = i + 1;
        assert(out@ =~= d@.subrange(0, i as int));
    }
    out
}

/// Encoding of a length-value field.
pub fn cf_lv_bytes(lv: &LogicalLv) -> (r: Option<Vec<u8>>)
    ensures
        opt_view(r) == lv_bytes(*lv),
{
    if lv.length == 0 {
        let mut out: Vec<u8> = Vec::new();
        out.push(0);
        assert(out@ =~= seq![0u8]);
        Some(out)
    } else {
        match &lv.data_ptr {
            Some(d) => {
                if d.len() >= lv.length as usize {
                    let mut out: Vec<u8> = Vec::new();
                    out.push(lv.length);
                    let data = cf_bytes_prefix(d, lv.length as usize);
                    cf_bytes_extend(&mut out, &data);
                    assert(out@ =~= seq![lv.length] + d@.subrange(0, lv.length as int));
                    Some(out)
                } else {
                    None
                }
            },
            None => None,
        }
    }
}

/// Writes a length-value field; fails when its data is missing.
pub fn CF_CFDP_EncodeLV(state: &mut EncoderState, pllv: &LogicalLv)
    requires
        old(state).wf(),
    ensures
        final(state).wf(),
        put_result(*old(state), *final(state), lv_bytes(*pllv)),
{
    let bytes = cf_lv_bytes(pllv);
    cf_encode_put_opt(state, bytes);
}

/// Encoding of a TLV field.
pub fn cf_tlv_bytes(t: &LogicalTlv) -> (r: Option<Vec<u8>>)
    ensures
        opt_view(r) == tlv_bytes(*t),
{
    let mut out: Vec<u8> = Vec::new();
    out.push(t.type_);
    if t.type_ == CF_CFDP_TLV_TYPE_ENTITY_ID {
        out.push(t.length);
        let v = cf_be_bytes(t.data.eid, t.length);
        cf_bytes_extend(&mut out, &v);
        assert(out@ =~= seq![t.type_, t.length] + be_bytes(t.data.eid as nat, t.length as nat));
        Some(out)
    } else if t.length == 0 {
        out.push(0);
        assert(out@ =~= seq![t.type_, 0u8]);
        Some(out)
    } else {
        match &t.data.data_ptr {
            Some(d) => {
                if d.len() >= t.length as usize {
                    out.push(t.length);
                    let data = cf_bytes_prefix(d, t.length as usize);
                    cf_bytes_extend(&mut out, &data);
                    assert(out@ =~= seq![t.type_, t.length] + d@.subrange(0, t.length as int));
                    Some(out)
                } else {
                    None
                }
            },
            None => None,
        }
    }
}

/// Writes a TLV field; fails when its data is missing.
pub fn CF_CFDP_EncodeTLV(state: &mut EncoderState, pltlv: &LogicalTlv)
    requires
        old(state).wf(),
    ensures
        final(state).wf(),
        put_result(*old(state), *final(state), tlv_bytes(*pltlv)),
{
    let bytes = cf_tlv_bytes(pltlv);
    cf_encode_put_opt(state, bytes);
}

/// Encoding of a segment request.
pub fn cf_segment_bytes(seg: &LogicalSegmentRequest) -> (out: Vec<u8>)
    ensures
        out@ == segment_bytes(*seg),
{
    let mut out = cf_be_bytes(seg.offset_start as u64, 4);
    let end = cf_be_bytes(seg.offset_end as u64, 4);
    cf_bytes_extend(&mut out, &end);
    out
}

/// Writes a segment request.
pub fn CF_CFDP_EncodeSegmentRequest(state: &mut EncoderState, plseg: &LogicalSegmentRequest)
    requires
        old(state).wf(),
    ensures
        final(state).wf(),
        put_result(*old(state), *final(state), Some(segment_bytes(*plseg))),
{
    let bytes = cf_segment_bytes(plseg);
    cf_encode_put(state, &bytes);
}

/// Encoding of the TLV fields in use.
pub fn cf_tlvs_bytes(list: &LogicalTlvList) -> (r: Option<Vec<u8>>)
    requires
        list.wf(),
    ensures
        opt_view(r) == tlvs_bytes(list.used()),
{
    let mut out: Vec<u8> = Vec::new();
    let mut i: usize = 0;
    while i < list.num_tlv as usize
        invariant
            list.wf(),
            i <= list.num_tlv,
            tlvs_bytes(list.tlv@.subrange(0, i as int)) == Some(out@),
        decreases list.num_tlv - i,
    {
        let b = cf_tlv_bytes(&list.tlv[i]);
        assert(list.tlv@.subrange(0, i + 1).drop_last() =~= list.tlv@.subrange(0, i as int));
        match b {
            Some(b) => {
                cf_bytes_extend(&mut out, &b);
            },
            None => {
                assert(tlvs_bytes(list.tlv@.subrange(0, i + 1)) is None);
                let mut j: usize = i + 1;
                while j < list.num_tlv as usize
                    invariant
                        list.wf(),
                        i < j <= list.num_tlv,
                        tlvs_bytes(list.tlv@.subrange(0, j as int)) is None,
                    decreases list.num_tlv - j,
                {
                    assert(list.tlv@.subrange(0, j + 1).drop_last() =~= list.tlv@.subrange(
                        0,
                        j as int,
                    ));
                    j = j + 1;
                }
                return None;
            },
        }
        i = i + 1;
    }
    Some(out)
}

/// Writes the TLV fields in use, one after the other; fails when one of them has
/// missing data.
pub fn CF_CFDP_EncodeAllTlv(state: &mut EncoderState, pltlv: &LogicalTlvList)
    requires
        old(state).wf(),
        pltlv.wf(),
    ensures
        final(state).wf(),
        put_result(*old(state), *final(state), tlvs_bytes(pltlv.used())),
{
    let bytes = cf_tlvs_bytes(pltlv);
    cf_encode_put_opt(state, bytes);
}

/// Encoding of the segment requests in use.
pub fn cf_segments_bytes(list: &LogicalSegmentList) -> (out: Vec<u8>)
    requires
        list.wf(),
    ensures
        out@ == segments_bytes(list.used()),
{
    let mut out: Vec<u8> = Vec::new();
    let mut i: usize = 0;
    while i < list.num_segments as usize
        invariant
            list.wf(),
            i <= list.num_segments,
            segments_bytes(list.segments@.subrange(0, i as int)) == out@,
        decreases list.num_segments - i,
    {
        let b = cf_segment_bytes(&list.segments[i]);
        assert(list.segments@.subrange(0, i + 1).drop_last() =~= list.segments@.subrange(
            0,
            i as int,
        ));
        cf_bytes_extend(&mut out, &b);
        i = i + 1;
    }
    out
}

/// Writes the segment requests in use, one after the other.
pub fn CF_CFDP_EncodeAllSegments(state: &mut EncoderState, plseg: &LogicalSegmentList)
    requires
        old(state).wf(),
        plseg.wf(),
    ensures
        final(state).wf(),
        put_result(*old(state), *final(state), Some(segments_bytes(plseg.used()))),
{
    let bytes = cf_segments_bytes(plseg);
    cf_encode_put(state, &bytes);
}

/// Writes a metadata PDU body: a reserved byte, the file size and the two file names.
pub fn CF_CFDP_EncodeMd(state: &mut EncoderState, plmd: &LogicalPduMd)
    requires
        old(state).wf(),
    ensures
        final(state).wf(),
        put_result(*old(state), *final(state), md_bytes(*plmd)),
{
    let mut out: Vec<u8> = Vec::new();
    out.push(0);
    let size = cf_be_bytes(plmd.size as u64, 4);
    cf_bytes_extend(&mut out, &size);
    let src = cf_lv_bytes(&plmd.source_filename);
    let dst = cf_lv_bytes(&plmd.dest_filename);
    match (src, dst) {
        (Some(a), Some(b)) => {
            cf_bytes_extend(&mut out, &a);
            cf_bytes_extend(&mut out, &b);
            assert(out@ =~= seq![0u8] + be_bytes(plmd.size as nat, 4) + a@ + b@);
            cf_encode_put(state, &out);
        },
        _ => cf_encode_fail(state),
    }
}

/// Writes a file data header; with `with_meta`, the segment metadata comes first.
pub fn CF_CFDP_EncodeFileDataHeader(
    state: &mut EncoderState,
    with_meta: bool,
    plfd: &LogicalPduFileDataHeader,
)
    requires
        old(state).wf(),
        plfd.segment_list.wf(),
    ensures
        final(state).wf(),
        put_result(*old(state), *final(state), Some(fd_header_bytes(*plfd, with_meta))),
{
    let mut out: Vec<u8> = Vec::new();
    if with_meta {
        out.push(((plfd.continuation_state & 3) << 6u8) | (plfd.segment_list.num_segments
            & 0x3f));
        let segs = cf_segments_bytes(&plfd.segment_list);
        cf_bytes_extend(&mut out, &segs);
    }
    let off = cf_be_bytes(plfd.offset as u64, 4);
    cf_bytes_extend(&mut out, &off);
    assert(out@ =~= fd_header_bytes(*plfd, with_meta));
    cf_encode_put(state, &out);
}

/// Writes an end-of-file PDU body: condition code, checksum, file size and TLVs.
pub fn CF_CFDP_EncodeEof(state: &mut EncoderState, pleof: &LogicalPduEof)
    requires
        old(state).wf(),
        pleof.tlv_list.wf(),
    ensures
        final(state).wf(),
        put_result(*old(state), *final(state), eof_bytes(*pleof)),
{
    let mut out: Vec<u8> = Vec::new();
    out.push((pleof.cc & 0xf) << 4u8);
    let crc = cf_be_bytes(pleof.crc as u64, 4);
    let size = cf_be_bytes(pleof.size as u64, 4);
    cf_bytes_extend(&mut out, &crc);
    cf_bytes_extend(&mut out, &size);
    match cf_tlvs_bytes(&pleof.tlv_list) {
        Some(t) => {
            cf_bytes_extend(&mut out, &t);
            assert(out@ =~= seq![((pleof.cc & 0xf) << 4u8) as u8] + be_bytes(pleof.crc as nat, 4)
                + be_bytes(pleof.size as nat, 4) + t@);
            cf_encode_put(state, &out);
        },
        None => cf_encode_fail(state),
    }
}

/// Writes a finished PDU body.
pub fn CF_CFDP_EncodeFin(state: &mut EncoderState, plfin: &LogicalPduFin)
    requires
        old(state).wf(),
    ensures
        final(state).wf(),
        put_result(*old(state), *final(state), Some(seq![fin_byte(*plfin)])),
{
    let mut out: Vec<u8> = Vec::new();
    out.push(((plfin.cc & 0xf) << 4u8) | ((plfin.delivery_code & 1) << 2u8) | (plfin.file_status
        & 3));
    assert(out@ =~= seq![fin_byte(*plfin)]);
    cf_encode_put(state, &out);
}

/// Writes an acknowledgment PDU body.
pub fn CF_CFDP_EncodeAck(state: &mut EncoderState, plack: &LogicalPduAck)
    requires
        old(state).wf(),
    ensures
        final(state).wf(),
        put_result(*old(state), *final(state), Some(ack_bytes(*plack))),
{
    let mut out: Vec<u8> = Vec::new();
    out.push(((plack.ack_directive_code & 0xf) << 4u8) | (plack.ack_subtype_code & 0xf));
    out.push(((plack.cc & 0xf) << 4u8) | (plack.txn_status & 3));
    assert(out@ =~= ack_bytes(*plack));
    cf_encode_put(state, &out);
}

/// Writes a negative acknowledgment PDU body: scope and segment requests.
pub fn CF_CFDP_EncodeNak(state: &mut EncoderState, plnak: &LogicalPduNak)
    requires
        old(state).wf(),
        plnak.segment_list.wf(),
    ensures
        final(state).wf(),
        put_result(*old(state), *final(state), Some(nak_bytes(*plnak))),
{
    let mut out = cf_be_bytes(plnak.scope_start as u64, 4);
    let end = cf_be_bytes(plnak.scope_end as u64, 4);
    let segs = cf_segments_bytes(&plnak.segment_list);
    cf_bytes_extend(&mut out, &end);
    cf_bytes_extend(&mut out, &segs);
    cf_encode_put(state, &out);
}

/// Writes a file checksum.
pub fn CF_CFDP_EncodeCrc(state: &mut EncoderState, pcrc: &u32)
    requires
        old(state).wf(),
    ensures
        final(state).wf(),
        put_result(*old(state), *final(state), Some(be_bytes(*pcrc as nat, 4))),
{
    let out = cf_be_bytes(*pcrc as u64, 4);
    cf_encode_put(state, &out);
}

/// The content of a length-value field.
pub struct LvModel {
    pub length: u8,
    pub data: Option<Seq<u8>>,
}

/// The content of a TLV field.
pub struct TlvModel {
    pub type_: u8,
    pub length: u8,
    pub eid: u64,
    pub data: Option<Seq<u8>>,
}

impl View for LogicalLv {
    type V = LvModel;

    open spec fn view(&self) -> LvModel {
        LvModel { length: self.length, data: opt_view(self.data_ptr) }
    }
}

impl View for LogicalTlv {
    type V = TlvModel;

    open spec fn view(&self) -> TlvModel {
        TlvModel {
            type_: self.type_,
            length: self.length,
            eid: self.data.eid,
            data: opt_view(self.data.data_ptr),
        }
    }
}

/// The outcome of a decoding request that needs `n` bytes (`None`: the bytes do not form
/// a valid field): the cursor moves past them, or the decoder is marked done and the
/// cursor stays.
pub open spec fn take_result(old: DecoderState, new: DecoderState, n: Option<nat>) -> bool {
    &&& new.base@ == old.base@
    &&& match n {
        Some(k) => new.codec_state == codec_advance(old.codec_state, k as int),
        None => new.codec_state == CodecState { is_valid: false, ..old.codec_state },
    }
}

/// The second element of a parse result.
pub open spec fn parsed_len<T>(p: Option<(T, nat)>) -> Option<nat> {
    match p {
        Some((_, n)) => Some(n),
        None => None,
    }
}

/// The first element of a parse result.
pub open spec fn parsed_value<T>(p: Option<(T, nat)>) -> T {
    match p {
        Some((v, _)) => v,
        None => arbitrary(),
    }
}

/// A decoding request succeeds: the decoder is valid and the field is there.
pub open spec fn parse_ok<T>(old: DecoderState, p: Option<(T, nat)>) -> bool {
    old.codec_state.is_valid && p is Some
}

/// A length-value field at the start of `r`, and its size.
pub open spec fn parse_lv(r: Seq<u8>) -> Option<(LvModel, nat)> {
    if r.len() >= 1 && r.len() >= 1 + r[0] {
        Some((LvModel { length: r[0], data: Some(r.subrange(1, 1 + r[0])) }, (1 + r[0]) as nat))
    } else {
        None
    }
}

/// A TLV field at the start of `r`, and its size.
pub open spec fn parse_tlv(r: Seq<u8>) -> Option<(TlvModel, nat)> {
    if r.len() >= 2 && r.len() >= 2 + r[1] {
        let body = r.subrange(2, 2 + r[1]);
        if r[0] == CF_CFDP_TLV_TYPE_ENTITY_ID {
            Some(
                (
                    TlvModel { type_: r[0], length: r[1], eid: be_value_u64(body), data: None },
                    (2 + r[1]) as nat,
                ),
            )
        } else {
            Some((TlvModel { type_: r[0], length: r[1], eid: 0, data: Some(body) }, (2 + r[1]) as nat))
        }
    } else {
        None
    }
}

/// A segment request at the start of `r`.
pub open spec fn parse_segment(r: Seq<u8>) -> Option<(LogicalSegmentRequest, nat)> {
    if r.len() >= 8 {
        Some(
            (
                LogicalSegmentRequest {
                    offset_start: be_value(r.subrange(0, 4)) as u32,
                    offset_end: be_value(r.subrange(4, 8)) as u32,
                },
                8,
            ),
        )
    } else {
        None
    }
}

/// TLV fields at the start of `r`: at most `limit` of them, up to the end of `r`, with
/// `count` already read; more than `CF_PDU_MAX_TLV` in all is an error.
pub open spec fn parse_tlvs(r: Seq<u8>, limit: nat, count: nat) -> Option<(Seq<TlvModel>, nat)>
    decreases limit,
{
    if limit == 0 || r.len() == 0 {
        Some((Seq::empty(), 0))
    } else if count >= CF_PDU_MAX_TLV {
        None
    } else {
        match parse_tlv(r) {
            None => None,
            Some((t, n)) => match parse_tlvs(r.skip(n as int), (limit - 1) as nat, count + 1) {
                None => None,
                Some((ts, m)) => Some((seq![t] + ts, n + m)),
            },
        }
    }
}

/// Segment requests at the start of `r`, as `parse_tlvs` reads TLV fields.
pub open spec fn parse_segments(r: Seq<u8>, limit: nat, count: nat) -> Option<
    (Seq<LogicalSegmentRequest>, nat),
>
    decreases limit,
{
    if limit == 0 || r.len() == 0 {
        Some((Seq::empty(), 0))
    } else if count >= CF_PDU_MAX_SEGMENTS {
        None
    } else {
        match parse_segment(r) {
            None => None,
            Some((t, n)) => match parse_segments(r.skip(n as int), (limit - 1) as nat, count + 1) {
                None => None,
                Some((ts, m)) => Some((seq![t] + ts, n + m)),
            },
        }
    }
}

/// The TLV list holding `ts` in its first entries; the other entries stay.
pub open spec fn tlv_list_holds(new: LogicalTlvList, old: LogicalTlvList, ts: Seq<TlvModel>) -> bool {
    &&& new.num_tlv == ts.len()
    &&& new.tlv@.len() == old.tlv@.len()
    &&& forall|i: int| 0 <= i < ts.len() ==> #[trigger] new.tlv@[i]@ == ts[i]
    &&& forall|i: int| ts.len() <= i < old.tlv@.len() ==> #[trigger] new.tlv@[i] == old.tlv@[i]
}

/// The segment list holding `ss` in its first entries; the other entries stay.
pub open spec fn segment_list_holds(
    new: LogicalSegmentList,
    old: LogicalSegmentList,
    ss: Seq<LogicalSegmentRequest>,
) -> bool {
    &&& new.num_segments == ss.len()
    &&& new.segments@ == ss + old.segments@.skip(ss.len() as int)
}

/// The byte at `at`.
fn cf_byte_at(base: &Vec<u8>, at: usize) -> (b: u8)
    requires
        at < base@.len(),
    ensures
        b == base@[at as int],
{
    base[at]
}

/// The bytes `base[at .. at + n]`.
fn cf_bytes_range(base: &Vec<u8>, at: usize, n: usize) -> (out: Vec<u8>)
    requires
        at + n <= base@.len(),
    ensures
        out@ == base@.subrange(at as int, at + n),
{
    let mut out: Vec<u8> = Vec::new();
    let mut i: usize = 0;
    while i < n
        invariant
            i <= n,
            at + n <= base.len(),
            out@ == base@.subrange(at as int, at + i),
        decreases n - i,
    {
        out.push(base[at + i]);
        i = i + 1;
        assert(out@ =~= base@.subrange(at as int, at + i));
    }
    out
}

/// A length-value field in `base[start .. end]`.
fn cf_parse_lv(base: &Vec<u8>, start: usize, end: usize) -> (r: Option<(LogicalLv, usize)>)
    requires
        start <= end <= base@.len(),
    ensures
        match (r, parse_lv(base@.subrange(start as int, end as int))) {
            (Some((lv, n)), Some((m, k))) => lv@ == m && n == k,
            (None, None) => true,
            _ => false,
        },
{
    let ghost r = base@.subrange(start as int, end as int);
    if start < end {
        let len = cf_byte_at(base, start);
        if len as usize <= end - start - 1 {
            let data = cf_bytes_range(base, start + 1, len as usize);
            assert(data@ =~= r.subrange(1, 1 + r[0]));
            return Some((LogicalLv { length: len, data_ptr: Some(data) }, 1 + len as usize));
        }
    }
    None
}

/// A TLV field in `base[start .. end]`.
fn cf_parse_tlv(base: &Vec<u8>, start: usize, end: usize) -> (r: Option<(LogicalTlv, usize)>)
    requires
        start <= end <= base@.len(),
    ensures
        match (r, parse_tlv(base@.subrange(start as int, end as int))) {
            (Some((t, n)), Some((m, k))) => t@ == m && n == k,
            (None, None) => true,
            _ => false,
        },
{
    let ghost r = base@.subrange(start as int, end as int);
    if end - start >= 2 {
        let ty = cf_byte_at(base, start);
        let len = cf_byte_at(base, start + 1);
        if len as usize <= end - start - 2 {
            let body = cf_bytes_range(base, start + 2, len as usize);
            assert(body@ =~= r.subrange(2, 2 + r[1]));
            if ty == CF_CFDP_TLV_TYPE_ENTITY_ID {
                let eid = cf_be_value(&body);
                return Some(
                    (
                        LogicalTlv { type_: ty, length: len, data: TlvData { eid, data_ptr: None } },
                        2 + len as usize,
                    ),
                );
            } else {
                return Some(
                    (
                        LogicalTlv {
                            type_: ty,
                            length: len,
                            data: TlvData { eid: 0, data_ptr: Some(body) },
                        },
                        2 + len as usize,
                    ),
                );
            }
        }
    }
    None
}

/// A segment request in `base[start .. end]`.
fn cf_parse_segment(base: &Vec<u8>, start: usize, end: usize) -> (r: Option<
    (LogicalSegmentRequest, usize),
>)
    requires
        start <= end <= base@.len(),
    ensures
        match (r, parse_segment(base@.subrange(start as int, end as int))) {
            (Some((t, n)), Some((m, k))) => t == m && n == k,
            (None, None) => true,
            _ => false,
        },
{
    let ghost r = base@.subrange(start as int, end as int);
    if end - start >= 8 {
        let a = cf_bytes_range(base, start, 4);
        let b = cf_bytes_range(base, start + 4, 4);
        assert(a@ =~= r.subrange(0, 4));
        assert(b@ =~= r.subrange(4, 8));
        let va = cf_be_value(&a);
        let vb = cf_be_value(&b);
        proof {
            lemma_be_value_bound(a@);
            lemma_be_value_bound(b@);
        }
        Some((LogicalSegmentRequest { offset_start: va as u32, offset_end: vb as u32 }, 8))
    } else {
        None
    }
}

/// A value of `n` big-endian bytes is below 256^n.
pub proof fn lemma_be_value_bound(s: Seq<u8>)
    ensures
        be_value(s) < vstd::arithmetic::power::pow(256, s.len()),
        s.len() <= 8 ==> be_value_u64(s) == be_value(s),
        s.len() == 4 ==> be_value(s) < 0x1_0000_0000,
    decreases s.len(),
{
    vstd::arithmetic::power::lemma_pow_positive(256, s.len());
    if s.len() > 0 {
        lemma_be_value_bound(s.drop_last());
        vstd::arithmetic::power::lemma_pow_positive(256, (s.len() - 1) as nat);
        vstd::arithmetic::power::lemma_pow_adds(256, (s.len() - 1) as nat, 1);
        vstd::arithmetic::power::lemma_pow1(256);
        let p = vstd::arithmetic::power::pow(256, (s.len() - 1) as nat);
        let x = be_value(s.drop_last()) as int;
        assert(x * 256 + 255 < p * 256) by (nonlinear_arith)
            requires
                x < p,
        ;
    }
    if s.len() <= 8 {
        vstd::arithmetic::power::lemma_pow_increases(256, s.len(), 8);
        assert(vstd::arithmetic::power::pow(256, 8) == 0x1_0000_0000_0000_0000) by {
            reveal_with_fuel(vstd::arithmetic::power::pow, 9);
        }
        vstd::arithmetic::div_mod::lemma_small_mod(be_value(s), 0x1_0000_0000_0000_0000);
    }
    if s.len() == 4 {
        assert(vstd::arithmetic::power::pow(256, 4) == 0x1_0000_0000) by {
            reveal_with_fuel(vstd::arithmetic::power::pow, 5);
        }
    }
}

/// `p` with the items `acc` read before it, and `c` bytes consumed before it.
pub open spec fn lift_run<T>(acc: Seq<T>, c: nat, p: Option<(Seq<T>, nat)>) -> Option<(Seq<T>, nat)> {
    match p {
        None => None,
        Some((ts, m)) => Some((acc + ts, c + m)),
    }
}

/// The views of a sequence of TLV fields.
pub open spec fn tlv_views(ts: Seq<LogicalTlv>) -> Seq<TlvModel> {
    ts.map_values(|t: LogicalTlv| t@)
}

/// TLV fields in `base[start .. end]` (see `parse_tlvs`).
fn cf_parse_tlvs(base: &Vec<u8>, start: usize, end: usize, limit: u8) -> (r: Option<
    (Vec<LogicalTlv>, usize),
>)
    requires
        start <= end <= base@.len(),
    ensures
        match (r, parse_tlvs(base@.subrange(start as int, end as int), limit as nat, 0)) {
            (Some((ts, n)), Some((ms, k))) => tlv_views(ts@) == ms && n == k,
            (None, None) => true,
            _ => false,
        },
{
    let ghost r0 = base@.subrange(start as int, end as int);
    let mut acc: Vec<LogicalTlv> = Vec::new();
    let mut pos: usize = start;
    let mut i: u8 = 0;
    proof {
        assert(r0.skip(0) =~= r0);
        assert(tlv_views(acc@) =~= Seq::<TlvModel>::empty());
        if let Some((ts, m)) = parse_tlvs(r0, limit as nat, 0) {
            assert(Seq::<TlvModel>::empty() + ts =~= ts);
        }
    }
    while i < limit && pos < end
        invariant
            start <= pos <= end <= base@.len(),
            r0.len() == end - start,
            r0 == base@.subrange(start as int, end as int),
            i <= limit,
            acc@.len() == i,
            parse_tlvs(r0, limit as nat, 0) == lift_run(
                tlv_views(acc@),
                (pos - start) as nat,
                parse_tlvs(r0.skip(pos - start), (limit - i) as nat, i as nat),
            ),
        decreases limit - i,
    {
        let ghost rest = r0.skip(pos - start);
        assert(rest =~= base@.subrange(pos as int, end as int));
        if i >= CF_PDU_MAX_TLV {
            return None;
        }
        match cf_parse_tlv(base, pos, end) {
            None => {
                return None;
            },
            Some((t, n)) => {
                let ghost tm = t@;
                proof {
                    assert(rest.skip(n as int) =~= r0.skip(pos + n - start));
                    assert(tlv_views(acc@.push(t)) =~= tlv_views(acc@).push(tm));
                    let inner = parse_tlvs(rest.skip(n as int), (limit - i - 1) as nat, (i + 1) as nat);
                    match inner {
                        Some((ts, m)) => {
                            assert(tlv_views(acc@) + (seq![tm] + ts) =~= tlv_views(acc@).push(tm) + ts);
                        },
                        None => {},
                    }
                }
                acc.push(t);
                pos = pos + n;
                i = i + 1;
            },
        }
    }
    assert(tlv_views(acc@) + Seq::<TlvModel>::empty() =~= tlv_views(acc@));
    Some((acc, pos - start))
}

/// Segment requests in `base[start .. end]` (see `parse_segments`).
fn cf_parse_segments(base: &Vec<u8>, start: usize, end: usize, limit: u8) -> (r: Option<
    (Vec<LogicalSegmentRequest>, usize),
>)
    requires
        start <= end <= base@.len(),
    ensures
        match (r, parse_segments(base@.subrange(start as int, end as int), limit as nat, 0)) {
            (Some((ts, n)), Some((ms, k))) => ts@ == ms && n == k,
            (None, None) => true,
            _ => false,
        },
{
    let ghost r0 = base@.subrange(start as int, end as int);
    let mut acc: Vec<LogicalSegmentRequest> = Vec::new();
    let mut pos: usize = start;
    let mut i: u8 = 0;
    proof {
        assert(r0.skip(0) =~= r0);
        assert(acc@ =~= Seq::<LogicalSegmentRequest>::empty());
        if let Some((ts, m)) = parse_segments(r0, limit as nat, 0) {
            assert(Seq::<LogicalSegmentRequest>::empty() + ts =~= ts);
        }
    }
    while i < limit && pos < end
        invariant
            start <= pos <= end <= base@.len(),
            r0.len() == end - start,
            r0 == base@.subrange(start as int, end as int),
            i <= limit,
            acc@.len() == i,
            parse_segments(r0, limit as nat, 0) == lift_run(
                acc@,
                (pos - start) as nat,
                parse_segments(r0.skip(pos - start), (limit - i) as nat, i as nat),
            ),
        decreases limit - i,
    {
        let ghost rest = r0.skip(pos - start);
        assert(rest =~= base@.subrange(pos as int, end as int));
        if i >= CF_PDU_MAX_SEGMENTS {
            return None;
        }
        match cf_parse_segment(base, pos, end) {
            None => {
                return None;
            },
            Some((t, n)) => {
                proof {
                    assert(rest.skip(n as int) =~= r0.skip(pos + n - start));
                    let inner = parse_segments(rest.skip(n as int), (limit - i - 1) as nat, (i + 1) as nat);
                    match inner {
                        Some((ts, m)) => {
                            assert(acc@ + (seq![t] + ts) =~= acc@.push(t) + ts);
                        },
                        None => {},
                    }
                }
                acc.push(t);
                pos = pos + n;
                i = i + 1;
            },
        }
    }
    assert(acc@ + Seq::<LogicalSegmentRequest>::empty() =~= acc@);
    Some((acc, pos - start))
}

/// Stores decoded TLV fields in the first entries of `list`.
fn cf_store_tlvs(list: &mut LogicalTlvList, ts: Vec<LogicalTlv>)
    requires
        ts@.len() <= old(list).tlv@.len(),
        ts@.len() <= CF_PDU_MAX_TLV,
    ensures
        tlv_list_holds(*final(list), *old(list), tlv_views(ts@)),
{
    let ghost old_list = *list;
    let n = ts.len();
    let mut ts = ts;
    let mut i: usize = n;
    let ghost tv = tlv_views(ts@);
    while i > 0
        invariant
            i <= n,
            n == tv.len(),
            n <= old_list.tlv@.len(),
            ts@.len() == i,
            forall|j: int| 0 <= j < i ==> #[trigger] ts@[j]@ == tv[j],
            list.tlv@.len() == old_list.tlv@.len(),
            forall|j: int| i <= j < n ==> #[trigger] list.tlv@[j]@ == tv[j],
            forall|j: int| n <= j < old_list.tlv@.len() ==> #[trigger] list.tlv@[j] == old_list.tlv@[j],
        decreases i,
    {
        let t = ts.pop().unwrap();
        i = i - 1;
        list.tlv.set(i, t);
    }
    list.num_tlv = n as u8;
}

/// Stores decoded segment requests in the first entries of `list`.
fn cf_store_segments(list: &mut LogicalSegmentList, ss: &Vec<LogicalSegmentRequest>)
    requires
        ss@.len() <= old(list).segments@.len(),
        ss@.len() <= CF_PDU_MAX_SEGMENTS,
    ensures
        segment_list_holds(*final(list), *old(list), ss@),
{
    let ghost old_list = *list;
    let mut i: usize = 0;
    while i < ss.len()
        invariant
            i <= ss@.len(),
            ss@.len() <= old_list.segments@.len(),
            list.segments@ == ss@.subrange(0, i as int) + old_list.segments@.skip(i as int),
        decreases ss.len() - i,
    {
        list.segments.set(i, ss[i]);
        i = i + 1;
        assert(list.segments@ =~= ss@.subrange(0, i as int) + old_list.segments@.skip(i as int));
    }
    assert(ss@.subrange(0, ss@.len() as int) =~= ss@);
    list.num_segments = ss.len() as u8;
}

/// A run of TLV fields is never longer than its limit or `CF_PDU_MAX_TLV`.
proof fn lemma_parse_tlvs_len(r: Seq<u8>, limit: nat, count: nat)
    ensures
        parse_tlvs(r, limit, count) matches Some((ts, n)) ==> n <= r.len() && ts.len() <= limit && count + ts.len()
            <= (if count <= CF_PDU_MAX_TLV { CF_PDU_MAX_TLV as nat } else { count }),
    decreases limit,
{
    if limit > 0 && r.len() > 0 && count < CF_PDU_MAX_TLV {
        if let Some((t, n)) = parse_tlv(r) {
            lemma_parse_tlvs_len(r.skip(n as int), (limit - 1) as nat, count + 1);
        }
    }
}

/// A run of segment requests is never longer than its limit or `CF_PDU_MAX_SEGMENTS`.
proof fn lemma_parse_segments_len(r: Seq<u8>, limit: nat, count: nat)
    ensures
        parse_segments(r, limit, count) matches Some((ts, n)) ==> n <= r.len() && ts.len() <= limit && count
            + ts.len() <= (if count <= CF_PDU_MAX_SEGMENTS {
            CF_PDU_MAX_SEGMENTS as nat
        } else {
            count
        }),
    decreases limit,
{
    if limit > 0 && r.len() > 0 && count < CF_PDU_MAX_SEGMENTS {
        if let Some((t, n)) = parse_segment(r) {
            lemma_parse_segments_len(r.skip(n as int), (limit - 1) as nat, count + 1);
        }
    }
}

/// Reads up to `limit` TLV fields, until the data ends; fails when one of them is
/// truncated or when there are more than `CF_PDU_MAX_TLV`.
pub fn CF_CFDP_DecodeAllTlv(state: &mut DecoderState, pltlv: &mut LogicalTlvList, limit: u8)
    requires
        old(state).wf(),
        old(pltlv).tlv@.len() >= CF_PDU_MAX_TLV,
    ensures
        final(state).wf(),
        take_result(*old(state), *final(state), parsed_len(parse_tlvs(old(state).remaining(), limit as nat, 0))),
        parse_ok(*old(state), parse_tlvs(old(state).remaining(), limit as nat, 0)) ==> tlv_list_holds(
            *final(pltlv),
            *old(pltlv),
            parsed_value(parse_tlvs(old(state).remaining(), limit as nat, 0)),
        ),
        !parse_ok(*old(state), parse_tlvs(old(state).remaining(), limit as nat, 0)) ==> *final(pltlv)
            == *old(pltlv),
{
    if !state.codec_state.is_valid {
        return;
    }
    match cf_parse_tlvs(&state.base, state.codec_state.next_offset, state.codec_state.max_size, limit) {
        Some((ts, n)) => {
            proof {
                lemma_parse_tlvs_len(state.remaining(), limit as nat, 0);
            }
            cf_store_tlvs(pltlv, ts);
            state.codec_state.next_offset = state.codec_state.next_offset + n;
        },
        None => {
            state.codec_state.is_valid = false;
        },
    }
}

/// Reads up to `limit` segment requests, until the data ends; fails when one of them is
/// truncated or when there are more than `CF_PDU_MAX_SEGMENTS`.
pub fn CF_CFDP_DecodeAllSegments(
    state: &mut DecoderState,
    plseg: &mut LogicalSegmentList,
    limit: u8,
)
    requires
        old(state).wf(),
        old(plseg).segments@.len() >= CF_PDU_MAX_SEGMENTS,
    ensures
        final(state).wf(),
        take_result(*old(state), *final(state), parsed_len(parse_segments(old(state).remaining(), limit as nat, 0))),
        parse_ok(*old(state), parse_segments(old(state).remaining(), limit as nat, 0)) ==> segment_list_holds(
            *final(plseg),
            *old(plseg),
            parsed_value(parse_segments(old(state).remaining(), limit as nat, 0)),
        ),
        !parse_ok(*old(state), parse_segments(old(state).remaining(), limit as nat, 0)) ==> *final(plseg)
            == *old(plseg),
{
    if !state.codec_state.is_valid {
        return;
    }
    match cf_parse_segments(&state.base, state.codec_state.next_offset, state.codec_state.max_size, limit) {
        Some((ss, n)) => {
            proof {
                lemma_parse_segments_len(state.remaining(), limit as nat, 0);
            }
            cf_store_segments(plseg, &ss);
            state.codec_state.next_offset = state.codec_state.next_offset + n;
        },
        None => {
            state.codec_state.is_valid = false;
        },
    }
}

/// Reads a length-value field; fails when it is truncated.
pub fn CF_CFDP_DecodeLV(state: &mut DecoderState, pllv: &mut LogicalLv)
    requires
        old(state).wf(),
    ensures
        final(state).wf(),
        take_result(*old(state), *final(state), parsed_len(parse_lv(old(state).remaining()))),
        parse_ok(*old(state), parse_lv(old(state).remaining())) ==> final(pllv)@ == parsed_value(parse_lv(
            old(state).remaining(),
        )),
        !parse_ok(*old(state), parse_lv(old(state).remaining())) ==> *final(pllv) == *old(pllv),
{
    if !state.codec_state.is_valid {
        return;
    }
    match cf_parse_lv(&state.base, state.codec_state.next_offset, state.codec_state.max_size) {
        Some((lv, n)) => {
            *pllv = lv;
            state.codec_state.next_offset = state.codec_state.next_offset + n;
        },
        None => {
            state.codec_state.is_valid = false;
        },
    }
}

/// Reads a TLV field; fails when it is truncated.
pub fn CF_CFDP_DecodeTLV(state: &mut DecoderState, pltlv: &mut LogicalTlv)
    requires
        old(state).wf(),
    ensures
        final(state).wf(),
        take_result(*old(state), *final(state), parsed_len(parse_tlv(old(state).remaining()))),
        parse_ok(*old(state), parse_tlv(old(state).remaining())) ==> final(pltlv)@ == parsed_value(parse_tlv(
            old(state).remaining(),
        )),
        !parse_ok(*old(state), parse_tlv(old(state).remaining())) ==> *final(pltlv) == *old(pltlv),
{
    if !state.codec_state.is_valid {
        return;
    }
    match cf_parse_tlv(&state.base, state.codec_state.next_offset, state.codec_state.max_size) {
        Some((t, n)) => {
            *pltlv = t;
            state.codec_state.next_offset = state.codec_state.next_offset + n;
        },
        None => {
            state.codec_state.is_valid = false;
        },
    }
}

/// Reads a segment request; fails when it is truncated.
pub fn CF_CFDP_DecodeSegmentRequest(state: &mut DecoderState, plseg: &mut LogicalSegmentRequest)
    requires
        old(state).wf(),
    ensures
        final(state).wf(),
        take_result(*old(state), *final(state), parsed_len(parse_segment(old(state).remaining()))),
        parse_ok(*old(state), parse_segment(old(state).remaining())) ==> *final(plseg)
            == parsed_value(parse_segment(old(state).remaining())),
        !parse_ok(*old(state), parse_segment(old(state).remaining())) ==> *final(plseg) == *old(
            plseg,
        ),
{
    if !state.codec_state.is_valid {
        return;
    }
    match cf_parse_segment(&state.base, state.codec_state.next_offset, state.codec_state.max_size) {
        Some((t, n)) => {
            *plseg = t;
            state.codec_state.next_offset = state.codec_state.next_offset + n;
        },
        None => {
            state.codec_state.is_valid = false;
        },
    }
}

/// The header `h` with the fields of the fixed part `r[0..4]` read in.
pub open spec fn header_fixed(h: LogicalPduHeader, r: Seq<u8>) -> LogicalPduHeader {
    LogicalPduHeader {
        version: (r[0] >> 5u8) & 7,
        pdu_type: (r[0] >> 4u8) & 1,
        direction: (r[0] >> 3u8) & 1,
        txm_mode: (r[0] >> 2u8) & 1,
        eid_length: (((r[3] >> 4u8) & 7) + 1) as u8,
        txn_seq_length: ((r[3] & 7) + 1) as u8,
        data_encoded_length: (r[1] * 256 + r[2]) as u16,
        ..h
    }
}

/// The header `h` with all of `r` read in, the header ending at position `end`.
pub open spec fn header_full(h: LogicalPduHeader, r: Seq<u8>, end: int) -> LogicalPduHeader {
    let f = header_fixed(h, r);
    let e = f.eid_length as int;
    let t = f.txn_seq_length as int;
    LogicalPduHeader {
        source_eid: be_value_u64(r.subrange(4, 4 + e)),
        sequence_num: be_value_u64(r.subrange(4 + e, 4 + e + t)),
        destination_eid: be_value_u64(r.subrange(4 + e + t, 4 + 2 * e + t)),
        header_encoded_length: end as usize,
        ..f
    }
}

/// The entity id and sequence number lengths that a fixed header part declares fit the
/// fields of this implementation.
pub open spec fn header_lengths_ok(r: Seq<u8>) -> bool {
    ((r[3] >> 4u8) & 7) + 1 <= CF_ENTITY_ID_SIZE && (r[3] & 7) + 1 <= CF_TRANSACTION_SEQ_SIZE
}

/// The status returned for an unsupported header.
pub const CF_ERROR: i32 = -1;

/// Reads a PDU header. Returns `CF_ERROR` when the entity id or sequence number lengths
/// exceed what this implementation holds (the fixed part is then consumed and its fields
/// read in), 0 otherwise; a truncated header marks the decoder done.
pub fn CF_CFDP_DecodeHeader(state: &mut DecoderState, plh: &mut LogicalPduHeader) -> (ret: i32)
    requires
        old(state).wf(),
    ensures
        final(state).wf(),
        ({
            let r = old(state).remaining();
            if !(old(state).codec_state.is_valid && r.len() >= 4) {
                &&& take_result(*old(state), *final(state), None)
                &&& *final(plh) == *old(plh)
                &&& ret == 0
            } else if !header_lengths_ok(r) {
                &&& take_result(*old(state), *final(state), Some(4))
                &&& *final(plh) == header_fixed(*old(plh), r)
                &&& ret == CF_ERROR
            } else if r.len() < header_size(header_fixed(*old(plh), r)) {
                &&& take_result(*old(state), *final(state), None)
                &&& *final(plh) == *old(plh)
                &&& ret == 0
            } else {
                &&& take_result(
                    *old(state),
                    *final(state),
                    Some(header_size(header_fixed(*old(plh), r)) as nat),
                )
                &&& *final(plh) == header_full(
                    *old(plh),
                    r,
                    old(state).pos() + header_size(header_fixed(*old(plh), r)),
                )
                &&& ret == 0
            }
        }),
{
    let ghost r = state.remaining();
    let pos = state.codec_state.next_offset;
    let end = state.codec_state.max_size;
    if !state.codec_state.is_valid || end - pos < 4 {
        state.codec_state.is_valid = false;
        return 0;
    }
    let b0 = cf_byte_at(&state.base, pos);
    let b1 = cf_byte_at(&state.base, pos + 1);
    let b2 = cf_byte_at(&state.base, pos + 2);
    let b3 = cf_byte_at(&state.base, pos + 3);
    assert(b0 == r[0] && b1 == r[1] && b2 == r[2] && b3 == r[3]);
    assert((b3 >> 4u8) & 7 <= 7) by (bit_vector);
    assert(b3 & 7 <= 7) by (bit_vector);
    let eid_len: u8 = ((b3 >> 4u8) & 7) + 1;
    let seq_len: u8 = (b3 & 7) + 1;
    if eid_len > CF_ENTITY_ID_SIZE || seq_len > CF_TRANSACTION_SEQ_SIZE {
        plh.version = (b0 >> 5u8) & 7;
        plh.pdu_type = (b0 >> 4u8) & 1;
        plh.direction = (b0 >> 3u8) & 1;
        plh.txm_mode = (b0 >> 2u8) & 1;
        plh.eid_length = eid_len;
        plh.txn_seq_length = seq_len;
        plh.data_encoded_length = b1 as u16 * 256 + b2 as u16;
        state.codec_state.next_offset = pos + 4;
        return CF_ERROR;
    }
    let n: usize = 4 + 2 * eid_len as usize + seq_len as usize;
    if end - pos < n {
        state.codec_state.is_valid = false;
        return 0;
    }
    let src = cf_bytes_range(&state.base, pos + 4, eid_len as usize);
    let seq = cf_bytes_range(&state.base, pos + 4 + eid_len as usize, seq_len as usize);
    let dst = cf_bytes_range(&state.base, pos + 4 + eid_len as usize + seq_len as usize, eid_len as usize);
    let ghost e: int = eid_len as int;
    let ghost t: int = seq_len as int;
    assert(src@ =~= r.subrange(4, 4 + e));
    assert(seq@ =~= r.subrange(4 + e, 4 + e + t));
    assert(dst@ =~= r.subrange(4 + e + t, 4 + 2 * e + t));
    plh.version = (b0 >> 5u8) & 7;
    plh.pdu_type = (b0 >> 4u8) & 1;
    plh.direction = (b0 >> 3u8) & 1;
    plh.txm_mode = (b0 >> 2u8) & 1;
    plh.eid_length = eid_len;
    plh.txn_seq_length = seq_len;
    plh.data_encoded_length = b1 as u16 * 256 + b2 as u16;
    plh.source_eid = cf_be_value(&src);
    plh.sequence_num = cf_be_value(&seq);
    plh.destination_eid = cf_be_value(&dst);
    state.codec_state.next_offset = pos + n;
    plh.header_encoded_length = pos + n;
    0
}

/// Reads the directive code of a file directive PDU.
pub fn CF_CFDP_DecodeFileDirectiveHeader(
    state: &mut DecoderState,
    pfdir: &mut LogicalPduFileDirectiveHeader,
)
    requires
        old(state).wf(),
    ensures
        final(state).wf(),
        take_result(*old(state), *final(state), Some(1)),
        codec_fits(old(state).codec_state, 1) ==> final(pfdir).directive_code == old(
            state,
        ).remaining()[0],
        !codec_fits(old(state).codec_state, 1) ==> *final(pfdir) == *old(pfdir),
{
    match cf_decode_take(state, 1) {
        Some(b) => {
            pfdir.directive_code = b[0];
        },
        None => {},
    }
}

/// The content of a metadata PDU.
pub struct MdModel {
    pub size: u32,
    pub source_filename: LvModel,
    pub dest_filename: LvModel,
}

impl View for LogicalPduMd {
    type V = MdModel;

    open spec fn view(&self) -> MdModel {
        MdModel {
            size: self.size,
            source_filename: self.source_filename@,
            dest_filename: self.dest_filename@,
        }
    }
}

/// A metadata PDU body at the start of `r`: reserved byte, file size, source and
/// destination names.
pub open spec fn parse_md(r: Seq<u8>) -> Option<(MdModel, nat)> {
    if r.len() >= 5 {
        match parse_lv(r.skip(5)) {
            None => None,
            Some((a, n1)) => match parse_lv(r.skip(5 + n1 as int)) {
                None => None,
                Some((b, n2)) => Some(
                    (
                        MdModel {
                            size: be_value(r.subrange(1, 5)) as u32,
                            source_filename: a,
                            dest_filename: b,
                        },
                        5 + n1 + n2,
                    ),
                ),
            },
        }
    } else {
        None
    }
}

/// Reads a metadata PDU body; fails when it is truncated.
pub fn CF_CFDP_DecodeMd(state: &mut DecoderState, plmd: &mut LogicalPduMd)
    requires
        old(state).wf(),
    ensures
        final(state).wf(),
        take_result(*old(state), *final(state), parsed_len(parse_md(old(state).remaining()))),
        parse_ok(*old(state), parse_md(old(state).remaining())) ==> final(plmd)@ == parsed_value(
            parse_md(old(state).remaining()),
        ),
        !parse_ok(*old(state), parse_md(old(state).remaining())) ==> *final(plmd) == *old(plmd),
{
    let ghost r = state.remaining();
    let pos = state.codec_state.next_offset;
    let end = state.codec_state.max_size;
    if !state.codec_state.is_valid || end - pos < 5 {
        state.codec_state.is_valid = false;
        return;
    }
    let sz = cf_bytes_range(&state.base, pos + 1, 4);
    assert(sz@ =~= r.subrange(1, 5));
    let size = cf_be_value(&sz);
    proof {
        lemma_be_value_bound(sz@);
    }
    assert(r.skip(5) =~= state.base@.subrange(pos + 5, end as int));
    match cf_parse_lv(&state.base, pos + 5, end) {
        None => {
            state.codec_state.is_valid = false;
        },
        Some((a, n1)) => {
            assert(r.skip(5 + n1) =~= state.base@.subrange(pos + 5 + n1, end as int));
            match cf_parse_lv(&state.base, pos + 5 + n1, end) {
                None => {
                    state.codec_state.is_valid = false;
                },
                Some((b, n2)) => {
                    plmd.size = size as u32;
                    plmd.source_filename = a;
                    plmd.dest_filename = b;
                    state.codec_state.next_offset = pos + 5 + n1 + n2;
                },
            }
        },
    }
}

/// The content of a file data header.
pub struct FdParse {
    pub offset: u32,
    pub continuation_state: u8,
    pub segments: Seq<LogicalSegmentRequest>,
    pub data: Seq<u8>,
}

/// The offset and file data that end a file data header: all of `rest` is consumed.
pub open spec fn parse_fd_rest(rest: Seq<u8>, cont: u8, ss: Seq<LogicalSegmentRequest>, total: nat) -> Option<
    (FdParse, nat),
> {
    if rest.len() >= 4 {
        Some(
            (
                FdParse {
                    offset: be_value(rest.subrange(0, 4)) as u32,
                    continuation_state: cont,
                    segments: ss,
                    data: rest.skip(4),
                },
                total,
            ),
        )
    } else {
        None
    }
}

/// A file data header at the start of `r`, followed by the file data up to the end of `r`.
pub open spec fn parse_fd_header(r: Seq<u8>, with_meta: bool) -> Option<(FdParse, nat)> {
    if with_meta {
        if r.len() < 1 {
            None
        } else if r[0] & 0x3f > CF_PDU_MAX_SEGMENTS {
            None
        } else {
            match parse_segments(r.skip(1), (r[0] & 0x3f) as nat, 0) {
                None => None,
                Some((ss, k)) => parse_fd_rest(r.skip(1 + k as int), (r[0] >> 6u8) & 3, ss, r.len()),
            }
        }
    } else {
        parse_fd_rest(r, 0, Seq::empty(), r.len())
    }
}

/// The file data header `new` holds `p`, the entries of its segment list past those of `p`
/// kept from `old`.
pub open spec fn fd_header_holds(
    new: LogicalPduFileDataHeader,
    old: LogicalPduFileDataHeader,
    p: FdParse,
) -> bool {
    &&& new.offset == p.offset
    &&& new.continuation_state == p.continuation_state
    &&& new.data_len == p.data.len()
    &&& opt_view(new.data_ptr) == Some(p.data)
    &&& segment_list_holds(new.segment_list, old.segment_list, p.segments)
}

/// Reads a file data header and takes the rest of the PDU as file data; with
/// `with_meta`, segment metadata comes first. Fails when the header is truncated or
/// declares more than `CF_PDU_MAX_SEGMENTS` segments.
pub fn CF_CFDP_DecodeFileDataHeader(
    state: &mut DecoderState,
    with_meta: bool,
    plfd: &mut LogicalPduFileDataHeader,
)
    requires
        old(state).wf(),
        old(plfd).segment_list.segments@.len() >= CF_PDU_MAX_SEGMENTS,
    ensures
        final(state).wf(),
        take_result(*old(state), *final(state), parsed_len(parse_fd_header(old(state).remaining(), with_meta))),
        parse_ok(*old(state), parse_fd_header(old(state).remaining(), with_meta)) ==> fd_header_holds(
            *final(plfd),
            *old(plfd),
            parsed_value(parse_fd_header(old(state).remaining(), with_meta)),
        ),
        !parse_ok(*old(state), parse_fd_header(old(state).remaining(), with_meta)) ==> *final(plfd)
            == *old(plfd),
{
    let ghost r = state.remaining();
    let pos = state.codec_state.next_offset;
    let end = state.codec_state.max_size;
    if !state.codec_state.is_valid {
        return;
    }
    let mut at = pos;
    let mut cont: u8 = 0;
    let mut segs: Vec<LogicalSegmentRequest> = Vec::new();
    if with_meta {
        if end - pos < 1 {
            state.codec_state.is_valid = false;
            return;
        }
        let m = cf_byte_at(&state.base, pos);
        assert(m == r[0]);
        let count = m & 0x3f;
        if count > CF_PDU_MAX_SEGMENTS {
            state.codec_state.is_valid = false;
            return;
        }
        assert(r.skip(1) =~= state.base@.subrange(pos + 1, end as int));
        match cf_parse_segments(&state.base, pos + 1, end, count) {
            None => {
                state.codec_state.is_valid = false;
                return;
            },
            Some((ss, k)) => {
                proof {
                    lemma_parse_segments_len(r.skip(1), count as nat, 0);
                }
                segs = ss;
                cont = (m >> 6u8) & 3;
                at = pos + 1 + k;
                assert(r.skip(1 + k) =~= state.base@.subrange(at as int, end as int));
            },
        }
    } else {
        assert(r =~= state.base@.subrange(at as int, end as int));
        assert(segs@ =~= Seq::<LogicalSegmentRequest>::empty());
    }
    if end - at < 4 {
        state.codec_state.is_valid = false;
        return;
    }
    let off = cf_bytes_range(&state.base, at, 4);
    let ghost rest = state.base@.subrange(at as int, end as int);
    assert(off@ =~= rest.subrange(0, 4));
    let offset = cf_be_value(&off);
    proof {
        lemma_be_value_bound(off@);
    }
    let data = cf_bytes_range(&state.base, at + 4, end - at - 4);
    assert(data@ =~= rest.skip(4));
    proof {
        lemma_parse_segments_len(r.skip(1), (r[0] & 0x3f) as nat, 0);
    }
    cf_store_segments(&mut plfd.segment_list, &segs);
    plfd.offset = offset as u32;
    plfd.continuation_state = cont;
    plfd.data_len = end - at - 4;
    plfd.data_ptr = Some(data);
    state.codec_state.next_offset = end;
}


/// The content of an end-of-file PDU.
pub struct EofParse {
    pub cc: u8,
    pub crc: u32,
    pub size: u32,
    pub tlvs: Seq<TlvModel>,
}

/// An end-of-file PDU body at the start of `r`: condition code, checksum, file size, then
/// TLV fields up to the end of `r`.
pub open spec fn parse_eof(r: Seq<u8>) -> Option<(EofParse, nat)> {
    if r.len() >= 9 {
        match parse_tlvs(r.skip(9), CF_PDU_MAX_TLV as nat, 0) {
            None => None,
            Some((ts, k)) => Some(
                (
                    EofParse {
                        cc: (r[0] >> 4u8) & 0xf,
                        crc: be_value(r.subrange(1, 5)) as u32,
                        size: be_value(r.subrange(5, 9)) as u32,
                        tlvs: ts,
                    },
                    9 + k,
                ),
            ),
        }
    } else {
        None
    }
}

/// Reads an end-of-file PDU body; fails when it is truncated or holds too many TLVs.
pub fn CF_CFDP_DecodeEof(state: &mut DecoderState, pleof: &mut LogicalPduEof)
    requires
        old(state).wf(),
        old(pleof).tlv_list.tlv@.len() >= CF_PDU_MAX_TLV,
    ensures
        final(state).wf(),
        take_result(*old(state), *final(state), parsed_len(parse_eof(old(state).remaining()))),
        parse_ok(*old(state), parse_eof(old(state).remaining())) ==> ({
            let p = parsed_value(parse_eof(old(state).remaining()));
            &&& final(pleof).cc == p.cc
            &&& final(pleof).crc == p.crc
            &&& final(pleof).size == p.size
            &&& tlv_list_holds(final(pleof).tlv_list, old(pleof).tlv_list, p.tlvs)
        }),
        !parse_ok(*old(state), parse_eof(old(state).remaining())) ==> *final(pleof) == *old(pleof),
{
    let ghost r = state.remaining();
    let pos = state.codec_state.next_offset;
    let end = state.codec_state.max_size;
    if !state.codec_state.is_valid || end - pos < 9 {
        state.codec_state.is_valid = false;
        return;
    }
    let b0 = cf_byte_at(&state.base, pos);
    let crc = cf_bytes_range(&state.base, pos + 1, 4);
    let size = cf_bytes_range(&state.base, pos + 5, 4);
    assert(b0 == r[0]);
    assert(crc@ =~= r.subrange(1, 5));
    assert(size@ =~= r.subrange(5, 9));
    proof {
        lemma_be_value_bound(crc@);
        lemma_be_value_bound(size@);
    }
    let crc_v = cf_be_value(&crc);
    let size_v = cf_be_value(&size);
    assert(r.skip(9) =~= state.base@.subrange(pos + 9, end as int));
    match cf_parse_tlvs(&state.base, pos + 9, end, CF_PDU_MAX_TLV) {
        None => {
            state.codec_state.is_valid = false;
        },
        Some((ts, k)) => {
            proof {
                lemma_parse_tlvs_len(r.skip(9), CF_PDU_MAX_TLV as nat, 0);
            }
            cf_store_tlvs(&mut pleof.tlv_list, ts);
            pleof.cc = (b0 >> 4u8) & 0xf;
            pleof.crc = crc_v as u32;
            pleof.size = size_v as u32;
            state.codec_state.next_offset = pos + 9 + k;
        },
    }
}

/// Reads a finished PDU body: condition code, delivery code and file status.
pub fn CF_CFDP_DecodeFin(state: &mut DecoderState, plfin: &mut LogicalPduFin)
    requires
        old(state).wf(),
    ensures
        final(state).wf(),
        take_result(*old(state), *final(state), Some(1)),
        codec_fits(old(state).codec_state, 1) ==> {
            let b = old(state).remaining()[0];
            *final(plfin) == LogicalPduFin {
                cc: (b >> 4u8) & 0xf,
                delivery_code: (b >> 2u8) & 1,
                file_status: b & 3,
            }
        },
        !codec_fits(old(state).codec_state, 1) ==> *final(plfin) == *old(plfin),
{
    match cf_decode_take(state, 1) {
        Some(v) => {
            let b = v[0];
            plfin.cc = (b >> 4u8) & 0xf;
            plfin.delivery_code = (b >> 2u8) & 1;
            plfin.file_status = b & 3;
        },
        None => {},
    }
}

/// Reads an acknowledgment PDU body.
pub fn CF_CFDP_DecodeAck(state: &mut DecoderState, plack: &mut LogicalPduAck)
    requires
        old(state).wf(),
    ensures
        final(state).wf(),
        take_result(*old(state), *final(state), Some(2)),
        codec_fits(old(state).codec_state, 2) ==> {
            let b0 = old(state).remaining()[0];
            let b1 = old(state).remaining()[1];
            *final(plack) == LogicalPduAck {
                ack_directive_code: (b0 >> 4u8) & 0xf,
                ack_subtype_code: b0 & 0xf,
                cc: (b1 >> 4u8) & 0xf,
                txn_status: b1 & 3,
            }
        },
        !codec_fits(old(state).codec_state, 2) ==> *final(plack) == *old(plack),
{
    match cf_decode_take(state, 2) {
        Some(v) => {
            let b0 = v[0];
            let b1 = v[1];
            plack.ack_directive_code = (b0 >> 4u8) & 0xf;
            plack.ack_subtype_code = b0 & 0xf;
            plack.cc = (b1 >> 4u8) & 0xf;
            plack.txn_status = b1 & 3;
        },
        None => {},
    }
}

/// The content of a negative acknowledgment PDU.
pub struct NakParse {
    pub scope_start: u32,
    pub scope_end: u32,
    pub segments: Seq<LogicalSegmentRequest>,
}

/// A negative acknowledgment PDU body at the start of `r`: scope, then segment requests
/// up to the end of `r`.
pub open spec fn parse_nak(r: Seq<u8>) -> Option<(NakParse, nat)> {
    if r.len() >= 8 {
        match parse_segments(r.skip(8), CF_PDU_MAX_SEGMENTS as nat, 0) {
            None => None,
            Some((ss, k)) => Some(
                (
                    NakParse {
                        scope_start: be_value(r.subrange(0, 4)) as u32,
                        scope_end: be_value(r.subrange(4, 8)) as u32,
                        segments: ss,
                    },
                    8 + k,
                ),
            ),
        }
    } else {
        None
    }
}

/// Reads a negative acknowledgment PDU body; fails when it is truncated or holds too many
/// segment requests.
pub fn CF_CFDP_DecodeNak(state: &mut DecoderState, plnak: &mut LogicalPduNak)
    requires
        old(state).wf(),
        old(plnak).segment_list.segments@.len() >= CF_PDU_MAX_SEGMENTS,
    ensures
        final(state).wf(),
        take_result(*old(state), *final(state), parsed_len(parse_nak(old(state).remaining()))),
        parse_ok(*old(state), parse_nak(old(state).remaining())) ==> ({
            let p = parsed_value(parse_nak(old(state).remaining()));
            &&& final(plnak).scope_start == p.scope_start
            &&& final(plnak).scope_end == p.scope_end
            &&& segment_list_holds(final(plnak).segment_list, old(plnak).segment_list, p.segments)
        }),
        !parse_ok(*old(state), parse_nak(old(state).remaining())) ==> *final(plnak) == *old(plnak),
{
    let ghost r = state.remaining();
    let pos = state.codec_state.next_offset;
    let end = state.codec_state.max_size;
    if !state.codec_state.is_valid || end - pos < 8 {
        state.codec_state.is_valid = false;
        return;
    }
    let a = cf_bytes_range(&state.base, pos, 4);
    let b = cf_bytes_range(&state.base, pos + 4, 4);
    assert(a@ =~= r.subrange(0, 4));
    assert(b@ =~= r.subrange(4, 8));
    proof {
        lemma_be_value_bound(a@);
        lemma_be_value_bound(b@);
    }
    let start_v = cf_be_value(&a);
    let end_v = cf_be_value(&b);
    assert(r.skip(8) =~= state.base@.subrange(pos + 8, end as int));
    match cf_parse_segments(&state.base, pos + 8, end, CF_PDU_MAX_SEGMENTS) {
        None => {
            state.codec_state.is_valid = false;
        },
        Some((ss, k)) => {
            proof {
                lemma_parse_segments_len(r.skip(8), CF_PDU_MAX_SEGMENTS as nat, 0);
            }
            cf_store_segments(&mut plnak.segment_list, &ss);
            plnak.scope_start = start_v as u32;
            plnak.scope_end = end_v as u32;
            state.codec_state.next_offset = pos + 8 + k;
        },
    }
}

/// Reads a file checksum; `pcrc` stays as it was when the 4 bytes are not there.
pub fn CF_CFDP_DecodeCrc(state: &mut DecoderState, pcrc: &mut u32)
    requires
        old(state).wf(),
    ensures
        final(state).wf(),
        take_result(*old(state), *final(state), Some(4)),
        codec_fits(old(state).codec_state, 4) ==> *final(pcrc) == be_value(
            old(state).remaining().subrange(0, 4),
        ),
        !codec_fits(old(state).codec_state, 4) ==> *final(pcrc) == *old(pcrc),
{
    match cf_decode_take(state, 4) {
        Some(v) => {
            proof {
                lemma_be_value_bound(v@);
            }
            let x = cf_be_value(&v);
            *pcrc = x as u32;
        },
        None => {},
    }
}


/// The number of entries that a TLV or segment list holds.
pub const CF_LIST_CAPACITY: usize = 16;

impl Default for EncoderState {
    fn default() -> (r: Self)
        ensures
            r.base@.len() == 0,
            r.codec_state == (CodecState { is_valid: false, next_offset: 0, max_size: 0 }),
    {
        EncoderState {
            base: Vec::new(),
            codec_state: CodecState { is_valid: false, next_offset: 0, max_size: 0 },
        }
    }
}

impl Default for DecoderState {
    fn default() -> (r: Self)
        ensures
            r.base@.len() == 0,
            r.codec_state == (CodecState { is_valid: false, next_offset: 0, max_size: 0 }),
    {
        DecoderState {
            base: Vec::new(),
            codec_state: CodecState { is_valid: false, next_offset: 0, max_size: 0 },
        }
    }
}

impl Default for LogicalLv {
    fn default() -> (r: Self)
        ensures
            r.length == 0,
            r.data_ptr is None,
    {
        LogicalLv { length: 0, data_ptr: None }
    }
}

impl Default for TlvData {
    fn default() -> (r: Self)
        ensures
            r.eid == 0,
            r.data_ptr is None,
    {
        TlvData { eid: 0, data_ptr: None }
    }
}

impl Default for LogicalTlv {
    fn default() -> (r: Self)
        ensures
            r.type_ == 0,
            r.length == 0,
            r.data.eid == 0,
            r.data.data_ptr is None,
    {
        LogicalTlv { type_: 0, length: 0, data: TlvData::default() }
    }
}

impl Default for LogicalTlvList {
    fn default() -> (r: Self)
        ensures
            r.num_tlv == 0,
            r.tlv@.len() == CF_LIST_CAPACITY,
            forall|i: int| 0 <= i < CF_LIST_CAPACITY ==> {
                &&& (#[trigger] r.tlv@[i]).type_ == 0
                &&& r.tlv@[i].length == 0
                &&& r.tlv@[i].data.eid == 0
                &&& r.tlv@[i].data.data_ptr is None
            },
    {
        let mut tlv: Vec<LogicalTlv> = Vec::new();
        let mut i: usize = 0;
        while i < CF_LIST_CAPACITY
            invariant
                i <= CF_LIST_CAPACITY,
                tlv@.len() == i,
                forall|j: int| 0 <= j < i ==> {
                    &&& (#[trigger] tlv@[j]).type_ == 0
                    &&& tlv@[j].length == 0
                    &&& tlv@[j].data.eid == 0
                    &&& tlv@[j].data.data_ptr is None
                },
            decreases CF_LIST_CAPACITY - i,
        {
            tlv.push(LogicalTlv::default());
            i = i + 1;
        }
        LogicalTlvList { num_tlv: 0, tlv }
    }
}

impl Default for LogicalSegmentList {
    fn default() -> (r: Self)
        ensures
            r.num_segments == 0,
            r.segments@.len() == CF_LIST_CAPACITY,
            forall|i: int|
                0 <= i < CF_LIST_CAPACITY ==> #[trigger] r.segments@[i] == (LogicalSegmentRequest {
                    offset_start: 0,
                    offset_end: 0,
                }),
    {
        let mut segments: Vec<LogicalSegmentRequest> = Vec::new();
        let mut i: usize = 0;
        while i < CF_LIST_CAPACITY
            invariant
                i <= CF_LIST_CAPACITY,
                segments@.len() == i,
                forall|j: int|
                    0 <= j < i ==> #[trigger] segments@[j] == (LogicalSegmentRequest {
                        offset_start: 0,
                        offset_end: 0,
                    }),
            decreases CF_LIST_CAPACITY - i,
        {
            segments.push(LogicalSegmentRequest { offset_start: 0, offset_end: 0 });
            i = i + 1;
        }
        LogicalSegmentList { num_segments: 0, segments }
    }
}

impl Default for LogicalPduMd {
    fn default() -> (r: Self)
        ensures
            r.size == 0,
            r.source_filename.length == 0,
            r.source_filename.data_ptr is None,
            r.dest_filename.length == 0,
            r.dest_filename.data_ptr is None,
    {
        LogicalPduMd { size: 0, source_filename: LogicalLv::default(), dest_filename: LogicalLv::default() }
    }
}

impl Default for LogicalPduFileDataHeader {
    fn default() -> (r: Self)
        ensures
            r.offset == 0,
            r.data_len == 0,
            r.data_ptr is None,
            r.continuation_state == 0,
            r.segment_list.num_segments == 0,
            r.segment_list.segments@.len() == CF_LIST_CAPACITY,
    {
        LogicalPduFileDataHeader {
            offset: 0,
            data_len: 0,
            data_ptr: None,
            continuation_state: 0,
            segment_list: LogicalSegmentList::default(),
        }
    }
}

impl Default for LogicalPduEof {
    fn default() -> (r: Self)
        ensures
            r.crc == 0,
            r.size == 0,
            r.cc == 0,
            r.tlv_list.num_tlv == 0,
            r.tlv_list.tlv@.len() == CF_LIST_CAPACITY,
    {
        LogicalPduEof { crc: 0, size: 0, cc: 0, tlv_list: LogicalTlvList::default() }
    }
}

impl Default for LogicalPduNak {
    fn default() -> (r: Self)
        ensures
            r.scope_start == 0,
            r.scope_end == 0,
            r.segment_list.num_segments == 0,
            r.segment_list.segments@.len() == CF_LIST_CAPACITY,
    {
        LogicalPduNak { scope_start: 0, scope_end: 0, segment_list: LogicalSegmentList::default() }
    }
}

/// Points an encoder at `bytes`, of which the first `sz` may be written.
pub fn ut_cf_setup_encode_state(state: &mut EncoderState, bytes: Vec<u8>, sz: usize)
    requires
        sz <= bytes@.len(),
    ensures
        final(state).wf(),
        final(state).base@ == bytes@,
        final(state).codec_state == (CodecState { is_valid: true, next_offset: 0, max_size: sz }),
{
    state.base = bytes;
    CF_CFDP_CodecReset(&mut state.codec_state, sz);
}

/// Points a decoder at `bytes`, of which the first `sz` may be read.
pub fn ut_cf_setup_decode_state(state: &mut DecoderState, bytes: Vec<u8>, sz: usize)
    requires
        sz <= bytes@.len(),
    ensures
        final(state).wf(),
        final(state).base@ == bytes@,
        final(state).codec_state == (CodecState { is_valid: true, next_offset: 0, max_size: sz }),
{
    state.base = bytes;
    CF_CFDP_CodecReset(&mut state.codec_state, sz);
}

/// The bytes of `msgbuf` from `from` on.
fn cf_bytes_from(msgbuf: &Vec<u8>, from: usize) -> (out: Vec<u8>)
    requires
        from <= msgbuf@.len(),
    ensures
        out@ == msgbuf@.skip(from as int),
{
    let mut out: Vec<u8> = Vec::new();
    let mut i: usize = from;
    while i < msgbuf.len()
        invariant
            from <= i <= msgbuf@.len(),
            out@ == msgbuf@.subrange(from as int, i as int),
        decreases msgbuf.len() - i,
    {
        out.push(msgbuf[i]);
        i = i + 1;
        assert(out@ =~= msgbuf@.subrange(from as int, i as int));
    }
    assert(out@ =~= msgbuf@.skip(from as int));
    out
}

/// The codec state for a message of `total_size` bytes that starts with an
/// `encap_hdr_size`-byte encapsulation header: the PDU is what follows the header, and a
/// message too small to hold anything past the header leaves the codec done.
pub open spec fn start_state(encap_hdr_size: usize, total_size: usize) -> CodecState {
    if total_size > encap_hdr_size {
        CodecState { is_valid: true, next_offset: 0, max_size: (total_size - encap_hdr_size) as usize }
    } else {
        CodecState { is_valid: false, next_offset: 0, max_size: total_size }
    }
}

/// The bytes that a codec started on `msgbuf` works on.
pub open spec fn start_base(msgbuf: Seq<u8>, encap_hdr_size: usize, total_size: usize) -> Seq<u8> {
    if total_size > encap_hdr_size {
        msgbuf.skip(encap_hdr_size as int)
    } else {
        msgbuf
    }
}

/// Prepares `penc` to write a PDU into `msgbuf` after its encapsulation header.
pub fn CF_CFDP_EncodeStart(
    penc: &mut EncoderState,
    msgbuf: Vec<u8>,
    encap_hdr_size: usize,
    total_size: usize,
)
    requires
        total_size <= msgbuf@.len(),
    ensures
        final(penc).wf(),
        final(penc).codec_state == start_state(encap_hdr_size, total_size),
        final(penc).base@ == start_base(msgbuf@, encap_hdr_size, total_size),
{
    CF_CFDP_CodecReset(&mut penc.codec_state, total_size);
    if total_size > encap_hdr_size {
        penc.codec_state.max_size = total_size - encap_hdr_size;
        penc.base = cf_bytes_from(&msgbuf, encap_hdr_size);
    } else {
        penc.base = msgbuf;
        cf_codec_set_done(&mut penc.codec_state);
    }
}

/// Prepares `pdec` to read a PDU from `msgbuf` after its encapsulation header.
pub fn CF_CFDP_DecodeStart(
    pdec: &mut DecoderState,
    msgbuf: Vec<u8>,
    encap_hdr_size: usize,
    total_size: usize,
)
    requires
        total_size <= msgbuf@.len(),
    ensures
        final(pdec).wf(),
        final(pdec).codec_state == start_state(encap_hdr_size, total_size),
        final(pdec).base@ == start_base(msgbuf@, encap_hdr_size, total_size),
{
    CF_CFDP_CodecReset(&mut pdec.codec_state, total_size);
    if total_size > encap_hdr_size {
        pdec.codec_state.max_size = total_size - encap_hdr_size;
        pdec.base = cf_bytes_from(&msgbuf, encap_hdr_size);
    } else {
        pdec.base = msgbuf;
        cf_codec_set_done(&mut pdec.codec_state);
    }
}

} // verus!





