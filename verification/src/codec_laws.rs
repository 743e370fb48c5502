//! What a decoder reads back of what an encoder wrote.
use vstd::prelude::*;
use vstd::arithmetic::power::pow;
use crate::codec::{
    be_bytes, be_value, be_value_u64, lemma_be_value_step, lemma_be_value_bound, segment_bytes,
    segments_bytes, parse_segment, parse_segments, LogicalSegmentRequest, CF_PDU_MAX_SEGMENTS,
    LogicalLv, LvModel, lv_bytes, parse_lv, LogicalTlv, TlvModel, tlv_bytes, parse_tlv,
    CF_CFDP_TLV_TYPE_ENTITY_ID, LogicalPduFin, fin_byte, LogicalPduAck, ack_bytes,
    LogicalPduHeader, header_bytes, header_fixed, header_full, header_lengths_ok, header_size,
    header_flags, header_lengths, CF_ENTITY_ID_SIZE, CF_TRANSACTION_SEQ_SIZE, tlvs_bytes, parse_tlvs,
    CF_PDU_MAX_TLV, opt_cat, LogicalPduNak, nak_bytes, parse_nak, NakParse, LogicalPduMd, md_bytes, parse_md,
    MdModel, LogicalPduEof, eof_bytes, parse_eof, EofParse, LogicalPduFileDataHeader, fd_header_bytes,
    parse_fd_header, FdParse, fd_meta_byte,
};

verus! {

/// `pow(256, n + 1)` is `256 * pow(256, n)`.
proof fn lemma_pow256_succ(n: nat)
    ensures
        pow(256, n + 1) == 256 * pow(256, n),
        pow(256, n) > 0,
{
    vstd::arithmetic::power::lemma_pow_adds(256, n, 1);
    vstd::arithmetic::power::lemma_pow1(256);
    vstd::arithmetic::power::lemma_pow_positive(256, n);
}

/// Big-endian bytes read back as the number they were made from, modulo `256^n`.
pub proof fn lemma_be_roundtrip(v: nat, n: nat)
    ensures
        be_bytes(v, n).len() == n,
        be_value(be_bytes(v, n)) == (v as int) % pow(256, n),
    decreases n,
{
    if n == 0 {
        vstd::arithmetic::power::lemma_pow0(256);
    } else {
        let m = (n - 1) as nat;
        lemma_be_roundtrip(v / 256, m);
        lemma_be_value_step(be_bytes(v / 256, m), (v % 256) as u8);
        lemma_pow256_succ(m);
        vstd::arithmetic::div_mod::lemma_breakdown(v as int, 256, pow(256, m));
    }
}

/// The integer law: `n` big-endian bytes of a value below `256^n` read back as that
/// value, so `CF_DecodeIntegerInSize` returns what `CF_EncodeIntegerInSize` wrote.
pub proof fn law_integer_roundtrip(v: u64, n: u8)
    requires
        v < pow(256, n as nat),
    ensures
        be_value_u64(be_bytes(v as nat, n as nat)) == v,
        be_value(be_bytes(v as nat, n as nat)) == v,
{
    lemma_be_roundtrip(v as nat, n as nat);
    vstd::arithmetic::div_mod::lemma_small_mod(v as nat, pow(256, n as nat) as nat);
    lemma_be_value_bound(be_bytes(v as nat, n as nat));
    if n as nat > 8 {
        vstd::arithmetic::div_mod::lemma_small_mod(v as nat, 0x1_0000_0000_0000_0000);
    }
}

/// Four big-endian bytes of a 32-bit value read back as that value.
pub proof fn lemma_u32_roundtrip(x: u32)
    ensures
        be_bytes(x as nat, 4).len() == 4,
        be_value(be_bytes(x as nat, 4)) == x,
{
    assert(pow(256, 4) == 0x1_0000_0000) by {
        reveal_with_fuel(pow, 5);
    }
    lemma_be_roundtrip(x as nat, 4);
    vstd::arithmetic::div_mod::lemma_small_mod(x as nat, 0x1_0000_0000);
}

/// A checksum written with `CF_CFDP_EncodeCrc` reads back with `CF_CFDP_DecodeCrc`.
pub proof fn law_crc_roundtrip(crc: u32)
    ensures
        be_value(be_bytes(crc as nat, 4).subrange(0, 4)) == crc,
{
    lemma_u32_roundtrip(crc);
    assert(be_bytes(crc as nat, 4).subrange(0, 4) =~= be_bytes(crc as nat, 4));
}

/// A segment request reads back from its encoding, whatever follows it.
pub proof fn law_segment_roundtrip(s: LogicalSegmentRequest, rest: Seq<u8>)
    ensures
        parse_segment(segment_bytes(s) + rest) == Some((s, 8nat)),
{
    lemma_u32_roundtrip(s.offset_start);
    lemma_u32_roundtrip(s.offset_end);
    let b = segment_bytes(s) + rest;
    assert(b.subrange(0, 4) =~= be_bytes(s.offset_start as nat, 4));
    assert(b.subrange(4, 8) =~= be_bytes(s.offset_end as nat, 4));
}

/// The encoding of a list of segment requests, split after its first entry.
proof fn lemma_segments_bytes_front(ss: Seq<LogicalSegmentRequest>)
    requires
        ss.len() > 0,
    ensures
        segments_bytes(ss) == segment_bytes(ss[0]) + segments_bytes(ss.drop_first()),
    decreases ss.len(),
{
    if ss.len() == 1 {
        assert(ss.drop_first() =~= Seq::<LogicalSegmentRequest>::empty());
        assert(ss.drop_last() =~= Seq::<LogicalSegmentRequest>::empty());
        assert(segments_bytes(ss) =~= segment_bytes(ss[0]) + segments_bytes(ss.drop_first()));
    } else {
        lemma_segments_bytes_front(ss.drop_last());
        assert(ss.drop_last().drop_first() =~= ss.drop_first().drop_last());
        assert(ss.drop_first().last() == ss.last());
        assert(segments_bytes(ss) =~= segment_bytes(ss[0]) + segments_bytes(ss.drop_first()));
    }
}

/// The encoding of a list of segment requests has 8 bytes per request.
proof fn lemma_segments_bytes_len(ss: Seq<LogicalSegmentRequest>)
    ensures
        segments_bytes(ss).len() == 8 * ss.len(),
    decreases ss.len(),
{
    if ss.len() > 0 {
        lemma_segments_bytes_len(ss.drop_last());
        lemma_u32_roundtrip(ss.last().offset_start);
        lemma_u32_roundtrip(ss.last().offset_end);
    }
}

/// Reading segment requests from the encoding of `ss`, with `count` already read.
proof fn lemma_segments_roundtrip_from(ss: Seq<LogicalSegmentRequest>, limit: nat, count: nat)
    requires
        ss.len() <= limit,
        count + ss.len() <= CF_PDU_MAX_SEGMENTS,
    ensures
        parse_segments(segments_bytes(ss), limit, count) == Some((ss, 8 * ss.len())),
    decreases ss.len(),
{
    lemma_segments_bytes_len(ss);
    if ss.len() == 0 {
        assert(segments_bytes(ss).len() == 0);
        assert(ss =~= Seq::<LogicalSegmentRequest>::empty());
    } else {
        lemma_segments_bytes_front(ss);
        let rest = ss.drop_first();
        law_segment_roundtrip(ss[0], segments_bytes(rest));
        assert((segment_bytes(ss[0]) + segments_bytes(rest)).skip(8) =~= segments_bytes(rest)) by {
            lemma_u32_roundtrip(ss[0].offset_start);
            lemma_u32_roundtrip(ss[0].offset_end);
        }
        lemma_segments_roundtrip_from(rest, (limit - 1) as nat, count + 1);
        assert(seq![ss[0]] + rest =~= ss);
    }
}

/// The segment list law: the segment requests that `CF_CFDP_EncodeAllSegments` writes
/// read back, in order, with `CF_CFDP_DecodeAllSegments` given a limit that admits them.
pub proof fn law_segments_roundtrip(ss: Seq<LogicalSegmentRequest>, limit: nat)
    requires
        ss.len() <= limit,
        ss.len() <= CF_PDU_MAX_SEGMENTS,
    ensures
        parse_segments(segments_bytes(ss), limit, 0) == Some((ss, 8 * ss.len())),
{
    lemma_segments_roundtrip_from(ss, limit, 0);
}


/// The bytes that a length-value field carries.
pub open spec fn lv_content(lv: LogicalLv) -> Seq<u8> {
    if lv.length == 0 {
        Seq::empty()
    } else {
        lv.data_ptr.unwrap()@.subrange(0, lv.length as int)
    }
}

/// The length-value law: a field written by `CF_CFDP_EncodeLV` reads back with
/// `CF_CFDP_DecodeLV` as its length and the bytes it carries, whatever follows it.
pub proof fn law_lv_roundtrip(lv: LogicalLv, rest: Seq<u8>)
    requires
        lv_bytes(lv) is Some,
    ensures
        parse_lv(lv_bytes(lv).unwrap() + rest) == Some(
            (LvModel { length: lv.length, data: Some(lv_content(lv)) }, 1 + lv.length as nat),
        ),
{
    let b = lv_bytes(lv).unwrap() + rest;
    assert(b.subrange(1, 1 + lv.length) =~= lv_content(lv));
}

/// The TLV law: a field written by `CF_CFDP_EncodeTLV` reads back with `CF_CFDP_DecodeTLV`:
/// an entity id that fits in its length as that id, other values as the bytes they carry.
pub proof fn law_tlv_roundtrip(t: LogicalTlv, rest: Seq<u8>)
    requires
        tlv_bytes(t) is Some,
        t.type_ == CF_CFDP_TLV_TYPE_ENTITY_ID ==> t.data.eid < pow(256, t.length as nat),
    ensures
        parse_tlv(tlv_bytes(t).unwrap() + rest) == Some(
            (
                if t.type_ == CF_CFDP_TLV_TYPE_ENTITY_ID {
                    TlvModel { type_: t.type_, length: t.length, eid: t.data.eid, data: None }
                } else {
                    TlvModel {
                        type_: t.type_,
                        length: t.length,
                        eid: 0,
                        data: Some(
                            if t.length == 0 {
                                Seq::empty()
                            } else {
                                t.data.data_ptr.unwrap()@.subrange(0, t.length as int)
                            },
                        ),
                    }
                },
                2 + t.length as nat,
            ),
        ),
{
    let b = tlv_bytes(t).unwrap() + rest;
    if t.type_ == CF_CFDP_TLV_TYPE_ENTITY_ID {
        lemma_be_roundtrip(t.data.eid as nat, t.length as nat);
        assert(b.subrange(2, 2 + t.length) =~= be_bytes(t.data.eid as nat, t.length as nat));
        law_integer_roundtrip(t.data.eid, t.length);
    } else if t.length == 0 {
        assert(b.subrange(2, 2) =~= Seq::<u8>::empty());
    } else {
        assert(b.subrange(2, 2 + t.length) =~= t.data.data_ptr.unwrap()@.subrange(0, t.length as int));
    }
}

/// The finished PDU law: the flags byte of `CF_CFDP_EncodeFin` reads back with
/// `CF_CFDP_DecodeFin` as the fields it was made from, each kept to its bit width.
pub proof fn law_fin_roundtrip(fin: LogicalPduFin)
    ensures
        (fin_byte(fin) >> 4u8) & 0xf == fin.cc & 0xf,
        (fin_byte(fin) >> 2u8) & 1 == fin.delivery_code & 1,
        fin_byte(fin) & 3 == fin.file_status & 3,
{
    let cc = fin.cc;
    let dc = fin.delivery_code;
    let fs = fin.file_status;
    assert((((((cc & 0xf) << 4u8) | ((dc & 1) << 2u8) | (fs & 3)) as u8) >> 4u8) & 0xf == cc & 0xf)
        by (bit_vector);
    assert((((((cc & 0xf) << 4u8) | ((dc & 1) << 2u8) | (fs & 3)) as u8) >> 2u8) & 1 == dc & 1)
        by (bit_vector);
    assert(((((cc & 0xf) << 4u8) | ((dc & 1) << 2u8) | (fs & 3)) as u8) & 3 == fs & 3)
        by (bit_vector);
}

/// The acknowledgment law: the two bytes of `CF_CFDP_EncodeAck` read back with
/// `CF_CFDP_DecodeAck` as the fields they were made from, each kept to its bit width.
pub proof fn law_ack_roundtrip(ack: LogicalPduAck)
    ensures
        (ack_bytes(ack)[0] >> 4u8) & 0xf == ack.ack_directive_code & 0xf,
        ack_bytes(ack)[0] & 0xf == ack.ack_subtype_code & 0xf,
        (ack_bytes(ack)[1] >> 4u8) & 0xf == ack.cc & 0xf,
        ack_bytes(ack)[1] & 3 == ack.txn_status & 3,
{
    let a = ack.ack_directive_code;
    let b = ack.ack_subtype_code;
    let c = ack.cc;
    let d = ack.txn_status;
    assert((((((a & 0xf) << 4u8) | (b & 0xf)) as u8) >> 4u8) & 0xf == a & 0xf) by (bit_vector);
    assert(((((a & 0xf) << 4u8) | (b & 0xf)) as u8) & 0xf == b & 0xf) by (bit_vector);
    assert((((((c & 0xf) << 4u8) | (d & 3)) as u8) >> 4u8) & 0xf == c & 0xf) by (bit_vector);
    assert(((((c & 0xf) << 4u8) | (d & 3)) as u8) & 3 == d & 3) by (bit_vector);
}

/// The PDU header law: a header written by `CF_CFDP_EncodeHeaderWithoutSize` (with data
/// length bytes `hi`, `lo`) whose entity ids and sequence number fit their lengths, and
/// whose lengths the library supports, reads back with `CF_CFDP_DecodeHeader` as
/// the fields it was made from.
pub proof fn law_header_roundtrip(
    h: LogicalPduHeader,
    hi: u8,
    lo: u8,
    rest: Seq<u8>,
    prior: LogicalPduHeader,
    end: int,
)
    requires
        1 <= h.eid_length <= CF_ENTITY_ID_SIZE,
        1 <= h.txn_seq_length <= CF_TRANSACTION_SEQ_SIZE,
        h.source_eid < pow(256, h.eid_length as nat),
        h.destination_eid < pow(256, h.eid_length as nat),
        h.sequence_num < pow(256, h.txn_seq_length as nat),
    ensures
        ({
            let r = header_bytes(h, hi, lo) + rest;
            &&& r.len() >= header_size(h)
            &&& header_lengths_ok(r)
            &&& header_size(header_fixed(prior, r)) == header_size(h)
            &&& header_full(prior, r, end) == LogicalPduHeader {
                version: h.version & 7,
                pdu_type: h.pdu_type & 1,
                direction: h.direction & 1,
                txm_mode: h.txm_mode & 1,
                eid_length: h.eid_length,
                txn_seq_length: h.txn_seq_length,
                source_eid: h.source_eid,
                sequence_num: h.sequence_num,
                destination_eid: h.destination_eid,
                data_encoded_length: (hi as int * 256 + lo as int) as u16,
                header_encoded_length: end as usize,
            }
        }),
{
    let e = h.eid_length;
    let t = h.txn_seq_length;
    let r = header_bytes(h, hi, lo) + rest;
    lemma_be_roundtrip(h.source_eid as nat, e as nat);
    lemma_be_roundtrip(h.sequence_num as nat, t as nat);
    lemma_be_roundtrip(h.destination_eid as nat, e as nat);
    let f = header_flags(h);
    let l = header_lengths(h);
    assert(r[0] == f && r[1] == hi && r[2] == lo && r[3] == l);
    let v = h.version;
    let p = h.pdu_type;
    let d = h.direction;
    let m = h.txm_mode;
    assert((((((v & 7) << 5u8) | ((p & 1) << 4u8) | ((d & 1) << 3u8) | ((m & 1) << 2u8)) as u8)
        >> 5u8) & 7 == v & 7) by (bit_vector);
    assert((((((v & 7) << 5u8) | ((p & 1) << 4u8) | ((d & 1) << 3u8) | ((m & 1) << 2u8)) as u8)
        >> 4u8) & 1 == p & 1) by (bit_vector);
    assert((((((v & 7) << 5u8) | ((p & 1) << 4u8) | ((d & 1) << 3u8) | ((m & 1) << 2u8)) as u8)
        >> 3u8) & 1 == d & 1) by (bit_vector);
    assert((((((v & 7) << 5u8) | ((p & 1) << 4u8) | ((d & 1) << 3u8) | ((m & 1) << 2u8)) as u8)
        >> 2u8) & 1 == m & 1) by (bit_vector);
    let e1: u8 = (e - 1) as u8;
    let t1: u8 = (t - 1) as u8;
    assert(((e as int - 1) % 256) as u8 == e1);
    assert(((t as int - 1) % 256) as u8 == t1);
    assert(((((((e1 & 7) << 4u8) | (t1 & 7)) as u8) >> 4u8) & 7) == e1 & 7) by (bit_vector);
    assert((((((e1 & 7) << 4u8) | (t1 & 7)) as u8) & 7) == t1 & 7) by (bit_vector);
    assert(e1 < 8 ==> e1 & 7 == e1) by (bit_vector);
    assert(t1 < 8 ==> t1 & 7 == t1) by (bit_vector);
    assert(r.subrange(4, 4 + e) =~= be_bytes(h.source_eid as nat, e as nat));
    assert(r.subrange(4 + e, 4 + e + t) =~= be_bytes(h.sequence_num as nat, t as nat));
    assert(r.subrange(4 + e + t, 4 + 2 * e + t) =~= be_bytes(h.destination_eid as nat, e as nat));
    law_integer_roundtrip(h.source_eid, e);
    law_integer_roundtrip(h.sequence_num, t);
    law_integer_roundtrip(h.destination_eid, e);
}

/// What a TLV field reads back as: an entity id as that id, other values as the bytes
/// they carry.
pub open spec fn tlv_read_back(t: LogicalTlv) -> TlvModel {
    if t.type_ == CF_CFDP_TLV_TYPE_ENTITY_ID {
        TlvModel { type_: t.type_, length: t.length, eid: t.data.eid, data: None }
    } else {
        TlvModel {
            type_: t.type_,
            length: t.length,
            eid: 0,
            data: Some(
                if t.length == 0 {
                    Seq::empty()
                } else {
                    t.data.data_ptr.unwrap()@.subrange(0, t.length as int)
                },
            ),
        }
    }
}

/// A TLV field can be written and its entity id, if it is one, fits its length.
pub open spec fn tlv_writable(t: LogicalTlv) -> bool {
    &&& tlv_bytes(t) is Some
    &&& t.type_ == CF_CFDP_TLV_TYPE_ENTITY_ID ==> t.data.eid < pow(256, t.length as nat)
}

/// The encoding of a list of TLV fields, split after its first entry.
proof fn lemma_tlvs_bytes_front(ts: Seq<LogicalTlv>)
    requires
        ts.len() > 0,
    ensures
        tlvs_bytes(ts) == opt_cat(tlv_bytes(ts[0]), tlvs_bytes(ts.drop_first())),
    decreases ts.len(),
{
    if ts.len() == 1 {
        assert(ts.drop_first() =~= Seq::<LogicalTlv>::empty());
        assert(ts.drop_last() =~= Seq::<LogicalTlv>::empty());
        match tlv_bytes(ts[0]) {
            Some(b) => {
                assert(Seq::<u8>::empty() + b =~= b);
                assert(b + Seq::<u8>::empty() =~= b);
            },
            None => {},
        }
    } else {
        lemma_tlvs_bytes_front(ts.drop_last());
        assert(ts.drop_last().drop_first() =~= ts.drop_first().drop_last());
        assert(ts.drop_first().last() == ts.last());
        assert(ts.drop_last()[0] == ts[0]);
        match (tlv_bytes(ts[0]), tlvs_bytes(ts.drop_first().drop_last()), tlv_bytes(ts.last())) {
            (Some(a), Some(b), Some(c)) => {
                assert(a + b + c =~= a + (b + c));
            },
            _ => {},
        }
    }
}

/// Reading TLV fields from the encoding of `ts`, with `count` already read.
proof fn lemma_tlvs_roundtrip_from(ts: Seq<LogicalTlv>, limit: nat, count: nat)
    requires
        ts.len() <= limit,
        count + ts.len() <= CF_PDU_MAX_TLV,
        tlvs_bytes(ts) is Some,
        forall|i: int| 0 <= i < ts.len() ==> tlv_writable(#[trigger] ts[i]),
    ensures
        parse_tlvs(tlvs_bytes(ts).unwrap(), limit, count) == Some(
            (ts.map_values(|t: LogicalTlv| tlv_read_back(t)), tlvs_bytes(ts).unwrap().len()),
        ),
    decreases ts.len(),
{
    if ts.len() == 0 {
        assert(ts.map_values(|t: LogicalTlv| tlv_read_back(t)) =~= Seq::<TlvModel>::empty());
    } else {
        lemma_tlvs_bytes_front(ts);
        let rest = ts.drop_first();
        let a = tlv_bytes(ts[0]).unwrap();
        assert(tlv_writable(ts[0]));
        assert forall|i: int| 0 <= i < rest.len() implies tlv_writable(#[trigger] rest[i]) by {
            assert(rest[i] == ts[i + 1]);
        }
        let b = tlvs_bytes(rest).unwrap();
        law_tlv_roundtrip(ts[0], b);
        assert((a + b).skip(2 + ts[0].length as int) =~= b) by {
            if ts[0].type_ == CF_CFDP_TLV_TYPE_ENTITY_ID {
                lemma_be_roundtrip(ts[0].data.eid as nat, ts[0].length as nat);
            }
        }
        assert(a.len() == 2 + ts[0].length) by {
            if ts[0].type_ == CF_CFDP_TLV_TYPE_ENTITY_ID {
                lemma_be_roundtrip(ts[0].data.eid as nat, ts[0].length as nat);
            }
        }
        lemma_tlvs_roundtrip_from(rest, (limit - 1) as nat, count + 1);
        assert(seq![tlv_read_back(ts[0])] + rest.map_values(|t: LogicalTlv| tlv_read_back(t)) =~= ts.map_values(
            |t: LogicalTlv| tlv_read_back(t),
        ));
    }
}

/// The TLV list law: TLV fields written one after the other read back, in order, given a
/// limit that admits them.
pub proof fn law_tlvs_roundtrip(ts: Seq<LogicalTlv>, limit: nat)
    requires
        ts.len() <= limit,
        ts.len() <= CF_PDU_MAX_TLV,
        tlvs_bytes(ts) is Some,
        forall|i: int| 0 <= i < ts.len() ==> tlv_writable(#[trigger] ts[i]),
    ensures
        parse_tlvs(tlvs_bytes(ts).unwrap(), limit, 0) == Some(
            (ts.map_values(|t: LogicalTlv| tlv_read_back(t)), tlvs_bytes(ts).unwrap().len()),
        ),
{
    lemma_tlvs_roundtrip_from(ts, limit, 0);
}

/// The negative acknowledgment law: the body that `CF_CFDP_EncodeNak` writes reads back
/// with `CF_CFDP_DecodeNak` as its scope and its segment requests, in order.
pub proof fn law_nak_roundtrip(nak: LogicalPduNak)
    requires
        nak.segment_list.wf(),
        nak.segment_list.num_segments <= CF_PDU_MAX_SEGMENTS,
    ensures
        parse_nak(nak_bytes(nak)) == Some(
            (
                NakParse {
                    scope_start: nak.scope_start,
                    scope_end: nak.scope_end,
                    segments: nak.segment_list.used(),
                },
                8 + 8 * nak.segment_list.num_segments as nat,
            ),
        ),
{
    let r = nak_bytes(nak);
    let ss = nak.segment_list.used();
    lemma_u32_roundtrip(nak.scope_start);
    lemma_u32_roundtrip(nak.scope_end);
    assert(r.subrange(0, 4) =~= be_bytes(nak.scope_start as nat, 4));
    assert(r.subrange(4, 8) =~= be_bytes(nak.scope_end as nat, 4));
    assert(r.skip(8) =~= segments_bytes(ss));
    law_segments_roundtrip(ss, CF_PDU_MAX_SEGMENTS as nat);
}

/// The metadata law: the body that `CF_CFDP_EncodeMd` writes reads back with
/// `CF_CFDP_DecodeMd` as its file size and the two names it carries, whatever follows.
pub proof fn law_md_roundtrip(md: LogicalPduMd, rest: Seq<u8>)
    requires
        md_bytes(md) is Some,
    ensures
        parse_md(md_bytes(md).unwrap() + rest) == Some(
            (
                MdModel {
                    size: md.size,
                    source_filename: LvModel { length: md.source_filename.length, data: Some(lv_content(md.source_filename)) },
                    dest_filename: LvModel { length: md.dest_filename.length, data: Some(lv_content(md.dest_filename)) },
                },
                5 + (1 + md.source_filename.length as nat) + (1 + md.dest_filename.length as nat),
            ),
        ),
{
    let a = lv_bytes(md.source_filename).unwrap();
    let b = lv_bytes(md.dest_filename).unwrap();
    let head = seq![0u8] + be_bytes(md.size as nat, 4);
    lemma_u32_roundtrip(md.size);
    let r = md_bytes(md).unwrap() + rest;
    assert(r =~= head + a + b + rest);
    assert(r.subrange(1, 5) =~= be_bytes(md.size as nat, 4));
    assert(r.skip(5) =~= a + (b + rest));
    law_lv_roundtrip(md.source_filename, b + rest);
    assert(r.skip(5 + a.len() as int) =~= b + rest);
    law_lv_roundtrip(md.dest_filename, rest);
}

/// The end-of-file law: the body that `CF_CFDP_EncodeEof` writes reads back with
/// `CF_CFDP_DecodeEof` as its condition code (kept to 4 bits), checksum, file size and
/// TLV fields, in order.
pub proof fn law_eof_roundtrip(eof: LogicalPduEof)
    requires
        eof_bytes(eof) is Some,
        eof.tlv_list.wf(),
        eof.tlv_list.num_tlv <= CF_PDU_MAX_TLV,
        forall|i: int| 0 <= i < eof.tlv_list.num_tlv ==> tlv_writable(#[trigger] eof.tlv_list.tlv@[i]),
    ensures
        parse_eof(eof_bytes(eof).unwrap()) == Some(
            (
                EofParse {
                    cc: eof.cc & 0xf,
                    crc: eof.crc,
                    size: eof.size,
                    tlvs: eof.tlv_list.used().map_values(|t: LogicalTlv| tlv_read_back(t)),
                },
                eof_bytes(eof).unwrap().len(),
            ),
        ),
{
    let ts = eof.tlv_list.used();
    let t = tlvs_bytes(ts).unwrap();
    let r = eof_bytes(eof).unwrap();
    let c = eof.cc;
    lemma_u32_roundtrip(eof.crc);
    lemma_u32_roundtrip(eof.size);
    assert(r.subrange(1, 5) =~= be_bytes(eof.crc as nat, 4));
    assert(r.subrange(5, 9) =~= be_bytes(eof.size as nat, 4));
    assert(r.skip(9) =~= t);
    assert(((((c & 0xf) << 4u8) as u8) >> 4u8) & 0xf == c & 0xf) by (bit_vector);
    assert forall|i: int| 0 <= i < ts.len() implies tlv_writable(#[trigger] ts[i]) by {
        assert(ts[i] == eof.tlv_list.tlv@[i]);
    }
    law_tlvs_roundtrip(ts, CF_PDU_MAX_TLV as nat);
}

/// Reading exactly the segment requests of `ss` from their encoding followed by other
/// bytes, with `count` already read.
proof fn lemma_segments_roundtrip_rest(ss: Seq<LogicalSegmentRequest>, rest: Seq<u8>, count: nat)
    requires
        count + ss.len() <= CF_PDU_MAX_SEGMENTS,
    ensures
        parse_segments(segments_bytes(ss) + rest, ss.len(), count) == Some((ss, 8 * ss.len())),
    decreases ss.len(),
{
    lemma_segments_bytes_len(ss);
    if ss.len() == 0 {
        assert(ss =~= Seq::<LogicalSegmentRequest>::empty());
    } else {
        lemma_segments_bytes_front(ss);
        let tail = ss.drop_first();
        let b = segments_bytes(ss) + rest;
        law_segment_roundtrip(ss[0], segments_bytes(tail) + rest);
        assert(b =~= segment_bytes(ss[0]) + (segments_bytes(tail) + rest));
        assert(b.skip(8) =~= segments_bytes(tail) + rest) by {
            lemma_u32_roundtrip(ss[0].offset_start);
            lemma_u32_roundtrip(ss[0].offset_end);
        }
        lemma_segments_roundtrip_rest(tail, rest, count + 1);
        assert(seq![ss[0]] + tail =~= ss);
    }
}

/// The file data law: a file data header that `CF_CFDP_EncodeFileDataHeader` writes,
/// followed by the file data, reads back with `CF_CFDP_DecodeFileDataHeader` as its
/// offset, its continuation state and segment requests (when the header carries them)
/// and the data.
pub proof fn law_fd_header_roundtrip(fd: LogicalPduFileDataHeader, with_meta: bool, data: Seq<u8>)
    requires
        with_meta ==> fd.segment_list.wf() && fd.segment_list.num_segments <= CF_PDU_MAX_SEGMENTS,
    ensures
        parse_fd_header(fd_header_bytes(fd, with_meta) + data, with_meta) == Some(
            (
                FdParse {
                    offset: fd.offset,
                    continuation_state: if with_meta { fd.continuation_state & 3 } else { 0 },
                    segments: if with_meta { fd.segment_list.used() } else { Seq::empty() },
                    data: data,
                },
                (fd_header_bytes(fd, with_meta) + data).len(),
            ),
        ),
{
    let r = fd_header_bytes(fd, with_meta) + data;
    lemma_u32_roundtrip(fd.offset);
    if with_meta {
        let ss = fd.segment_list.used();
        let n = fd.segment_list.num_segments;
        let c = fd.continuation_state;
        let m = fd_meta_byte(fd);
        assert(n <= 10 ==> ((((c & 3) << 6u8) | (n & 0x3f)) as u8) & 0x3f == n) by (bit_vector);
        assert(((((((c & 3) << 6u8) | (n & 0x3f)) as u8) >> 6u8) & 3) == c & 3) by (bit_vector);
        assert(r[0] == m);
        lemma_segments_bytes_len(ss);
        let tail = be_bytes(fd.offset as nat, 4) + data;
        assert(r.skip(1) =~= segments_bytes(ss) + tail);
        lemma_segments_roundtrip_rest(ss, tail, 0);
        assert(r.skip(1 + 8 * ss.len() as int) =~= tail);
        assert(tail.subrange(0, 4) =~= be_bytes(fd.offset as nat, 4));
        assert(tail.skip(4) =~= data);
    } else {
        assert(r.subrange(0, 4) =~= be_bytes(fd.offset as nat, 4));
        assert(r.skip(4) =~= data);
    }
}

} // verus!
