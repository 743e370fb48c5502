#![allow(non_snake_case)]

use lib::codec::{
    cf_codec_get_position, cf_codec_get_remain, cf_codec_is_ok, ut_cf_setup_decode_state,
    ut_cf_setup_encode_state, DecoderState, EncoderState, LogicalLv, LogicalPduAck, LogicalPduEof,
    LogicalPduFileDataHeader, LogicalPduFileDirectiveHeader, LogicalPduFin, LogicalPduHeader,
    LogicalPduMd, LogicalPduNak, LogicalSegmentList, LogicalSegmentRequest, LogicalTlv,
    LogicalTlvList, CF_CFDP_DecodeAck, CF_CFDP_DecodeAllSegments, CF_CFDP_DecodeAllTlv,
    CF_CFDP_DecodeCrc, CF_CFDP_DecodeEof, CF_CFDP_DecodeFileDataHeader,
    CF_CFDP_DecodeFileDirectiveHeader, CF_CFDP_DecodeFin, CF_CFDP_DecodeHeader, CF_CFDP_DecodeLV,
    CF_CFDP_DecodeMd, CF_CFDP_DecodeNak, CF_CFDP_DecodeSegmentRequest, CF_CFDP_DecodeTLV,
    CF_CFDP_EncodeAck, CF_CFDP_EncodeAllSegments, CF_CFDP_EncodeAllTlv, CF_CFDP_EncodeCrc,
    CF_CFDP_EncodeEof, CF_CFDP_EncodeFileDataHeader, CF_CFDP_EncodeFileDirectiveHeader,
    CF_CFDP_EncodeFin, CF_CFDP_EncodeHeaderFinalSize, CF_CFDP_EncodeHeaderWithoutSize,
    CF_CFDP_EncodeLV, CF_CFDP_EncodeMd, CF_CFDP_EncodeNak, CF_CFDP_EncodeSegmentRequest,
    CF_CFDP_EncodeTLV, CF_CFDP_GetValueEncodedSize, CF_DecodeIntegerInSize,
    CF_EncodeIntegerInSize, CF_CFDP_TLV_TYPE_ENTITY_ID, CF_PDU_MAX_SEGMENTS, CF_PDU_MAX_TLV,
};

fn is_ok_enc(state: &EncoderState) -> bool {
    cf_codec_is_ok(&state.codec_state)
}

fn is_ok_dec(state: &DecoderState) -> bool {
    cf_codec_is_ok(&state.codec_state)
}

#[test]
fn test_cf_cfdp_get_value_encoded_size() {
    assert_eq!(CF_CFDP_GetValueEncodedSize(0), 1);
    assert_eq!(CF_CFDP_GetValueEncodedSize(1), 1);
    assert_eq!(CF_CFDP_GetValueEncodedSize(126), 1);
    assert_eq!(CF_CFDP_GetValueEncodedSize(u8::MAX as u64), 1);
    assert_eq!(CF_CFDP_GetValueEncodedSize(u8::MAX as u64 + 1), 1);
    assert_eq!(CF_CFDP_GetValueEncodedSize(u16::MAX as u64), 1);
    assert_eq!(CF_CFDP_GetValueEncodedSize(u16::MAX as u64 + 1), 1);
    assert_eq!(CF_CFDP_GetValueEncodedSize(16777215), 1);
    assert_eq!(CF_CFDP_GetValueEncodedSize(16777216), 1);
    assert_eq!(CF_CFDP_GetValueEncodedSize(u32::MAX as u64), 1);
    assert_eq!(CF_CFDP_GetValueEncodedSize(u32::MAX as u64 + 1), 1);
    assert_eq!(CF_CFDP_GetValueEncodedSize(u64::MAX), 1);
}

#[test]
fn test_cf_encode_integer_in_size() {
    let mut state = EncoderState::default();
    let expected_2 = [0x12u8, 0x34];
    let expected_4 = [0x00u8, 0x00, 0x12, 0x34];

    ut_cf_setup_encode_state(&mut state, vec![0xEE; 10], 0);
    CF_EncodeIntegerInSize(&mut state, 0x1234, 2);
    assert!(!is_ok_enc(&state));
    assert_eq!(state.base, vec![0xEE; 10]);

    ut_cf_setup_encode_state(&mut state, vec![0xEE; 10], 10);
    CF_EncodeIntegerInSize(&mut state, 0x1234, expected_2.len() as u8);
    assert!(is_ok_enc(&state));
    assert_eq!(cf_codec_get_position(&state.codec_state), expected_2.len());
    assert_eq!(&state.base[..expected_2.len()], &expected_2);
    assert_eq!(&state.base[expected_2.len()..], &[0xEE; 10 - 2]);

    ut_cf_setup_encode_state(&mut state, vec![0xEE; 10], 10);
    CF_EncodeIntegerInSize(&mut state, 0x1234, expected_4.len() as u8);
    assert!(is_ok_enc(&state));
    assert_eq!(cf_codec_get_position(&state.codec_state), expected_4.len());
    assert_eq!(&state.base[..expected_4.len()], &expected_4);
    assert_eq!(&state.base[expected_4.len()..], &[0xEE; 10 - 4]);
}

#[test]
fn test_cf_cfdp_encode_header_without_size() {
    let mut state = EncoderState::default();
    let mut input = LogicalPduHeader::default();
    let expected = [0x3cu8, 0xEE, 0xEE, 0x00, 0x44, 0x55, 0x66];

    input.version = 1;
    input.direction = 1;
    input.pdu_type = 1;
    input.txm_mode = 1;
    input.txn_seq_length = 1;
    input.eid_length = 1;
    input.source_eid = 0x44;
    input.sequence_num = 0x55;
    input.destination_eid = 0x66;

    ut_cf_setup_encode_state(&mut state, vec![0xEE; 10], 0);
    CF_CFDP_EncodeHeaderWithoutSize(&mut state, &input);
    assert!(!is_ok_enc(&state));
    assert_eq!(state.base, vec![0xEE; 10]);

    ut_cf_setup_encode_state(&mut state, vec![0xEE; 10], 10);
    CF_CFDP_EncodeHeaderWithoutSize(&mut state, &input);
    assert!(is_ok_enc(&state));
    assert_eq!(cf_codec_get_position(&state.codec_state), expected.len());
    assert_eq!(&state.base[..expected.len()], &expected);
    assert_eq!(&state.base[expected.len()..], &[0xEE; 10 - 7]);
}

#[test]
fn test_cf_cfdp_encode_header_final_size() {
    let mut state = EncoderState::default();
    let mut input = LogicalPduHeader::default();
    let expected = [0xEEu8, 0x12, 0x34, 0xEE];

    input.data_encoded_length = 0x1234;

    ut_cf_setup_encode_state(&mut state, vec![0xEE; 10], 0);
    CF_CFDP_EncodeHeaderFinalSize(&mut state, &input);
    assert!(!is_ok_enc(&state));
    assert_eq!(state.base, vec![0xEE; 10]);

    ut_cf_setup_encode_state(&mut state, vec![0xEE; 10], 10);
    state.codec_state.next_offset = std::mem::size_of::<u32>();
    CF_CFDP_EncodeHeaderFinalSize(&mut state, &input);
    assert!(!is_ok_enc(&state));
    assert_eq!(&state.base[..expected.len()], &expected);

    CF_CFDP_EncodeHeaderFinalSize(&mut state, &input);
    assert!(!is_ok_enc(&state));
}

#[test]
fn test_cf_cfdp_encode_file_directive_header() {
    let mut state = EncoderState::default();
    let mut input = LogicalPduFileDirectiveHeader::default();
    let expected = [0x07u8];

    input.directive_code = 7;

    ut_cf_setup_encode_state(&mut state, vec![0xEE; 10], 0);
    CF_CFDP_EncodeFileDirectiveHeader(&mut state, &input);
    assert!(!is_ok_enc(&state));
    assert_eq!(state.base, vec![0xEE; 10]);

    ut_cf_setup_encode_state(&mut state, vec![0xEE; 10], 10);
    CF_CFDP_EncodeFileDirectiveHeader(&mut state, &input);
    assert!(is_ok_enc(&state));
    assert_eq!(cf_codec_get_position(&state.codec_state), expected.len());
    assert_eq!(&state.base[..expected.len()], &expected);
    assert_eq!(&state.base[expected.len()..], &[0xEE; 10 - 1]);
}

#[test]
fn test_cf_cfdp_encode_lv() {
    let mut state = EncoderState::default();
    let mut input = LogicalLv::default();
    let ref_data = vec![0x45u8, 0x67, 0x89];
    let expected = [0x03u8, 0x45, 0x67, 0x89];
    let expected_nodata = [0x00u8];

    input.length = ref_data.len() as u8;
    input.data_ptr = Some(ref_data.clone());

    ut_cf_setup_encode_state(&mut state, vec![0xEE; 10], 0);
    CF_CFDP_EncodeLV(&mut state, &input);
    assert!(!is_ok_enc(&state));
    assert_eq!(state.base, vec![0xEE; 10]);

    ut_cf_setup_encode_state(&mut state, vec![0xEE; 10], 10);
    CF_CFDP_EncodeLV(&mut state, &input);
    assert!(is_ok_enc(&state));
    assert_eq!(cf_codec_get_position(&state.codec_state), expected.len());
    assert_eq!(&state.base[..expected.len()], &expected);
    assert_eq!(&state.base[expected.len()..], &[0xEE; 10 - 4]);

    ut_cf_setup_encode_state(&mut state, vec![0xEE; 10], expected.len() - 1);
    CF_CFDP_EncodeLV(&mut state, &input);
    assert!(!is_ok_enc(&state));

    input.data_ptr = None;
    ut_cf_setup_encode_state(&mut state, vec![0xEE; 10], 10);
    CF_CFDP_EncodeLV(&mut state, &input);
    assert!(!is_ok_enc(&state));

    input.length = 0;
    ut_cf_setup_encode_state(&mut state, vec![0xEE; 10], 10);
    CF_CFDP_EncodeLV(&mut state, &input);
    assert!(is_ok_enc(&state));
    assert_eq!(cf_codec_get_position(&state.codec_state), expected_nodata.len());
    assert_eq!(&state.base[..expected_nodata.len()], &expected_nodata);
}

#[test]
fn test_cf_cfdp_encode_tlv() {
    let mut state = EncoderState::default();
    let mut input = LogicalTlv::default();
    let expected_tlv = [0x06u8, 0x01, 0x77];
    let expected_other = [0x01u8, 0x03, b'a', b'b', b'c'];
    let expected_nodata = [0x01u8, 0x00];

    input.type_ = CF_CFDP_TLV_TYPE_ENTITY_ID;
    input.length = 1;
    input.data.eid = 0x77;

    ut_cf_setup_encode_state(&mut state, vec![0xEE; 10], 0);
    CF_CFDP_EncodeTLV(&mut state, &input);
    assert!(!is_ok_enc(&state));
    assert_eq!(state.base, vec![0xEE; 10]);

    ut_cf_setup_encode_state(&mut state, vec![0xEE; 10], 10);
    CF_CFDP_EncodeTLV(&mut state, &input);
    assert!(is_ok_enc(&state));
    assert_eq!(cf_codec_get_position(&state.codec_state), expected_tlv.len());
    assert_eq!(&state.base[..expected_tlv.len()], &expected_tlv);
    assert_eq!(&state.base[expected_tlv.len()..], &[0xEE; 10 - 3]);

    input.type_ = 1;
    input.length = 3;
    input.data.data_ptr = Some(b"abc".to_vec());
    ut_cf_setup_encode_state(&mut state, vec![0xEE; 10], 10);
    CF_CFDP_EncodeTLV(&mut state, &input);
    assert!(is_ok_enc(&state));
    assert_eq!(cf_codec_get_position(&state.codec_state), expected_other.len());
    assert_eq!(&state.base[..expected_other.len()], &expected_other);

    ut_cf_setup_encode_state(&mut state, vec![0xEE; 10], expected_other.len() - 1);
    CF_CFDP_EncodeTLV(&mut state, &input);
    assert!(!is_ok_enc(&state));

    input.data.data_ptr = None;
    ut_cf_setup_encode_state(&mut state, vec![0xEE; 10], 10);
    CF_CFDP_EncodeTLV(&mut state, &input);
    assert!(!is_ok_enc(&state));

    input.length = 0;
    ut_cf_setup_encode_state(&mut state, vec![0xEE; 10], 10);
    CF_CFDP_EncodeTLV(&mut state, &input);
    assert!(is_ok_enc(&state));
    assert_eq!(cf_codec_get_position(&state.codec_state), expected_nodata.len());
    assert_eq!(&state.base[..expected_nodata.len()], &expected_nodata);
}

#[test]
fn test_cf_cfdp_encode_segment_request() {
    let mut state = EncoderState::default();
    let mut input = LogicalSegmentRequest::default();
    let expected = [0x11u8, 0x22, 0x33, 0x44, 0x55, 0x66, 0x77, 0x88];

    input.offset_start = 0x11223344;
    input.offset_end = 0x55667788;

    ut_cf_setup_encode_state(&mut state, vec![0xEE; 10], 0);
    CF_CFDP_EncodeSegmentRequest(&mut state, &input);
    assert!(!is_ok_enc(&state));
    assert_eq!(state.base, vec![0xEE; 10]);

    ut_cf_setup_encode_state(&mut state, vec![0xEE; 10], 10);
    CF_CFDP_EncodeSegmentRequest(&mut state, &input);
    assert!(is_ok_enc(&state));
    assert_eq!(cf_codec_get_position(&state.codec_state), expected.len());
    assert_eq!(&state.base[..expected.len()], &expected);
    assert_eq!(&state.base[expected.len()..], &[0xEE; 10 - 8]);
}

#[test]
fn test_cf_cfdp_encode_all_tlv() {
    let mut state = EncoderState::default();
    let mut input = LogicalTlvList::default();
    let expected = [0x06u8, 0x01, 0x88, 0x06, 0x01, 0x99];

    ut_cf_setup_encode_state(&mut state, vec![0xEE; 10], 0);
    CF_CFDP_EncodeAllTlv(&mut state, &input);
    assert!(is_ok_enc(&state));
    assert_eq!(state.base, vec![0xEE; 10]);

    input.num_tlv = 2;
    input.tlv[0].type_ = CF_CFDP_TLV_TYPE_ENTITY_ID;
    input.tlv[0].length = 1;
    input.tlv[0].data.eid = 0x88;
    input.tlv[1].type_ = CF_CFDP_TLV_TYPE_ENTITY_ID;
    input.tlv[1].length = 1;
    input.tlv[1].data.eid = 0x99;
    CF_CFDP_EncodeAllTlv(&mut state, &input);
    assert!(!is_ok_enc(&state));
    assert_eq!(state.base, vec![0xEE; 10]);

    ut_cf_setup_encode_state(&mut state, vec![0xEE; 10], 10);
    CF_CFDP_EncodeAllTlv(&mut state, &input);
    assert!(is_ok_enc(&state));
    assert_eq!(cf_codec_get_position(&state.codec_state), expected.len());
    assert_eq!(&state.base[..expected.len()], &expected);
    assert_eq!(&state.base[expected.len()..], &[0xEE; 10 - 6]);
}

#[test]
fn test_cf_cfdp_encode_all_segments() {
    let mut state = EncoderState::default();
    let mut input = LogicalSegmentList::default();
    let expected = [
        0x00u8, 0x00, 0x00, 0x01, 0x00, 0x00, 0x00, 0x02, 0x00, 0x00, 0x00, 0x03, 0x00, 0x00, 0x00,
        0x04,
    ];

    ut_cf_setup_encode_state(&mut state, vec![0xEE; 20], 0);
    CF_CFDP_EncodeAllSegments(&mut state, &input);
    assert!(is_ok_enc(&state));
    assert_eq!(state.base, vec![0xEE; 20]);

    input.num_segments = 2;
    input.segments[0].offset_start = 0x1;
    input.segments[0].offset_end = 0x2;
    input.segments[1].offset_start = 0x3;
    input.segments[1].offset_end = 0x4;
    CF_CFDP_EncodeAllSegments(&mut state, &input);
    assert!(!is_ok_enc(&state));
    assert_eq!(state.base, vec![0xEE; 20]);

    ut_cf_setup_encode_state(&mut state, vec![0xEE; 20], 20);
    CF_CFDP_EncodeAllSegments(&mut state, &input);
    assert!(is_ok_enc(&state));
    assert_eq!(cf_codec_get_position(&state.codec_state), expected.len());
    assert_eq!(&state.base[..expected.len()], &expected);
    assert_eq!(&state.base[expected.len()..], &[0xEE; 20 - 16]);
}

#[test]
fn test_cf_cfdp_encode_md() {
    let mut state = EncoderState::default();
    let mut input = LogicalPduMd::default();
    let expected = [
        0x00u8, 0x00, 0x00, 0x12, 0x34, 0x03, b's', b'r', b'c', 0x04, b'd', b'e', b's', b't',
    ];

    input.size = 0x1234;
    input.dest_filename.length = 4;
    input.dest_filename.data_ptr = Some(b"dest".to_vec());
    input.source_filename.length = 3;
    input.source_filename.data_ptr = Some(b"src".to_vec());

    ut_cf_setup_encode_state(&mut state, vec![0xEE; 20], 0);
    CF_CFDP_EncodeMd(&mut state, &input);
    assert!(!is_ok_enc(&state));
    assert_eq!(state.base, vec![0xEE; 20]);

    ut_cf_setup_encode_state(&mut state, vec![0xEE; 20], 20);
    CF_CFDP_EncodeMd(&mut state, &input);
    assert!(is_ok_enc(&state));
    assert_eq!(cf_codec_get_position(&state.codec_state), expected.len());
    assert_eq!(&state.base[..expected.len()], &expected);
    assert_eq!(&state.base[expected.len()..], &[0xEE; 20 - 14]);
}

#[test]
fn test_cf_cfdp_encode_file_data_header() {
    let mut state = EncoderState::default();
    let mut input = LogicalPduFileDataHeader::default();
    let expected_basic = [0x00u8, 0x00, 0x00, 0x13];
    let expected_meta = [
        0x41u8, 0x00, 0x00, 0x00, 0x00, 0x00, 0x00, 0x00, 0x11, 0x00, 0x00, 0x00, 0x13,
    ];

    input.offset = 0x13;
    input.data_len = 4;
    input.data_ptr = Some(b"data".to_vec());

    ut_cf_setup_encode_state(&mut state, vec![0xEE; 20], 0);
    CF_CFDP_EncodeFileDataHeader(&mut state, false, &input);
    assert!(!is_ok_enc(&state));
    assert_eq!(state.base, vec![0xEE; 20]);

    ut_cf_setup_encode_state(&mut state, vec![0xEE; 20], 20);
    CF_CFDP_EncodeFileDataHeader(&mut state, false, &input);
    assert!(is_ok_enc(&state));
    assert_eq!(cf_codec_get_position(&state.codec_state), expected_basic.len());
    assert_eq!(&state.base[..expected_basic.len()], &expected_basic);
    assert_eq!(&state.base[expected_basic.len()..], &[0xEE; 20 - 4]);

    input.continuation_state = 1;
    input.segment_list.num_segments = 1;
    input.segment_list.segments[0].offset_start = 0;
    input.segment_list.segments[0].offset_end = 0x11;
    ut_cf_setup_encode_state(&mut state, vec![0xEE; 20], 20);
    CF_CFDP_EncodeFileDataHeader(&mut state, true, &input);
    assert!(is_ok_enc(&state));
    assert_eq!(cf_codec_get_position(&state.codec_state), expected_meta.len());
    assert_eq!(&state.base[..expected_meta.len()], &expected_meta);
}

#[test]
fn test_cf_cfdp_encode_eof() {
    let mut state = EncoderState::default();
    let mut input = LogicalPduEof::default();
    let expected = [0x10u8, 0x12, 0x34, 0x56, 0x78, 0x00, 0x00, 0x45, 0x67, 0x06, 0x01, 0xaa];

    input.crc = 0x12345678;
    input.size = 0x4567;
    input.cc = 1;
    input.tlv_list.num_tlv = 1;
    input.tlv_list.tlv[0].type_ = CF_CFDP_TLV_TYPE_ENTITY_ID;
    input.tlv_list.tlv[0].length = 1;
    input.tlv_list.tlv[0].data.eid = 0xaa;

    ut_cf_setup_encode_state(&mut state, vec![0xEE; 20], 0);
    CF_CFDP_EncodeEof(&mut state, &input);
    assert!(!is_ok_enc(&state));
    assert_eq!(state.base, vec![0xEE; 20]);

    ut_cf_setup_encode_state(&mut state, vec![0xEE; 20], 20);
    CF_CFDP_EncodeEof(&mut state, &input);
    assert!(is_ok_enc(&state));
    assert_eq!(cf_codec_get_position(&state.codec_state), expected.len());
    assert_eq!(&state.base[..expected.len()], &expected);
    assert_eq!(&state.base[expected.len()..], &[0xEE; 20 - 12]);
}

#[test]
fn test_cf_cfdp_encode_fin() {
    let mut state = EncoderState::default();
    let mut input = LogicalPduFin::default();
    let expected = [0x16u8];

    input.cc = 1;
    input.delivery_code = 1;
    input.file_status = 2;

    ut_cf_setup_encode_state(&mut state, vec![0xEE; 10], 0);
    CF_CFDP_EncodeFin(&mut state, &input);
    assert!(!is_ok_enc(&state));
    assert_eq!(state.base, vec![0xEE; 10]);

    ut_cf_setup_encode_state(&mut state, vec![0xEE; 10], 10);
    CF_CFDP_EncodeFin(&mut state, &input);
    assert!(is_ok_enc(&state));
    assert_eq!(cf_codec_get_position(&state.codec_state), expected.len());
    assert_eq!(&state.base[..expected.len()], &expected);
    assert_eq!(&state.base[expected.len()..], &[0xEE; 10 - 1]);
}

#[test]
fn test_cf_cfdp_encode_ack() {
    let mut state = EncoderState::default();
    let mut input = LogicalPduAck::default();
    let expected = [0x51u8, 0x23];

    input.ack_directive_code = 5;
    input.ack_subtype_code = 1;
    input.cc = 2;
    input.txn_status = 3;

    ut_cf_setup_encode_state(&mut state, vec![0xEE; 10], 0);
    CF_CFDP_EncodeAck(&mut state, &input);
    assert!(!is_ok_enc(&state));
    assert_eq!(state.base, vec![0xEE; 10]);

    ut_cf_setup_encode_state(&mut state, vec![0xEE; 10], 10);
    CF_CFDP_EncodeAck(&mut state, &input);
    assert!(is_ok_enc(&state));
    assert_eq!(cf_codec_get_position(&state.codec_state), expected.len());
    assert_eq!(&state.base[..expected.len()], &expected);
    assert_eq!(&state.base[expected.len()..], &[0xEE; 10 - 2]);
}

#[test]
fn test_cf_cfdp_encode_nak() {
    let mut state = EncoderState::default();
    let mut input = LogicalPduNak::default();
    let expected = [
        0x00u8, 0x00, 0x01, 0x02, 0x00, 0x00, 0x03, 0x04, 0x00, 0x00, 0x00, 0x05, 0x00, 0x00, 0x00,
        0x06, 0x00, 0x00, 0x00, 0x07, 0x00, 0x00, 0x00, 0x08,
    ];

    input.scope_start = 0x0102;
    input.scope_end = 0x0304;
    input.segment_list.num_segments = 2;
    input.segment_list.segments[0].offset_start = 0x5;
    input.segment_list.segments[0].offset_end = 0x6;
    input.segment_list.segments[1].offset_start = 0x7;
    input.segment_list.segments[1].offset_end = 0x8;

    ut_cf_setup_encode_state(&mut state, vec![0xEE; 30], 0);
    CF_CFDP_EncodeNak(&mut state, &input);
    assert!(!is_ok_enc(&state));
    assert_eq!(state.base, vec![0xEE; 30]);

    ut_cf_setup_encode_state(&mut state, vec![0xEE; 30], 30);
    CF_CFDP_EncodeNak(&mut state, &input);
    assert!(is_ok_enc(&state));
    assert_eq!(cf_codec_get_position(&state.codec_state), expected.len());
    assert_eq!(&state.base[..expected.len()], &expected);
    assert_eq!(&state.base[expected.len()..], &[0xEE; 30 - 24]);
}

#[test]
fn test_cf_cfdp_encode_crc() {
    let mut state = EncoderState::default();
    let input = 0xdeadbeefu32;
    let expected = [0xdeu8, 0xad, 0xbe, 0xef];

    ut_cf_setup_encode_state(&mut state, vec![0xEE; 10], 0);
    CF_CFDP_EncodeCrc(&mut state, &input);
    assert!(!is_ok_enc(&state));
    assert_eq!(state.base, vec![0xEE; 10]);

    ut_cf_setup_encode_state(&mut state, vec![0xEE; 10], 10);
    CF_CFDP_EncodeCrc(&mut state, &input);
    assert!(is_ok_enc(&state));
    assert_eq!(cf_codec_get_position(&state.codec_state), expected.len());
    assert_eq!(&state.base[..expected.len()], &expected);
    assert_eq!(&state.base[expected.len()..], &[0xEE; 10 - 4]);
}

#[test]
fn test_cf_decode_integer_in_size() {
    let mut state = DecoderState::default();
    let bytes_2 = vec![0x12u8, 0x34];
    let bytes_4 = vec![0x00u8, 0x56, 0x78, 0x9a];

    ut_cf_setup_decode_state(&mut state, bytes_2.clone(), 0);
    assert_eq!(CF_DecodeIntegerInSize(&mut state, 2), 0);
    assert!(!is_ok_dec(&state));

    ut_cf_setup_decode_state(&mut state, bytes_2.clone(), bytes_2.len());
    assert_eq!(CF_DecodeIntegerInSize(&mut state, bytes_2.len() as u8), 0x1234);
    assert!(is_ok_dec(&state));
    assert_eq!(cf_codec_get_position(&state.codec_state), bytes_2.len());

    ut_cf_setup_decode_state(&mut state, bytes_4.clone(), bytes_4.len());
    assert_eq!(CF_DecodeIntegerInSize(&mut state, bytes_4.len() as u8), 0x56789a);
    assert!(is_ok_dec(&state));
    assert_eq!(cf_codec_get_position(&state.codec_state), bytes_4.len());
}

#[test]
fn test_cf_cfdp_decode_header() {
    let mut state = DecoderState::default();
    let mut out = LogicalPduHeader::default();
    let bytes = vec![0x3cu8, 0x01, 0x02, 0x00, 0x44, 0x55, 0x66];
    let bad_eid = vec![0x3cu8, 0x01, 0x02, 0x73, 0x44, 0x55, 0x66];
    let bad_tsn = vec![0x3cu8, 0x01, 0x02, 0x37, 0x44, 0x55, 0x66];

    ut_cf_setup_decode_state(&mut state, bytes.clone(), 0);
    assert_eq!(CF_CFDP_DecodeHeader(&mut state, &mut out), 0);
    assert!(!is_ok_dec(&state));
    assert_eq!(out, LogicalPduHeader::default());

    ut_cf_setup_decode_state(&mut state, bytes.clone(), bytes.len());
    assert_eq!(CF_CFDP_DecodeHeader(&mut state, &mut out), 0);
    assert!(is_ok_dec(&state));
    assert_eq!(cf_codec_get_position(&state.codec_state), bytes.len());

    ut_cf_setup_decode_state(&mut state, bad_eid.clone(), bad_eid.len());
    assert_eq!(CF_CFDP_DecodeHeader(&mut state, &mut out), -1);

    ut_cf_setup_decode_state(&mut state, bad_tsn.clone(), bad_tsn.len());
    assert_eq!(CF_CFDP_DecodeHeader(&mut state, &mut out), -1);
}

#[test]
fn test_cf_cfdp_decode_file_directive_header() {
    let mut state = DecoderState::default();
    let mut out = LogicalPduFileDirectiveHeader::default();
    let bytes = vec![0x08u8];

    ut_cf_setup_decode_state(&mut state, bytes.clone(), 0);
    CF_CFDP_DecodeFileDirectiveHeader(&mut state, &mut out);
    assert!(!is_ok_dec(&state));
    assert_eq!(out, LogicalPduFileDirectiveHeader::default());

    ut_cf_setup_decode_state(&mut state, bytes.clone(), bytes.len());
    CF_CFDP_DecodeFileDirectiveHeader(&mut state, &mut out);
    assert!(is_ok_dec(&state));
    assert_eq!(cf_codec_get_position(&state.codec_state), bytes.len());
}

#[test]
fn test_cf_cfdp_decode_lv() {
    let mut state = DecoderState::default();
    let mut out = LogicalLv::default();
    let bytes = vec![0x03u8, 0x45, 0x67, 0x89];
    let bad_input = vec![0x32u8, 0x45, 0x67, 0x89, 0xaa];

    ut_cf_setup_decode_state(&mut state, bytes.clone(), 0);
    CF_CFDP_DecodeLV(&mut state, &mut out);
    assert!(!is_ok_dec(&state));
    assert_eq!(out, LogicalLv::default());

    ut_cf_setup_decode_state(&mut state, bytes.clone(), bytes.len());
    CF_CFDP_DecodeLV(&mut state, &mut out);
    assert!(is_ok_dec(&state));
    assert_eq!(cf_codec_get_position(&state.codec_state), bytes.len());

    ut_cf_setup_decode_state(&mut state, bad_input.clone(), bad_input.len());
    CF_CFDP_DecodeLV(&mut state, &mut out);
    assert!(!is_ok_dec(&state));
}

#[test]
fn test_cf_cfdp_decode_tlv() {
    let mut state = DecoderState::default();
    let mut out = LogicalTlv::default();
    let bytes_tlv = vec![0x06u8, 0x01, 0x77];
    let bytes_other = vec![0x01u8, 0x02, 0x88, 0x99];
    let bad_input = vec![0x06u8, 0x21, 0x88, 0x99];

    ut_cf_setup_decode_state(&mut state, bytes_tlv.clone(), 0);
    CF_CFDP_DecodeTLV(&mut state, &mut out);
    assert!(!is_ok_dec(&state));
    assert_eq!(out, LogicalTlv::default());

    ut_cf_setup_decode_state(&mut state, bytes_tlv.clone(), bytes_tlv.len());
    CF_CFDP_DecodeTLV(&mut state, &mut out);
    assert!(is_ok_dec(&state));
    assert_eq!(cf_codec_get_position(&state.codec_state), bytes_tlv.len());

    ut_cf_setup_decode_state(&mut state, bytes_other.clone(), bytes_other.len());
    CF_CFDP_DecodeTLV(&mut state, &mut out);
    assert!(is_ok_dec(&state));
    assert_eq!(cf_codec_get_position(&state.codec_state), bytes_other.len());

    ut_cf_setup_decode_state(&mut state, bad_input.clone(), bad_input.len());
    CF_CFDP_DecodeTLV(&mut state, &mut out);
    assert!(!is_ok_dec(&state));
}

#[test]
fn test_cf_cfdp_decode_segment_request() {
    let mut state = DecoderState::default();
    let mut out = LogicalSegmentRequest::default();
    let bytes = vec![0x11u8, 0x22, 0x33, 0x44, 0x55, 0x66, 0x77, 0x88];

    ut_cf_setup_decode_state(&mut state, bytes.clone(), 0);
    CF_CFDP_DecodeSegmentRequest(&mut state, &mut out);
    assert!(!is_ok_dec(&state));
    assert_eq!(out, LogicalSegmentRequest::default());

    ut_cf_setup_decode_state(&mut state, bytes.clone(), bytes.len());
    CF_CFDP_DecodeSegmentRequest(&mut state, &mut out);
    assert!(is_ok_dec(&state));
    assert_eq!(cf_codec_get_position(&state.codec_state), bytes.len());
}

#[test]
fn test_cf_cfdp_decode_all_tlv() {
    let mut state = DecoderState::default();
    let mut out = LogicalTlvList::default();
    let bytes = vec![0x06u8, 0x01, 0x88, 0x06, 0x01, 0x99];
    let bad_input = vec![0x06u8, 0x07, 0x88, 0x06, 0x03, 0x99, 0xaa];
    let long_input = vec![0u8; 2 * (CF_PDU_MAX_TLV as usize + 1)];

    ut_cf_setup_decode_state(&mut state, bytes.clone(), 0);
    CF_CFDP_DecodeAllTlv(&mut state, &mut out, CF_PDU_MAX_TLV);
    assert!(is_ok_dec(&state));

    ut_cf_setup_decode_state(&mut state, bytes.clone(), bytes.len());
    CF_CFDP_DecodeAllTlv(&mut state, &mut out, 1);
    assert!(is_ok_dec(&state));
    assert_eq!(cf_codec_get_position(&state.codec_state), 3);
    assert_eq!(cf_codec_get_remain(&state.codec_state), 3);

    ut_cf_setup_decode_state(&mut state, bytes.clone(), bytes.len());
    CF_CFDP_DecodeAllTlv(&mut state, &mut out, CF_PDU_MAX_TLV);
    assert!(is_ok_dec(&state));
    assert_eq!(cf_codec_get_position(&state.codec_state), bytes.len());

    ut_cf_setup_decode_state(&mut state, bad_input.clone(), bad_input.len());
    CF_CFDP_DecodeAllTlv(&mut state, &mut out, CF_PDU_MAX_TLV);
    assert!(!is_ok_dec(&state));

    ut_cf_setup_decode_state(&mut state, long_input.clone(), long_input.len());
    CF_CFDP_DecodeAllTlv(&mut state, &mut out, 1 + CF_PDU_MAX_TLV);
    assert!(!is_ok_dec(&state));
}

#[test]
fn test_cf_cfdp_decode_all_segments() {
    let mut state = DecoderState::default();
    let mut out = LogicalSegmentList::default();
    let bytes = vec![
        0x00u8, 0x00, 0x00, 0x01, 0x00, 0x00, 0x00, 0x02, 0x00, 0x00, 0x00, 0x03, 0x00, 0x00, 0x00,
        0x04,
    ];
    let long_input = vec![0u8; 8 * (CF_PDU_MAX_SEGMENTS as usize + 1)];

    ut_cf_setup_decode_state(&mut state, bytes.clone(), 0);
    CF_CFDP_DecodeAllSegments(&mut state, &mut out, CF_PDU_MAX_SEGMENTS);
    assert!(is_ok_dec(&state));

    ut_cf_setup_decode_state(&mut state, bytes.clone(), bytes.len());
    CF_CFDP_DecodeAllSegments(&mut state, &mut out, 1);
    assert!(is_ok_dec(&state));
    assert_eq!(cf_codec_get_position(&state.codec_state), 8);
    assert_eq!(cf_codec_get_remain(&state.codec_state), 8);

    ut_cf_setup_decode_state(&mut state, bytes.clone(), bytes.len());
    CF_CFDP_DecodeAllSegments(&mut state, &mut out, CF_PDU_MAX_SEGMENTS);
    assert!(is_ok_dec(&state));
    assert_eq!(cf_codec_get_position(&state.codec_state), bytes.len());

    ut_cf_setup_decode_state(&mut state, long_input.clone(), long_input.len());
    CF_CFDP_DecodeAllSegments(&mut state, &mut out, 1 + CF_PDU_MAX_SEGMENTS);
    assert!(!is_ok_dec(&state));
}

#[test]
fn test_cf_cfdp_decode_md() {
    let mut state = DecoderState::default();
    let mut out = LogicalPduMd::default();
    let bytes = vec![
        0x00u8, 0x00, 0x00, 0x12, 0x34, 0x03, b's', b'r', b'c', 0x04, b'd', b'e', b's', b't',
    ];
    let bad_input = vec![
        0x00u8, 0x00, 0x00, 0x12, 0x34, 0x56, b's', b'r', b'c', 0x04, b'd', b'e', b's', b't',
    ];

    ut_cf_setup_decode_state(&mut state, bytes.clone(), 0);
    CF_CFDP_DecodeMd(&mut state, &mut out);
    assert!(!is_ok_dec(&state));
    assert_eq!(out, LogicalPduMd::default());

    ut_cf_setup_decode_state(&mut state, bytes.clone(), bytes.len());
    CF_CFDP_DecodeMd(&mut state, &mut out);
    assert!(is_ok_dec(&state));
    assert_eq!(cf_codec_get_position(&state.codec_state), bytes.len());

    ut_cf_setup_decode_state(&mut state, bad_input.clone(), bad_input.len());
    CF_CFDP_DecodeMd(&mut state, &mut out);
    assert!(!is_ok_dec(&state));
}

#[test]
fn test_cf_cfdp_decode_file_data_header() {
    let mut state = DecoderState::default();
    let mut out = LogicalPduFileDataHeader::default();
    let bytes_basic = vec![0x00u8, 0x00, 0x00, 0x13, 0xdd];
    let bytes_meta = vec![
        0x41u8, 0x01, 0x02, 0x03, 0x04, 0x05, 0x06, 0x07, 0x08, 0x00, 0x00, 0x00, 0x13, 0xcc,
    ];
    let bad_input_1 = vec![
        0xffu8, 0x01, 0x02, 0x03, 0x04, 0x05, 0x06, 0x07, 0x08, 0x00, 0x00, 0x00, 0x13, 0xcc,
    ];
    let bad_input_2 = vec![0x41u8, 0x01, 0x02, 0x03, 0x04, 0x05, 0x06];

    ut_cf_setup_decode_state(&mut state, bytes_basic.clone(), 0);
    CF_CFDP_DecodeFileDataHeader(&mut state, false, &mut out);
    assert!(!is_ok_dec(&state));

    ut_cf_setup_decode_state(&mut state, bytes_basic.clone(), bytes_basic.len());
    CF_CFDP_DecodeFileDataHeader(&mut state, false, &mut out);
    assert!(is_ok_dec(&state));
    assert_eq!(cf_codec_get_position(&state.codec_state), bytes_basic.len());

    ut_cf_setup_decode_state(&mut state, bytes_meta.clone(), bytes_meta.len());
    CF_CFDP_DecodeFileDataHeader(&mut state, true, &mut out);
    assert!(is_ok_dec(&state));
    assert_eq!(cf_codec_get_position(&state.codec_state), bytes_meta.len());

    ut_cf_setup_decode_state(&mut state, bad_input_1.clone(), bad_input_1.len());
    CF_CFDP_DecodeFileDataHeader(&mut state, true, &mut out);
    assert!(!is_ok_dec(&state));

    ut_cf_setup_decode_state(&mut state, bad_input_2.clone(), bad_input_2.len());
    CF_CFDP_DecodeFileDataHeader(&mut state, true, &mut out);
    assert!(!is_ok_dec(&state));
}

#[test]
fn test_cf_cfdp_decode_eof() {
    let mut state = DecoderState::default();
    let mut out = LogicalPduEof::default();
    let bytes = vec![0x10u8, 0x12, 0x34, 0x56, 0x78, 0x00, 0x00, 0x45, 0x67, 0x06, 0x01, 0xaa];
    let bad_input = vec![
        0x10u8, 0x12, 0x34, 0x56, 0x78, 0x00, 0x00, 0x45, 0x67, 0x06, 0x06, 0xaa, 0xbb,
    ];

    ut_cf_setup_decode_state(&mut state, bytes.clone(), 0);
    CF_CFDP_DecodeEof(&mut state, &mut out);
    assert!(!is_ok_dec(&state));
    assert_eq!(out, LogicalPduEof::default());

    ut_cf_setup_decode_state(&mut state, bytes.clone(), bytes.len());
    CF_CFDP_DecodeEof(&mut state, &mut out);
    assert!(is_ok_dec(&state));
    assert_eq!(cf_codec_get_position(&state.codec_state), bytes.len());

    ut_cf_setup_decode_state(&mut state, bad_input.clone(), bad_input.len());
    CF_CFDP_DecodeEof(&mut state, &mut out);
    assert!(!is_ok_dec(&state));
}

#[test]
fn test_cf_cfdp_decode_fin() {
    let mut state = DecoderState::default();
    let mut out = LogicalPduFin::default();
    let bytes = vec![0x16u8];

    ut_cf_setup_decode_state(&mut state, bytes.clone(), 0);
    CF_CFDP_DecodeFin(&mut state, &mut out);
    assert!(!is_ok_dec(&state));
    assert_eq!(out, LogicalPduFin::default());

    ut_cf_setup_decode_state(&mut state, bytes.clone(), bytes.len());
    CF_CFDP_DecodeFin(&mut state, &mut out);
    assert!(is_ok_dec(&state));
    assert_eq!(cf_codec_get_position(&state.codec_state), bytes.len());
}

#[test]
fn test_cf_cfdp_decode_ack() {
    let mut state = DecoderState::default();
    let mut out = LogicalPduAck::default();
    let bytes = vec![0x51u8, 0x23];

    ut_cf_setup_decode_state(&mut state, bytes.clone(), 0);
    CF_CFDP_DecodeAck(&mut state, &mut out);
    assert!(!is_ok_dec(&state));
    assert_eq!(out, LogicalPduAck::default());

    ut_cf_setup_decode_state(&mut state, bytes.clone(), bytes.len());
    CF_CFDP_DecodeAck(&mut state, &mut out);
    assert!(is_ok_dec(&state));
    assert_eq!(cf_codec_get_position(&state.codec_state), bytes.len());
}

#[test]
fn test_cf_cfdp_decode_nak() {
    let mut state = DecoderState::default();
    let mut out = LogicalPduNak::default();
    let bytes = vec![
        0x00u8, 0x00, 0x01, 0x02, 0x00, 0x00, 0x03, 0x04, 0x00, 0x00, 0x00, 0x05, 0x00, 0x00, 0x00,
        0x06, 0x00, 0x00, 0x00, 0x07, 0x00, 0x00, 0x00, 0x08,
    ];

    ut_cf_setup_decode_state(&mut state, bytes.clone(), 0);
    CF_CFDP_DecodeNak(&mut state, &mut out);
    assert!(!is_ok_dec(&state));
    assert_eq!(out, LogicalPduNak::default());

    ut_cf_setup_decode_state(&mut state, bytes.clone(), bytes.len());
    CF_CFDP_DecodeNak(&mut state, &mut out);
    assert!(is_ok_dec(&state));
    assert_eq!(cf_codec_get_position(&state.codec_state), bytes.len());
}

#[test]
fn test_cf_cfdp_decode_crc() {
    let mut state = DecoderState::default();
    let mut out = 0xEEEEEEEEu32;
    let bytes = vec![0xdeu8, 0xad, 0xbe, 0xef];

    ut_cf_setup_decode_state(&mut state, Vec::new(), 0);
    CF_CFDP_DecodeCrc(&mut state, &mut out);
    assert!(!is_ok_dec(&state));
    assert_eq!(out, 0xEEEEEEEE);

    ut_cf_setup_decode_state(&mut state, bytes.clone(), bytes.len());
    CF_CFDP_DecodeCrc(&mut state, &mut out);
    assert!(is_ok_dec(&state));
    assert_eq!(cf_codec_get_position(&state.codec_state), bytes.len());
    assert_eq!(out, 0xdeadbeef);
}
