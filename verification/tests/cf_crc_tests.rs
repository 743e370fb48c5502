#![allow(non_snake_case)]

use lib::crc::{CF_CRC_Digest, CF_CRC_Finalize, CF_CRC_Start, CF_Crc_t};

#[test]
fn test_cf_crc_start() {
    let mut crc = CF_Crc_t { working: 0xFFFFFFFF, result: 0xFFFFFFFF, index: 0xFFFFFFFF };

    CF_CRC_Start(&mut crc);

    assert_eq!(crc.working, 0);
    assert_eq!(crc.result, 0);
    assert_eq!(crc.index, 0);
}

#[test]
fn test_cf_crc_digest() {
    let mut crc = CF_Crc_t::default();
    let data: Vec<u8> = vec![1, 2, 3, 4, 5];

    CF_CRC_Start(&mut crc);

    /* Zero length should leave crc as zeros */
    CF_CRC_Digest(&mut crc, &Vec::new(), 0);
    assert_eq!(crc.working, 0);
    assert_eq!(crc.result, 0);
    assert_eq!(crc.index, 0);

    /* Digest data and confirm */
    CF_CRC_Digest(&mut crc, &data, data.len());
    assert_eq!(
        crc.working,
        (data[1] as u32) << 24 | (data[2] as u32) << 16 | (data[3] as u32) << 8 | data[4] as u32
    );
    assert_eq!(
        crc.result,
        (data[0] as u32) << 24 | (data[1] as u32) << 16 | (data[2] as u32) << 8 | data[3] as u32
    );
    assert_eq!(crc.index, 1);
}

#[test]
fn test_cf_crc_finalize() {
    let mut crc = CF_Crc_t::default();
    let data: Vec<u8> = vec![1, 2, 3, 4, 5];

    CF_CRC_Start(&mut crc);

    /* Test with clear crc */
    CF_CRC_Finalize(&mut crc);
    assert_eq!(crc.working, 0);
    assert_eq!(crc.result, 0);
    assert_eq!(crc.index, 0);

    CF_CRC_Digest(&mut crc, &data, data.len());

    /* Test with filled in crc */
    CF_CRC_Finalize(&mut crc);
    assert_eq!(crc.working, 0);
    assert_eq!(
        crc.result,
        ((data[0] as u32 + data[4] as u32) << 24) | (data[1] as u32) << 16 | (data[2] as u32) << 8
            | data[3] as u32
    );
    assert_eq!(crc.index, 0);
}

#[test]
fn crc_checksum_of_pieces_equals_checksum_of_whole() {
    let data: Vec<u8> = vec![0x10, 0x20, 0x30, 0x40, 0x50, 0x60, 0x70];
    let mut whole = CF_Crc_t::default();
    CF_CRC_Start(&mut whole);
    CF_CRC_Digest(&mut whole, &data, data.len());
    CF_CRC_Finalize(&mut whole);

    let mut pieces = CF_Crc_t::default();
    CF_CRC_Start(&mut pieces);
    CF_CRC_Digest(&mut pieces, &vec![0x10, 0x20, 0x30], 3);
    CF_CRC_Digest(&mut pieces, &vec![0x40, 0x50, 0x60, 0x70], 4);
    CF_CRC_Finalize(&mut pieces);

    assert_eq!(whole.result, pieces.result);
    assert_eq!(whole.result, 0x1020_3040u32.wrapping_add(0x5060_7000));
}

#[test]
fn crc_digest_uses_only_the_first_len_bytes() {
    let mut crc = CF_Crc_t::default();
    CF_CRC_Start(&mut crc);
    CF_CRC_Digest(&mut crc, &vec![1, 2, 3, 4, 9, 9], 4);
    CF_CRC_Finalize(&mut crc);
    assert_eq!(crc.result, 0x0102_0304);
}

#[test]
fn crc_sum_wraps_at_32_bits() {
    let mut crc = CF_Crc_t::default();
    CF_CRC_Start(&mut crc);
    CF_CRC_Digest(&mut crc, &vec![0xff, 0xff, 0xff, 0xff, 0x00, 0x00, 0x00, 0x02], 8);
    CF_CRC_Finalize(&mut crc);
    assert_eq!(crc.result, 1);
}
