use lib::chunk::{
    cf_chunk_list_add, cf_chunk_list_compute_gaps, cf_chunk_list_get_first_chunk, cf_chunk_list_init,
    cf_chunk_list_remove_from_first, cf_chunk_list_reset, CfChunk, CfChunkList,
};

const TEST_CF_MAX_GAPS: u32 = 3;

/// Fills the list: entry `i` has size `i + 1`, with a gap of 10 after each one.
///
///  1    2     3     4     5
/// 0-1 11-13 23-26 36-40 50-55
fn ut_cf_chunk_setup_full(clist: &mut CfChunkList) {
    clist.chunks[0].offset = 0;
    for cidx in 0..clist.max_chunks as usize {
        clist.chunks[cidx].size = cidx as u32 + 1;
        if cidx > 0 {
            clist.chunks[cidx].offset = clist.chunks[cidx - 1].offset + clist.chunks[cidx - 1].size + 10;
        }
    }
    clist.count = clist.max_chunks;
}

fn ut_cf_chunk_print(clist: &CfChunkList) {
    println!("Chunk list: index{{offset, size}}");
    for cidx in 0..clist.count as usize {
        println!("{}{{{}, {}}}", cidx, clist.chunks[cidx].offset, clist.chunks[cidx].size);
    }
}

fn new_list(n: usize) -> CfChunkList {
    let mut clist = CfChunkList::default();
    let chunks = vec![CfChunk { offset: 0xFFFF_FFFF, size: 0xFFFF_FFFF }; n];
    cf_chunk_list_init(&mut clist, n as u32, chunks);
    clist
}

/// Runs the gap computation and returns the count and the gaps it reported.
fn gaps_of(clist: &CfChunkList, max_gaps: u32, total: u32, start: u32) -> (u32, Vec<CfChunk>) {
    let mut gaps = Vec::new();
    let n = cf_chunk_list_compute_gaps(clist, max_gaps, total, start, &mut gaps);
    (n, gaps)
}

#[test]
fn test_cf_chunk_create_add_reset() {
    let mut clist = CfChunkList::default();
    let chunks = vec![CfChunk { offset: 0xFFFF_FFFF, size: 0xFFFF_FFFF }; 3];
    cf_chunk_list_init(&mut clist, 3, chunks);
    assert_eq!(clist.count, 0);
    assert_eq!(clist.max_chunks, 3);
    assert_eq!(clist.chunks[1].size, 0);
    assert_eq!(clist.chunks[1].offset, 0);

    // Add to empty list
    cf_chunk_list_add(&mut clist, 5, 1);
    assert_eq!(clist.chunks[0].offset, 5);
    assert_eq!(clist.chunks[0].size, 1);
    assert_eq!(clist.count, 1);

    // Add to end of list
    cf_chunk_list_add(&mut clist, 10, 1);
    assert_eq!(clist.chunks[0].offset, 5);
    assert_eq!(clist.chunks[0].size, 1);
    assert_eq!(clist.chunks[1].offset, 10);
    assert_eq!(clist.chunks[1].size, 1);
    assert_eq!(clist.count, 2);

    // Add to front of list
    cf_chunk_list_add(&mut clist, 0, 2);
    assert_eq!(clist.chunks[0].offset, 0);
    assert_eq!(clist.chunks[0].size, 2);
    assert_eq!(clist.chunks[1].offset, 5);
    assert_eq!(clist.chunks[1].size, 1);
    assert_eq!(clist.chunks[2].offset, 10);
    assert_eq!(clist.chunks[2].size, 1);
    assert_eq!(clist.count, 3);

    // Force 1 to drop (first smallest), with new at the end
    cf_chunk_list_add(&mut clist, 20, 2);
    assert_eq!(clist.chunks[0].offset, 0);
    assert_eq!(clist.chunks[0].size, 2);
    assert_eq!(clist.chunks[1].offset, 10);
    assert_eq!(clist.chunks[1].size, 1);
    assert_eq!(clist.chunks[2].offset, 20);
    assert_eq!(clist.chunks[2].size, 2);
    assert_eq!(clist.count, 3);

    // Nominal combine previous (no overlap, at the end)
    cf_chunk_list_add(&mut clist, 22, 2);
    assert_eq!(clist.chunks[0].offset, 0);
    assert_eq!(clist.chunks[0].size, 2);
    assert_eq!(clist.chunks[1].offset, 10);
    assert_eq!(clist.chunks[1].size, 1);
    assert_eq!(clist.chunks[2].offset, 20);
    assert_eq!(clist.chunks[2].size, 4);
    assert_eq!(clist.count, 3);
}

#[test]
fn test_cf_chunk_combine() {
    let mut clist = new_list(5);

    ut_cf_chunk_setup_full(&mut clist);
    ut_cf_chunk_print(&clist);

    // Add chunk that won't add since list full and new chunk is smallest
    cf_chunk_list_add(&mut clist, 2, 1);
    ut_cf_chunk_print(&clist);
    assert_eq!(clist.chunks[0].offset, 0);
    assert_eq!(clist.chunks[0].size, 1);
    assert_eq!(clist.chunks[1].offset, 11);
    assert_eq!(clist.chunks[1].size, 2);
    assert_eq!(clist.count, 5);

    // Add chunk that replaces chunk 0 as the smallest chunk
    ut_cf_chunk_setup_full(&mut clist);
    cf_chunk_list_add(&mut clist, 2, 2);
    assert_eq!(clist.chunks[0].offset, 2);
    assert_eq!(clist.chunks[0].size, 2);
    assert_eq!(clist.chunks[1].offset, 11);
    assert_eq!(clist.chunks[1].size, 2);
    assert_eq!(clist.count, 5);

    // Add chunk that combines with chunk 1 w/ no overlap
    ut_cf_chunk_setup_full(&mut clist);
    cf_chunk_list_add(&mut clist, 10, 1);
    assert_eq!(clist.chunks[0].offset, 0);
    assert_eq!(clist.chunks[0].size, 1);
    assert_eq!(clist.chunks[1].offset, 10);
    assert_eq!(clist.chunks[1].size, 3);
    assert_eq!(clist.chunks[2].offset, 23);
    assert_eq!(clist.chunks[2].size, 3);
    assert_eq!(clist.count, 5);

    // Add chunk that should completely replace chunk 2 and 3, both as Next
    ut_cf_chunk_setup_full(&mut clist);
    cf_chunk_list_add(&mut clist, 20, 21);
    assert_eq!(clist.chunks[1].offset, 11);
    assert_eq!(clist.chunks[1].size, 2);
    assert_eq!(clist.chunks[2].offset, 20);
    assert_eq!(clist.chunks[2].size, 21);
    assert_eq!(clist.chunks[3].offset, 50);
    assert_eq!(clist.chunks[3].size, 5);
    assert_eq!(clist.count, 4);

    // Add chunk that combines with chunk 1, 2 and 3, (prev, next, next)
    ut_cf_chunk_setup_full(&mut clist);
    cf_chunk_list_add(&mut clist, 12, 25);
    assert_eq!(clist.chunks[0].offset, 0);
    assert_eq!(clist.chunks[0].size, 1);
    assert_eq!(clist.chunks[1].offset, 11);
    assert_eq!(clist.chunks[1].size, 29);
    assert_eq!(clist.chunks[2].offset, 50);
    assert_eq!(clist.chunks[2].size, 5);
    assert_eq!(clist.count, 3);

    // Add chunk that is a subset of 3 (should just drop)
    ut_cf_chunk_setup_full(&mut clist);
    cf_chunk_list_add(&mut clist, 37, 2);
    assert_eq!(clist.chunks[1].offset, 11);
    assert_eq!(clist.chunks[1].size, 2);
    assert_eq!(clist.chunks[2].offset, 23);
    assert_eq!(clist.chunks[2].size, 3);
    assert_eq!(clist.chunks[3].offset, 36);
    assert_eq!(clist.chunks[3].size, 4);
    assert_eq!(clist.count, 5);
}

#[test]
fn test_cf_chunk_get_rm_first() {
    let mut clist = new_list(2);

    // Get first with empty list
    assert!(cf_chunk_list_get_first_chunk(&clist).is_none());

    cf_chunk_list_add(&mut clist, 0, 10);
    cf_chunk_list_add(&mut clist, 20, 10);

    // Get first with non-empty list: the entry at the front of the list
    assert_eq!(cf_chunk_list_get_first_chunk(&clist).unwrap(), clist.chunks[0]);
    assert_eq!(cf_chunk_list_get_first_chunk(&clist).unwrap(), CfChunk { offset: 0, size: 10 });

    // Remove part from first non-empty list
    cf_chunk_list_remove_from_first(&mut clist, 5);
    assert_eq!(clist.chunks[0].offset, 5);
    assert_eq!(clist.chunks[0].size, 5);
    assert_eq!(clist.chunks[1].offset, 20);
    assert_eq!(clist.chunks[1].size, 10);
    assert_eq!(clist.count, 2);

    // Remove the rest of first from non-empty list
    cf_chunk_list_remove_from_first(&mut clist, 5);
    assert_eq!(clist.chunks[0].offset, 20);
    assert_eq!(clist.chunks[0].size, 10);
    assert_eq!(clist.count, 1);

    // Add back in, do large remove, confirm only first chunk removed
    cf_chunk_list_add(&mut clist, 0, 10);
    cf_chunk_list_remove_from_first(&mut clist, 50);
    assert_eq!(clist.chunks[0].offset, 20);
    assert_eq!(clist.chunks[0].size, 10);
    assert_eq!(clist.count, 1);
}

#[test]
fn test_cf_chunk_compute_gaps() {
    let mut clist = new_list(5);

    // Zero byte file
    assert_eq!(gaps_of(&clist, TEST_CF_MAX_GAPS, 0, 0).0, 0);

    // Empty list
    let total: u32 = 10;
    let (n, gaps) = gaps_of(&clist, TEST_CF_MAX_GAPS, total, 0);
    assert_eq!(n, 1);
    assert_eq!(gaps.len(), 1);
    assert_eq!(gaps[0].size, total);
    assert_eq!(gaps[0].offset, 0);

    // Add three with gaps 0-4, 10-19, 30-49
    cf_chunk_list_add(&mut clist, 5, 5);
    cf_chunk_list_add(&mut clist, 20, 10);
    cf_chunk_list_add(&mut clist, 50, 10);

    // Check 0-25, stops on the total
    let (n, gaps) = gaps_of(&clist, TEST_CF_MAX_GAPS, 25, 0);
    assert_eq!(n, 2);
    assert_eq!(gaps[0].size, 5);
    assert_eq!(gaps[0].offset, 0);
    assert_eq!(gaps[1].size, 10);
    assert_eq!(gaps[1].offset, 10);
    assert_eq!(gaps.len(), 2);

    // Check 0-45
    assert_eq!(gaps_of(&clist, TEST_CF_MAX_GAPS, 45, 0).0, 3);

    // Check 25-75, end while loop at end of chunk list
    let (n, gaps) = gaps_of(&clist, TEST_CF_MAX_GAPS, 75, 25);
    assert_eq!(n, 2);
    assert_eq!(gaps[0].size, 20);
    assert_eq!(gaps[0].offset, 30);
    assert_eq!(gaps[1].size, 15);
    assert_eq!(gaps[1].offset, 60);
    assert_eq!(gaps.len(), 2);

    // Check 0-75, limit by TEST_CF_MAX_GAPS
    let (n, gaps) = gaps_of(&clist, TEST_CF_MAX_GAPS, 75, 0);
    assert_eq!(n, 3);
    assert_eq!(gaps[0].size, 5);
    assert_eq!(gaps[0].offset, 0);
    assert_eq!(gaps[1].size, 10);
    assert_eq!(gaps[1].offset, 10);
    assert_eq!(gaps[2].size, 20);
    assert_eq!(gaps[2].offset, 30);
    assert_eq!(gaps.len(), 3);
}

#[test]
fn ut_test_setup() {
    test_cf_chunk_create_add_reset();
    test_cf_chunk_combine();
    test_cf_chunk_get_rm_first();
    test_cf_chunk_compute_gaps();
}

#[test]
fn test_chunk_gaps_appended_after_existing() {
    let mut clist = new_list(4);
    cf_chunk_list_add(&mut clist, 10, 10);
    let mut gaps = vec![CfChunk { offset: 99, size: 1 }];
    let n = cf_chunk_list_compute_gaps(&clist, 8, 30, 0, &mut gaps);
    assert_eq!(n, 2);
    assert_eq!(gaps, vec![
        CfChunk { offset: 99, size: 1 },
        CfChunk { offset: 0, size: 10 },
        CfChunk { offset: 20, size: 10 },
    ]);
}

#[test]
fn test_chunk_add_overlapping_merges_into_one() {
    let mut clist = new_list(4);
    cf_chunk_list_add(&mut clist, 0, 10);
    cf_chunk_list_add(&mut clist, 20, 10);
    cf_chunk_list_add(&mut clist, 5, 20);
    assert_eq!(clist.count, 1);
    assert_eq!(clist.chunks[0], CfChunk { offset: 0, size: 30 });
    // Everything received: no gaps left
    assert_eq!(gaps_of(&clist, 8, 30, 0).0, 0);
}

#[test]
fn test_chunk_reset_empties_list() {
    let mut clist = new_list(3);
    cf_chunk_list_add(&mut clist, 1, 2);
    cf_chunk_list_reset(&mut clist);
    assert_eq!(clist.count, 0);
    assert_eq!(clist.max_chunks, 3);
    assert!(clist.chunks.iter().all(|c| *c == CfChunk { offset: 0, size: 0 }));
}

#[test]
fn test_chunk_add_empty_range() {
    let mut clist = new_list(3);
    cf_chunk_list_add(&mut clist, 10, 5);
    // an empty range that touches a chunk merges into it
    cf_chunk_list_add(&mut clist, 15, 0);
    assert_eq!(clist.count, 1);
    assert_eq!(clist.chunks[0], CfChunk { offset: 10, size: 5 });
    // one on its own is kept as an entry of its own
    cf_chunk_list_add(&mut clist, 20, 0);
    assert_eq!(clist.count, 2);
    assert_eq!(clist.chunks[1], CfChunk { offset: 20, size: 0 });
}

#[test]
fn test_chunk_gaps_cover_all_missing_ranges() {
    let mut clist = new_list(5);
    cf_chunk_list_add(&mut clist, 5, 5);
    cf_chunk_list_add(&mut clist, 20, 10);
    cf_chunk_list_add(&mut clist, 50, 10);
    let (n, gaps) = gaps_of(&clist, 8, 75, 0);
    assert_eq!(n, 4);
    assert_eq!(gaps, vec![
        CfChunk { offset: 0, size: 5 },
        CfChunk { offset: 10, size: 10 },
        CfChunk { offset: 30, size: 20 },
        CfChunk { offset: 60, size: 15 },
    ]);
}
