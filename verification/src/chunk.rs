//! Chunk lists: the ranges of a file that have been received (or still need sending),
//! kept sorted and merged, in a bounded number of entries.
use vstd::prelude::*;

verus! {

/// A range of file offsets: `size` bytes from `offset` on.
#[derive(Clone, Copy, Debug, PartialEq, Eq, Default)]
pub struct CfChunk {
    pub offset: u32,
    pub size: u32,
}

/// A chunk list: the first `count` entries of `chunks` are in use; `max_chunks` entries
/// are available.
#[derive(Clone, Debug, PartialEq, Eq, Default)]
pub struct CfChunkList {
    pub count: u32,
    pub max_chunks: u32,
    pub chunks: Vec<CfChunk>,
}

/// The chunks in use and the number of entries available.
pub struct ChunkListModel {
    pub chunks: Seq<CfChunk>,
    pub max: nat,
}

impl View for CfChunkList {
    type V = ChunkListModel;

    open spec fn view(&self) -> ChunkListModel {
        ChunkListModel { chunks: self.chunks@.take(self.count as int), max: self.max_chunks as nat }
    }
}

/// The first offset past a chunk.
pub open spec fn chunk_end(c: CfChunk) -> int {
    c.offset + c.size
}

/// The chunks end within 32 bits and come in order with a gap between each one and the
/// next.
pub open spec fn chunks_wf(cs: Seq<CfChunk>) -> bool {
    &&& forall|k: int| 0 <= k < cs.len() ==> chunk_end(#[trigger] cs[k]) <= u32::MAX
    &&& forall|a: int, b: int| 0 <= a < b < cs.len() ==> chunk_end(#[trigger] cs[a]) < (#[trigger] cs[b]).offset
}

impl CfChunkList {
    /// The list's entries are consistent and its chunks in order.
    pub open spec fn wf(&self) -> bool {
        &&& 0 < self.max_chunks
        &&& self.chunks@.len() == self.max_chunks
        &&& self.count <= self.max_chunks
        &&& chunks_wf(self@.chunks)
    }
}

/// The offsets that the chunks cover.
pub open spec fn covered(cs: Seq<CfChunk>) -> Set<int> {
    Set::new(|x: int| exists|k: int| 0 <= k < cs.len() && in_chunk(#[trigger] cs[k], x))
}

/// The offset `x` lies in the chunk `c`.
pub open spec fn in_chunk(c: CfChunk, x: int) -> bool {
    c.offset <= x < chunk_end(c)
}

/// The offsets of the range `[lo, hi)`.
pub open spec fn range_set(lo: int, hi: int) -> Set<int> {
    Set::new(|x: int| lo <= x < hi)
}

/// Sets `count` zeroed entries.
fn cf_zero_chunks(n: usize) -> (out: Vec<CfChunk>)
    ensures
        out@.len() == n,
        forall|k: int| 0 <= k < n ==> #[trigger] out@[k] == (CfChunk { offset: 0, size: 0 }),
{
    let mut out: Vec<CfChunk> = Vec::new();
    let mut i: usize = 0;
    while i < n
        invariant
            i <= n,
            out@.len() == i,
            forall|k: int| 0 <= k < i ==> #[trigger] out@[k] == (CfChunk { offset: 0, size: 0 }),
        decreases n - i,
    {
        out.push(CfChunk { offset: 0, size: 0 });
        i = i + 1;
    }
    out
}

/// Empties the list and zeroes its entries.
pub fn cf_chunk_list_reset(clist: &mut CfChunkList)
    requires
        old(clist).chunks@.len() == old(clist).max_chunks,
    ensures
        final(clist).count == 0,
        final(clist).max_chunks == old(clist).max_chunks,
        final(clist).chunks@.len() == old(clist).max_chunks,
        forall|k: int|
            0 <= k < final(clist).chunks@.len() ==> #[trigger] final(clist).chunks@[k] == (CfChunk {
                offset: 0,
                size: 0,
            }),
{
    clist.count = 0;
    clist.chunks = cf_zero_chunks(clist.max_chunks as usize);
}

/// Sets up an empty list over `chunks_mem`, which holds `max_chunks` entries.
pub fn cf_chunk_list_init(clist: &mut CfChunkList, max_chunks: u32, chunks_mem: Vec<CfChunk>)
    requires
        max_chunks > 0,
        chunks_mem@.len() == max_chunks,
    ensures
        final(clist).wf(),
        final(clist).count == 0,
        final(clist).max_chunks == max_chunks,
        final(clist)@.chunks.len() == 0,
        forall|k: int|
            0 <= k < max_chunks ==> #[trigger] final(clist).chunks@[k] == (CfChunk {
                offset: 0,
                size: 0,
            }),
{
    clist.max_chunks = max_chunks;
    clist.chunks = chunks_mem;
    cf_chunk_list_reset(clist);
}

/// The first chunk, if there is one.
pub fn cf_chunk_list_get_first_chunk(clist: &CfChunkList) -> (r: Option<CfChunk>)
    requires
        clist.wf(),
    ensures
        r == (if clist.count > 0 { Some(clist@.chunks[0]) } else { None::<CfChunk> }),
{
    if clist.count > 0 {
        Some(clist.chunks[0])
    } else {
        None
    }
}

/// Removes entries `start .. end` of the list, moving the later ones down.
fn cf_chunks_erase_range(clist: &mut CfChunkList, start: usize, end: usize)
    requires
        old(clist).chunks@.len() == old(clist).max_chunks,
        old(clist).count <= old(clist).max_chunks,
        start <= end <= old(clist).count,
    ensures
        final(clist).chunks@.len() == old(clist).chunks@.len(),
        final(clist).max_chunks == old(clist).max_chunks,
        final(clist).count == old(clist).count - (end - start),
        final(clist)@.chunks == old(clist)@.chunks.take(start as int) + old(clist)@.chunks.skip(
            end as int,
        ),
{
    let ghost cs = clist@.chunks;
    let count = clist.count as usize;
    let gap = end - start;
    let mut k: usize = start;
    while k + gap < count
        invariant
            start <= k,
            k + gap <= count,
            gap == end - start,
            count == clist.count,
            count <= clist.chunks@.len(),
            clist.chunks@.len() == clist.max_chunks,
            clist.max_chunks == old(clist).max_chunks,
            clist.chunks@.len() == old(clist).chunks@.len(),
            cs == old(clist).chunks@.take(count as int),
            forall|j: int| 0 <= j < start ==> #[trigger] clist.chunks@[j] == cs[j],
            forall|j: int| start <= j < k ==> #[trigger] clist.chunks@[j] == cs[j + gap],
            forall|j: int| k + gap <= j < count ==> #[trigger] clist.chunks@[j] == cs[j],
        decreases count - k,
    {
        let c = clist.chunks[k + gap];
        clist.chunks.set(k, c);
        k = k + 1;
    }
    clist.count = (count - gap) as u32;
    assert(clist@.chunks =~= cs.take(start as int) + cs.skip(end as int));
}

/// Inserts `c` as entry `at`, moving the later ones up.
fn cf_chunks_insert_chunk(clist: &mut CfChunkList, at: usize, c: CfChunk)
    requires
        old(clist).chunks@.len() == old(clist).max_chunks,
        old(clist).count < old(clist).max_chunks,
        at <= old(clist).count,
    ensures
        final(clist).chunks@.len() == old(clist).chunks@.len(),
        final(clist).max_chunks == old(clist).max_chunks,
        final(clist).count == old(clist).count + 1,
        final(clist)@.chunks == old(clist)@.chunks.insert(at as int, c),
{
    let ghost cs = clist@.chunks;
    let count = clist.count as usize;
    let mut k: usize = count;
    while k > at
        invariant
            at <= k <= count,
            count == clist.count,
            count < clist.chunks@.len(),
            clist.chunks@.len() == clist.max_chunks,
            clist.max_chunks == old(clist).max_chunks,
            clist.chunks@.len() == old(clist).chunks@.len(),
            cs == old(clist).chunks@.take(count as int),
            forall|j: int| 0 <= j < k ==> #[trigger] clist.chunks@[j] == cs[j],
            forall|j: int| k < j <= count ==> #[trigger] clist.chunks@[j] == cs[j - 1],
        decreases k,
    {
        let prev = clist.chunks[k - 1];
        clist.chunks.set(k, prev);
        k = k - 1;
    }
    clist.chunks.set(at, c);
    clist.count = (count + 1) as u32;
    assert(clist@.chunks =~= cs.insert(at as int, c));
}


/// The larger of two integers.
pub open spec fn max_int(a: int, b: int) -> int {
    if a < b { b } else { a }
}

/// The position of the first chunk that does not start before `off`.
pub open spec fn lower_bound(cs: Seq<CfChunk>, off: int) -> nat
    decreases cs.len(),
{
    if cs.len() == 0 {
        0
    } else if cs[0].offset < off {
        1 + lower_bound(cs.drop_first(), off)
    } else {
        0
    }
}

/// The position, from `i` on, of the first chunk that starts past `e`.
pub open spec fn next_stop(cs: Seq<CfChunk>, i: int, e: int) -> int
    decreases cs.len() - i,
{
    if i >= cs.len() {
        cs.len() as int
    } else if e < cs[i].offset {
        i
    } else {
        next_stop(cs, i + 1, e)
    }
}

/// The position of the first of the smallest chunks.
pub open spec fn smallest_idx(cs: Seq<CfChunk>) -> int
    decreases cs.len(),
{
    if cs.len() <= 1 {
        0
    } else {
        let s = smallest_idx(cs.drop_last());
        if cs.last().size < cs[s].size {
            cs.len() - 1
        } else {
            s
        }
    }
}

/// The chunk `c` merged with the chunks `i .. next_stop` that it reaches.
pub open spec fn merged_next(cs: Seq<CfChunk>, i: int, c: CfChunk) -> CfChunk {
    let j = next_stop(cs, i, chunk_end(c));
    CfChunk {
        offset: c.offset,
        size: (max_int(chunk_end(cs[j - 1]), chunk_end(c)) - c.offset) as u32,
    }
}

/// The chunk `prev` extended to the end of `c` where that lies further.
pub open spec fn extended(prev: CfChunk, c: CfChunk) -> CfChunk {
    CfChunk {
        offset: prev.offset,
        size: (max_int(chunk_end(prev), chunk_end(c)) - prev.offset) as u32,
    }
}

/// The chunks after adding the range `c` to a list of at most `max` chunks: `c` is merged
/// with the chunks it overlaps or touches; otherwise it is inserted in order, and when
/// the list is full it takes the place of the first smallest chunk if it is larger, or
/// is dropped.
pub open spec fn add_spec(cs: Seq<CfChunk>, max: nat, c: CfChunk) -> Seq<CfChunk> {
    let i = lower_bound(cs, c.offset as int) as int;
    let j = next_stop(cs, i, chunk_end(c));
    if j > i {
        let m = merged_next(cs, i, c);
        if i > 0 && m.offset <= chunk_end(cs[i - 1]) {
            cs.take(i - 1) + seq![extended(cs[i - 1], m)] + cs.skip(j)
        } else {
            cs.take(i) + seq![m] + cs.skip(j)
        }
    } else if i > 0 && c.offset <= chunk_end(cs[i - 1]) {
        cs.update(i - 1, extended(cs[i - 1], c))
    } else if cs.len() < max {
        cs.insert(i, c)
    } else {
        let s = smallest_idx(cs);
        if cs[s].size < c.size {
            let rest = cs.remove(s);
            rest.insert(lower_bound(rest, c.offset as int) as int, c)
        } else {
            cs
        }
    }
}

/// In a list in order, the chunks before `i` start before `off` and the others do not:
/// `i` is the lower bound of `off`.
proof fn lemma_lower_bound_split(cs: Seq<CfChunk>, off: int, i: int)
    requires
        0 <= i <= cs.len(),
        forall|j: int| 0 <= j < i ==> #[trigger] cs[j].offset < off,
        forall|j: int| i <= j < cs.len() ==> #[trigger] cs[j].offset >= off,
    ensures
        lower_bound(cs, off) == i,
    decreases cs.len(),
{
    if cs.len() > 0 && i > 0 {
        let t = cs.drop_first();
        assert forall|j: int| 0 <= j < i - 1 implies #[trigger] t[j].offset < off by {
            assert(t[j] == cs[j + 1]);
        }
        assert forall|j: int| i - 1 <= j < t.len() implies #[trigger] t[j].offset >= off by {
            assert(t[j] == cs[j + 1]);
        }
        lemma_lower_bound_split(t, off, i - 1);
    }
}

/// The position at which a chunk starting at `c.offset` goes, by binary search.
fn cf_chunks_find_insert_position(clist: &CfChunkList, c: &CfChunk) -> (r: usize)
    requires
        clist.wf(),
    ensures
        r == lower_bound(clist@.chunks, c.offset as int),
        r <= clist.count,
{
    let ghost cs = clist@.chunks;
    let mut first: usize = 0;
    let mut count: usize = clist.count as usize;
    while count > 0
        invariant
            clist.wf(),
            cs == clist@.chunks,
            first + count <= cs.len(),
            forall|j: int| 0 <= j < first ==> #[trigger] cs[j].offset < c.offset,
            forall|j: int| first + count <= j < cs.len() ==> #[trigger] cs[j].offset >= c.offset,
        decreases count,
    {
        let step = count / 2;
        let i = first + step;
        if clist.chunks[i].offset < c.offset {
            assert forall|j: int| 0 <= j < i + 1 implies #[trigger] cs[j].offset < c.offset by {
                if j < i {
                    assert(chunk_end(cs[j]) < cs[i as int].offset);
                }
            }
            first = i + 1;
            count = count - (step + 1);
        } else {
            assert forall|j: int| i <= j < cs.len() implies #[trigger] cs[j].offset >= c.offset by {
                if j > i {
                    assert(chunk_end(cs[i as int]) < cs[j].offset);
                }
            }
            count = step;
        }
    }
    proof {
        lemma_lower_bound_split(cs, c.offset as int, first as int);
    }
    first
}

/// Where `next_stop` lands: past `i`, and no chunk from `i` to it starts past `e`.
proof fn lemma_next_stop(cs: Seq<CfChunk>, i: int, e: int)
    requires
        0 <= i <= cs.len(),
    ensures
        i <= next_stop(cs, i, e) <= cs.len(),
        forall|k: int| i <= k < next_stop(cs, i, e) ==> #[trigger] cs[k].offset <= e,
        next_stop(cs, i, e) < cs.len() ==> e < cs[next_stop(cs, i, e)].offset,
    decreases cs.len() - i,
{
    if i < cs.len() && !(e < cs[i].offset) {
        lemma_next_stop(cs, i + 1, e);
    }
}

/// Merges `c` with the chunks from entry `i` on that it reaches, in entry `i`; returns
/// whether there were any.
fn cf_chunks_combine_next(clist: &mut CfChunkList, i: usize, c: &CfChunk) -> (r: bool)
    requires
        old(clist).wf(),
        i <= old(clist).count,
        chunk_end(*c) <= u32::MAX,
    ensures
        final(clist).chunks@.len() == old(clist).chunks@.len(),
        final(clist).max_chunks == old(clist).max_chunks,
        final(clist).count <= final(clist).max_chunks,
        r == (next_stop(old(clist)@.chunks, i as int, chunk_end(*c)) > i),
        r ==> final(clist)@.chunks == old(clist)@.chunks.take(i as int) + seq![
            merged_next(old(clist)@.chunks, i as int, *c),
        ] + old(clist)@.chunks.skip(next_stop(old(clist)@.chunks, i as int, chunk_end(*c))),
        !r ==> *final(clist) == *old(clist),
{
    let ghost cs = clist@.chunks;
    let e: u32 = c.offset + c.size;
    let count = clist.count as usize;
    let mut j: usize = i;
    while j < count && !(e < clist.chunks[j].offset)
        invariant
            i <= j <= count,
            count == clist.count,
            count <= clist.chunks@.len(),
            cs == clist@.chunks,
            next_stop(cs, j as int, e as int) == next_stop(cs, i as int, e as int),
        decreases count - j,
    {
        j = j + 1;
    }
    assert(next_stop(cs, j as int, e as int) == j);
    if j == i {
        return false;
    }
    let last = clist.chunks[j - 1];
    assert(chunk_end(cs[j - 1]) <= u32::MAX);
    let last_end: u32 = last.offset + last.size;
    let me: u32 = if last_end > e { last_end } else { e };
    clist.chunks.set(i, CfChunk { offset: c.offset, size: me - c.offset });
    let ghost mid = clist@.chunks;
    assert(mid == cs.update(i as int, merged_next(cs, i as int, *c)));
    cf_chunks_erase_range(clist, i + 1, j);
    assert(clist@.chunks =~= cs.take(i as int) + seq![merged_next(cs, i as int, *c)] + cs.skip(
        j as int,
    ));
    true
}

/// Extends entry `i - 1` to the end of `c` when `c` starts within or right after it;
/// returns whether it did.
fn cf_chunks_combine_previous(clist: &mut CfChunkList, i: usize, c: &CfChunk) -> (r: bool)
    requires
        old(clist).chunks@.len() == old(clist).max_chunks,
        old(clist).count <= old(clist).max_chunks,
        i <= old(clist).count,
        forall|k: int| 0 <= k < old(clist)@.chunks.len() ==> chunk_end(#[trigger] old(clist)@.chunks[k]) <= u32::MAX,
        chunk_end(*c) <= u32::MAX,
        i > 0 ==> old(clist)@.chunks[i - 1].offset <= c.offset,
    ensures
        final(clist).chunks@.len() == old(clist).chunks@.len(),
        final(clist).max_chunks == old(clist).max_chunks,
        final(clist).count == old(clist).count,
        r == (i > 0 && c.offset <= chunk_end(old(clist)@.chunks[i - 1])),
        r ==> final(clist)@.chunks == old(clist)@.chunks.update(
            i - 1,
            extended(old(clist)@.chunks[i - 1], *c),
        ),
        !r ==> *final(clist) == *old(clist),
{
    if i == 0 || clist.count == 0 {
        return false;
    }
    let prev = clist.chunks[i - 1];
    let prev_end: u32 = prev.offset + prev.size;
    if c.offset <= prev_end {
        let chunk_end: u32 = c.offset + c.size;
        if prev_end < chunk_end {
            clist.chunks.set(i - 1, CfChunk { offset: prev.offset, size: chunk_end - prev.offset });
        }
        assert(clist@.chunks =~= old(clist)@.chunks.update(i - 1, extended(old(clist)@.chunks[i - 1], *c)));
        true
    } else {
        false
    }
}

/// The first of the smallest chunks.
fn cf_chunks_find_smallest_size(clist: &CfChunkList) -> (r: usize)
    requires
        clist.wf(),
    ensures
        r == smallest_idx(clist@.chunks),
        clist.count > 0 ==> r < clist.count,
{
    let ghost cs = clist@.chunks;
    let count = clist.count as usize;
    if count == 0 {
        return 0;
    }
    let mut smallest: usize = 0;
    let mut i: usize = 1;
    assert(cs.take(1).len() == 1);
    while i < count
        invariant
            1 <= i <= count,
            count == clist.count,
            count == cs.len(),
            count <= clist.chunks@.len(),
            cs == clist@.chunks,
            smallest < i,
            smallest as int == smallest_idx(cs.take(i as int)),
        decreases count - i,
    {
        let ghost t = cs.take(i + 1);
        assert(t.drop_last() =~= cs.take(i as int));
        assert(t.last() == cs[i as int]);
        assert(t[smallest as int] == cs[smallest as int]);
        assert(cs[i as int] == clist.chunks@[i as int]);
        assert(cs[smallest as int] == clist.chunks@[smallest as int]);
        if clist.chunks[i].size < clist.chunks[smallest].size {
            smallest = i;
        }
        i = i + 1;
    }
    assert(cs.take(count as int) =~= cs);
    smallest
}


/// A list in order stays in order with one chunk taken out.
proof fn lemma_remove_wf(cs: Seq<CfChunk>, s: int)
    requires
        chunks_wf(cs),
        0 <= s < cs.len(),
    ensures
        chunks_wf(cs.remove(s)),
{
    let r = cs.remove(s);
    assert forall|k: int| 0 <= k < r.len() implies chunk_end(#[trigger] r[k]) <= u32::MAX by {
        if k < s {
            assert(r[k] == cs[k]);
        } else {
            assert(r[k] == cs[k + 1]);
        }
    }
    assert forall|a: int, b: int| 0 <= a < b < r.len() implies chunk_end(#[trigger] r[a]) < (#[trigger] r[b]).offset by {
        let a0 = if a < s { a } else { a + 1 };
        let b0 = if b < s { b } else { b + 1 };
        assert(r[a] == cs[a0]);
        assert(r[b] == cs[b0]);
    }
}

/// Adds the range `c` at position `i`, its lower bound, merging it with its neighbours or
/// inserting it (see `add_spec`).
fn cf_chunks_insert(clist: &mut CfChunkList, i: usize, c: &CfChunk)
    requires
        old(clist).wf(),
        i == lower_bound(old(clist)@.chunks, c.offset as int),
        i <= old(clist).count,
        chunk_end(*c) <= u32::MAX,
    ensures
        final(clist).chunks@.len() == old(clist).chunks@.len(),
        final(clist).max_chunks == old(clist).max_chunks,
        final(clist).count <= final(clist).max_chunks,
        final(clist)@.chunks == add_spec(old(clist)@.chunks, old(clist)@.max, *c),
{
    let ghost cs = clist@.chunks;
    proof {
        lemma_next_stop(cs, i as int, chunk_end(*c));
        if i > 0 {
            assert(cs[i - 1].offset < c.offset) by {
                lemma_lower_bound_facts(cs, c.offset as int);
            }
        }
    }
    let n = cf_chunks_combine_next(clist, i, c);
    if n {
        let ghost j = next_stop(cs, i as int, chunk_end(*c));
        let ghost m = merged_next(cs, i as int, *c);
        let ghost mid = clist@.chunks;
        assert(mid[i as int] == m);
        assert forall|k: int| 0 <= k < mid.len() implies chunk_end(#[trigger] mid[k]) <= u32::MAX by {
            if k < i {
                assert(mid[k] == cs[k]);
            } else if k > i {
                assert(mid[k] == cs[k - i - 1 + j]);
            }
        }
        if i > 0 {
            assert(mid[i - 1] == cs[i - 1]);
        }
        assert(mid.len() == i + 1 + (cs.len() - j));
        assert(clist.count as int == mid.len());
        let mc = clist.chunks[i];
        let combined = cf_chunks_combine_previous(clist, i, &mc);
        if combined {
            cf_chunks_erase_range(clist, i, i + 1);
            assert(clist@.chunks =~= cs.take(i - 1) + seq![extended(cs[i - 1], m)] + cs.skip(j));
        }
    } else {
        let combined = cf_chunks_combine_previous(clist, i, c);
        if !combined {
            if clist.count < clist.max_chunks {
                cf_chunks_insert_chunk(clist, i, *c);
            } else {
                let s = cf_chunks_find_smallest_size(clist);
                if clist.chunks[s].size < c.size {
                    cf_chunks_erase_range(clist, s, s + 1);
                    proof {
                        lemma_remove_wf(cs, s as int);
                        assert(clist@.chunks =~= cs.remove(s as int));
                    }
                    let p = cf_chunks_find_insert_position(clist, c);
                    cf_chunks_insert_chunk(clist, p, *c);
                }
            }
        }
    }
}

/// What the lower bound of `off` says of a list in order.
proof fn lemma_lower_bound_facts(cs: Seq<CfChunk>, off: int)
    requires
        chunks_wf(cs),
    ensures
        lower_bound(cs, off) <= cs.len(),
        forall|k: int| 0 <= k < lower_bound(cs, off) ==> #[trigger] cs[k].offset < off,
        forall|k: int| lower_bound(cs, off) <= k < cs.len() ==> #[trigger] cs[k].offset >= off,
    decreases cs.len(),
{
    if cs.len() > 0 && cs[0].offset < off {
        let t = cs.drop_first();
        assert(chunks_wf(t)) by {
            assert forall|k: int| 0 <= k < t.len() implies chunk_end(#[trigger] t[k]) <= u32::MAX by {
                assert(t[k] == cs[k + 1]);
            }
            assert forall|a: int, b: int| 0 <= a < b < t.len() implies chunk_end(#[trigger] t[a]) < (#[trigger] t[b]).offset by {
                assert(t[a] == cs[a + 1]);
                assert(t[b] == cs[b + 1]);
            }
        }
        lemma_lower_bound_facts(t, off);
        assert forall|k: int| 0 <= k < lower_bound(cs, off) implies #[trigger] cs[k].offset < off by {
            if k > 0 {
                assert(cs[k] == t[k - 1]);
            }
        }
        assert forall|k: int| lower_bound(cs, off) <= k < cs.len() implies #[trigger] cs[k].offset >= off by {
            assert(cs[k] == t[k - 1]);
        }
    } else if cs.len() > 0 {
        assert forall|k: int| 0 <= k < cs.len() implies #[trigger] cs[k].offset >= off by {
            if k > 0 {
                assert(chunk_end(cs[0]) < cs[k].offset);
            }
        }
    }
}


/// A chunk separated from every chunk of a list in order can be inserted at its lower
/// bound, keeping the list in order.
proof fn lemma_insert_separated(cs: Seq<CfChunk>, c: CfChunk)
    requires
        chunks_wf(cs),
        chunk_end(c) <= u32::MAX,
        forall|k: int| 0 <= k < cs.len() ==> chunk_end(#[trigger] cs[k]) < c.offset || chunk_end(c) < cs[k].offset,
    ensures
        chunks_wf(cs.insert(lower_bound(cs, c.offset as int) as int, c)),
{
    lemma_lower_bound_facts(cs, c.offset as int);
    let p = lower_bound(cs, c.offset as int) as int;
    let r = cs.insert(p, c);
    assert forall|k: int| 0 <= k < r.len() implies chunk_end(#[trigger] r[k]) <= u32::MAX by {
        if k < p {
            assert(r[k] == cs[k]);
        } else if k > p {
            assert(r[k] == cs[k - 1]);
        }
    }
    assert forall|a: int, b: int| 0 <= a < b < r.len() implies chunk_end(#[trigger] r[a]) < (#[trigger] r[b]).offset by {
        if b < p {
            assert(r[a] == cs[a] && r[b] == cs[b]);
        } else if b == p {
            assert(r[a] == cs[a]);
            assert(cs[a].offset < c.offset);
        } else if a < p {
            assert(r[a] == cs[a] && r[b] == cs[b - 1]);
        } else if a == p {
            assert(r[b] == cs[b - 1]);
            assert(cs[b - 1].offset >= c.offset);
        } else {
            assert(r[a] == cs[a - 1] && r[b] == cs[b - 1]);
        }
    }
}

/// In a list in order, offsets increase.
proof fn lemma_offsets_sorted(cs: Seq<CfChunk>)
    requires
        chunks_wf(cs),
    ensures
        forall|a: int, b: int| 0 <= a < b < cs.len() ==> (#[trigger] cs[a]).offset < (#[trigger] cs[b]).offset,
        forall|a: int, b: int| 0 <= a <= b < cs.len() ==> (#[trigger] cs[a]).offset <= (#[trigger] cs[b]).offset,
{
    assert forall|a: int, b: int| 0 <= a < b < cs.len() implies (#[trigger] cs[a]).offset < (#[trigger] cs[b]).offset by {
        assert(chunk_end(cs[a]) < cs[b].offset);
    }
}

/// The facts about positions `i` (lower bound) and `j` (next stop) that adding relies on.
pub open spec fn add_positions(cs: Seq<CfChunk>, c: CfChunk, i: int, j: int) -> bool {
    &&& 0 <= i <= j <= cs.len()
    &&& forall|k: int| 0 <= k < i ==> #[trigger] cs[k].offset < c.offset
    &&& forall|k: int| i <= k < cs.len() ==> #[trigger] cs[k].offset >= c.offset
    &&& forall|k: int| i <= k < j ==> #[trigger] cs[k].offset <= chunk_end(c)
    &&& j < cs.len() ==> chunk_end(c) < cs[j].offset
}

/// Merging with the next chunks and then the previous one keeps the list in order.
proof fn lemma_add_wf_merge_prev(cs: Seq<CfChunk>, c: CfChunk, i: int, j: int)
    requires
        chunks_wf(cs),
        chunk_end(c) <= u32::MAX,
        add_positions(cs, c, i, j),
        0 < i < j,
        j == next_stop(cs, i, chunk_end(c)),
        merged_next(cs, i, c).offset <= chunk_end(cs[i - 1]),
    ensures
        chunks_wf(cs.take(i - 1) + seq![extended(cs[i - 1], merged_next(cs, i, c))] + cs.skip(j)),
{
    lemma_offsets_sorted(cs);
    let m = merged_next(cs, i, c);
    let x = extended(cs[i - 1], m);
    let e = chunk_end(c);
    assert(chunk_end(cs[j - 1]) <= u32::MAX);
    let r = cs.take(i - 1) + seq![x] + cs.skip(j);
    assert forall|k: int| 0 <= k < r.len() implies chunk_end(#[trigger] r[k]) <= u32::MAX by {
        if k < i - 1 {
            assert(r[k] == cs[k]);
        } else if k > i - 1 {
            assert(r[k] == cs[k - i + j]);
        }
    }
    assert forall|a: int, b: int| 0 <= a < b < r.len() implies chunk_end(#[trigger] r[a]) < (#[trigger] r[b]).offset by {
        if b < i - 1 {
            assert(r[a] == cs[a] && r[b] == cs[b]);
        } else if b == i - 1 {
            assert(r[a] == cs[a]);
        } else if a < i - 1 {
            assert(r[a] == cs[a] && r[b] == cs[b - i + j]);
            assert(chunk_end(cs[a]) < cs[b - i + j].offset);
        } else if a == i - 1 {
            assert(r[b] == cs[b - i + j]);
            assert(chunk_end(cs[i - 1]) < cs[b - i + j].offset);
            assert(chunk_end(cs[j - 1]) < cs[b - i + j].offset);
            assert(cs[j].offset <= cs[b - i + j].offset);
        } else {
            assert(r[a] == cs[a - i + j] && r[b] == cs[b - i + j]);
        }
    }
}

/// Merging with the next chunks alone keeps the list in order.
proof fn lemma_add_wf_merge(cs: Seq<CfChunk>, c: CfChunk, i: int, j: int)
    requires
        chunks_wf(cs),
        chunk_end(c) <= u32::MAX,
        add_positions(cs, c, i, j),
        i < j,
        j == next_stop(cs, i, chunk_end(c)),
        !(i > 0 && merged_next(cs, i, c).offset <= chunk_end(cs[i - 1])),
    ensures
        chunks_wf(cs.take(i) + seq![merged_next(cs, i, c)] + cs.skip(j)),
{
    lemma_offsets_sorted(cs);
    let m = merged_next(cs, i, c);
    let e = chunk_end(c);
    assert(chunk_end(cs[j - 1]) <= u32::MAX);
    let r = cs.take(i) + seq![m] + cs.skip(j);
    assert forall|k: int| 0 <= k < r.len() implies chunk_end(#[trigger] r[k]) <= u32::MAX by {
        if k < i {
            assert(r[k] == cs[k]);
        } else if k > i {
            assert(r[k] == cs[k - i - 1 + j]);
        }
    }
    assert forall|a: int, b: int| 0 <= a < b < r.len() implies chunk_end(#[trigger] r[a]) < (#[trigger] r[b]).offset by {
        if b < i {
            assert(r[a] == cs[a] && r[b] == cs[b]);
        } else if b == i {
            assert(r[a] == cs[a]);
            if a < i - 1 {
                assert(chunk_end(cs[a]) < cs[i - 1].offset);
            }
        } else if a < i {
            assert(r[a] == cs[a] && r[b] == cs[b - i - 1 + j]);
        } else if a == i {
            assert(r[b] == cs[b - i - 1 + j]);
            if b - i - 1 + j > j - 1 {
                assert(chunk_end(cs[j - 1]) < cs[b - i - 1 + j].offset);
            }
            assert(cs[j].offset <= cs[b - i - 1 + j].offset);
        } else {
            assert(r[a] == cs[a - i - 1 + j] && r[b] == cs[b - i - 1 + j]);
        }
    }
}

/// Extending the previous chunk keeps the list in order.
proof fn lemma_add_wf_extend(cs: Seq<CfChunk>, c: CfChunk, i: int)
    requires
        chunks_wf(cs),
        chunk_end(c) <= u32::MAX,
        add_positions(cs, c, i, i),
        0 < i,
        c.offset <= chunk_end(cs[i - 1]),
    ensures
        chunks_wf(cs.update(i - 1, extended(cs[i - 1], c))),
{
    lemma_offsets_sorted(cs);
    let r = cs.update(i - 1, extended(cs[i - 1], c));
    assert forall|a: int, b: int| 0 <= a < b < r.len() implies chunk_end(#[trigger] r[a]) < (#[trigger] r[b]).offset by {
        if a == i - 1 {
            assert(chunk_end(cs[i - 1]) < cs[b].offset);
            assert(cs[i].offset <= cs[b].offset);
        } else if b == i - 1 {
            assert(chunk_end(cs[a]) < cs[i - 1].offset);
        }
    }
}

/// Adding a range keeps a list in order and within its capacity.
pub proof fn lemma_add_wf(cs: Seq<CfChunk>, max: nat, c: CfChunk)
    requires
        chunks_wf(cs),
        cs.len() <= max,
        0 < max,
        chunk_end(c) <= u32::MAX,
    ensures
        chunks_wf(add_spec(cs, max, c)),
        add_spec(cs, max, c).len() <= max,
{
    let off = c.offset as int;
    let e = chunk_end(c);
    lemma_lower_bound_facts(cs, off);
    let i = lower_bound(cs, off) as int;
    lemma_next_stop(cs, i, e);
    let j = next_stop(cs, i, e);
    assert(add_positions(cs, c, i, j));
    let r = add_spec(cs, max, c);
    if j > i {
        let m = merged_next(cs, i, c);
        if i > 0 && m.offset <= chunk_end(cs[i - 1]) {
            lemma_add_wf_merge_prev(cs, c, i, j);
            assert(r =~= cs.take(i - 1) + seq![extended(cs[i - 1], m)] + cs.skip(j));
        } else {
            lemma_add_wf_merge(cs, c, i, j);
            assert(r =~= cs.take(i) + seq![m] + cs.skip(j));
        }
    } else if i > 0 && c.offset <= chunk_end(cs[i - 1]) {
        lemma_add_wf_extend(cs, c, i);
    } else {
        lemma_offsets_sorted(cs);
        assert forall|k: int| 0 <= k < cs.len() implies chunk_end(#[trigger] cs[k]) < c.offset || chunk_end(c) < cs[k].offset by {
            if k < i {
                if k < i - 1 {
                    assert(chunk_end(cs[k]) < cs[i - 1].offset);
                }
            } else {
                assert(cs[i].offset <= cs[k].offset);
            }
        }
        if cs.len() < max {
            lemma_insert_separated(cs, c);
        } else {
            let s = smallest_idx(cs);
            if cs[s].size < c.size {
                lemma_smallest_idx_bound(cs);
                lemma_remove_wf(cs, s);
                let rest = cs.remove(s);
                assert forall|k: int| 0 <= k < rest.len() implies chunk_end(#[trigger] rest[k]) < c.offset || chunk_end(c) < rest[k].offset by {
                    if k < s {
                        assert(rest[k] == cs[k]);
                    } else {
                        assert(rest[k] == cs[k + 1]);
                    }
                }
                lemma_insert_separated(rest, c);
                lemma_lower_bound_facts(rest, off);
            }
        }
    }
}

/// The first smallest chunk is one of the chunks.
proof fn lemma_smallest_idx_bound(cs: Seq<CfChunk>)
    requires
        cs.len() > 0,
    ensures
        0 <= smallest_idx(cs) < cs.len(),
        forall|k: int| 0 <= k < cs.len() ==> cs[smallest_idx(cs)].size <= (#[trigger] cs[k]).size,
    decreases cs.len(),
{
    if cs.len() > 1 {
        let t = cs.drop_last();
        lemma_smallest_idx_bound(t);
        assert forall|k: int| 0 <= k < cs.len() implies cs[smallest_idx(cs)].size <= (#[trigger] cs[k]).size by {
            if k < cs.len() - 1 {
                assert(cs[k] == t[k]);
            }
            assert(cs[smallest_idx(t)] == t[smallest_idx(t)]);
        }
    }
}


/// Records that the `size` bytes at `offset` are present (see `add_spec`).
pub fn cf_chunk_list_add(clist: &mut CfChunkList, offset: u32, size: u32)
    requires
        old(clist).wf(),
        offset + size <= u32::MAX,
    ensures
        final(clist).wf(),
        final(clist).max_chunks == old(clist).max_chunks,
        final(clist)@.chunks == add_spec(old(clist)@.chunks, old(clist)@.max, CfChunk { offset, size }),
{
    let c = CfChunk { offset, size };
    let i = cf_chunks_find_insert_position(clist, &c);
    proof {
        lemma_add_wf(clist@.chunks, clist@.max, c);
    }
    cf_chunks_insert(clist, i, &c);
}

/// The chunks after taking `size` bytes (at most the whole chunk) off the front of the
/// first chunk; a chunk left empty goes.
pub open spec fn remove_from_first_spec(cs: Seq<CfChunk>, size: u32) -> Seq<CfChunk> {
    let c = cs[0];
    let s = if size > c.size { c.size } else { size };
    if c.size - s == 0 {
        cs.drop_first()
    } else {
        cs.update(0, CfChunk { offset: (c.offset + s) as u32, size: (c.size - s) as u32 })
    }
}

/// Takes `size` bytes off the front of the first chunk; the list must not be empty.
pub fn cf_chunk_list_remove_from_first(clist: &mut CfChunkList, size: u32)
    requires
        old(clist).wf(),
        old(clist).count > 0,
    ensures
        final(clist).wf(),
        final(clist).max_chunks == old(clist).max_chunks,
        final(clist)@.chunks == remove_from_first_spec(old(clist)@.chunks, size),
{
    let ghost cs = clist@.chunks;
    let c = clist.chunks[0];
    let s = if size > c.size { c.size } else { size };
    if c.size - s == 0 {
        cf_chunks_erase_range(clist, 0, 1);
        assert(clist@.chunks =~= cs.drop_first());
        proof {
            lemma_remove_wf(cs, 0);
            assert(cs.remove(0) =~= cs.drop_first());
        }
    } else {
        assert(chunk_end(cs[0]) <= u32::MAX);
        clist.chunks.set(0, CfChunk { offset: c.offset + s, size: c.size - s });
        assert(clist@.chunks =~= cs.update(0, CfChunk { offset: (c.offset + s) as u32, size: (c.size - s) as u32 }));
        assert forall|a: int, b: int| 0 <= a < b < clist@.chunks.len() implies chunk_end(#[trigger] clist@.chunks[a]) < (#[trigger] clist@.chunks[b]).offset by {
            assert(chunk_end(cs[a]) < cs[b].offset);
        }
    }
}

/// The gaps that the chunks from position `i` on leave before the next chunk (or before
/// `total`, after the last one), at most `budget` of them, skipping those that end
/// before `start`, and stopping at a chunk that ends at or past `total`.
pub open spec fn gap_run(cs: Seq<CfChunk>, i: int, budget: int, total: int, start: int) -> Seq<CfChunk>
    decreases cs.len() - i,
{
    if budget <= 0 || i >= cs.len() || i < 0 {
        Seq::empty()
    } else {
        let next_off = if i == cs.len() - 1 { total } else { cs[i + 1].offset as int };
        let gap_start = chunk_end(cs[i]);
        if gap_start >= total {
            Seq::empty()
        } else if start < next_off {
            let o = max_int(gap_start, start);
            seq![CfChunk { offset: o as u32, size: (next_off - o) as u32 }] + gap_run(
                cs,
                i + 1,
                budget - 1,
                total,
                start,
            )
        } else {
            gap_run(cs, i + 1, budget, total, start)
        }
    }
}

/// The gaps of a file of `total` bytes, as `cf_chunk_list_compute_gaps` reports them: none
/// for an empty file, the whole file for an empty list, otherwise the gap before the
/// first chunk (when `start` lies before it) and then those of `gap_run`, up to
/// `max_gaps` in all.
pub open spec fn gaps_spec(cs: Seq<CfChunk>, max_gaps: u32, total: u32, start: u32) -> Seq<CfChunk> {
    if total == 0 {
        Seq::empty()
    } else if cs.len() == 0 {
        seq![CfChunk { offset: 0, size: total }]
    } else {
        let first = if start < cs[0].offset {
            seq![CfChunk { offset: start, size: (cs[0].offset - start) as u32 }]
        } else {
            Seq::empty()
        };
        first + gap_run(cs, 0, max_gaps - first.len(), total as int, start as int)
    }
}

/// Reports the gaps between the chunks of a file of `total` bytes, from `start` on:
/// appends them to `gaps` and returns how many there are (see `gaps_spec`).
pub fn cf_chunk_list_compute_gaps(
    clist: &CfChunkList,
    max_gaps: u32,
    total: u32,
    start: u32,
    gaps: &mut Vec<CfChunk>,
) -> (r: u32)
    requires
        clist.wf(),
        total == 0 || start < total,
    ensures
        final(gaps)@ == old(gaps)@ + gaps_spec(clist@.chunks, max_gaps, total, start),
        r == gaps_spec(clist@.chunks, max_gaps, total, start).len(),
{
    let ghost cs = clist@.chunks;
    let ghost g0 = gaps@;
    if total == 0 {
        assert(gaps@ =~= g0 + Seq::<CfChunk>::empty());
        return 0;
    }
    let count = clist.count as usize;
    if count == 0 {
        gaps.push(CfChunk { offset: 0, size: total });
        return 1;
    }
    let mut ret: u32 = 0;
    let first0 = clist.chunks[0];
    if start < first0.offset {
        gaps.push(CfChunk { offset: start, size: first0.offset - start });
        ret = 1;
    }
    let ghost first = gaps@.skip(g0.len() as int);
    assert(first =~= (if start < cs[0].offset {
        seq![CfChunk { offset: start, size: (cs[0].offset - start) as u32 }]
    } else {
        Seq::<CfChunk>::empty()
    }));
    let ghost budget0: int = max_gaps - first.len();
    let ghost bl: int = (g0.len() + first.len()) as int;
    let mut i: usize = 0;
    let mut stop = false;
    while ret < max_gaps && i < count && !stop
        invariant
            clist.wf(),
            cs == clist@.chunks,
            count == cs.len(),
            count == clist.count,
            count > 0,
            i <= count,
            0 < total,
            bl == g0.len() + first.len(),
            ret as int == first.len() + (gaps@.len() - bl),
            gaps@.len() >= bl,
            gaps@.take(bl) == g0 + first,
            budget0 == max_gaps - first.len(),
            gaps@.skip(bl) + gap_run(cs, i as int, max_gaps - ret, total as int, start as int)
                == gap_run(cs, 0, budget0, total as int, start as int),
            stop ==> gap_run(cs, i as int, max_gaps - ret, total as int, start as int) == Seq::<
                CfChunk,
            >::empty(),
        decreases count - i + (if stop { 0int } else { 1int }),
    {
        let ghost before = gaps@;
        let c = clist.chunks[i];
        assert(c == cs[i as int]);
        assert(chunk_end(cs[i as int]) <= u32::MAX);
        let next_off: u32 = if i == count - 1 { total } else { clist.chunks[i + 1].offset };
        let gap_start: u32 = c.offset + c.size;
        if i < count - 1 {
            assert(clist.chunks@[i + 1] == cs[i + 1]);
        }
        if gap_start >= total {
            stop = true;
        } else if start < next_off {
            if i < count - 1 {
                assert(chunk_end(cs[i as int]) < cs[i + 1].offset);
            }
            let o: u32 = if gap_start > start { gap_start } else { start };
            let g = CfChunk { offset: o, size: next_off - o };
            gaps.push(g);
            ret = ret + 1;
            assert(gaps@ == before.push(g));
            assert(gaps@.skip(bl) =~= before.skip(bl).push(g));
            assert(gaps@.take(bl) =~= before.take(bl));
            i = i + 1;
        } else {
            i = i + 1;
        }
    }
    assert(gap_run(cs, i as int, max_gaps - ret, total as int, start as int) =~= Seq::<CfChunk>::empty());
    assert(gaps@ =~= gaps@.take(bl) + gaps@.skip(bl));
    ret
}


/// The offsets covered by two lists one after the other.
proof fn lemma_covered_concat(a: Seq<CfChunk>, b: Seq<CfChunk>)
    ensures
        covered(a + b) == covered(a).union(covered(b)),
{
    let ab = a + b;
    assert forall|z: int| covered(ab).contains(z) implies covered(a).union(covered(b)).contains(z) by {
        let k = choose|k: int| 0 <= k < ab.len() && in_chunk(#[trigger] ab[k], z);
        if k < a.len() {
            assert(ab[k] == a[k]);
            assert(covered(a).contains(z));
        } else {
            assert(ab[k] == b[k - a.len()]);
            assert(covered(b).contains(z));
        }
    }
    assert forall|z: int| covered(a).union(covered(b)).contains(z) implies covered(ab).contains(z) by {
        if covered(a).contains(z) {
            let k = choose|k: int| 0 <= k < a.len() && in_chunk(#[trigger] a[k], z);
            assert(ab[k] == a[k]);
        } else {
            let k = choose|k: int| 0 <= k < b.len() && in_chunk(#[trigger] b[k], z);
            assert(ab[k + a.len()] == b[k]);
        }
    }
    assert(covered(ab) =~= covered(a).union(covered(b)));
}

/// A single chunk covers its range.
proof fn lemma_covered_single(c: CfChunk)
    ensures
        covered(seq![c]) == range_set(c.offset as int, chunk_end(c)),
{
    assert forall|z: int| covered(seq![c]).contains(z) <==> range_set(c.offset as int, chunk_end(c)).contains(z) by {
        if range_set(c.offset as int, chunk_end(c)).contains(z) {
            assert(seq![c][0] == c);
        }
    }
    assert(covered(seq![c]) =~= range_set(c.offset as int, chunk_end(c)));
}

/// Two ranges that meet or overlap make one.
proof fn lemma_range_union(a: int, b: int, c: int, d: int)
    requires
        a <= c <= b,
        c <= d,
    ensures
        range_set(a, b).union(range_set(c, d)) == range_set(a, max_int(b, d)),
{
    assert(range_set(a, b).union(range_set(c, d)) =~= range_set(a, max_int(b, d)));
}

/// A list split in three around positions `i <= j`.
proof fn lemma_covered_split(cs: Seq<CfChunk>, i: int, j: int)
    requires
        0 <= i <= j <= cs.len(),
    ensures
        covered(cs) == covered(cs.take(i)).union(covered(cs.subrange(i, j))).union(covered(cs.skip(j))),
{
    assert(cs =~= cs.take(i) + cs.subrange(i, j) + cs.skip(j));
    lemma_covered_concat(cs.take(i) + cs.subrange(i, j), cs.skip(j));
    lemma_covered_concat(cs.take(i), cs.subrange(i, j));
}

/// The range of `c` together with chunks `i .. j` that start within it (in order) is the
/// one range from the start of `c` to the furthest end.
proof fn lemma_merge_cover(cs: Seq<CfChunk>, i: int, j: int, c: CfChunk)
    requires
        chunks_wf(cs),
        0 <= i < j <= cs.len(),
        forall|k: int| i <= k < j ==> c.offset <= #[trigger] cs[k].offset <= chunk_end(c),
    ensures
        range_set(c.offset as int, chunk_end(c)).union(covered(cs.subrange(i, j))) == range_set(
            c.offset as int,
            max_int(chunk_end(cs[j - 1]), chunk_end(c)),
        ),
    decreases j - i,
{
    let rc = range_set(c.offset as int, chunk_end(c));
    if j == i + 1 {
        assert(cs.subrange(i, j) =~= seq![cs[i]]);
        lemma_covered_single(cs[i]);
        lemma_range_union(c.offset as int, chunk_end(c), cs[i].offset as int, chunk_end(cs[i]));
    } else {
        lemma_merge_cover(cs, i, j - 1, c);
        assert(cs.subrange(i, j) =~= cs.subrange(i, j - 1) + seq![cs[j - 1]]);
        lemma_covered_concat(cs.subrange(i, j - 1), seq![cs[j - 1]]);
        lemma_covered_single(cs[j - 1]);
        let m = max_int(chunk_end(cs[j - 2]), chunk_end(c));
        assert(chunk_end(cs[j - 2]) < cs[j - 1].offset);
        lemma_range_union(c.offset as int, m, cs[j - 1].offset as int, chunk_end(cs[j - 1]));
        assert(rc.union(covered(cs.subrange(i, j))) =~= rc.union(covered(cs.subrange(i, j - 1))).union(
            covered(seq![cs[j - 1]]),
        ));
    }
}

/// The range of `c` meets or overlaps some chunk of the list.
pub open spec fn touches(cs: Seq<CfChunk>, c: CfChunk) -> bool {
    exists|k: int| 0 <= k < cs.len() && (#[trigger] cs[k]).offset <= chunk_end(c) && c.offset <= chunk_end(cs[k])
}

/// Taking a chunk out of a list in order uncovers exactly its range.
proof fn lemma_covered_remove(cs: Seq<CfChunk>, s: int)
    requires
        chunks_wf(cs),
        0 <= s < cs.len(),
    ensures
        covered(cs.remove(s)) == covered(cs).difference(range_set(cs[s].offset as int, chunk_end(cs[s]))),
{
    lemma_offsets_sorted(cs);
    lemma_covered_split(cs, s, s + 1);
    assert(cs.subrange(s, s + 1) =~= seq![cs[s]]);
    lemma_covered_single(cs[s]);
    assert(cs.remove(s) =~= cs.take(s) + cs.skip(s + 1));
    lemma_covered_concat(cs.take(s), cs.skip(s + 1));
    let rs = range_set(cs[s].offset as int, chunk_end(cs[s]));
    assert forall|z: int| covered(cs.take(s)).contains(z) implies !rs.contains(z) by {
        let k = choose|k: int| 0 <= k < cs.take(s).len() && in_chunk(#[trigger] cs.take(s)[k], z);
        assert(cs.take(s)[k] == cs[k]);
        assert(chunk_end(cs[k]) < cs[s].offset);
    }
    assert forall|z: int| covered(cs.skip(s + 1)).contains(z) implies !rs.contains(z) by {
        let k = choose|k: int| 0 <= k < cs.skip(s + 1).len() && in_chunk(#[trigger] cs.skip(s + 1)[k], z);
        assert(cs.skip(s + 1)[k] == cs[k + s + 1]);
        assert(chunk_end(cs[s]) < cs[k + s + 1].offset);
    }
    assert(covered(cs.remove(s)) =~= covered(cs).difference(rs));
}


/// Inserting a chunk anywhere adds its range to the covered offsets.
proof fn lemma_covered_insert(cs: Seq<CfChunk>, p: int, c: CfChunk)
    requires
        0 <= p <= cs.len(),
    ensures
        covered(cs.insert(p, c)) == covered(cs).union(range_set(c.offset as int, chunk_end(c))),
{
    assert(cs.insert(p, c) =~= cs.take(p) + seq![c] + cs.skip(p));
    lemma_covered_concat(cs.take(p) + seq![c], cs.skip(p));
    lemma_covered_concat(cs.take(p), seq![c]);
    lemma_covered_single(c);
    assert(cs =~= cs.take(p) + cs.skip(p));
    lemma_covered_concat(cs.take(p), cs.skip(p));
    assert(covered(cs.insert(p, c)) =~= covered(cs).union(range_set(c.offset as int, chunk_end(c))));
}

/// The covered offsets after merging `c` with chunks `i .. j` (and the chunk before, when
/// `with_prev`) are those before plus the range of `c`.
proof fn lemma_add_cover_merge(cs: Seq<CfChunk>, c: CfChunk, i: int, j: int)
    requires
        chunks_wf(cs),
        chunk_end(c) <= u32::MAX,
        add_positions(cs, c, i, j),
        i < j,
        j == next_stop(cs, i, chunk_end(c)),
    ensures
        ({
            let m = merged_next(cs, i, c);
            let rc = range_set(c.offset as int, chunk_end(c));
            &&& covered(cs.take(i) + seq![m] + cs.skip(j)) == covered(cs).union(rc)
            &&& (i > 0 && m.offset <= chunk_end(cs[i - 1])) ==> covered(
                cs.take(i - 1) + seq![extended(cs[i - 1], m)] + cs.skip(j),
            ) == covered(cs).union(rc)
        }),
{
    let m = merged_next(cs, i, c);
    let rc = range_set(c.offset as int, chunk_end(c));
    assert(chunk_end(cs[j - 1]) <= u32::MAX);
    lemma_merge_cover(cs, i, j, c);
    lemma_covered_single(m);
    lemma_covered_split(cs, i, j);
    lemma_covered_concat(cs.take(i) + seq![m], cs.skip(j));
    lemma_covered_concat(cs.take(i), seq![m]);
    assert(covered(cs.take(i) + seq![m] + cs.skip(j)) =~= covered(cs).union(rc));
    if i > 0 && m.offset <= chunk_end(cs[i - 1]) {
        let p = cs[i - 1];
        let x = extended(p, m);
        lemma_covered_single(x);
        lemma_covered_single(p);
        lemma_range_union(p.offset as int, chunk_end(p), m.offset as int, chunk_end(m));
        assert(cs.take(i) =~= cs.take(i - 1) + seq![p]);
        lemma_covered_concat(cs.take(i - 1), seq![p]);
        lemma_covered_concat(cs.take(i - 1) + seq![x], cs.skip(j));
        lemma_covered_concat(cs.take(i - 1), seq![x]);
        assert(covered(cs.take(i - 1) + seq![x] + cs.skip(j)) =~= covered(cs).union(rc));
    }
}

/// The chunk list law: adding the range of `c` to a list in order records it. When `c`
/// meets or overlaps a chunk, or the list has room, the covered offsets afterwards are
/// those before plus the range of `c`. Otherwise, when the first smallest chunk is
/// smaller than `c`, `c` takes its place; when it is not, the list stays as it was. The
/// list stays in order in every case.
pub proof fn law_chunk_add(cs: Seq<CfChunk>, max: nat, c: CfChunk)
    requires
        chunks_wf(cs),
        cs.len() <= max,
        0 < max,
        chunk_end(c) <= u32::MAX,
    ensures
        chunks_wf(add_spec(cs, max, c)),
        add_spec(cs, max, c).len() <= max,
        touches(cs, c) || cs.len() < max ==> covered(add_spec(cs, max, c)) == covered(cs).union(
            range_set(c.offset as int, chunk_end(c)),
        ),
        !touches(cs, c) && cs.len() >= max && cs[smallest_idx(cs)].size < c.size ==> covered(
            add_spec(cs, max, c),
        ) == covered(cs).difference(
            range_set(cs[smallest_idx(cs)].offset as int, chunk_end(cs[smallest_idx(cs)])),
        ).union(range_set(c.offset as int, chunk_end(c))),
        !touches(cs, c) && cs.len() >= max && !(cs[smallest_idx(cs)].size < c.size) ==> add_spec(
            cs,
            max,
            c,
        ) == cs,
{
    lemma_add_wf(cs, max, c);
    lemma_offsets_sorted(cs);
    let off = c.offset as int;
    let e = chunk_end(c);
    lemma_lower_bound_facts(cs, off);
    let i = lower_bound(cs, off) as int;
    lemma_next_stop(cs, i, e);
    let j = next_stop(cs, i, e);
    assert(add_positions(cs, c, i, j));
    let rc = range_set(off, e);
    if j > i {
        assert(cs[i].offset <= e);
        assert(touches(cs, c));
        lemma_add_cover_merge(cs, c, i, j);
    } else if i > 0 && c.offset <= chunk_end(cs[i - 1]) {
        assert(touches(cs, c));
        let p = cs[i - 1];
        let x = extended(p, c);
        let r = cs.update(i - 1, x);
        lemma_range_union(p.offset as int, chunk_end(p), off, e);
        lemma_covered_single(x);
        lemma_covered_single(p);
        lemma_covered_split(cs, i - 1, i);
        lemma_covered_split(r, i - 1, i);
        assert(cs.subrange(i - 1, i) =~= seq![p]);
        assert(r.subrange(i - 1, i) =~= seq![x]);
        assert(r.take(i - 1) =~= cs.take(i - 1));
        assert(r.skip(i) =~= cs.skip(i));
        assert(covered(r) =~= covered(cs).union(rc));
    } else {
        assert(!touches(cs, c)) by {
            if touches(cs, c) {
                let k = choose|k: int| 0 <= k < cs.len() && (#[trigger] cs[k]).offset <= chunk_end(c) && c.offset <= chunk_end(cs[k]);
                if k >= i {
                    assert(cs[i].offset <= cs[k].offset);
                } else if k < i - 1 {
                    assert(chunk_end(cs[k]) < cs[i - 1].offset);
                }
            }
        }
        if cs.len() < max {
            lemma_covered_insert(cs, i, c);
        } else {
            let s = smallest_idx(cs);
            if cs[s].size < c.size {
                lemma_smallest_idx_bound(cs);
                lemma_remove_wf(cs, s);
                let rest = cs.remove(s);
                lemma_lower_bound_facts(rest, off);
                lemma_covered_remove(cs, s);
                lemma_covered_insert(rest, lower_bound(rest, off) as int, c);
            }
        }
    }
}

/// Taking bytes off the first chunk uncovers exactly those bytes, and keeps the list in
/// order.
pub proof fn law_chunk_remove_from_first(cs: Seq<CfChunk>, size: u32)
    requires
        chunks_wf(cs),
        cs.len() > 0,
    ensures
        chunks_wf(remove_from_first_spec(cs, size)),
        covered(remove_from_first_spec(cs, size)) == covered(cs).difference(
            range_set(cs[0].offset as int, cs[0].offset + (if size > cs[0].size { cs[0].size } else { size })),
        ),
{
    let c = cs[0];
    let s = if size > c.size { c.size } else { size };
    let r = remove_from_first_spec(cs, size);
    let gone = range_set(c.offset as int, c.offset + s);
    lemma_covered_split(cs, 0, 1);
    assert(cs.subrange(0, 1) =~= seq![c]);
    lemma_covered_single(c);
    assert(cs.take(0) =~= Seq::<CfChunk>::empty());
    assert(covered(Seq::<CfChunk>::empty()) =~= Set::<int>::empty());
    assert forall|z: int| covered(cs.skip(1)).contains(z) implies !range_set(c.offset as int, chunk_end(c)).contains(z) by {
        let k = choose|k: int| 0 <= k < cs.skip(1).len() && in_chunk(#[trigger] cs.skip(1)[k], z);
        assert(cs.skip(1)[k] == cs[k + 1]);
        assert(chunk_end(cs[0]) < cs[k + 1].offset);
    }
    if c.size - s == 0 {
        lemma_remove_wf(cs, 0);
        assert(cs.remove(0) =~= cs.drop_first());
        assert(cs.drop_first() =~= cs.skip(1));
        assert(covered(r) =~= covered(cs).difference(gone));
    } else {
        let n = CfChunk { offset: (c.offset + s) as u32, size: (c.size - s) as u32 };
        assert(r =~= seq![n] + cs.skip(1));
        lemma_covered_concat(seq![n], cs.skip(1));
        lemma_covered_single(n);
        assert(covered(r) =~= covered(cs).difference(gone));
        assert forall|a: int, b: int| 0 <= a < b < r.len() implies chunk_end(#[trigger] r[a]) < (#[trigger] r[b]).offset by {
            assert(chunk_end(cs[a]) < cs[b].offset);
        }
    }
}


/// The gap `g` is non-empty and no chunk of the list overlaps it.
pub open spec fn gap_clear(cs: Seq<CfChunk>, g: CfChunk) -> bool {
    &&& g.size > 0
    &&& forall|k: int| 0 <= k < cs.len() ==> chunk_end(#[trigger] cs[k]) <= g.offset || chunk_end(g) <= cs[k].offset
}

/// Every gap that `gap_run` reports is clear of the chunks.
proof fn lemma_gap_run_clear(cs: Seq<CfChunk>, i: int, budget: int, total: int, start: int)
    requires
        chunks_wf(cs),
        0 <= i,
        0 < total <= u32::MAX,
        0 <= start,
    ensures
        forall|n: int| 0 <= n < gap_run(cs, i, budget, total, start).len() ==> gap_clear(
            cs,
            #[trigger] gap_run(cs, i, budget, total, start)[n],
        ),
    decreases cs.len() - i,
{
    lemma_offsets_sorted(cs);
    if !(budget <= 0 || i >= cs.len()) {
        let next_off = if i == cs.len() - 1 { total } else { cs[i + 1].offset as int };
        let gap_start = chunk_end(cs[i]);
        lemma_gap_run_clear(cs, i + 1, budget - 1, total, start);
        lemma_gap_run_clear(cs, i + 1, budget, total, start);
        if gap_start < total && start < next_off {
            let o = max_int(gap_start, start);
            let g = CfChunk { offset: o as u32, size: (next_off - o) as u32 };
            if i < cs.len() - 1 {
                assert(chunk_end(cs[i]) < cs[i + 1].offset);
            }
            assert(gap_clear(cs, g)) by {
                assert forall|k: int| 0 <= k < cs.len() implies chunk_end(#[trigger] cs[k]) <= g.offset || chunk_end(g) <= cs[k].offset by {
                    if k < i {
                        assert(chunk_end(cs[k]) < cs[i].offset);
                    } else if k > i + 1 {
                        assert(cs[i + 1].offset < cs[k].offset);
                    }
                }
            }
            let rest = gap_run(cs, i + 1, budget - 1, total, start);
            assert forall|n: int| 0 <= n < gap_run(cs, i, budget, total, start).len() implies gap_clear(
                cs,
                #[trigger] gap_run(cs, i, budget, total, start)[n],
            ) by {
                if n > 0 {
                    assert(gap_run(cs, i, budget, total, start)[n] == rest[n - 1]);
                }
            }
        } else if gap_start < total {
            assert(gap_run(cs, i, budget, total, start) == gap_run(cs, i + 1, budget, total, start));
        } else {
            assert(gap_run(cs, i, budget, total, start) =~= Seq::<CfChunk>::empty());
        }
    }
}

/// The gap law: every gap that `cf_chunk_list_compute_gaps` reports is non-empty and clear
/// of the chunks of the list, so it names bytes that have not been recorded.
pub proof fn law_chunk_gaps_clear(cs: Seq<CfChunk>, max_gaps: u32, total: u32, start: u32)
    requires
        chunks_wf(cs),
        total == 0 || start < total,
    ensures
        forall|n: int| 0 <= n < gaps_spec(cs, max_gaps, total, start).len() ==> gap_clear(
            cs,
            #[trigger] gaps_spec(cs, max_gaps, total, start)[n],
        ),
{
    lemma_offsets_sorted(cs);
    let gs = gaps_spec(cs, max_gaps, total, start);
    if total > 0 && cs.len() > 0 {
        let first = if start < cs[0].offset {
            seq![CfChunk { offset: start, size: (cs[0].offset - start) as u32 }]
        } else {
            Seq::<CfChunk>::empty()
        };
        let run = gap_run(cs, 0, max_gaps - first.len(), total as int, start as int);
        lemma_gap_run_clear(cs, 0, max_gaps - first.len(), total as int, start as int);
        assert forall|n: int| 0 <= n < gs.len() implies gap_clear(cs, #[trigger] gs[n]) by {
            if n < first.len() {
                assert(gs[n] == first[n]);
                assert forall|k: int| 0 <= k < cs.len() implies chunk_end(#[trigger] cs[k]) <= gs[n].offset || chunk_end(gs[n]) <= cs[k].offset by {
                    assert(cs[0].offset <= cs[k].offset);
                }
            } else {
                assert(gs[n] == run[n - first.len()]);
            }
        }
    }
}

/// The offset `x` lies in one of the gaps `gs`.
pub open spec fn in_some_gap(gs: Seq<CfChunk>, x: int) -> bool {
    exists|n: int| 0 <= n < gs.len() && in_chunk(#[trigger] gs[n], x)
}

/// With a budget of one gap per chunk left, `gap_run` from chunk `i` reports a gap holding
/// every missing offset past that chunk and before the total.
proof fn lemma_gap_run_complete(cs: Seq<CfChunk>, i: int, budget: int, total: int, start: int, x: int)
    requires
        chunks_wf(cs),
        0 <= i < cs.len(),
        0 < total <= u32::MAX,
        0 <= start,
        budget >= cs.len() - i,
        start <= x < total,
        chunk_end(cs[i]) <= x,
        forall|k: int| i < k < cs.len() ==> !in_chunk(#[trigger] cs[k], x),
    ensures
        in_some_gap(gap_run(cs, i, budget, total, start), x),
    decreases cs.len() - i,
{
    let run = gap_run(cs, i, budget, total, start);
    let next_off = if i == cs.len() - 1 { total } else { cs[i + 1].offset as int };
    let gap_start = chunk_end(cs[i]);
    if x < next_off {
        let o = max_int(gap_start, start);
        let g = CfChunk { offset: o as u32, size: (next_off - o) as u32 };
        assert(run[0] == g);
        assert(in_chunk(run[0], x));
    } else {
        assert(i < cs.len() - 1);
        assert(!in_chunk(cs[i + 1], x));
        if start < next_off {
            let rest = gap_run(cs, i + 1, budget - 1, total, start);
            lemma_gap_run_complete(cs, i + 1, budget - 1, total, start, x);
            let n = choose|n: int| 0 <= n < rest.len() && in_chunk(#[trigger] rest[n], x);
            assert(run[n + 1] == rest[n]);
            assert(in_chunk(run[n + 1], x));
        } else {
            lemma_gap_run_complete(cs, i + 1, budget, total, start, x);
        }
    }
}

/// The gap completeness law: when the gaps are not cut short (room for one per chunk and
/// one more), every offset from `start` up to the total that no chunk covers lies in a
/// gap that `cf_chunk_list_compute_gaps` reports.
pub proof fn law_chunk_gaps_complete(cs: Seq<CfChunk>, max_gaps: u32, total: u32, start: u32, x: int)
    requires
        chunks_wf(cs),
        max_gaps > cs.len(),
        start <= x < total,
        !covered(cs).contains(x),
    ensures
        in_some_gap(gaps_spec(cs, max_gaps, total, start), x),
{
    let gs = gaps_spec(cs, max_gaps, total, start);
    assert forall|k: int| 0 <= k < cs.len() implies !in_chunk(#[trigger] cs[k], x) by {
        if in_chunk(cs[k], x) {
            assert(covered(cs).contains(x));
        }
    }
    if cs.len() == 0 {
        assert(in_chunk(gs[0], x));
    } else {
        let first = if start < cs[0].offset {
            seq![CfChunk { offset: start, size: (cs[0].offset - start) as u32 }]
        } else {
            Seq::<CfChunk>::empty()
        };
        let run = gap_run(cs, 0, max_gaps - first.len(), total as int, start as int);
        assert(gs == first + run);
        if x < cs[0].offset {
            assert(gs[0] == first[0]);
            assert(in_chunk(gs[0], x));
        } else {
            assert(!in_chunk(cs[0], x));
            lemma_gap_run_complete(cs, 0, max_gaps - first.len(), total as int, start as int, x);
            let n = choose|n: int| 0 <= n < run.len() && in_chunk(#[trigger] run[n], x);
            assert(gs[n + first.len()] == run[n]);
            assert(in_chunk(gs[n + first.len()], x));
        }
    }
}

/// The gaps that `gap_run` reports from chunk `i` on start at or after `start` and after
/// that chunk's end, and come in increasing order without overlapping.
proof fn lemma_gap_run_order(cs: Seq<CfChunk>, i: int, budget: int, total: int, start: int)
    requires
        chunks_wf(cs),
        0 <= i,
        0 < total <= u32::MAX,
        0 <= start <= u32::MAX,
    ensures
        forall|n: int| 0 <= n < gap_run(cs, i, budget, total, start).len() ==> start <= (
        #[trigger] gap_run(cs, i, budget, total, start)[n]).offset && (i < cs.len() ==> chunk_end(cs[i])
            <= gap_run(cs, i, budget, total, start)[n].offset),
        forall|n: int, m: int|
            0 <= n < m < gap_run(cs, i, budget, total, start).len() ==> chunk_end(
                #[trigger] gap_run(cs, i, budget, total, start)[n],
            ) <= (#[trigger] gap_run(cs, i, budget, total, start)[m]).offset,
    decreases cs.len() - i,
{
    let run = gap_run(cs, i, budget, total, start);
    if !(budget <= 0 || i >= cs.len()) {
        let next_off = if i == cs.len() - 1 { total } else { cs[i + 1].offset as int };
        let gap_start = chunk_end(cs[i]);
        if i < cs.len() - 1 {
            assert(chunk_end(cs[i]) < cs[i + 1].offset);
        }
        if gap_start >= total {
        } else if start < next_off {
            lemma_gap_run_order(cs, i + 1, budget - 1, total, start);
            let rest = gap_run(cs, i + 1, budget - 1, total, start);
            let o = max_int(gap_start, start);
            let g = CfChunk { offset: o as u32, size: (next_off - o) as u32 };
            assert(run == seq![g] + rest);
            assert(g.offset == o);
            assert(chunk_end(g) == next_off);
            assert forall|n: int| 0 <= n < run.len() implies start <= (#[trigger] run[n]).offset && chunk_end(cs[i])
                <= run[n].offset by {
                if n > 0 {
                    assert(run[n] == rest[n - 1]);
                    assert(chunk_end(cs[i + 1]) <= rest[n - 1].offset);
                }
            }
            assert forall|n: int, m: int| 0 <= n < m < run.len() implies chunk_end(#[trigger] run[n]) <= (
            #[trigger] run[m]).offset by {
                assert(run[m] == rest[m - 1]);
                assert(chunk_end(cs[i + 1]) <= rest[m - 1].offset);
                if n > 0 {
                    assert(run[n] == rest[n - 1]);
                }
            }
        } else {
            lemma_gap_run_order(cs, i + 1, budget, total, start);
            let rest = gap_run(cs, i + 1, budget, total, start);
            assert(run == rest);
            if i + 1 < cs.len() {
                assert(chunk_end(cs[i + 1]) >= cs[i + 1].offset);
            }
        }
    }
}

/// The order law of the gaps: for a list with at least one chunk, every gap that
/// `cf_chunk_list_compute_gaps` reports starts at or after `start`, and the gaps come in
/// increasing order of offset without overlapping. (An empty list is reported as one
/// gap over the whole file, from offset 0, whatever `start` is.)
pub proof fn law_chunk_gaps_in_order_from_start(cs: Seq<CfChunk>, max_gaps: u32, total: u32, start: u32)
    requires
        chunks_wf(cs),
        cs.len() > 0,
        total == 0 || start < total,
    ensures
        forall|n: int| 0 <= n < gaps_spec(cs, max_gaps, total, start).len() ==> start <= (
        #[trigger] gaps_spec(cs, max_gaps, total, start)[n]).offset,
        forall|n: int, m: int|
            0 <= n < m < gaps_spec(cs, max_gaps, total, start).len() ==> chunk_end(
                #[trigger] gaps_spec(cs, max_gaps, total, start)[n],
            ) <= (#[trigger] gaps_spec(cs, max_gaps, total, start)[m]).offset,
{
    let gs = gaps_spec(cs, max_gaps, total, start);
    if total > 0 {
        let first = if start < cs[0].offset {
            seq![CfChunk { offset: start, size: (cs[0].offset - start) as u32 }]
        } else {
            Seq::<CfChunk>::empty()
        };
        let run = gap_run(cs, 0, max_gaps - first.len(), total as int, start as int);
        lemma_gap_run_order(cs, 0, max_gaps - first.len(), total as int, start as int);
        assert(gs == first + run);
        assert forall|n: int| 0 <= n < gs.len() implies start <= (#[trigger] gs[n]).offset by {
            if n >= first.len() {
                assert(gs[n] == run[n - first.len()]);
            }
        }
        assert forall|n: int, m: int| 0 <= n < m < gs.len() implies chunk_end(#[trigger] gs[n]) <= (
        #[trigger] gs[m]).offset by {
            assert(gs[m] == run[m - first.len()]) by {
                if first.len() > 0 {
                    assert(m >= 1);
                }
            }
            if n >= first.len() {
                assert(gs[n] == run[n - first.len()]);
            } else {
                assert(gs[n] == first[0]);
                assert(chunk_end(cs[0]) <= run[m - first.len()].offset);
            }
        }
    }
}

} // verus!
