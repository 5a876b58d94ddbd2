//! The walk over the memory regions of a process and over the chunks of
//! one region, as steps: the caller performs the queries and reads.
use vstd::prelude::*;

use crate::keys::{contains_key, pair_key};
use crate::pattern::{
    CHUNK_SIZE, HEX_PATTERN_MAX, candidate_at, found_at, found_keys, key_literal_at,
    lemma_found_keys_members, lemma_literal_in_piece, lemma_piece_candidate,
    law_search_keeps_earlier_results, scan_positions,
};

verus! {

/// Bytes shared by two consecutive chunks, so that a key literal that
/// straddles a chunk boundary is still read whole.
pub const OVERLAP: usize = HEX_PATTERN_MAX + 4;

/// Regions this large or larger are skipped.
pub const MAX_REGION_SIZE: usize = 500 * 1024 * 1024;

/// What a query of the memory at some address tells about its region.
pub struct RegionInfo {
    pub base: usize,
    pub size: usize,
    /// The region is committed memory.
    pub committed: bool,
    /// The region's protection is read-write.
    pub read_write: bool,
}

/// What to do with a region: whether to scan it, and where to query next
/// (`None`: the walk is over).
pub struct RegionVisit {
    pub scan: bool,
    pub next_addr: Option<usize>,
}

/// `a + b`, saturated at `usize::MAX`.
pub open spec fn saturating_sum(a: usize, b: usize) -> usize {
    if a + b <= usize::MAX {
        (a + b) as usize
    } else {
        usize::MAX
    }
}

/// Whether a region is scanned: committed, read-write, under the size limit.
pub open spec fn region_scanned(info: RegionInfo) -> bool {
    info.committed && info.read_write && info.size < MAX_REGION_SIZE
}

/// One step of the walk over a process's regions. `query` is `None` when the
/// query at the current address failed, which ends the walk. Otherwise the
/// region is scanned or not, and the walk goes on at its end (saturated),
/// unless that end wraps to address 0.
pub fn scan_memory_step(query: Option<RegionInfo>) -> (r: Option<RegionVisit>)
    ensures
        match query {
            None => r is None,
            Some(info) => r matches Some(v) && v.scan == region_scanned(info) && v.next_addr == (
            if saturating_sum(info.base, info.size) == 0 {
                None
            } else {
                Some(saturating_sum(info.base, info.size))
            }),
        },
        query matches Some(info) ==> (r matches Some(v) && v.scan == (info.committed
            && info.read_write && info.size < 500 * 1024 * 1024) && v.next_addr == (if info.base
            + info.size > usize::MAX {
            Some(usize::MAX)
        } else if info.base + info.size == 0 {
            None
        } else {
            Some((info.base + info.size) as usize)
        })),
{
    match query {
        None => None,
        Some(info) => {
            let scan = info.committed && info.read_write && info.size < MAX_REGION_SIZE;
            let next = if info.base <= usize::MAX - info.size {
                info.base + info.size
            } else {
                usize::MAX
            };
            Some(RegionVisit { scan, next_addr: if next == 0 { None } else { Some(next) } })
        },
    }
}


/// A region is scanned exactly when it is committed, read-write and smaller
/// than 500 MiB.
pub proof fn law_region_scanned_exactly(info: RegionInfo)
    ensures
        region_scanned(info) == (info.committed && info.read_write && info.size < 500 * 1024
            * 1024),
{
}

/// The walk goes on at the end of the region (saturated at the top of the
/// address space), and ends only when that end wraps to address 0.
pub proof fn law_walk_goes_on_at_region_end(info: RegionInfo)
    ensures
        saturating_sum(info.base, info.size) >= info.base,
        saturating_sum(info.base, info.size) >= info.size,
        info.base + info.size <= usize::MAX ==> saturating_sum(info.base, info.size)
            == info.base + info.size,
        saturating_sum(info.base, info.size) == 0 <==> (info.base == 0 && info.size == 0),
{
}

/// One read of a region: the address, the number of bytes, and the offset
/// in the region where the next read starts.
pub struct ChunkRead {
    pub addr: usize,
    pub len: usize,
    pub next_offset: usize,
}

/// Length of the chunk read at `offset` in a region of `size` bytes.
pub open spec fn chunk_len(size: int, offset: int) -> int {
    if CHUNK_SIZE < size - offset {
        CHUNK_SIZE as int
    } else {
        size - offset
    }
}

/// Where the read after the one at `offset` starts: `OVERLAP` bytes before
/// the end of this chunk, or at its end when the chunk is that short.
pub open spec fn next_chunk_offset(size: int, offset: int) -> int {
    let c = chunk_len(size, offset);
    if c > OVERLAP {
        offset + c - OVERLAP
    } else {
        offset + c
    }
}

/// One step of the reads over a region of `size` bytes at `base`: `None`
/// when `offset` has reached the end of the region.
pub fn scan_region_step(base: usize, size: usize, offset: usize) -> (r: Option<ChunkRead>)
    requires
        offset < size ==> base + offset <= usize::MAX,
    ensures
        offset >= size ==> r is None,
        offset < size ==> (r matches Some(c) && c.addr == base + offset && c.len == chunk_len(
            size as int,
            offset as int,
        ) && c.next_offset == next_chunk_offset(size as int, offset as int)),
        r matches Some(c) ==> offset < c.next_offset <= size,
        r matches Some(c) ==> c.len == (if size - offset > 2 * 1024 * 1024 {
            2 * 1024 * 1024int
        } else {
            size - offset
        }) && c.next_offset == (if c.len > 196 {
            offset + c.len - 196
        } else {
            offset + c.len
        }),
{
    if offset >= size {
        return None;
    }
    let chunk_size = if CHUNK_SIZE < size - offset {
        CHUNK_SIZE
    } else {
        size - offset
    };
    let next = if chunk_size > OVERLAP {
        offset + (chunk_size - OVERLAP)
    } else {
        offset + chunk_size
    };
    Some(ChunkRead { addr: base + offset, len: chunk_size, next_offset: next })
}


/// Reads take 2 MiB at a time (less at the end of a region), and the next
/// read starts 196 bytes before the end of the last one (at its end when the
/// read was no longer than that).
pub proof fn law_chunk_sizes(size: int, offset: int)
    requires
        0 <= offset < size,
    ensures
        chunk_len(size, offset) == (if size - offset > 2 * 1024 * 1024 {
            2 * 1024 * 1024int
        } else {
            size - offset
        }),
        next_chunk_offset(size, offset) == (if chunk_len(size, offset) > 196 {
            offset + chunk_len(size, offset) - 196
        } else {
            offset + chunk_len(size, offset)
        }),
{
}

/// The offset of the `k`-th read of a region of `size` bytes, the first at 0.
pub open spec fn chunk_offset(size: int, k: nat) -> int
    decreases k,
{
    if k == 0 {
        0
    } else {
        let o = chunk_offset(size, (k - 1) as nat);
        if o < size {
            next_chunk_offset(size, o)
        } else {
            o
        }
    }
}

proof fn lemma_cover_from(size: int, k: nat, p: int, len: int)
    requires
        chunk_offset(size, k) <= p < size,
        0 <= len <= OVERLAP,
        p + len <= size,
    ensures
        exists|m: nat|
            #![trigger chunk_offset(size, m)]
            chunk_offset(size, m) <= p && p + len <= chunk_offset(size, m) + chunk_len(
                size,
                chunk_offset(size, m),
            ),
    decreases size - chunk_offset(size, k),
{
    let o = chunk_offset(size, k);
    let c = chunk_len(size, o);
    if p + len <= o + c {
        assert(chunk_offset(size, k) <= p && p + len <= chunk_offset(size, k) + chunk_len(
            size,
            chunk_offset(size, k),
        ));
    } else {
        assert(chunk_offset(size, k + 1) == next_chunk_offset(size, o));
        lemma_cover_from(size, k + 1, p, len);
    }
}

/// The reads of a region leave no window of up to `OVERLAP` bytes unread:
/// each such window lies whole inside one chunk (when every read is full).
pub proof fn law_chunks_cover_short_windows(size: int, p: int, len: int)
    requires
        0 <= p < size,
        0 <= len <= OVERLAP,
        p + len <= size,
    ensures
        exists|k: nat|
            #![trigger chunk_offset(size, k)]
            chunk_offset(size, k) < size && chunk_offset(size, k) <= p && p + len
                <= chunk_offset(size, k) + chunk_len(size, chunk_offset(size, k)),
{
    lemma_cover_from(size, 0, p, len);
}


// ---------------------------------------------------------------------
// The chunked search of a region
// ---------------------------------------------------------------------

proof fn lemma_chunk_offset_bounds(size: int, k: nat)
    requires
        size >= 0,
    ensures
        0 <= chunk_offset(size, k) <= size,
        chunk_offset(size, k) < size ==> chunk_offset(size, k) + chunk_len(size, chunk_offset(size, k)) <= size,
        chunk_offset(size, k) <= chunk_offset(size, k + 1),
    decreases k,
{
    if k > 0 {
        lemma_chunk_offset_bounds(size, (k - 1) as nat);
    }
    assert(chunk_offset(size, k + 1) == (if chunk_offset(size, k) < size {
        next_chunk_offset(size, chunk_offset(size, k))
    } else {
        chunk_offset(size, k)
    }));
}

proof fn lemma_chunk_offset_monotonic(size: int, j: nat, k: nat)
    requires
        size >= 0,
        j <= k,
    ensures
        chunk_offset(size, j) <= chunk_offset(size, k),
    decreases k - j,
{
    if j < k {
        lemma_chunk_offset_monotonic(size, j, (k - 1) as nat);
        lemma_chunk_offset_bounds(size, (k - 1) as nat);
    }
}

/// The reads of a region end: some read starts at or after its end.
pub proof fn law_chunk_walk_ends(size: int)
    requires
        size >= 0,
    ensures
        exists|k: nat| #[trigger] chunk_offset(size, k) >= size,
{
    lemma_walk_ends_from(size, 0);
}

proof fn lemma_walk_ends_from(size: int, k: nat)
    requires
        size >= 0,
    ensures
        exists|m: nat| #[trigger] chunk_offset(size, m) >= size,
    decreases size - chunk_offset(size, k),
{
    lemma_chunk_offset_bounds(size, k);
    if chunk_offset(size, k) >= size {
        assert(chunk_offset(size, k) >= size);
    } else {
        assert(chunk_offset(size, k + 1) == next_chunk_offset(size, chunk_offset(size, k)));
        lemma_walk_ends_from(size, k + 1);
    }
}

/// The bytes of the `k`-th read of the region `mem` (a full read).
pub open spec fn chunk_bytes(mem: Seq<u8>, k: nat) -> Seq<u8> {
    let o = chunk_offset(mem.len() as int, k);
    mem.subrange(o, o + chunk_len(mem.len() as int, o))
}

/// The results after the first `k` reads of the region `mem`, each read full
/// and searched (as `scan_chunk` does) into the results of the one before.
pub open spec fn chunked_keys(mem: Seq<u8>, rs: Seq<(Seq<char>, Seq<char>)>, k: nat) -> Seq<
    (Seq<char>, Seq<char>),
>
    decreases k,
{
    if k == 0 {
        rs
    } else {
        let prev = chunked_keys(mem, rs, (k - 1) as nat);
        let o = chunk_offset(mem.len() as int, (k - 1) as nat);
        if o < mem.len() {
            found_keys(
                chunk_bytes(mem, (k - 1) as nat),
                prev,
                scan_positions(chunk_len(mem.len() as int, o)),
            )
        } else {
            prev
        }
    }
}

proof fn lemma_contains_key_prefix(
    a: Seq<(Seq<char>, Seq<char>)>,
    b: Seq<(Seq<char>, Seq<char>)>,
    p: (Seq<char>, Seq<char>),
)
    requires
        a.is_prefix_of(b),
        contains_key(a, p),
    ensures
        contains_key(b, p),
{
    let j = choose|j: int| 0 <= j < a.len() && pair_key(#[trigger] a[j]) == pair_key(p);
    assert(b[j] == a[j]);
}

proof fn lemma_chunked_keeps(mem: Seq<u8>, rs: Seq<(Seq<char>, Seq<char>)>, j: nat, k: nat)
    requires
        j <= k,
    ensures
        chunked_keys(mem, rs, j).is_prefix_of(chunked_keys(mem, rs, k)),
    decreases k - j,
{
    if j < k {
        lemma_chunked_keeps(mem, rs, j, (k - 1) as nat);
        let prev = chunked_keys(mem, rs, (k - 1) as nat);
        let o = chunk_offset(mem.len() as int, (k - 1) as nat);
        if o < mem.len() {
            law_search_keeps_earlier_results(
                chunk_bytes(mem, (k - 1) as nat),
                prev,
                scan_positions(chunk_len(mem.len() as int, o)),
            );
        }
        let a = chunked_keys(mem, rs, j);
        let b = chunked_keys(mem, rs, k);
        assert(a =~= b.subrange(0, a.len() as int)) by {
            assert forall|x: int| 0 <= x < a.len() implies a[x] == b[x] by {
                assert(a[x] == prev[x]);
            }
        }
    } else {
        assert(chunked_keys(mem, rs, j) =~= chunked_keys(mem, rs, k).subrange(
            0,
            chunked_keys(mem, rs, j).len() as int,
        ));
    }
}

proof fn lemma_chunked_within_whole(
    mem: Seq<u8>,
    rs: Seq<(Seq<char>, Seq<char>)>,
    k: nat,
    p: (Seq<char>, Seq<char>),
)
    requires
        contains_key(chunked_keys(mem, rs, k), p),
    ensures
        contains_key(found_keys(mem, rs, scan_positions(mem.len() as int)), p),
    decreases k,
{
    let size = mem.len() as int;
    let n = scan_positions(size);
    if k == 0 {
        lemma_found_keys_members(mem, rs, n, p);
    } else {
        let km1 = (k - 1) as nat;
        let prev = chunked_keys(mem, rs, km1);
        let o = chunk_offset(size, km1);
        lemma_chunk_offset_bounds(size, km1);
        if o < size {
            let c = chunk_len(size, o);
            let ch = chunk_bytes(mem, km1);
            lemma_found_keys_members(ch, prev, scan_positions(c), p);
            if contains_key(prev, p) {
                lemma_chunked_within_whole(mem, rs, km1, p);
            } else {
                let i = choose|i: int| 0 <= i < scan_positions(c) && #[trigger] found_at(ch, i, p);
                lemma_piece_candidate(mem, o, c, i);
                assert(found_at(mem, o + i, p));
                assert(o + i < n);
                lemma_found_keys_members(mem, rs, n, p);
            }
        } else {
            lemma_chunked_within_whole(mem, rs, km1, p);
        }
    }
}

proof fn lemma_whole_within_chunked(
    mem: Seq<u8>,
    rs: Seq<(Seq<char>, Seq<char>)>,
    k: nat,
    p: (Seq<char>, Seq<char>),
)
    requires
        chunk_offset(mem.len() as int, k) >= mem.len(),
        contains_key(found_keys(mem, rs, scan_positions(mem.len() as int)), p),
    ensures
        contains_key(chunked_keys(mem, rs, k), p),
{
    let size = mem.len() as int;
    let n = scan_positions(size);
    lemma_found_keys_members(mem, rs, n, p);
    lemma_chunked_keeps(mem, rs, 0, k);
    if contains_key(rs, p) {
        lemma_contains_key_prefix(rs, chunked_keys(mem, rs, k), p);
    } else {
        let i = choose|i: int| 0 <= i < n && #[trigger] found_at(mem, i, p);
        let q = choose|q: int| key_literal_at(mem, i, q);
        law_chunks_cover_short_windows(size, i, q + 1 - i);
        let m = choose|m: nat|
            #![trigger chunk_offset(size, m)]
            chunk_offset(size, m) < size && chunk_offset(size, m) <= i && i + (q + 1 - i)
                <= chunk_offset(size, m) + chunk_len(size, chunk_offset(size, m));
        let o = chunk_offset(size, m);
        let c = chunk_len(size, o);
        lemma_chunk_offset_bounds(size, m);
        if k <= m {
            lemma_chunk_offset_monotonic(size, k, m);
        }
        lemma_literal_in_piece(mem, o, c, i, q);
        lemma_piece_candidate(mem, o, c, i - o);
        let ch = chunk_bytes(mem, m);
        assert(found_at(ch, i - o, p));
        let prev = chunked_keys(mem, rs, m);
        lemma_found_keys_members(ch, prev, scan_positions(c), p);
        assert(contains_key(chunked_keys(mem, rs, m + 1), p));
        lemma_chunked_keeps(mem, rs, m + 1, k);
        lemma_contains_key_prefix(chunked_keys(mem, rs, m + 1), chunked_keys(mem, rs, k), p);
    }
}

/// Reading a region in overlapping chunks and searching each finds the same
/// keys (by identity) as one search over the whole region: no literal that
/// straddles a chunk boundary is lost, and none is made up. (Every read full;
/// `k` reads reach the end of the region.)
pub proof fn law_chunked_search_is_whole_search(
    mem: Seq<u8>,
    rs: Seq<(Seq<char>, Seq<char>)>,
    k: nat,
    p: (Seq<char>, Seq<char>),
)
    requires
        chunk_offset(mem.len() as int, k) >= mem.len(),
    ensures
        contains_key(chunked_keys(mem, rs, k), p) <==> contains_key(
            found_keys(mem, rs, scan_positions(mem.len() as int)),
            p,
        ),
{
    if contains_key(chunked_keys(mem, rs, k), p) {
        lemma_chunked_within_whole(mem, rs, k, p);
    }
    if contains_key(found_keys(mem, rs, scan_positions(mem.len() as int)), p) {
        lemma_whole_within_chunked(mem, rs, k, p);
    }
}

} // verus!
