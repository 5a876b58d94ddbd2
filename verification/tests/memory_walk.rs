use wx_cli::region::{scan_memory_step, scan_region_step, RegionInfo, MAX_REGION_SIZE, OVERLAP};
use wx_cli::pattern::CHUNK_SIZE;
use wx_cli::pattern::{scan_chunk, search_pattern};

#[test]
fn failed_query_ends_the_walk() {
    assert!(scan_memory_step(None).is_none());
}

#[test]
fn committed_read_write_region_is_scanned() {
    let v = scan_memory_step(Some(RegionInfo { base: 0x1000, size: 0x2000, committed: true, read_write: true })).unwrap();
    assert!(v.scan);
    assert_eq!(v.next_addr, Some(0x3000));
    let v = scan_memory_step(Some(RegionInfo { base: 0x1000, size: 0x2000, committed: false, read_write: true })).unwrap();
    assert!(!v.scan);
    let v = scan_memory_step(Some(RegionInfo { base: 0x1000, size: 0x2000, committed: true, read_write: false })).unwrap();
    assert!(!v.scan);
    let v = scan_memory_step(Some(RegionInfo { base: 0, size: MAX_REGION_SIZE, committed: true, read_write: true })).unwrap();
    assert!(!v.scan);
    assert_eq!(v.next_addr, Some(MAX_REGION_SIZE));
}

#[test]
fn region_at_top_of_memory_saturates() {
    let v = scan_memory_step(Some(RegionInfo { base: usize::MAX - 10, size: 100, committed: false, read_write: false })).unwrap();
    assert_eq!(v.next_addr, Some(usize::MAX));
    let v = scan_memory_step(Some(RegionInfo { base: 0, size: 0, committed: false, read_write: false })).unwrap();
    assert_eq!(v.next_addr, None);
}

#[test]
fn region_reads_overlap_by_196_bytes() {
    assert_eq!(OVERLAP, 196);
    let size = CHUNK_SIZE + 1000;
    let c = scan_region_step(0x10000, size, 0).unwrap();
    assert_eq!(c.addr, 0x10000);
    assert_eq!(c.len, CHUNK_SIZE);
    assert_eq!(c.next_offset, CHUNK_SIZE - OVERLAP);
    let c2 = scan_region_step(0x10000, size, c.next_offset).unwrap();
    assert_eq!(c2.addr, 0x10000 + CHUNK_SIZE - OVERLAP);
    assert_eq!(c2.len, 1000 + OVERLAP);
    assert_eq!(c2.next_offset, size - OVERLAP);
    let c3 = scan_region_step(0x10000, size, c2.next_offset).unwrap();
    assert_eq!(c3.len, OVERLAP);
    assert_eq!(c3.next_offset, size);
    assert!(scan_region_step(0x10000, size, size).is_none());
}

#[test]
fn small_region_is_one_read() {
    let c = scan_region_step(0, 100, 0).unwrap();
    assert_eq!(c.len, 100);
    assert_eq!(c.next_offset, 100);
    assert!(scan_region_step(0, 100, 100).is_none());
}

#[test]
fn every_short_window_lies_in_one_chunk() {
    let size = 3 * CHUNK_SIZE + 12345;
    let mut chunks = Vec::new();
    let mut offset = 0;
    while let Some(c) = scan_region_step(0, size, offset) {
        chunks.push((offset, c.len));
        offset = c.next_offset;
    }
    for p in [0, CHUNK_SIZE - 100, CHUNK_SIZE - OVERLAP, 2 * CHUNK_SIZE - 150, size - OVERLAP] {
        assert!(chunks.iter().any(|&(o, l)| o <= p && p + OVERLAP <= o + l));
    }
}

#[test]
fn chunked_search_finds_a_literal_across_a_chunk_boundary() {
    let size = CHUNK_SIZE + 500;
    let mut mem = vec![b'.'; size];
    let lit = [b"x'".as_slice(), &[b'C'; 192], b"'"].concat();
    // the literal ends just past the end of the first chunk
    let start = CHUNK_SIZE - 100;
    mem[start..start + lit.len()].copy_from_slice(&lit);

    let mut chunked = Vec::new();
    let mut offset = 0;
    while let Some(c) = scan_region_step(0, size, offset) {
        scan_chunk(&mem[offset..offset + c.len], true, c.len, &mut chunked);
        offset = c.next_offset;
    }
    let mut whole = Vec::new();
    search_pattern(&mem, &mut whole);
    assert_eq!(whole, vec![("c".repeat(64), "c".repeat(32))]);
    assert_eq!(chunked, whole);
}
