use remote_mem::region::{MemoryRegion, RegionTag};
use remote_mem::scanner::{assemble_snapshot, MemorySnapshot};

fn region(start: usize, end: usize) -> MemoryRegion {
    MemoryRegion {
        start,
        end,
        tag: RegionTag::Heap,
    }
}

fn addresses(snap: &MemorySnapshot) -> Vec<usize> {
    snap.entries.iter().map(|e| e.address).collect()
}

#[test]
fn complete_pass_covers_the_whole_grid() {
    // region of size 10 at chunk size 4: ceil(10/4) = 3 chunks
    let reads: Vec<Option<Vec<u8>>> = vec![
        Some(vec![1, 2, 3, 4]),
        Some(vec![5, 6, 7, 8]),
        Some(vec![9, 10, 11, 12]),
    ];
    let snap = assemble_snapshot(&region(100, 110), 4, &reads);
    assert_eq!(addresses(&snap), vec![100, 104, 108]);
    assert_eq!(snap.entries[0].bytes, vec![1, 2, 3, 4]);
    assert_eq!(snap.entries[1].bytes, vec![5, 6, 7, 8]);
    assert_eq!(snap.entries[2].bytes, vec![9, 10, 11, 12]);
}

#[test]
fn addresses_stay_below_the_region_end() {
    let reads: Vec<Option<Vec<u8>>> = vec![Some(vec![1, 2, 3, 4]), Some(vec![5, 6, 7, 8])];
    // size 8 at chunk 4: exactly 2 chunks, none at or past 108
    let snap = assemble_snapshot(&region(100, 108), 4, &reads);
    assert_eq!(addresses(&snap), vec![100, 104]);
}

#[test]
fn failed_chunks_are_omitted_not_recorded() {
    let reads: Vec<Option<Vec<u8>>> = vec![
        Some(vec![1, 2, 3, 4]),
        None,
        Some(vec![9, 10, 11, 12]),
        None,
        Some(vec![13, 14, 15, 16]),
    ];
    let snap = assemble_snapshot(&region(100, 120), 4, &reads);
    // the failed addresses 104 and 112 are absent; the rest keep their order
    assert_eq!(addresses(&snap), vec![100, 108, 116]);
    assert_eq!(snap.entries[1].bytes, vec![9, 10, 11, 12]);
}

#[test]
fn all_reads_failing_gives_an_empty_snapshot() {
    let reads: Vec<Option<Vec<u8>>> = vec![None, None, None];
    let snap = assemble_snapshot(&region(100, 112), 4, &reads);
    assert!(snap.entries.is_empty());
}

#[test]
fn empty_region_gives_an_empty_snapshot() {
    let reads: Vec<Option<Vec<u8>>> = Vec::new();
    let snap = assemble_snapshot(&region(100, 100), 4, &reads);
    assert!(snap.entries.is_empty());
}

#[test]
fn chunk_larger_than_region_gives_one_entry() {
    let reads: Vec<Option<Vec<u8>>> = vec![Some(vec![1, 2, 3, 4, 5, 6, 7, 8])];
    let snap = assemble_snapshot(&region(100, 102), 8, &reads);
    assert_eq!(addresses(&snap), vec![100]);
}

#[test]
fn chunk_of_one_walks_every_address() {
    let reads: Vec<Option<Vec<u8>>> = vec![Some(vec![7]), Some(vec![8]), Some(vec![9])];
    let snap = assemble_snapshot(&region(5, 8), 1, &reads);
    assert_eq!(addresses(&snap), vec![5, 6, 7]);
    assert_eq!(snap.entries[2].bytes, vec![9]);
}
