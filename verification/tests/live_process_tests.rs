//! End-to-end checks against a live target: the test's own process, whose
//! memory is read and written through the same OS primitives the engine
//! would use on any other accessible process identifier.

use nix::fcntl::{open, OFlag};
use nix::sys::stat::Mode;
use nix::unistd::{getpid, read};
use remote_mem::patcher::{build_patch_requests, find_matches, patch};
use remote_mem::region::{discover_from_map, heap_bounds, stack_bounds, MemoryRegion, RegionTag};
use remote_mem::scanner::scan;

/// Read this process's memory-map description, using only the outside
/// crate's file primitives.
fn read_own_map_lines() -> Vec<Vec<u8>> {
    let fd = open("/proc/self/maps", OFlag::O_RDONLY, Mode::empty()).unwrap();
    let mut text: Vec<u8> = Vec::with_capacity(1 << 20);
    let mut buf = vec![0u8; 65536];
    loop {
        let n = read(&fd, &mut buf).unwrap();
        if n == 0 {
            break;
        }
        text.extend_from_slice(&buf[..n]);
    }
    text.split(|b| *b == b'\n')
        .filter(|l| !l.is_empty())
        .map(|l| l.to_vec())
        .collect()
}

#[test]
fn own_map_description_discovers_heap_and_stack() {
    let lines = read_own_map_lines();
    let regions = discover_from_map(&lines).unwrap();
    assert_eq!(regions.len(), lines.len());
    let (hs, he) = heap_bounds(&regions);
    let (ss, se) = stack_bounds(&regions);
    assert!(hs < he, "expected a heap mapping");
    assert!(ss < se, "expected a stack mapping");
    assert!(regions
        .iter()
        .any(|r| matches!(r.tag, RegionTag::Heap) && r.start == hs && r.end == he));
}

#[test]
fn own_stack_region_is_readable() {
    let lines = read_own_map_lines();
    let regions = discover_from_map(&lines).unwrap();
    let (ss, se) = stack_bounds(&regions);
    assert!(ss < se, "expected a stack mapping");
    // the tail of the main thread's stack is mapped and readable
    let ws = if se - ss > 4096 { se - 4096 } else { ss };
    let window = MemoryRegion {
        start: ws,
        end: se,
        tag: RegionTag::Stack,
    };
    let pid = getpid().as_raw();
    let snap = scan(pid, &window, 8);
    assert!(!snap.entries.is_empty());
    for e in &snap.entries {
        assert_eq!(e.bytes.len(), 8);
        assert!(e.address >= ws && e.address < se);
    }
}

#[test]
fn scan_match_patch_rescan_on_own_memory() {
    // Fill the head of a large allocation — large enough to live in an
    // anonymous mapping of its own — with a repeating 8-byte value, so that
    // some page-aligned, page-sized chunk of the mapping reads back as the
    // pattern regardless of where the allocator put the buffer in it.
    let unit: [u8; 8] = [0xD3, 0x5A, 0x91, 0x7C, 0x44, 0xE6, 0x2B, 0x0F];
    let chunk: usize = 4096;
    let pat: Vec<u8> = unit.iter().cycle().take(chunk).copied().collect();
    let rep: Vec<u8> = (0..chunk).map(|i| (i % 251) as u8).collect();
    let target_len: usize = (1 << 20) + 65536;
    let patterned: usize = 65536;
    let mut target = vec![0u8; target_len];
    for (i, b) in target[..patterned].iter_mut().enumerate() {
        *b = unit[i % 8];
    }

    let lines = read_own_map_lines();
    let regions = discover_from_map(&lines).unwrap();
    let pid = getpid().as_raw();

    // candidates: anonymous mappings big enough to hold the allocation;
    // search only the head of each, where fresh mappings sit
    let search_cap: usize = 4 << 20;
    let mut patched: Vec<(MemoryRegion, Vec<usize>)> = Vec::new();
    for r in &regions {
        if r.end - r.start < target_len {
            continue;
        }
        // an anonymous mapping's line ends at the inode field, so its
        // trailing token is the inode 0; a pathless one may also be bare
        if !matches!(r.tag, RegionTag::Other(ref n) if n.is_empty() || n.as_slice() == b"0") {
            continue;
        }
        let window = MemoryRegion {
            start: r.start,
            end: if r.end - r.start > search_cap {
                r.start + search_cap
            } else {
                r.end
            },
            tag: RegionTag::Other(Vec::new()),
        };
        let snap = scan(pid, &window, chunk);
        let matches = find_matches(&snap, &pat);
        if matches.is_empty() {
            continue;
        }
        let requests = build_patch_requests(&snap, &pat, &rep);
        assert_eq!(requests.len(), matches.len());
        let report = patch(pid, &requests);
        assert_eq!(report.attempted, matches.len());
        assert_eq!(
            report.applied, report.attempted,
            "writes into an own live buffer should all land"
        );
        patched.push((window, matches));
    }
    assert!(
        !patched.is_empty(),
        "the planted value was not found in any candidate mapping"
    );

    // every matched page lies inside the patterned head of the buffer, so
    // the replacement must now be there, read directly: some page-aligned
    // stretch of the patterned head equals the replacement page exactly
    assert!(
        target[..patterned]
            .windows(chunk)
            .any(|w| w == &rep[..]),
        "the planted buffer was not rewritten"
    );

    // ...and a re-scan of the same ranges sees the replacement at every
    // patched address: the matched entries now read back as transformed
    for (r, matches) in &patched {
        let snap2 = scan(pid, r, chunk);
        let now_rep = find_matches(&snap2, &rep);
        for m in matches {
            assert!(
                now_rep.contains(m),
                "a patched address did not read back as the replacement"
            );
        }
    }
}

#[test]
fn patch_overwrites_memory_mutated_after_the_snapshot() {
    // Plant a value, snapshot it, then mutate it before patching: the patch
    // still targets the snapshotted address, by design, and overwrites the
    // newer value — the accepted race of unassisted remote-memory tooling.
    let unit_p: [u8; 8] = [0x6B, 0xC4, 0x1D, 0x8E, 0x57, 0xF2, 0x39, 0xA0];
    let unit_q: [u8; 8] = [0x4F, 0x0B, 0xD8, 0x63, 0x9C, 0x25, 0xEA, 0x71];
    let chunk: usize = 4096;
    let pat_p: Vec<u8> = unit_p.iter().cycle().take(chunk).copied().collect();
    let rep: Vec<u8> = (0..chunk).map(|i| ((i % 239) + 7) as u8).collect();
    let target_len: usize = (1 << 20) + 65536;
    let patterned: usize = 65536;
    let mut target = vec![0u8; target_len];
    for (i, b) in target[..patterned].iter_mut().enumerate() {
        *b = unit_p[i % 8];
    }

    let lines = read_own_map_lines();
    let regions = discover_from_map(&lines).unwrap();
    let pid = getpid().as_raw();

    let search_cap: usize = 4 << 20;
    let mut found: Vec<(MemoryRegion, Vec<usize>, Vec<remote_mem::patcher::PatchRequest>)> =
        Vec::new();
    for r in &regions {
        if r.end - r.start < target_len {
            continue;
        }
        if !matches!(r.tag, RegionTag::Other(ref n) if n.is_empty() || n.as_slice() == b"0") {
            continue;
        }
        let window = MemoryRegion {
            start: r.start,
            end: if r.end - r.start > search_cap {
                r.start + search_cap
            } else {
                r.end
            },
            tag: RegionTag::Other(Vec::new()),
        };
        let snap = scan(pid, &window, chunk);
        let matches = find_matches(&snap, &pat_p);
        if matches.is_empty() {
            continue;
        }
        let requests = build_patch_requests(&snap, &pat_p, &rep);
        found.push((window, matches, requests));
    }
    assert!(
        !found.is_empty(),
        "the planted value was not found in any candidate mapping"
    );

    // the target moves on between snapshot and patch
    for (i, b) in target[..patterned].iter_mut().enumerate() {
        *b = unit_q[i % 8];
    }

    for (window, matches, requests) in &found {
        let report = patch(pid, requests);
        assert_eq!(report.attempted, matches.len());
        assert_eq!(report.applied, report.attempted);
        // the patched addresses hold the replacement, not the newer value
        let snap2 = scan(pid, window, chunk);
        let now_rep = find_matches(&snap2, &rep);
        for m in matches {
            assert!(now_rep.contains(m));
        }
    }
    // the newer value was overwritten where the snapshot had matched
    assert!(
        target[..patterned].windows(chunk).any(|w| w == &rep[..]),
        "the stale patch did not land on the mutated buffer"
    );
}
