//! Remote scanner: snapshot an address range by chunked remote reads.
//!
//! A scan steps through a region strictly by `chunk_size`, attempting one
//! remote read per step. A chunk whose read fails is silently omitted from
//! the snapshot — never recorded as zeroed or error-valued — so one
//! unreadable page cannot abort an otherwise successful scan.

use vstd::prelude::*;
use vstd::arithmetic::div_mod::{
    lemma_div_by_self, lemma_div_is_ordered, lemma_div_pos_is_pos, lemma_hoist_over_denominator,
    lemma_mod_add_multiples_vanish, lemma_mod_self_0,
};
use crate::region::MemoryRegion;

verus! {

/// One successfully read chunk: the bytes found at `address` in the target.
#[derive(Clone, PartialEq, Eq, Debug)]
pub struct SnapshotEntry {
    pub address: usize,
    pub bytes: Vec<u8>,
}

impl View for SnapshotEntry {
    type V = (int, Seq<u8>);

    open spec fn view(&self) -> (int, Seq<u8>) {
        (self.address as int, self.bytes@)
    }
}

/// A snapshot of a region: the successfully read `(address, bytes)` pairs of
/// one scan pass, in strictly increasing address order.
#[derive(Clone, PartialEq, Eq, Debug)]
pub struct MemorySnapshot {
    pub entries: Vec<SnapshotEntry>,
}

impl View for MemorySnapshot {
    type V = Seq<(int, Seq<u8>)>;

    open spec fn view(&self) -> Seq<(int, Seq<u8>)> {
        self.entries@.map_values(|e: SnapshotEntry| e@)
    }
}

/// The per-chunk read outcomes of one pass, as mathematical values.
pub open spec fn read_views(reads: Seq<Option<Vec<u8>>>) -> Seq<Option<Seq<u8>>> {
    reads.map_values(
        |o: Option<Vec<u8>>|
            match o {
                Some(v) => Some(v@),
                None => None,
            },
    )
}

/// How many chunk-sized steps a scan of `[start, end)` makes: one per chunk,
/// the last chunk possibly ragged, so `ceil((end - start) / c)`.
pub open spec fn grid_len(start: int, end: int, c: int) -> int {
    if start >= end || c <= 0 {
        0
    } else {
        (end - start + c - 1) / c
    }
}

/// The snapshot that a pass over `[start, end)` with chunk size `c` yields
/// when `reads` are the per-chunk outcomes: the k-th read is attempted at
/// `start + c*k`, successes are kept in order, failures are omitted.
pub open spec fn spec_snapshot(start: int, end: int, c: int, reads: Seq<Option<Seq<u8>>>) -> Seq<
    (int, Seq<u8>),
>
    decreases reads.len(),
{
    if reads.len() == 0 || start >= end || c <= 0 {
        Seq::empty()
    } else {
        let rest = spec_snapshot(start + c, end, c, reads.skip(1));
        match reads[0] {
            Some(b) => seq![(start, b)] + rest,
            None => rest,
        }
    }
}

/// Structural soundness of a snapshot of `[start, end)` at chunk size `c`:
/// every entry lies on the chunk grid inside the region, carries exactly one
/// chunk of bytes, and addresses are strictly increasing.
pub open spec fn snapshot_wf(snap: Seq<(int, Seq<u8>)>, start: int, end: int, c: int) -> bool {
    &&& forall|i: int| 0 <= i < snap.len() ==> start <= (#[trigger] snap[i]).0 < end
    &&& forall|i: int| 0 <= i < snap.len() ==> ((#[trigger] snap[i]).0 - start) % c == 0
    &&& forall|i: int| 0 <= i < snap.len() ==> (#[trigger] snap[i]).1.len() == c
    &&& forall|i: int, j: int|
        0 <= i < j < snap.len() ==> (#[trigger] snap[i]).0 < (#[trigger] snap[j]).0
}

/// Stepping once shortens the grid by exactly one chunk.
pub proof fn lemma_grid_len_step(start: int, end: int, c: int)
    requires
        c > 0,
        start < end,
    ensures
        grid_len(start, end, c) == 1 + grid_len(start + c, end, c),
{
    let n = end - start;
    lemma_hoist_over_denominator(n - 1, 1, c as nat);
    assert((n - 1) / c + 1 == (n + c - 1) / c);
    if n <= c {
        assert((n - 1) / c == 0) by {
            lemma_div_pos_is_pos(n - 1, c);
            lemma_div_is_ordered(n - 1, c - 1, c);
            assert((c - 1) / c == 0) by {
                vstd::arithmetic::div_mod::lemma_basic_div(c - 1, c);
            }
        }
    }
}

/// A nonempty range has at least one grid step.
pub proof fn lemma_grid_len_pos(start: int, end: int, c: int)
    requires
        c > 0,
        start < end,
    ensures
        grid_len(start, end, c) >= 1,
{
    let n = end - start;
    lemma_div_by_self(c);
    lemma_div_is_ordered(c, n + c - 1, c);
}

/// Every snapshot a pass can yield is structurally sound, whatever the
/// outcome of each read: entries on the chunk grid, one chunk of bytes each,
/// strictly increasing addresses.
pub proof fn lemma_snapshot_wf(start: int, end: int, c: int, reads: Seq<Option<Seq<u8>>>)
    requires
        c > 0,
        forall|k: int|
            0 <= k < reads.len() && reads[k] is Some ==> (#[trigger] reads[k])->0.len() == c,
    ensures
        snapshot_wf(spec_snapshot(start, end, c, reads), start, end, c),
    decreases reads.len(),
{
    let snap = spec_snapshot(start, end, c, reads);
    if reads.len() == 0 || start >= end {
        // empty snapshot
    } else {
        let rest = spec_snapshot(start + c, end, c, reads.skip(1));
        lemma_snapshot_wf(start + c, end, c, reads.skip(1));
        lemma_mod_self_0(c);
        vstd::arithmetic::div_mod::lemma_small_mod(0, c as nat);
        assert forall|i: int| 0 <= i < rest.len() implies ((#[trigger] rest[i]).0 - start) % c
            == 0 by {
            lemma_mod_add_multiples_vanish(rest[i].0 - start - c, c);
        }
        match reads[0] {
            Some(b) => {
                assert(snap == seq![(start, b)] + rest);
                assert(snap[0] == (start, b));
                assert(forall|i: int| 1 <= i < snap.len() ==> snap[i] == rest[i - 1]);
                assert(((snap[0]).0 - start) % c == 0);
            },
            None => {
                assert(snap == rest);
            },
        }
    }
}

/// Completeness under no failures: when every read of a pass that covers the
/// whole grid succeeds, the snapshot has exactly `grid_len` entries — one per
/// chunk, `ceil((end - start) / c)` in all — with addresses
/// `start, start + c, start + 2c, ...`, each carrying the bytes its read
/// returned.
pub proof fn lemma_snapshot_complete(start: int, end: int, c: int, reads: Seq<Option<Seq<u8>>>)
    requires
        c > 0,
        reads.len() >= grid_len(start, end, c),
        forall|k: int| 0 <= k < reads.len() ==> (#[trigger] reads[k]) is Some,
    ensures
        spec_snapshot(start, end, c, reads).len() == grid_len(start, end, c),
        forall|k: int|
            0 <= k < grid_len(start, end, c) ==> (#[trigger] spec_snapshot(
                start,
                end,
                c,
                reads,
            )[k]).0 == start + c * k && spec_snapshot(start, end, c, reads)[k].1 == reads[k]->0,
    decreases reads.len(),
{
    let snap = spec_snapshot(start, end, c, reads);
    if start >= end {
        // grid_len is 0 and either reads is empty or the range is void
    } else {
        lemma_grid_len_pos(start, end, c);
        lemma_grid_len_step(start, end, c);
        let rest = spec_snapshot(start + c, end, c, reads.skip(1));
        lemma_snapshot_complete(start + c, end, c, reads.skip(1));
        let b = reads[0]->0;
        assert(snap == seq![(start, b)] + rest);
        assert forall|k: int| 0 <= k < grid_len(start, end, c) implies (#[trigger] snap[k]).0
            == start + c * k && snap[k].1 == reads[k]->0 by {
            if k == 0 {
                assert(snap[0] == (start, b));
            } else {
                assert(snap[k] == rest[k - 1]);
                assert(rest[k - 1].0 == (start + c) + c * (k - 1));
                assert(rest[k - 1].1 == reads.skip(1)[k - 1]->0);
                assert((start + c) + c * (k - 1) == start + c * k) by (nonlinear_arith);
                assert(reads.skip(1)[k - 1] == reads[k]);
            }
        }
    }
}

/// Robustness under partial failure: an entry sits at grid address
/// `start + c*k` exactly when the k-th read succeeded, and it carries exactly
/// the bytes that read returned; failed addresses are absent, and no address
/// outside the attempted grid ever appears.
pub proof fn lemma_snapshot_partial(start: int, end: int, c: int, reads: Seq<Option<Seq<u8>>>)
    requires
        c > 0,
    ensures
        // every entry comes from a successful read at its grid slot
        forall|j: int|
            0 <= j < spec_snapshot(start, end, c, reads).len() ==> exists|k: int|
                0 <= k < reads.len() && start + c * k < end && reads[k] == Some(
                    (#[trigger] spec_snapshot(start, end, c, reads)[j]).1,
                ) && spec_snapshot(start, end, c, reads)[j].0 == start + c * k,
        // every successful read inside the range shows up as an entry
        forall|k: int|
            0 <= k < reads.len() && (#[trigger] reads[k]) is Some && start + c * k < end
                ==> spec_snapshot(start, end, c, reads).contains((start + c * k, reads[k]->0)),
    decreases reads.len(),
{
    let snap = spec_snapshot(start, end, c, reads);
    if reads.len() == 0 || start >= end {
        assert forall|k: int|
            0 <= k < reads.len() && (#[trigger] reads[k]) is Some && start + c * k
                < end implies snap.contains((start + c * k, reads[k]->0)) by {
            assert(c * k >= 0) by (nonlinear_arith)
                requires
                    c > 0,
                    k >= 0,
            ;
        }
    } else {
        let rest = spec_snapshot(start + c, end, c, reads.skip(1));
        lemma_snapshot_partial(start + c, end, c, reads.skip(1));
        let shift: int = if reads[0] is Some {
            1
        } else {
            0
        };
        if reads[0] is Some {
            assert(snap == seq![(start, reads[0]->0)] + rest);
        } else {
            assert(snap == rest);
        }
        assert forall|j: int| 0 <= j < snap.len() implies exists|k: int|
            0 <= k < reads.len() && start + c * k < end && reads[k] == Some(
                (#[trigger] snap[j]).1,
            ) && snap[j].0 == start + c * k by {
            if reads[0] is Some && j == 0 {
                assert(c * 0 == 0);
                assert(0 < reads.len() && start + c * 0 < end && reads[0] == Some(snap[0].1)
                    && snap[0].0 == start + c * 0);
            } else {
                let jr = j - shift;
                assert(snap[j] == rest[jr]);
                let k0 = choose|k0: int|
                    0 <= k0 < reads.skip(1).len() && (start + c) + c * k0 < end && reads.skip(1)[k0]
                        == Some((rest[jr]).1) && rest[jr].0 == (start + c) + c * k0;
                assert((start + c) + c * k0 == start + c * (k0 + 1)) by (nonlinear_arith);
                assert(reads.skip(1)[k0] == reads[k0 + 1]);
                assert(0 <= k0 + 1 < reads.len() && start + c * (k0 + 1) < end && reads[k0 + 1]
                    == Some(snap[j].1) && snap[j].0 == start + c * (k0 + 1));
            }
        }
        assert forall|k: int|
            0 <= k < reads.len() && (#[trigger] reads[k]) is Some && start + c * k
                < end implies snap.contains((start + c * k, reads[k]->0)) by {
            if k == 0 {
                assert(c * 0 == 0);
                assert(snap[0] == (start, reads[0]->0));
                assert(snap.contains((start + c * 0, reads[0]->0)));
            } else {
                assert(reads.skip(1)[k - 1] == reads[k]);
                assert((start + c) + c * (k - 1) == start + c * k) by (nonlinear_arith);
                assert(rest.contains(((start + c) + c * (k - 1), reads.skip(1)[k - 1]->0)));
                let jr = choose|jr: int|
                    0 <= jr < rest.len() && rest[jr] == ((start + c) + c * (k - 1), reads.skip(
                        1,
                    )[k - 1]->0);
                assert(snap[jr + shift] == rest[jr]);
                assert(snap.contains((start + c * k, reads[k]->0)));
            }
        }
    }
}

/// Build the snapshot that the per-chunk outcomes `reads` describe for
/// `[region.start, region.end)` at `chunk_size`: the k-th outcome belongs to
/// address `start + chunk_size*k`; successes are kept in address order,
/// failures omitted.
pub fn assemble_snapshot(region: &MemoryRegion, chunk_size: usize, reads: &Vec<Option<Vec<u8>>>) -> (s:
    MemorySnapshot)
    requires
        region.wf(),
        chunk_size > 0,
    ensures
        s@ == spec_snapshot(
            region.start as int,
            region.end as int,
            chunk_size as int,
            read_views(reads@),
        ),
{
    let ghost start = region.start as int;
    let ghost end_g = region.end as int;
    let ghost c = chunk_size as int;
    let ghost views = read_views(reads@);
    let end = region.end;
    let n = reads.len();
    let mut entries: Vec<SnapshotEntry> = Vec::new();
    let mut k: usize = 0;
    let mut addr: usize = region.start;
    proof {
        assert(views.skip(0) =~= views);
        assert(entries@.map_values(|e: SnapshotEntry| e@) =~= Seq::<(int, Seq<u8>)>::empty());
        assert(Seq::<(int, Seq<u8>)>::empty() + spec_snapshot(start, end_g, c, views)
            =~= spec_snapshot(start, end_g, c, views));
    }
    while k < n && addr < end
        invariant
            k <= n,
            n == reads@.len(),
            views == read_views(reads@),
            views.len() == n,
            chunk_size as int == c,
            c > 0,
            end == region.end,
            end_g == end as int,
            start == region.start as int,
            spec_snapshot(start, end_g, c, views) == entries@.map_values(|e: SnapshotEntry| e@)
                + spec_snapshot(addr as int, end_g, c, views.skip(k as int)),
        decreases n - k,
    {
        let ghost pre = entries@.map_values(|e: SnapshotEntry| e@);
        proof {
            assert(views.skip(k as int).len() == n - k);
            assert(views.skip(k as int)[0] == views[k as int]);
            assert(views.skip(k as int).skip(1) =~= views.skip(k as int + 1));
        }
        match &reads[k] {
            Some(b) => {
                let bytes = clone_bytes(b);
                proof {
                    assert(views[k as int] == Some(b@));
                }
                entries.push(SnapshotEntry { address: addr, bytes });
                proof {
                    let e = SnapshotEntry { address: addr, bytes };
                    assert(entries@.map_values(|e: SnapshotEntry| e@) =~= pre.push(
                        (addr as int, b@),
                    ));
                    assert(spec_snapshot(addr as int, end_g, c, views.skip(k as int)) == seq![
                        (addr as int, b@),
                    ] + spec_snapshot(addr as int + c, end_g, c, views.skip(k as int + 1)));
                    assert(pre.push((addr as int, b@)) + spec_snapshot(
                        addr as int + c,
                        end_g,
                        c,
                        views.skip(k as int + 1),
                    ) =~= pre + (seq![(addr as int, b@)] + spec_snapshot(
                        addr as int + c,
                        end_g,
                        c,
                        views.skip(k as int + 1),
                    )));
                }
            },
            None => {
                proof {
                    assert(views[k as int] is None);
                    assert(spec_snapshot(addr as int, end_g, c, views.skip(k as int))
                        == spec_snapshot(addr as int + c, end_g, c, views.skip(k as int + 1)));
                }
            },
        }
        k = k + 1;
        match addr.checked_add(chunk_size) {
            Some(a) => {
                addr = a;
            },
            None => {
                proof {
                    // the next grid address overflows the address space, so it
                    // is past the region's end and the remaining pass is empty
                    assert(spec_snapshot(addr as int + c, end_g, c, views.skip(k as int))
                        =~= Seq::<(int, Seq<u8>)>::empty());
                    assert(spec_snapshot(end as int, end_g, c, views.skip(k as int)) =~= Seq::<
                        (int, Seq<u8>),
                    >::empty());
                }
                addr = end;
            },
        }
    }
    proof {
        if k == n {
            assert(views.skip(k as int) =~= Seq::<Option<Seq<u8>>>::empty());
        }
        assert(spec_snapshot(addr as int, end_g, c, views.skip(k as int)) =~= Seq::<
            (int, Seq<u8>),
        >::empty());
        assert(entries@.map_values(|e: SnapshotEntry| e@) + Seq::<(int, Seq<u8>)>::empty()
            =~= entries@.map_values(|e: SnapshotEntry| e@));
    }
    MemorySnapshot { entries }
}

/// Relies on nix::sys::uio::process_vm_readv: one vectored read of `len`
/// bytes from address `addr` of the target's address space into a fresh
/// local buffer of exactly `len` bytes. Returns the buffer and the number of
/// bytes the call reported transferred, or `None` when the call failed
/// (unmapped page, permission denial, process gone). Whether a read succeeds
/// and what it returns depend on the target process, so nothing is promised
/// of the bytes.
#[verifier::external_body]
fn read_chunk(pid: i32, addr: usize, len: usize) -> (r: Option<(Vec<u8>, usize)>)
    ensures
        r matches Some(p) ==> p.0@.len() == len as nat,
{
    let mut buf = vec![0u8; len];
    let iov = std::io::IoSliceMut::new(&mut buf);
    let remote = nix::sys::uio::RemoteIoVec { base: addr, len };
    match nix::sys::uio::process_vm_readv(nix::unistd::Pid::from_raw(pid), &mut [iov], &[remote]) {
        Ok(n) => Some((buf, n)),
        Err(_) => None,
    }
}

/// Snapshot `[region.start, region.end)` of the target process by one remote
/// read per chunk-sized step. The pass attempts every grid address exactly
/// once; a read that fails, or fills less than a whole chunk, leaves its
/// address out of the snapshot and scanning continues — the scan itself
/// never fails.
///
/// The target runs concurrently, so which reads succeed and what bytes they
/// see is decided by the target: the contract states what holds of every
/// outcome — the snapshot is exactly the assembly of one full pass of
/// per-chunk outcomes over the grid, hence structurally sound.
pub fn scan(pid: i32, region: &MemoryRegion, chunk_size: usize) -> (s: MemorySnapshot)
    requires
        region.wf(),
        chunk_size > 0,
    ensures
        snapshot_wf(s@, region.start as int, region.end as int, chunk_size as int),
        exists|reads: Seq<Option<Seq<u8>>>|
            reads.len() == grid_len(region.start as int, region.end as int, chunk_size as int)
                && (forall|k: int|
                0 <= k < reads.len() && reads[k] is Some ==> (#[trigger] reads[k])->0.len()
                    == chunk_size as nat) && s@ == spec_snapshot(
                region.start as int,
                region.end as int,
                chunk_size as int,
                reads,
            ),
{
    let ghost start = region.start as int;
    let ghost end_g = region.end as int;
    let ghost c = chunk_size as int;
    let end = region.end;
    let mut reads: Vec<Option<Vec<u8>>> = Vec::new();
    let mut addr: usize = region.start;
    while addr < end
        invariant
            c == chunk_size as int,
            c > 0,
            end == region.end,
            end_g == end as int,
            start == region.start as int,
            grid_len(start, end_g, c) == reads@.len() + grid_len(addr as int, end_g, c),
            forall|k: int|
                0 <= k < reads@.len() && read_views(reads@)[k] is Some ==> (#[trigger] read_views(
                    reads@,
                )[k])->0.len() == chunk_size as nat,
        decreases (if addr < end { end_g - addr as int } else { 0int }),
    {
        let ghost pre = reads@;
        let outcome: Option<Vec<u8>> = match read_chunk(pid, addr, chunk_size) {
            Some(p) => {
                let (buf, n) = p;
                if n == chunk_size {
                    Some(buf)
                } else {
                    None
                }
            },
            None => None,
        };
        let ghost outcome_g = outcome;
        reads.push(outcome);
        proof {
            assert(reads@ == pre.push(outcome_g));
            assert forall|k: int|
                0 <= k < reads@.len() && read_views(reads@)[k] is Some implies (
            #[trigger] read_views(reads@)[k])->0.len() == chunk_size as nat by {
                if k < pre.len() {
                    assert(reads@[k] == pre[k]);
                    assert(read_views(reads@)[k] == read_views(pre)[k]);
                } else {
                    assert(reads@[k] == outcome_g);
                }
            }
            lemma_grid_len_step(addr as int, end_g, c);
        }
        match addr.checked_add(chunk_size) {
            Some(a) => {
                addr = a;
            },
            None => {
                proof {
                    // the next grid address overflows the address space: it is
                    // past the region's end, so no grid step remains
                    assert(grid_len(addr as int + c, end_g, c) == 0);
                    assert(grid_len(end_g, end_g, c) == 0);
                }
                addr = end;
            },
        }
    }
    let s = assemble_snapshot(region, chunk_size, &reads);
    proof {
        let ghost views = read_views(reads@);
        assert(grid_len(addr as int, end_g, c) == 0);
        assert(views.len() == grid_len(start, end_g, c));
        lemma_snapshot_wf(start, end_g, c, views);
        assert(s@ == spec_snapshot(start, end_g, c, views));
    }
    s
}

/// Copy a byte vector.
pub(crate) fn clone_bytes(v: &Vec<u8>) -> (r: Vec<u8>)
    ensures
        r@ == v@,
{
    let r = v.clone();
    proof {
        assert(r@ =~= v@);
    }
    r
}

} // verus!
