//! Remote patcher: match snapshot entries against a byte pattern and write
//! replacement bytes back at the matched addresses.
//!
//! Matching is exact byte-for-byte equality over the full chunk; the engine
//! has no notion of strings or integers, only fixed-size byte chunks, so the
//! caller supplies both the pattern and the replacement it wants written for
//! a matched chunk. Writes are attempted independently and aggregated: a
//! failed write is counted as not applied and never prevents the rest.

use vstd::prelude::*;
use crate::scanner::{clone_bytes, MemorySnapshot};

verus! {

/// One pending write: `replacement` to be written at `address`, derived from
/// a matched snapshot entry. Ephemeral — built and consumed within one patch
/// pass.
#[derive(Clone, PartialEq, Eq, Debug)]
pub struct PatchRequest {
    pub address: usize,
    pub replacement: Vec<u8>,
}

/// The aggregate outcome of one patch pass. `applied <= attempted`; the gap
/// is the number of writes the target refused (unmapped, write-protected, or
/// process gone), so a caller can detect partial application.
#[derive(Clone, Copy, PartialEq, Eq, Debug)]
pub struct PatchReport {
    pub attempted: usize,
    pub applied: usize,
}

/// The addresses of the snapshot entries whose bytes equal `pattern`, in
/// snapshot order.
pub open spec fn spec_matches(snap: Seq<(int, Seq<u8>)>, pattern: Seq<u8>) -> Seq<int>
    decreases snap.len(),
{
    if snap.len() == 0 {
        Seq::empty()
    } else {
        let rest = spec_matches(snap.drop_last(), pattern);
        if snap.last().1 == pattern {
            rest.push(snap.last().0)
        } else {
            rest
        }
    }
}

/// The matched addresses are exactly the addresses of the entries that hold
/// the pattern: every reported address belongs to a snapshot entry whose
/// bytes equal the pattern — a patch built from it targets the snapshotted
/// address, whatever the target's memory holds by then — and no matching
/// entry is passed over.
pub proof fn lemma_matches_exact(snap: Seq<(int, Seq<u8>)>, pattern: Seq<u8>)
    ensures
        forall|i: int|
            0 <= i < spec_matches(snap, pattern).len() ==> exists|j: int|
                0 <= j < snap.len() && (#[trigger] snap[j]).0 == #[trigger] spec_matches(
                    snap,
                    pattern,
                )[i] && snap[j].1 == pattern,
        forall|j: int|
            0 <= j < snap.len() && (#[trigger] snap[j]).1 == pattern ==> spec_matches(
                snap,
                pattern,
            ).contains(snap[j].0),
    decreases snap.len(),
{
    let ms = spec_matches(snap, pattern);
    if snap.len() == 0 {
    } else {
        let prefix = snap.drop_last();
        let rest = spec_matches(prefix, pattern);
        lemma_matches_exact(prefix, pattern);
        assert(forall|j: int| 0 <= j < prefix.len() ==> prefix[j] == snap[j]);
        assert forall|i: int| 0 <= i < ms.len() implies exists|j: int|
            0 <= j < snap.len() && (#[trigger] snap[j]).0 == #[trigger] ms[i] && snap[j].1
                == pattern by {
            if i < rest.len() {
                let j0 = choose|j0: int|
                    0 <= j0 < prefix.len() && (#[trigger] prefix[j0]).0 == rest[i] && prefix[j0].1
                        == pattern;
                assert(snap[j0].0 == ms[i] && snap[j0].1 == pattern);
            } else {
                // only possible when the last entry matches and i is the new slot
                assert(snap.last().1 == pattern);
                assert(ms[i] == snap.last().0);
                assert(snap[snap.len() - 1].0 == ms[i] && snap[snap.len() - 1].1 == pattern);
            }
        }
        assert forall|j: int|
            0 <= j < snap.len() && (#[trigger] snap[j]).1 == pattern implies ms.contains(
            snap[j].0,
        ) by {
            if j < snap.len() - 1 {
                assert(prefix[j] == snap[j]);
                assert(rest.contains(snap[j].0));
                let i0 = choose|i0: int| 0 <= i0 < rest.len() && rest[i0] == snap[j].0;
                if snap.last().1 == pattern {
                    assert(ms[i0] == snap[j].0);
                } else {
                    assert(ms == rest);
                }
            } else {
                assert(ms.last() == snap.last().0);
            }
        }
    }
}

/// Whether two byte vectors hold the same bytes.
pub fn bytes_equal(a: &Vec<u8>, b: &Vec<u8>) -> (r: bool)
    ensures
        r == (a@ == b@),
{
    if a.len() != b.len() {
        return false;
    }
    let n = a.len();
    let mut i: usize = 0;
    while i < n
        invariant
            i <= n,
            n == a@.len(),
            a@.len() == b@.len(),
            forall|j: int| 0 <= j < i ==> a@[j] == b@[j],
        decreases n - i,
    {
        if a[i] != b[i] {
            return false;
        }
        i = i + 1;
    }
    proof {
        assert(a@ =~= b@);
    }
    true
}

/// The addresses of the snapshot entries whose bytes equal `pattern`, in
/// snapshot order.
pub fn find_matches(snap: &MemorySnapshot, pattern: &Vec<u8>) -> (addrs: Vec<usize>)
    ensures
        addrs@.map_values(|a: usize| a as int) == spec_matches(snap@, pattern@),
{
    let n = snap.entries.len();
    let mut addrs: Vec<usize> = Vec::new();
    let mut i: usize = 0;
    proof {
        assert(addrs@.map_values(|a: usize| a as int) =~= Seq::<int>::empty());
        assert(snap@.take(0) =~= Seq::<(int, Seq<u8>)>::empty());
    }
    while i < n
        invariant
            i <= n,
            n == snap.entries@.len(),
            snap@.len() == n,
            addrs@.map_values(|a: usize| a as int) == spec_matches(snap@.take(i as int), pattern@),
        decreases n - i,
    {
        let ghost pre = addrs@;
        proof {
            assert(snap@.take(i + 1).drop_last() =~= snap@.take(i as int));
            assert(snap@.take(i + 1).last() == snap@[i as int]);
            assert(snap@[i as int] == (snap.entries@[i as int].address as int,
            snap.entries@[i as int].bytes@));
        }
        let e = &snap.entries[i];
        if bytes_equal(&e.bytes, pattern) {
            addrs.push(e.address);
            proof {
                assert(addrs@ == pre.push(e.address));
                assert(addrs@.map_values(|a: usize| a as int) =~= pre.map_values(
                    |a: usize| a as int,
                ).push(e.address as int));
            }
        }
        i = i + 1;
    }
    proof {
        assert(snap@.take(n as int) =~= snap@);
    }
    addrs
}

/// Build one patch request per matching snapshot entry: the entry's own
/// address, and the caller's replacement bytes. Matching is exact equality
/// with `pattern` over the full chunk, so the replacement for every matched
/// entry is one value — the caller's transform applied to the pattern.
pub fn build_patch_requests(
    snap: &MemorySnapshot,
    pattern: &Vec<u8>,
    replacement: &Vec<u8>,
) -> (reqs: Vec<PatchRequest>)
    ensures
        reqs@.len() == spec_matches(snap@, pattern@).len(),
        forall|i: int|
            0 <= i < reqs@.len() ==> (#[trigger] reqs@[i]).address as int == spec_matches(
                snap@,
                pattern@,
            )[i] && reqs@[i].replacement@ == replacement@,
{
    let n = snap.entries.len();
    let mut reqs: Vec<PatchRequest> = Vec::new();
    let mut i: usize = 0;
    proof {
        assert(snap@.take(0) =~= Seq::<(int, Seq<u8>)>::empty());
    }
    while i < n
        invariant
            i <= n,
            n == snap.entries@.len(),
            snap@.len() == n,
            reqs@.len() == spec_matches(snap@.take(i as int), pattern@).len(),
            forall|j: int|
                0 <= j < reqs@.len() ==> (#[trigger] reqs@[j]).address as int == spec_matches(
                    snap@.take(i as int),
                    pattern@,
                )[j] && reqs@[j].replacement@ == replacement@,
        decreases n - i,
    {
        let ghost pre = reqs@;
        proof {
            assert(snap@.take(i + 1).drop_last() =~= snap@.take(i as int));
            assert(snap@.take(i + 1).last() == snap@[i as int]);
            assert(snap@[i as int] == (snap.entries@[i as int].address as int,
            snap.entries@[i as int].bytes@));
        }
        let e = &snap.entries[i];
        if bytes_equal(&e.bytes, pattern) {
            let req = PatchRequest { address: e.address, replacement: clone_bytes(replacement) };
            reqs.push(req);
            proof {
                assert(spec_matches(snap@.take(i + 1), pattern@) == spec_matches(
                    snap@.take(i as int),
                    pattern@,
                ).push(e.address as int));
                assert(forall|j: int| 0 <= j < pre.len() ==> reqs@[j] == pre[j]);
            }
        } else {
            proof {
                assert(spec_matches(snap@.take(i + 1), pattern@) == spec_matches(
                    snap@.take(i as int),
                    pattern@,
                ));
            }
        }
        i = i + 1;
    }
    proof {
        assert(snap@.take(n as int) =~= snap@);
    }
    reqs
}

/// Relies on nix::sys::uio::process_vm_writev: one vectored write of the
/// buffer into the target's address space at `addr`. Returns the number of
/// bytes the call reported written — at most the number requested — or
/// `None` when the call failed (unmapped, write-protected, process gone).
/// Whether a write succeeds depends on the target, so no more is promised.
#[verifier::external_body]
fn write_chunk(pid: i32, addr: usize, data: &Vec<u8>) -> (r: Option<usize>)
    ensures
        r matches Some(n) ==> n <= data@.len(),
{
    let iov = std::io::IoSlice::new(data.as_slice());
    let remote = nix::sys::uio::RemoteIoVec { base: addr, len: data.len() };
    match nix::sys::uio::process_vm_writev(nix::unistd::Pid::from_raw(pid), &[iov], &[remote]) {
        Ok(n) => Some(n),
        Err(_) => None,
    }
}

/// Attempt every patch request independently, one vectored write each, and
/// aggregate: a request counts as applied only when the target accepted the
/// whole replacement. A failed write never prevents the remaining writes,
/// and the report keeps failures distinguishable from successes. Whether
/// each write lands is decided by the target process, so the contract states
/// what holds of every outcome.
pub fn patch(pid: i32, requests: &Vec<PatchRequest>) -> (report: PatchReport)
    ensures
        report.attempted == requests@.len(),
        report.applied <= report.attempted,
{
    let n = requests.len();
    let mut applied: usize = 0;
    let mut i: usize = 0;
    while i < n
        invariant
            i <= n,
            n == requests@.len(),
            applied <= i,
        decreases n - i,
    {
        let req = &requests[i];
        match write_chunk(pid, req.address, &req.replacement) {
            Some(written) => {
                if written == req.replacement.len() {
                    applied = applied + 1;
                }
            },
            None => {},
        }
        i = i + 1;
    }
    PatchReport { attempted: n, applied }
}

} // verus!
