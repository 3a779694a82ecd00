//! Region discovery: parse a process's memory-map description into named
//! address ranges.
//!
//! Each line of the description has the shape `start-end ... label`, where
//! `start` and `end` are hexadecimal addresses without a numeric prefix and
//! the trailing label is optional. A line whose label is exactly the reserved
//! heap or stack marker is classified accordingly; every other labeled or
//! anonymous range is classified `Other`.

use vstd::prelude::*;
use crate::EngineError;

verus! {

/// Classification of a mapped range, from the trailing label of its map line.
#[derive(Clone, PartialEq, Eq, Debug)]
pub enum RegionTag {
    /// The line's label is exactly the reserved heap marker `[heap]`.
    Heap,
    /// The line's label is exactly the reserved stack marker `[stack]`.
    Stack,
    /// Any other labeled or anonymous range; holds the label's bytes
    /// (empty for an anonymous range).
    Other(Vec<u8>),
}

/// One mapped address range of the target process.
#[derive(Clone, PartialEq, Eq, Debug)]
pub struct MemoryRegion {
    pub start: usize,
    pub end: usize,
    pub tag: RegionTag,
}

impl MemoryRegion {
    /// A region is well formed when its bounds are ordered.
    pub open spec fn wf(self) -> bool {
        self.start <= self.end
    }
}

/// The reserved marker that labels a heap range: the bytes of `[heap]`.
pub open spec fn heap_marker() -> Seq<u8> {
    seq![91u8, 104u8, 101u8, 97u8, 112u8, 93u8]
}

/// The reserved marker that labels a stack range: the bytes of `[stack]`.
pub open spec fn stack_marker() -> Seq<u8> {
    seq![91u8, 115u8, 116u8, 97u8, 99u8, 107u8, 93u8]
}

/// Whitespace as it may surround or end a map line.
pub open spec fn is_ws(b: u8) -> bool {
    b == 32 || b == 9 || b == 13 || b == 10
}

/// A hexadecimal digit, either case.
pub open spec fn is_hex_digit(b: u8) -> bool {
    (48 <= b && b <= 57) || (97 <= b && b <= 102) || (65 <= b && b <= 70)
}

/// The numeric value of a hexadecimal digit (0 for a non-digit).
pub open spec fn hex_digit_val(b: u8) -> nat {
    if 48 <= b && b <= 57 {
        (b - 48) as nat
    } else if 97 <= b && b <= 102 {
        (b - 87) as nat
    } else if 65 <= b && b <= 70 {
        (b - 55) as nat
    } else {
        0
    }
}

/// Every byte of `s` is a hexadecimal digit.
pub open spec fn all_hex(s: Seq<u8>) -> bool {
    forall|i: int| 0 <= i < s.len() ==> is_hex_digit(#[trigger] s[i])
}

/// The number denoted by `s` read as big-endian hexadecimal digits.
pub open spec fn hex_val(s: Seq<u8>) -> nat
    decreases s.len(),
{
    if s.len() == 0 {
        0
    } else {
        hex_val(s.drop_last()) * 16 + hex_digit_val(s.last())
    }
}

/// The index of the first occurrence of `b` in `s` at or after `from`,
/// or `s.len()` if there is none.
pub open spec fn find_from(s: Seq<u8>, b: u8, from: int) -> int
    decreases s.len() - from,
{
    if from < 0 || from >= s.len() {
        s.len() as int
    } else if s[from] == b {
        from
    } else {
        find_from(s, b, from + 1)
    }
}

/// The length of `s` once trailing whitespace is dropped.
pub open spec fn trim_end_len(s: Seq<u8>) -> int
    decreases s.len(),
{
    if s.len() == 0 {
        0
    } else if is_ws(s.last()) {
        trim_end_len(s.drop_last())
    } else {
        s.len() as int
    }
}

/// The index where the trailing whitespace-separated token of `s` starts:
/// one past the last whitespace byte, or 0 when `s` holds no whitespace.
pub open spec fn token_start(s: Seq<u8>) -> int
    decreases s.len(),
{
    if s.len() == 0 {
        0
    } else if is_ws(s.last()) {
        s.len() as int
    } else {
        token_start(s.drop_last())
    }
}

/// The label of a map line: its trailing whitespace-separated token, or the
/// empty sequence when the line holds no whitespace before it (an anonymous
/// range, whose line is just the address pair).
pub open spec fn spec_label(line: Seq<u8>) -> Seq<u8> {
    let t = line.take(trim_end_len(line));
    let ts = token_start(t);
    if ts == 0 {
        Seq::empty()
    } else {
        t.skip(ts)
    }
}

/// A well-formed hexadecimal address field: nonempty, all digits, and small
/// enough for a machine address.
pub open spec fn hex_field_ok(f: Seq<u8>) -> bool {
    f.len() > 0 && all_hex(f) && hex_val(f) <= usize::MAX
}

/// Whether a map line can be parsed into an ordered start/end address pair:
/// a dash is present, both fields around it are hexadecimal addresses (the
/// end field runs to the first space after the dash), and start <= end.
pub open spec fn line_parsable(line: Seq<u8>) -> bool {
    let d = find_from(line, 45, 0);
    let e = find_from(line, 32, d + 1);
    &&& d < line.len()
    &&& hex_field_ok(line.subrange(0, d))
    &&& hex_field_ok(line.subrange(d + 1, e))
    &&& hex_val(line.subrange(0, d)) <= hex_val(line.subrange(d + 1, e))
}

/// The start address a parsable line denotes.
pub open spec fn spec_start(line: Seq<u8>) -> nat {
    hex_val(line.subrange(0, find_from(line, 45, 0)))
}

/// The end address a parsable line denotes.
pub open spec fn spec_end(line: Seq<u8>) -> nat {
    let d = find_from(line, 45, 0);
    hex_val(line.subrange(d + 1, find_from(line, 32, d + 1)))
}

/// The tag a region must carry for the line it came from: `Heap` or `Stack`
/// exactly when the line's label is the reserved marker, else `Other` with
/// the label itself.
pub open spec fn spec_tag_matches(tag: RegionTag, line: Seq<u8>) -> bool {
    let label = spec_label(line);
    if label == heap_marker() {
        tag is Heap
    } else if label == stack_marker() {
        tag is Stack
    } else {
        tag matches RegionTag::Other(name) && name@ == label
    }
}

/// The full relation between a parsed region and its map line.
pub open spec fn region_matches_line(region: MemoryRegion, line: Seq<u8>) -> bool {
    &&& region.start as nat == spec_start(line)
    &&& region.end as nat == spec_end(line)
    &&& spec_tag_matches(region.tag, line)
}

/// A prefix of a digit string never denotes more than the whole string.
proof fn lemma_hex_val_prefix(s: Seq<u8>, i: int)
    requires
        0 <= i <= s.len(),
    ensures
        hex_val(s.take(i)) <= hex_val(s),
    decreases s.len() - i,
{
    if i == s.len() {
        assert(s.take(i) =~= s);
    } else {
        assert(s.take(i + 1).drop_last() =~= s.take(i));
        assert(s.take(i + 1).last() == s[i]);
        lemma_hex_val_prefix(s, i + 1);
    }
}

fn is_ws_byte(b: u8) -> (r: bool)
    ensures
        r == is_ws(b),
{
    b == 32 || b == 9 || b == 13 || b == 10
}

fn hex_digit(b: u8) -> (r: Option<u8>)
    ensures
        r is Some <==> is_hex_digit(b),
        r is Some ==> r->0 as nat == hex_digit_val(b),
{
    if 48 <= b && b <= 57 {
        Some(b - 48)
    } else if 97 <= b && b <= 102 {
        Some(b - 87)
    } else if 65 <= b && b <= 70 {
        Some(b - 55)
    } else {
        None
    }
}

/// The index of the first occurrence of `b` in `s` at or after `from`,
/// or `s.len()` if there is none.
pub fn find_byte(s: &Vec<u8>, b: u8, from: usize) -> (r: usize)
    requires
        from <= s@.len(),
    ensures
        r == find_from(s@, b, from as int),
        from <= r <= s@.len(),
{
    let n = s.len();
    let mut i = from;
    while i < n
        invariant
            from <= i <= n,
            n == s@.len(),
            find_from(s@, b, from as int) == find_from(s@, b, i as int),
        decreases n - i,
    {
        if s[i] == b {
            return i;
        }
        i = i + 1;
    }
    n
}

/// Parse `s[from..to]` as a hexadecimal number. Returns `Some` exactly when
/// the field is nonempty, all digits, and its value fits a machine address.
pub fn parse_hex(s: &Vec<u8>, from: usize, to: usize) -> (r: Option<usize>)
    requires
        from <= to && to <= s@.len(),
    ensures
        ({
            let field = s@.subrange(from as int, to as int);
            match r {
                Some(v) => hex_field_ok(field) && v as nat == hex_val(field),
                None => !hex_field_ok(field),
            }
        }),
{
    if from == to {
        return None;
    }
    let ghost field = s@.subrange(from as int, to as int);
    let mut acc: usize = 0;
    let mut i = from;
    while i < to
        invariant
            from <= i <= to,
            to <= s@.len(),
            field == s@.subrange(from as int, to as int),
            all_hex(s@.subrange(from as int, i as int)),
            acc as nat == hex_val(s@.subrange(from as int, i as int)),
        decreases to - i,
    {
        let d = match hex_digit(s[i]) {
            Some(d) => d,
            None => {
                proof {
                    assert(field[i - from] == s@[i as int]);
                    assert(!all_hex(field));
                }
                return None;
            },
        };
        let wide: u128 = (acc as u128) * 16 + (d as u128);
        proof {
            assert(s@.subrange(from as int, i + 1).drop_last() =~= s@.subrange(
                from as int,
                i as int,
            ));
            assert(s@.subrange(from as int, i + 1).last() == s@[i as int]);
            assert(forall|j: int|
                0 <= j < i + 1 - from ==> s@.subrange(from as int, i + 1)[j] == #[trigger] s@[
                    from + j
                ]);
        }
        if wide > usize::MAX as u128 {
            proof {
                assert(s@.subrange(from as int, i + 1) =~= field.take(i + 1 - from));
                assert(hex_val(field.take(i + 1 - from)) > usize::MAX);
                lemma_hex_val_prefix(field, i + 1 - from);
            }
            return None;
        }
        acc = wide as usize;
        proof {
            assert(all_hex(s@.subrange(from as int, i + 1)));
        }
        i = i + 1;
    }
    proof {
        assert(s@.subrange(from as int, to as int) =~= s@.subrange(from as int, i as int));
    }
    Some(acc)
}

/// Copy `s[from..to]` into a fresh vector.
fn copy_range(s: &Vec<u8>, from: usize, to: usize) -> (r: Vec<u8>)
    requires
        from <= to && to <= s@.len(),
    ensures
        r@ == s@.subrange(from as int, to as int),
{
    let mut r: Vec<u8> = Vec::new();
    let mut i = from;
    while i < to
        invariant
            from <= i <= to,
            to <= s@.len(),
            r@ == s@.subrange(from as int, i as int),
        decreases to - i,
    {
        r.push(s[i]);
        proof {
            assert(r@ =~= s@.subrange(from as int, i + 1));
        }
        i = i + 1;
    }
    r
}

/// Whether `line[from..to]` is exactly the heap marker.
fn is_heap_label(line: &Vec<u8>, from: usize, to: usize) -> (r: bool)
    requires
        from <= to && to <= line@.len(),
    ensures
        r == (line@.subrange(from as int, to as int) == heap_marker()),
{
    if to - from != 6 {
        proof {
            assert(heap_marker().len() == 6);
            assert(line@.subrange(from as int, to as int).len() != 6);
        }
        return false;
    }
    let r = line[from] == 91 && line[from + 1] == 104 && line[from + 2] == 101 && line[from + 3]
        == 97 && line[from + 4] == 112 && line[from + 5] == 93;
    proof {
        if r {
            assert(line@.subrange(from as int, to as int) =~= heap_marker());
        } else {
            assert(line@.subrange(from as int, to as int) != heap_marker());
        }
    }
    r
}

/// Whether `line[from..to]` is exactly the stack marker.
fn is_stack_label(line: &Vec<u8>, from: usize, to: usize) -> (r: bool)
    requires
        from <= to && to <= line@.len(),
    ensures
        r == (line@.subrange(from as int, to as int) == stack_marker()),
{
    if to - from != 7 {
        proof {
            assert(stack_marker().len() == 7);
            assert(line@.subrange(from as int, to as int).len() != 7);
        }
        return false;
    }
    let r = line[from] == 91 && line[from + 1] == 115 && line[from + 2] == 116 && line[from + 3]
        == 97 && line[from + 4] == 99 && line[from + 5] == 107 && line[from + 6] == 93;
    proof {
        if r {
            assert(line@.subrange(from as int, to as int) =~= stack_marker());
        } else {
            assert(line@.subrange(from as int, to as int) != stack_marker());
        }
    }
    r
}

/// Classify a map line by its trailing label.
fn compute_tag(line: &Vec<u8>) -> (tag: RegionTag)
    ensures
        spec_tag_matches(tag, line@),
{
    let n = line.len();
    // Drop trailing whitespace.
    let mut tl = n;
    proof {
        assert(line@.take(n as int) =~= line@);
    }
    while tl > 0 && is_ws_byte(line[tl - 1])
        invariant
            tl <= n,
            n == line@.len(),
            trim_end_len(line@) == trim_end_len(line@.take(tl as int)),
        decreases tl,
    {
        proof {
            assert(line@.take(tl as int).drop_last() =~= line@.take(tl - 1));
        }
        tl = tl - 1;
    }
    proof {
        if tl > 0 {
            assert(line@.take(tl as int).last() == line@[tl - 1]);
        }
        assert(trim_end_len(line@) == tl);
        assert(line@.take(trim_end_len(line@)) == line@.take(tl as int));
    }
    let ghost t = line@.take(tl as int);
    // Find the start of the trailing token.
    let mut ts = tl;
    while ts > 0 && !is_ws_byte(line[ts - 1])
        invariant
            ts <= tl <= n,
            n == line@.len(),
            t == line@.take(tl as int),
            token_start(t) == token_start(line@.take(ts as int)),
            forall|j: int| ts <= j < tl ==> !is_ws(#[trigger] line@[j]),
        decreases ts,
    {
        proof {
            assert(line@.take(ts as int).drop_last() =~= line@.take(ts - 1));
            assert(line@.take(ts as int).last() == line@[ts - 1]);
        }
        ts = ts - 1;
    }
    proof {
        if ts > 0 {
            assert(line@.take(ts as int).last() == line@[ts - 1]);
            assert(token_start(t) == ts);
        } else {
            assert(token_start(t) == 0);
        }
    }
    if ts == 0 {
        proof {
            assert(spec_label(line@) =~= Seq::<u8>::empty());
            assert(spec_label(line@).len() != heap_marker().len());
            assert(spec_label(line@).len() != stack_marker().len());
        }
        return RegionTag::Other(Vec::new());
    }
    proof {
        assert(t.skip(ts as int) =~= line@.subrange(ts as int, tl as int));
        assert(spec_label(line@) == line@.subrange(ts as int, tl as int));
    }
    if is_heap_label(line, ts, tl) {
        RegionTag::Heap
    } else if is_stack_label(line, ts, tl) {
        RegionTag::Stack
    } else {
        RegionTag::Other(copy_range(line, ts, tl))
    }
}

/// Parse one line of the memory-map description into a region.
///
/// Returns `Ok` exactly when the line has the `start-end` shape with ordered
/// hexadecimal bounds; the region then carries those bounds and the tag of
/// the line's trailing label. Every failure is `MalformedMapEntry`.
pub fn parse_map_line(line: &Vec<u8>) -> (r: Result<MemoryRegion, EngineError>)
    ensures
        match r {
            Ok(region) => line_parsable(line@) && region.wf() && region_matches_line(
                region,
                line@,
            ),
            Err(e) => e is MalformedMapEntry && !line_parsable(line@),
        },
{
    let n = line.len();
    let dash = find_byte(line, 45, 0);
    if dash >= n {
        return Err(EngineError::MalformedMapEntry);
    }
    let start_v = match parse_hex(line, 0, dash) {
        Some(v) => v,
        None => {
            return Err(EngineError::MalformedMapEntry);
        },
    };
    let end_to = find_byte(line, 32, dash + 1);
    let end_v = match parse_hex(line, dash + 1, end_to) {
        Some(v) => v,
        None => {
            return Err(EngineError::MalformedMapEntry);
        },
    };
    if start_v > end_v {
        return Err(EngineError::MalformedMapEntry);
    }
    let tag = compute_tag(line);
    Ok(MemoryRegion { start: start_v, end: end_v, tag })
}

/// Parse a whole memory-map description, one region per line, in order.
///
/// Fails with `MalformedMapEntry` on the first line that cannot be parsed:
/// heap and stack bounds are load-bearing, so a malformed description is
/// fatal for the discovery call rather than skipped.
pub fn discover_from_map(lines: &Vec<Vec<u8>>) -> (r: Result<Vec<MemoryRegion>, EngineError>)
    ensures
        match r {
            Ok(regions) => regions@.len() == lines@.len() && forall|i: int|
                0 <= i < lines@.len() ==> line_parsable(#[trigger] lines@[i]@)
                    && region_matches_line(regions@[i], lines@[i]@) && regions@[i].wf(),
            Err(e) => e is MalformedMapEntry && exists|i: int|
                0 <= i < lines@.len() && !line_parsable(#[trigger] lines@[i]@),
        },
{
    let mut regions: Vec<MemoryRegion> = Vec::new();
    let n = lines.len();
    let mut i: usize = 0;
    while i < n
        invariant
            i <= n,
            n == lines@.len(),
            regions@.len() == i,
            forall|j: int|
                0 <= j < i ==> line_parsable(#[trigger] lines@[j]@) && region_matches_line(
                    regions@[j],
                    lines@[j]@,
                ) && regions@[j].wf(),
        decreases n - i,
    {
        let ghost old_regions = regions@;
        let line = &lines[i];
        proof {
            assert(line@ == lines@[i as int]@);
        }
        match parse_map_line(line) {
            Ok(region) => {
                regions.push(region);
                proof {
                    assert(regions@ == old_regions.push(region));
                    assert(regions@[i as int] == region);
                    assert(forall|j: int| 0 <= j < i ==> regions@[j] == old_regions[j]);
                    assert(line_parsable(lines@[i as int]@));
                    assert(region_matches_line(regions@[i as int], lines@[i as int]@));
                    assert forall|j: int| 0 <= j < i + 1 implies line_parsable(
                        #[trigger] lines@[j]@,
                    ) && region_matches_line(regions@[j], lines@[j]@) && regions@[j].wf() by {
                        if j < i {
                            assert(regions@[j] == old_regions[j]);
                            assert(line_parsable(lines@[j]@));
                        }
                    }
                }
            },
            Err(e) => {
                return Err(e);
            },
        }
        i = i + 1;
    }
    Ok(regions)
}

/// The bounds of the last heap-tagged region of the sequence, or `(0, 0)`
/// when there is none: a zero-length result stands for "absent", and callers
/// must skip scanning it.
pub open spec fn spec_heap_bounds(regions: Seq<MemoryRegion>) -> (int, int)
    decreases regions.len(),
{
    if regions.len() == 0 {
        (0, 0)
    } else if regions.last().tag is Heap {
        (regions.last().start as int, regions.last().end as int)
    } else {
        spec_heap_bounds(regions.drop_last())
    }
}

/// The bounds of the last stack-tagged region, or `(0, 0)` when none.
pub open spec fn spec_stack_bounds(regions: Seq<MemoryRegion>) -> (int, int)
    decreases regions.len(),
{
    if regions.len() == 0 {
        (0, 0)
    } else if regions.last().tag is Stack {
        (regions.last().start as int, regions.last().end as int)
    } else {
        spec_stack_bounds(regions.drop_last())
    }
}

/// The heap bounds among discovered regions, `(0, 0)` when the target has no
/// heap mapping.
pub fn heap_bounds(regions: &Vec<MemoryRegion>) -> (r: (usize, usize))
    ensures
        (r.0 as int, r.1 as int) == spec_heap_bounds(regions@),
{
    let n = regions.len();
    let mut cur: (usize, usize) = (0, 0);
    let mut i: usize = 0;
    while i < n
        invariant
            i <= n,
            n == regions@.len(),
            (cur.0 as int, cur.1 as int) == spec_heap_bounds(regions@.take(i as int)),
        decreases n - i,
    {
        proof {
            assert(regions@.take(i + 1).drop_last() =~= regions@.take(i as int));
            assert(regions@.take(i + 1).last() == regions@[i as int]);
        }
        match &regions[i].tag {
            RegionTag::Heap => {
                cur = (regions[i].start, regions[i].end);
            },
            _ => {},
        }
        i = i + 1;
    }
    proof {
        assert(regions@.take(n as int) =~= regions@);
    }
    cur
}

/// The stack bounds among discovered regions, `(0, 0)` when the target has
/// no stack mapping.
pub fn stack_bounds(regions: &Vec<MemoryRegion>) -> (r: (usize, usize))
    ensures
        (r.0 as int, r.1 as int) == spec_stack_bounds(regions@),
{
    let n = regions.len();
    let mut cur: (usize, usize) = (0, 0);
    let mut i: usize = 0;
    while i < n
        invariant
            i <= n,
            n == regions@.len(),
            (cur.0 as int, cur.1 as int) == spec_stack_bounds(regions@.take(i as int)),
        decreases n - i,
    {
        proof {
            assert(regions@.take(i + 1).drop_last() =~= regions@.take(i as int));
            assert(regions@.take(i + 1).last() == regions@[i as int]);
        }
        match &regions[i].tag {
            RegionTag::Stack => {
                cur = (regions[i].start, regions[i].end);
            },
            _ => {},
        }
        i = i + 1;
    }
    proof {
        assert(regions@.take(n as int) =~= regions@);
    }
    cur
}

} // verus!

