use vstd::prelude::*;
use crate::is_term;
use crate::records::{find_byte, lemma_find_byte_is};

verus! {

/// A region is a half-open byte range `(start, end)` into the buffer.
///
/// A well-formed family of regions is contiguous: the first region starts at
/// offset 0, each region ends where the next begins, and the last region ends
/// at the buffer length.  Together those clauses say that the regions cover
/// `[0, len)` exactly once, with no gaps and no overlaps.
pub open spec fn regions_well_formed(r: Seq<(usize, usize)>, len: usize) -> bool {
    &&& r.len() >= 1
    &&& r[0].0 == 0
    &&& r[r.len() - 1].1 == len
    &&& forall|i: int| 0 <= i < r.len() ==> (#[trigger] r[i]).0 <= r[i].1 <= len
    &&& forall|i: int| 0 <= i < r.len() - 1 ==> (#[trigger] r[i]).1 == r[i + 1].0
}

/// A region boundary is record-aligned when it sits at the very end of the
/// buffer or directly after a line terminator, so no record is ever split
/// between two regions.
pub open spec fn boundary_aligned(data: Seq<u8>, b: int) -> bool {
    b == data.len() || (b >= 1 && is_term(data[b - 1]))
}

/// Where the splitter cuts a region that starts at `s`: one past the first
/// line terminator at or after the nominal stride point, or the buffer
/// length when no terminator remains.  With the first region starting at 0
/// and each region starting where the one before ends, this pins every cut,
/// so the split is a function of the byte contents and the region count
/// alone.
pub open spec fn stride_cut(data: Seq<u8>, n: int, s: int) -> int {
    let len = data.len() as int;
    let stride = len / n;
    let target = if len - s > stride {
        s + stride
    } else {
        len
    };
    let t = find_byte(data, target, len, 10u8);
    if t < len {
        t + 1
    } else {
        len
    }
}

/// Split the buffer into `n` contiguous, record-aligned regions.
///
/// A nominal stride of `len / n` is used; each cut point is pushed forward to
/// just past the next line terminator so that region boundaries never split a
/// record.  The final region always ends at the buffer length, and regions
/// past the last terminator come out empty rather than failing.
pub fn make_chunks(data: &[u8], n: usize) -> (r: Vec<(usize, usize)>)
    requires
        1 <= n,
    ensures
        r@.len() == n,
        regions_well_formed(r@, data@.len() as usize),
        forall|i: int| 0 <= i < n - 1 ==> boundary_aligned(data@, (#[trigger] r@[i]).1 as int),
        forall|i: int|
            0 <= i < n - 1 ==> (#[trigger] r@[i]).1 == stride_cut(data@, n as int, r@[i].0 as int),
{
    let len = data.len();
    let stride = len / n;
    let mut r: Vec<(usize, usize)> = Vec::new();
    let mut start: usize = 0;
    let mut i: usize = 0;
    while i < n - 1
        invariant
            i <= n - 1,
            r@.len() == i,
            start <= len,
            len == data@.len(),
            stride == len / n,
            1 <= n,
            i == 0 ==> start == 0,
            i > 0 ==> r@[i - 1].1 == start,
            r@.len() > 0 ==> r@[0].0 == 0,
            forall|j: int| 0 <= j < i ==> (#[trigger] r@[j]).0 <= r@[j].1 <= len,
            forall|j: int| 0 <= j < i - 1 ==> (#[trigger] r@[j]).1 == r@[j + 1].0,
            forall|j: int| 0 <= j < i ==> boundary_aligned(data@, (#[trigger] r@[j]).1 as int),
            forall|j: int|
                0 <= j < i ==> (#[trigger] r@[j]).1 == stride_cut(data@, n as int, r@[j].0 as int),
        decreases n - 1 - i,
    {
        let mut p: usize = if len - start > stride {
            start + stride
        } else {
            len
        };
        let ghost target = p as int;
        while p < len && *vstd::slice::slice_index_get(data, p) != 10u8
            invariant
                start <= p <= len,
                target <= p,
                len == data@.len(),
                forall|k: int| target <= k < p ==> !is_term(data@[k]),
            decreases len - p,
        {
            p = p + 1;
        }
        let end = if p < len {
            p + 1
        } else {
            len
        };
        proof {
            lemma_find_byte_is(data@, target, len as int, 10u8, p as int);
            assert(end == stride_cut(data@, n as int, start as int));
        }
        r.push((start, end));
        start = end;
        i = i + 1;
    }
    r.push((start, len));
    r
}

/// Some region contains the byte offset `off`.
pub open spec fn in_some_region(r: Seq<(usize, usize)>, off: int) -> bool {
    exists|i: int| 0 <= i < r.len() && (#[trigger] r[i]).0 <= off < r[i].1
}

/// Monotonicity of a well-formed region family: a region that comes earlier
/// ends no later than a later one begins.
proof fn lemma_regions_sorted(r: Seq<(usize, usize)>, len: usize, i: int, j: int)
    requires
        regions_well_formed(r, len),
        0 <= i < j < r.len(),
    ensures
        r[i].1 <= r[j].0,
    decreases j - i,
{
    if j == i + 1 {
    } else {
        lemma_regions_sorted(r, len, i, j - 1);
    }
}

/// Helper for coverage: walking forward from a region whose start is at or
/// before `off` finds a region that contains `off`.
proof fn lemma_regions_cover_from(r: Seq<(usize, usize)>, len: usize, off: int, k: int)
    requires
        regions_well_formed(r, len),
        0 <= k < r.len(),
        r[k].0 <= off < len,
    ensures
        in_some_region(r, off),
    decreases r.len() - k,
{
    if off < r[k].1 {
        assert(r[k].0 <= off < r[k].1);
    } else {
        assert(k < r.len() - 1);
        lemma_regions_cover_from(r, len, off, k + 1);
    }
}

/// Every byte offset of the buffer lies in a region, and distinct regions
/// are disjoint, an earlier one ending no later than a later one begins: the
/// union of the regions is exactly `[0, len)`, with no gaps and no overlaps.
pub proof fn lemma_regions_partition(r: Seq<(usize, usize)>, len: usize)
    requires
        regions_well_formed(r, len),
    ensures
        forall|off: int| 0 <= off < len ==> #[trigger] in_some_region(r, off),
        forall|i: int, j: int| 0 <= i < j < r.len() ==> (#[trigger] r[i]).1 <= (#[trigger] r[j]).0,
{
    assert forall|off: int| 0 <= off < len implies #[trigger] in_some_region(r, off) by {
        lemma_regions_cover_from(r, len, off, 0);
    }
    assert forall|i: int, j: int| 0 <= i < j < r.len() implies (#[trigger] r[i]).1
        <= (#[trigger] r[j]).0 by {
        lemma_regions_sorted(r, len, i, j);
    }
}

/// The splitter's contract pins its result: any two region families that
/// meet it for the same buffer and region count are equal, so the split
/// depends on the byte contents and the region count alone.
pub proof fn lemma_chunks_deterministic(
    data: Seq<u8>,
    len: usize,
    n: usize,
    r1: Seq<(usize, usize)>,
    r2: Seq<(usize, usize)>,
)
    requires
        data.len() == len,
        1 <= n,
        r1.len() == n,
        r2.len() == n,
        regions_well_formed(r1, len),
        regions_well_formed(r2, len),
        forall|i: int|
            0 <= i < n - 1 ==> (#[trigger] r1[i]).1 == stride_cut(data, n as int, r1[i].0 as int),
        forall|i: int|
            0 <= i < n - 1 ==> (#[trigger] r2[i]).1 == stride_cut(data, n as int, r2[i].0 as int),
    ensures
        r1 == r2,
{
    assert forall|i: int| 0 <= i < n implies r1[i] == r2[i] by {
        lemma_chunks_deterministic_at(data, len, n, r1, r2, i);
    }
    assert(r1 =~= r2);
}

/// Helper for the induction: the regions agree index by index.
proof fn lemma_chunks_deterministic_at(
    data: Seq<u8>,
    len: usize,
    n: usize,
    r1: Seq<(usize, usize)>,
    r2: Seq<(usize, usize)>,
    i: int,
)
    requires
        data.len() == len,
        1 <= n,
        r1.len() == n,
        r2.len() == n,
        regions_well_formed(r1, len),
        regions_well_formed(r2, len),
        forall|j: int|
            0 <= j < n - 1 ==> (#[trigger] r1[j]).1 == stride_cut(data, n as int, r1[j].0 as int),
        forall|j: int|
            0 <= j < n - 1 ==> (#[trigger] r2[j]).1 == stride_cut(data, n as int, r2[j].0 as int),
        0 <= i < n,
    ensures
        r1[i] == r2[i],
    decreases i,
{
    if i == 0 {
        assert(r1[0].0 == 0 && r2[0].0 == 0);
    } else {
        lemma_chunks_deterministic_at(data, len, n, r1, r2, i - 1);
        assert(r1[i].0 == r1[i - 1].1 && r2[i].0 == r2[i - 1].1);
    }
    if i == n - 1 {
        assert(r1[i].1 == len && r2[i].1 == len);
    }
}

} // verus!
