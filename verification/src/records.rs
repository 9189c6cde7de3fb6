use vstd::prelude::*;
use crate::is_term;
use crate::chunks::{boundary_aligned, regions_well_formed};

verus! {

/// The first position in `[lo, hi)` holding the byte `b`, or `hi` when none
/// does.
pub open spec fn find_byte(data: Seq<u8>, lo: int, hi: int, b: u8) -> int
    decreases hi - lo,
{
    if lo >= hi {
        hi
    } else if data[lo] == b {
        lo
    } else {
        find_byte(data, lo + 1, hi, b)
    }
}

/// Where `find_byte` points: inside the range, with no earlier hit, and at a
/// hit unless the range holds none.
pub proof fn lemma_find_byte(data: Seq<u8>, lo: int, hi: int, b: u8)
    requires
        lo <= hi,
    ensures
        lo <= find_byte(data, lo, hi, b) <= hi,
        forall|j: int| lo <= j < find_byte(data, lo, hi, b) ==> data[j] != b,
        find_byte(data, lo, hi, b) < hi ==> data[find_byte(data, lo, hi, b)] == b,
    decreases hi - lo,
{
    if lo < hi && data[lo] != b {
        lemma_find_byte(data, lo + 1, hi, b);
    }
}

/// `find_byte` is pinned by its characterisation: a position with no earlier
/// hit, holding a hit unless it is the range's end.
pub proof fn lemma_find_byte_is(data: Seq<u8>, lo: int, hi: int, b: u8, x: int)
    requires
        lo <= x <= hi,
        forall|j: int| lo <= j < x ==> data[j] != b,
        x < hi ==> data[x] == b,
    ensures
        find_byte(data, lo, hi, b) == x,
    decreases hi - lo,
{
    if lo < hi && data[lo] != b {
        lemma_find_byte_is(data, lo + 1, hi, b, x);
    }
}

/// Searching a prefix `[lo, m)` of the range `[lo, hi)` finds the same
/// position when the hit falls before `m`, and nothing otherwise.
pub proof fn lemma_find_byte_prefix(data: Seq<u8>, lo: int, m: int, hi: int, b: u8)
    requires
        lo <= m <= hi,
    ensures
        find_byte(data, lo, hi, b) < m ==> find_byte(data, lo, m, b) == find_byte(data, lo, hi, b),
        find_byte(data, lo, hi, b) >= m ==> find_byte(data, lo, m, b) == m,
{
    lemma_find_byte(data, lo, hi, b);
    let f = find_byte(data, lo, hi, b);
    if f < m {
        lemma_find_byte_is(data, lo, m, b, f);
    } else {
        lemma_find_byte_is(data, lo, m, b, m);
    }
}

/// The line starting at `lo` is malformed: its terminator, or the range's
/// end, comes before any `;`, so it holds no delimiter of its own.
pub open spec fn line_malformed(data: Seq<u8>, lo: int, hi: int) -> bool {
    lo < hi && find_byte(data, lo, hi, 59u8) >= find_byte(data, lo, hi, 10u8)
}

/// The records of the byte range `[lo, hi)`, as key and value text pairs:
/// each record's key runs to the first `;` of its own line, its value text
/// to the first line terminator after the `;` or to the range's end.  A
/// malformed head line yields no record: scanning stops there.
pub open spec fn records_of(data: Seq<u8>, lo: int, hi: int) -> Seq<(Seq<u8>, Seq<u8>)>
    decreases hi - lo,
{
    if lo >= hi {
        Seq::empty()
    } else {
        let semi = find_byte(data, lo, hi, 59u8);
        if semi >= find_byte(data, lo, hi, 10u8) {
            Seq::empty()
        } else {
            let nl = find_byte(data, semi + 1, hi, 10u8);
            let next = if nl < lo + 1 {
                lo + 1
            } else if nl >= hi {
                hi
            } else {
                nl + 1
            };
            seq![(data.subrange(lo, semi), data.subrange(semi + 1, if nl <= hi { nl } else { hi }))]
                + records_of(data, next, hi)
        }
    }
}

/// Every line of `[lo, hi)` carries its `;` before its line terminator (and
/// before the range's end): the shape on which scanning cannot fail and
/// record boundaries respect line boundaries.
pub open spec fn lines_ok(data: Seq<u8>, lo: int, hi: int) -> bool
    decreases hi - lo,
{
    if lo >= hi {
        true
    } else {
        let semi = find_byte(data, lo, hi, 59u8);
        let nl0 = find_byte(data, lo, hi, 10u8);
        if semi >= nl0 {
            false
        } else {
            let nl = find_byte(data, semi + 1, hi, 10u8);
            let next = if nl < lo + 1 {
                lo + 1
            } else if nl >= hi {
                hi
            } else {
                nl + 1
            };
            lines_ok(data, next, hi)
        }
    }
}

/// Splitting at a record-aligned boundary splits the record list: the
/// records of `[lo, hi)` are those of `[lo, m)` followed by those of
/// `[m, hi)`, and each side keeps every line well-shaped.
pub proof fn lemma_records_split(data: Seq<u8>, lo: int, m: int, hi: int)
    requires
        0 <= lo <= m <= hi <= data.len(),
        m == hi || (m >= 1 && is_term(data[m - 1])),
        lines_ok(data, lo, hi),
    ensures
        records_of(data, lo, hi) == records_of(data, lo, m) + records_of(data, m, hi),
        lines_ok(data, lo, m),
        lines_ok(data, m, hi),
    decreases m - lo,
{
    if lo == m {
        assert(records_of(data, lo, m) == Seq::<(Seq<u8>, Seq<u8>)>::empty());
        assert(records_of(data, lo, m) + records_of(data, m, hi) =~= records_of(data, m, hi));
    } else if m == hi {
        assert(records_of(data, m, hi) == Seq::<(Seq<u8>, Seq<u8>)>::empty());
        assert(records_of(data, lo, m) + records_of(data, m, hi) =~= records_of(data, lo, m));
    } else {
        // lo < m < hi, and a line terminator sits at m - 1
        let semi = find_byte(data, lo, hi, 59u8);
        let nl0 = find_byte(data, lo, hi, 10u8);
        lemma_find_byte(data, lo, hi, 59u8);
        lemma_find_byte(data, lo, hi, 10u8);
        // the first terminator comes no later than the one at m - 1
        assert(nl0 <= m - 1) by {
            if nl0 > m - 1 {
                assert(data[m - 1] != 10u8);
            }
        }
        assert(semi < nl0);
        let nl = find_byte(data, semi + 1, hi, 10u8);
        assert(nl == nl0) by {
            lemma_find_byte_is(data, semi + 1, hi, 10u8, nl0);
        }
        let next = nl + 1;
        assert(next <= m);
        // the same first record is read inside [lo, m)
        lemma_find_byte_prefix(data, lo, m, hi, 59u8);
        lemma_find_byte_prefix(data, lo, m, hi, 10u8);
        assert(find_byte(data, lo, m, 59u8) == semi);
        assert(find_byte(data, lo, m, 10u8) == nl0);
        lemma_find_byte_prefix(data, semi + 1, m, hi, 10u8);
        assert(find_byte(data, semi + 1, m, 10u8) == nl);
        lemma_records_split(data, next, m, hi);
        assert(records_of(data, lo, hi) == records_of(data, lo, m) + records_of(data, m, hi)) by {
            let head = seq![
                (data.subrange(lo, semi), data.subrange(semi + 1, nl)),
            ];
            assert(records_of(data, lo, hi) == head + records_of(data, next, hi));
            assert(records_of(data, lo, m) == head + records_of(data, next, m));
            let tail_m = records_of(data, next, m);
            let tail_hi = records_of(data, m, hi);
            assert((head + (tail_m + tail_hi)) =~= ((head + tail_m) + tail_hi));
        }
        assert(lines_ok(data, lo, m));
    }
}

/// The records of a family of regions, region by region, in order.
pub open spec fn records_of_regions(data: Seq<u8>, r: Seq<(usize, usize)>) -> Seq<
    (Seq<u8>, Seq<u8>),
>
    decreases r.len(),
{
    if r.len() == 0 {
        Seq::empty()
    } else {
        records_of(data, r[0].0 as int, r[0].1 as int) + records_of_regions(data, r.drop_first())
    }
}

/// Helper for the induction: a contiguous chain of regions from `lo` to `hi`
/// with record-aligned inner boundaries keeps the record list.
proof fn lemma_regions_keep_records_from(data: Seq<u8>, r: Seq<(usize, usize)>, lo: int, hi: int)
    requires
        r.len() >= 1,
        r[0].0 == lo,
        r[r.len() - 1].1 == hi,
        0 <= lo,
        hi <= data.len(),
        forall|i: int| 0 <= i < r.len() ==> (#[trigger] r[i]).0 <= r[i].1,
        forall|i: int| 0 <= i < r.len() - 1 ==> (#[trigger] r[i]).1 == r[i + 1].0,
        forall|i: int|
            0 <= i < r.len() - 1 ==> ((#[trigger] r[i]).1 == hi || (r[i].1 >= 1 && is_term(
                data[r[i].1 - 1],
            ))),
        lines_ok(data, lo, hi),
    ensures
        records_of_regions(data, r) == records_of(data, lo, hi),
    decreases r.len(),
{
    if r.len() == 1 {
        assert(records_of_regions(data, r.drop_first()) == Seq::<(Seq<u8>, Seq<u8>)>::empty());
        assert(records_of(data, lo, hi) + records_of_regions(data, r.drop_first()) =~= records_of(
            data,
            lo,
            hi,
        ));
    } else {
        let m = r[0].1 as int;
        assert(m <= hi) by {
            lemma_chain_end_below(data, r, hi, 0);
        }
        lemma_records_split(data, lo, m, hi);
        let r2 = r.drop_first();
        assert(r2[0].0 == m);
        assert(r2[r2.len() - 1].1 == hi);
        assert forall|i: int| 0 <= i < r2.len() - 1 implies ((#[trigger] r2[i]).1 == hi || (
        r2[i].1 >= 1 && is_term(data[r2[i].1 - 1]))) by {
            assert(r[i + 1].1 == r2[i].1);
        }
        lemma_regions_keep_records_from(data, r2, m, hi);
        assert((records_of(data, lo, m) + records_of(data, m, hi)) =~= (records_of(data, lo, m)
            + records_of_regions(data, r2)));
    }
}

/// In such a chain every region's end stays at or below the final end.
proof fn lemma_chain_end_below(data: Seq<u8>, r: Seq<(usize, usize)>, hi: int, i: int)
    requires
        r.len() >= 1,
        r[r.len() - 1].1 == hi,
        0 <= i < r.len(),
        forall|j: int| 0 <= j < r.len() ==> (#[trigger] r[j]).0 <= r[j].1,
        forall|j: int| 0 <= j < r.len() - 1 ==> (#[trigger] r[j]).1 == r[j + 1].0,
    ensures
        r[i].1 <= hi,
    decreases r.len() - i,
{
    if i < r.len() - 1 {
        lemma_chain_end_below(data, r, hi, i + 1);
    }
}

/// Splitting the buffer into regions never changes what is scanned: over a
/// buffer whose every line is well-shaped, a well-formed, record-aligned
/// region family — one region or many, as the region splitter produces —
/// yields, region by region, exactly the records of the whole buffer, in
/// order.  Aggregating the same records can only differ in the order the
/// statistics are combined in.
pub proof fn lemma_split_preserves_records(data: Seq<u8>, r: Seq<(usize, usize)>, len: usize)
    requires
        data.len() == len,
        regions_well_formed(r, len),
        forall|i: int| 0 <= i < r.len() - 1 ==> boundary_aligned(data, (#[trigger] r[i]).1 as int),
        lines_ok(data, 0, len as int),
    ensures
        records_of_regions(data, r) == records_of(data, 0, len as int),
{
    lemma_regions_keep_records_from(data, r, 0, len as int);
}

/// The number of records in the list that carry the key `k`.
pub open spec fn key_count(rs: Seq<(Seq<u8>, Seq<u8>)>, k: Seq<u8>) -> nat
    decreases rs.len(),
{
    if rs.len() == 0 {
        0
    } else {
        (if rs[0].0 == k {
            1nat
        } else {
            0
        }) + key_count(rs.drop_first(), k)
    }
}

/// Counting a key over two record lists joined together adds the two counts.
pub proof fn lemma_key_count_concat(a: Seq<(Seq<u8>, Seq<u8>)>, b: Seq<(Seq<u8>, Seq<u8>)>, k: Seq<u8>)
    ensures
        key_count(a + b, k) == key_count(a, k) + key_count(b, k),
    decreases a.len(),
{
    if a.len() == 0 {
        assert(a + b =~= b);
    } else {
        assert((a + b).drop_first() =~= a.drop_first() + b);
        lemma_key_count_concat(a.drop_first(), b, k);
    }
}

/// The per-region record counts of a region family, for one key.
pub open spec fn region_key_counts(data: Seq<u8>, r: Seq<(usize, usize)>, k: Seq<u8>) -> nat
    decreases r.len(),
{
    if r.len() == 0 {
        0
    } else {
        key_count(records_of(data, r[0].0 as int, r[0].1 as int), k) + region_key_counts(
            data,
            r.drop_first(),
            k,
        )
    }
}

/// Helper: counting a key region by region counts it over the joined record
/// list.
proof fn lemma_region_key_counts_concat(data: Seq<u8>, r: Seq<(usize, usize)>, k: Seq<u8>)
    ensures
        region_key_counts(data, r, k) == key_count(records_of_regions(data, r), k),
    decreases r.len(),
{
    if r.len() > 0 {
        lemma_key_count_concat(
            records_of(data, r[0].0 as int, r[0].1 as int),
            records_of_regions(data, r.drop_first()),
            k,
        );
        lemma_region_key_counts_concat(data, r.drop_first(), k);
    }
}

/// Splitting never changes how often a key occurs: over a well-shaped
/// buffer, the per-region record counts of a well-formed, record-aligned
/// region family sum, for every key, to the key's record count in the whole
/// buffer.
pub proof fn lemma_regions_key_count(data: Seq<u8>, r: Seq<(usize, usize)>, len: usize, k: Seq<u8>)
    requires
        data.len() == len,
        regions_well_formed(r, len),
        forall|i: int| 0 <= i < r.len() - 1 ==> boundary_aligned(data, (#[trigger] r[i]).1 as int),
        lines_ok(data, 0, len as int),
    ensures
        region_key_counts(data, r, k) == key_count(records_of(data, 0, len as int), k),
{
    lemma_split_preserves_records(data, r, len);
    lemma_region_key_counts_concat(data, r, k);
}

} // verus!
