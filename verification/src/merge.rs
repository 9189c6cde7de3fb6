use vstd::prelude::*;
use crate::records::key_count;

verus! {

/// The number of records a table has seen for a key: the stored count, or 0
/// for a key the table does not hold.
pub open spec fn count_of(t: Map<Seq<u8>, (u32, u32, u32, u32)>, k: Seq<u8>) -> nat {
    if t.contains_key(k) {
        t[k].0 as nat
    } else {
        0
    }
}

/// Two tables agree at a key: both hold it with the same entry, or neither
/// holds it.
pub open spec fn agree_at(
    a: Map<Seq<u8>, (u32, u32, u32, u32)>,
    b: Map<Seq<u8>, (u32, u32, u32, u32)>,
    k: Seq<u8>,
) -> bool {
    &&& (a.contains_key(k) <==> b.contains_key(k))
    &&& (a.contains_key(k) ==> a[k] == b[k])
}

/// What `AggTable::merge_table` leaves at one key when it merges `p` into
/// `a`, giving `b`: a key of one table alone keeps its entry, and a key of
/// both gets the added counts while its statistics wait for the caller.
pub open spec fn merged_entry_at(
    a: Map<Seq<u8>, (u32, u32, u32, u32)>,
    p: Map<Seq<u8>, (u32, u32, u32, u32)>,
    b: Map<Seq<u8>, (u32, u32, u32, u32)>,
    k: Seq<u8>,
) -> bool {
    &&& (b.contains_key(k) <==> (a.contains_key(k) || p.contains_key(k)))
    &&& (a.contains_key(k) && p.contains_key(k) ==> b.contains_key(k) && b[k] == ((
        (a[k].0 + p[k].0) as u32,
        a[k].1,
        a[k].2,
        a[k].3,
    )))
    &&& (!a.contains_key(k) && p.contains_key(k) ==> b.contains_key(k) && b[k] == p[k])
    &&& (a.contains_key(k) && !p.contains_key(k) ==> b.contains_key(k) && b[k] == a[k])
}

/// Some entry among the first `n` of the list carries the key `k`.
pub open spec fn key_in_prefix(
    es: Seq<(Vec<u8>, (u32, u32, u32, u32))>,
    n: int,
    k: Seq<u8>,
) -> bool {
    exists|i: int| 0 <= i < n && (#[trigger] es[i]).0@ == k
}

/// How one whole partial table, merged into a global table, leaves it: the
/// keys of the two tables are united and the counts for every key add.  This
/// is what `AggTable::merge_table` establishes.
pub open spec fn merged_counts(
    t: Map<Seq<u8>, (u32, u32, u32, u32)>,
    p: Map<Seq<u8>, (u32, u32, u32, u32)>,
    t2: Map<Seq<u8>, (u32, u32, u32, u32)>,
) -> bool {
    &&& forall|k: Seq<u8>|
        #[trigger] t2.contains_key(k) <==> t.contains_key(k) || p.contains_key(k)
    &&& forall|k: Seq<u8>| #[trigger] count_of(t2, k) == count_of(t, k) + count_of(p, k)
}

/// The sum, over a sequence of partial tables, of the counts each holds for
/// one key.
pub open spec fn sum_counts(ps: Seq<Map<Seq<u8>, (u32, u32, u32, u32)>>, k: Seq<u8>) -> nat
    decreases ps.len(),
{
    if ps.len() == 0 {
        0
    } else {
        count_of(ps[0], k) + sum_counts(ps.drop_first(), k)
    }
}

/// Merging a chain of partial tables adds their counts: each step of the
/// chain merges one partial table, and at the end every key's count grew by
/// the sum of that key's counts over all the partial tables.
pub proof fn lemma_merge_chain_counts(
    ps: Seq<Map<Seq<u8>, (u32, u32, u32, u32)>>,
    ts: Seq<Map<Seq<u8>, (u32, u32, u32, u32)>>,
    k: Seq<u8>,
)
    requires
        ts.len() == ps.len() + 1,
        forall|i: int| 0 <= i < ps.len() ==> merged_counts(ts[i], #[trigger] ps[i], ts[i + 1]),
    ensures
        count_of(ts.last(), k) == count_of(ts[0], k) + sum_counts(ps, k),
    decreases ps.len(),
{
    if ps.len() == 0 {
    } else {
        let ps2 = ps.drop_first();
        let ts2 = ts.drop_first();
        assert(merged_counts(ts[0], ps[0], ts[1]));
        assert forall|i: int| 0 <= i < ps2.len() implies merged_counts(
            ts2[i],
            #[trigger] ps2[i],
            ts2[i + 1],
        ) by {
            assert(merged_counts(ts[i + 1], ps[i + 1], ts[i + 2]));
        }
        lemma_merge_chain_counts(ps2, ts2, k);
    }
}

/// Merging partial tables into the empty table gives, for every key, exactly
/// the sum of the per-region counts for that key.
pub proof fn lemma_merged_count_is_sum(
    ps: Seq<Map<Seq<u8>, (u32, u32, u32, u32)>>,
    ts: Seq<Map<Seq<u8>, (u32, u32, u32, u32)>>,
    k: Seq<u8>,
)
    requires
        ts.len() == ps.len() + 1,
        ts[0] == Map::<Seq<u8>, (u32, u32, u32, u32)>::empty(),
        forall|i: int| 0 <= i < ps.len() ==> merged_counts(ts[i], #[trigger] ps[i], ts[i + 1]),
    ensures
        count_of(ts.last(), k) == sum_counts(ps, k),
{
    lemma_merge_chain_counts(ps, ts, k);
    assert(!ts[0].contains_key(k));
}

/// Merging is commutative in what can be said without reading the
/// statistics' encodings: merging `p` into `t` and merging `t` into `p` give
/// tables with the same keys and the same counts.
pub proof fn lemma_merge_counts_commute(
    t: Map<Seq<u8>, (u32, u32, u32, u32)>,
    p: Map<Seq<u8>, (u32, u32, u32, u32)>,
    u: Map<Seq<u8>, (u32, u32, u32, u32)>,
    v: Map<Seq<u8>, (u32, u32, u32, u32)>,
)
    requires
        merged_counts(t, p, u),
        merged_counts(p, t, v),
    ensures
        forall|k: Seq<u8>| #[trigger] u.contains_key(k) <==> v.contains_key(k),
        forall|k: Seq<u8>| #[trigger] count_of(u, k) == count_of(v, k),
{
}

/// Merging is associative in keys and counts: merging `a`, `b` and `c`
/// left-to-right or right-to-left gives tables with the same keys and the
/// same counts.
pub proof fn lemma_merge_counts_assoc(
    a: Map<Seq<u8>, (u32, u32, u32, u32)>,
    b: Map<Seq<u8>, (u32, u32, u32, u32)>,
    c: Map<Seq<u8>, (u32, u32, u32, u32)>,
    ab: Map<Seq<u8>, (u32, u32, u32, u32)>,
    ab_c: Map<Seq<u8>, (u32, u32, u32, u32)>,
    bc: Map<Seq<u8>, (u32, u32, u32, u32)>,
    a_bc: Map<Seq<u8>, (u32, u32, u32, u32)>,
)
    requires
        merged_counts(a, b, ab),
        merged_counts(ab, c, ab_c),
        merged_counts(b, c, bc),
        merged_counts(a, bc, a_bc),
    ensures
        forall|k: Seq<u8>| #[trigger] ab_c.contains_key(k) <==> a_bc.contains_key(k),
        forall|k: Seq<u8>| #[trigger] count_of(ab_c, k) == count_of(a_bc, k),
{
}

/// How one scanned record with key `k` leaves a table, as
/// `AggTable::apply_value` (first occurrence) or `AggTable::store_scanned`
/// (repeated key) leaves it: the key's count grows by one and no other key's
/// count changes.
pub open spec fn recorded_at(
    t: Map<Seq<u8>, (u32, u32, u32, u32)>,
    t2: Map<Seq<u8>, (u32, u32, u32, u32)>,
    k: Seq<u8>,
) -> bool {
    &&& t2.contains_key(k)
    &&& count_of(t2, k) == count_of(t, k) + 1
    &&& forall|k2: Seq<u8>| k2 != k ==> #[trigger] count_of(t2, k2) == count_of(t, k2)
    &&& forall|k2: Seq<u8>| k2 != k ==> (#[trigger] t2.contains_key(k2) <==> t.contains_key(k2))
}

/// Recording a list of records one after another adds one to the matching
/// key's count each time: at the end every key's count grew by the number of
/// records that carry it.
pub proof fn lemma_scan_chain_counts(
    rs: Seq<(Seq<u8>, Seq<u8>)>,
    ts: Seq<Map<Seq<u8>, (u32, u32, u32, u32)>>,
    k: Seq<u8>,
)
    requires
        ts.len() == rs.len() + 1,
        forall|i: int| 0 <= i < rs.len() ==> recorded_at(ts[i], ts[i + 1], (#[trigger] rs[i]).0),
    ensures
        count_of(ts.last(), k) == count_of(ts[0], k) + key_count(rs, k),
    decreases rs.len(),
{
    if rs.len() > 0 {
        let rs2 = rs.drop_first();
        let ts2 = ts.drop_first();
        assert(recorded_at(ts[0], ts[1], rs[0].0));
        assert forall|i: int| 0 <= i < rs2.len() implies recorded_at(
            ts2[i],
            ts2[i + 1],
            (#[trigger] rs2[i]).0,
        ) by {
            assert(recorded_at(ts[i + 1], ts[i + 2], rs[i + 1].0));
        }
        lemma_scan_chain_counts(rs2, ts2, k);
    }
}

/// Scanning a region into a fresh table gives every key exactly as many
/// counts as the region holds records with that key.
pub proof fn lemma_scanned_count_is_key_count(
    rs: Seq<(Seq<u8>, Seq<u8>)>,
    ts: Seq<Map<Seq<u8>, (u32, u32, u32, u32)>>,
    k: Seq<u8>,
)
    requires
        ts.len() == rs.len() + 1,
        ts[0] == Map::<Seq<u8>, (u32, u32, u32, u32)>::empty(),
        forall|i: int| 0 <= i < rs.len() ==> recorded_at(ts[i], ts[i + 1], (#[trigger] rs[i]).0),
    ensures
        count_of(ts.last(), k) == key_count(rs, k),
{
    lemma_scan_chain_counts(rs, ts, k);
    assert(!ts[0].contains_key(k));
}

} // verus!
