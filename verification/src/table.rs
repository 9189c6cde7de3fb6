use vstd::prelude::*;
use crate::merge::{agree_at, count_of, key_in_prefix, merged_counts, merged_entry_at, recorded_at};

verus! {

// `halfbrown::HashMap` is an alias for `SizedHashMap` with its default hash
// builder and vector-backend limit; both types are opaque to the verifier and
// are declared here so that they can stand in fields and signatures.
#[verifier::external_type_specification]
#[verifier::external_body]
#[verifier::reject_recursive_types(K)]
#[verifier::reject_recursive_types(V)]
#[verifier::reject_recursive_types(S)]
pub struct ExSizedHashMap<K, V, S, const N: usize>(halfbrown::SizedHashMap<K, V, S, N>);

#[verifier::external_type_specification]
#[verifier::external_body]
pub struct ExDefaultHashBuilder(halfbrown::DefaultHashBuilder);

/// The concrete table the aggregates live in.
pub type StatsMap = halfbrown::HashMap<Vec<u8>, (u32, u32, u32, u32)>;

/// What an aggregate table holds: for each key (as a byte sequence) a tuple
/// `(count, sum, min, max)`, where the three statistics are carried as the
/// 32-bit encodings that the caller supplied for them.
pub uninterp spec fn table_contents(m: StatsMap) -> Map<Seq<u8>, (u32, u32, u32, u32)>;

/// The contents of a table that holds nothing yet.
pub open spec fn empty_stats() -> Map<Seq<u8>, (u32, u32, u32, u32)> {
    Map::empty()
}

/// Relies on `halfbrown::SizedHashMap::new`: it returns an empty map.
#[verifier::external_body]
fn hb_new() -> (m: StatsMap)
    ensures
        table_contents(m) == empty_stats(),
{
    halfbrown::HashMap::new()
}

/// Relies on `halfbrown::SizedHashMap::get`: it returns the value mapped to
/// the key, by exact byte equality, and `None` when the key is absent.
#[verifier::external_body]
fn hb_get(m: &StatsMap, k: &[u8]) -> (r: Option<(u32, u32, u32, u32)>)
    ensures
        match r {
            Some(v) => table_contents(*m).contains_key(k@) && table_contents(*m)[k@] == v,
            None => !table_contents(*m).contains_key(k@),
        },
{
    m.get(k).copied()
}

/// Relies on `halfbrown::SizedHashMap::insert`: it maps the key to the value,
/// replacing whatever the key was mapped to before.
#[verifier::external_body]
fn hb_insert(m: &mut StatsMap, k: Vec<u8>, v: (u32, u32, u32, u32))
    ensures
        table_contents(*final(m)) == table_contents(*old(m)).insert(k@, v),
{
    m.insert(k, v);
}

/// Relies on `halfbrown::SizedHashMap::iter`: it yields each entry of the map
/// exactly once, in no promised order.
#[verifier::external_body]
fn hb_entries(m: &StatsMap) -> (r: Vec<(Vec<u8>, (u32, u32, u32, u32))>)
    ensures
        forall|i: int|
            0 <= i < r@.len() ==> table_contents(*m).contains_key((#[trigger] r@[i]).0@)
                && table_contents(*m)[r@[i].0@] == r@[i].1,
        forall|k: Seq<u8>|
            table_contents(*m).contains_key(k) ==> exists|i: int|
                0 <= i < r@.len() && (#[trigger] r@[i]).0@ == k,
        forall|i: int, j: int|
            0 <= i < j < r@.len() ==> (#[trigger] r@[i]).0@ != (#[trigger] r@[j]).0@,
{
    let mut out = Vec::with_capacity(m.len());
    for (k, v) in m.iter() {
        out.push((k.clone(), *v));
    }
    out
}

/// An aggregate table: per-key statistics for one region, or for the whole
/// file once the partial tables have been merged.
///
/// The entry for a key is `(count, sum, min, max)`.  The count is maintained
/// by this type itself; the other three fields are 32-bit encodings of the
/// running statistics, stored exactly as the caller computed them.
pub struct AggTable {
    m: StatsMap,
}

impl View for AggTable {
    type V = Map<Seq<u8>, (u32, u32, u32, u32)>;

    closed spec fn view(&self) -> Map<Seq<u8>, (u32, u32, u32, u32)> {
        table_contents(self.m)
    }
}

impl AggTable {
    /// An empty table: no key has been seen yet.
    pub fn new() -> (t: Self)
        ensures
            t@ == Map::<Seq<u8>, (u32, u32, u32, u32)>::empty(),
    {
        AggTable { m: hb_new() }
    }

    /// Look a key up: returns its current entry, or `None` exactly when the
    /// key has not been recorded.
    pub fn get(&self, key: &[u8]) -> (r: Option<(u32, u32, u32, u32)>)
        ensures
            match r {
                Some(v) => self@.contains_key(key@) && self@[key@] == v,
                None => !self@.contains_key(key@),
            },
    {
        hb_get(&self.m, key)
    }

    /// All entries of the table, each key exactly once, in no promised order.
    pub fn entries(&self) -> (r: Vec<(Vec<u8>, (u32, u32, u32, u32))>)
        ensures
            forall|i: int|
                0 <= i < r@.len() ==> self@.contains_key((#[trigger] r@[i]).0@)
                    && self@[r@[i].0@] == r@[i].1,
            forall|k: Seq<u8>|
                self@.contains_key(k) ==> exists|i: int|
                    0 <= i < r@.len() && (#[trigger] r@[i]).0@ == k,
            forall|i: int, j: int|
                0 <= i < j < r@.len() ==> (#[trigger] r@[i]).0@ != (#[trigger] r@[j]).0@,
    {
        hb_entries(&self.m)
    }

    /// Record one scanned value for the key `data[key_start..key_end]`.
    ///
    /// On the key's first occurrence the entry `(1, v, v, v)` is stored and
    /// `None` is returned: the record is fully accounted for.  On a repeated
    /// key nothing changes and the current entry is returned, so that the
    /// caller can combine the statistics with `v` and store the result with
    /// `store_scanned`.
    pub fn apply_value(&mut self, data: &[u8], key_start: usize, key_end: usize, v: u32) -> (r:
        Option<(u32, u32, u32, u32)>)
        requires
            key_start <= key_end <= data@.len(),
        ensures
            match r {
                None => {
                    &&& !old(self)@.contains_key(data@.subrange(key_start as int, key_end as int))
                    &&& final(self)@ == old(self)@.insert(
                        data@.subrange(key_start as int, key_end as int),
                        (1u32, v, v, v),
                    )
                    &&& recorded_at(
                        old(self)@,
                        final(self)@,
                        data@.subrange(key_start as int, key_end as int),
                    )
                },
                Some(cur) => {
                    &&& old(self)@.contains_key(data@.subrange(key_start as int, key_end as int))
                    &&& cur == old(self)@[data@.subrange(key_start as int, key_end as int)]
                    &&& final(self)@ == old(self)@
                },
            },
    {
        let key_slice = vstd::slice::slice_subrange(data, key_start, key_end);
        match hb_get(&self.m, key_slice) {
            Some(cur) => Some(cur),
            None => {
                hb_insert(&mut self.m, vstd::slice::slice_to_vec(key_slice), (1u32, v, v, v));
                None
            },
        }
    }

    /// Store the combined statistics for a repeated key: the count goes up by
    /// one and the three statistics are replaced by the values the caller
    /// combined from the old entry and the newly scanned value.
    pub fn store_scanned(&mut self, data: &[u8], key_start: usize, key_end: usize, sum: u32, min: u32, max: u32)
        requires
            key_start <= key_end <= data@.len(),
            old(self)@.contains_key(data@.subrange(key_start as int, key_end as int)),
            old(self)@[data@.subrange(key_start as int, key_end as int)].0 < u32::MAX,
        ensures
            final(self)@ == old(self)@.insert(
                data@.subrange(key_start as int, key_end as int),
                (
                    (old(self)@[data@.subrange(key_start as int, key_end as int)].0 + 1) as u32,
                    sum,
                    min,
                    max,
                ),
            ),
            recorded_at(
                old(self)@,
                final(self)@,
                data@.subrange(key_start as int, key_end as int),
            ),
    {
        let key_slice = vstd::slice::slice_subrange(data, key_start, key_end);
        match hb_get(&self.m, key_slice) {
            Some(cur) => {
                hb_insert(
                    &mut self.m,
                    vstd::slice::slice_to_vec(key_slice),
                    (cur.0 + 1, sum, min, max),
                );
            },
            None => {
                assert(false);
            },
        }
    }

    /// Merge a whole partial table into this one: counts at once,
    /// statistics deferred.
    ///
    /// A key only the partial table holds is inserted verbatim.  For a key
    /// both tables hold, the counts are added immediately and the statistics
    /// are left as they were; the key is handed back together with both old
    /// entries, so that the caller can combine the statistics and store them
    /// with `store_combined`.  Afterwards the keys of the two tables are
    /// united and every key's count is the sum of its counts in the two.
    pub fn merge_table(&mut self, part: &AggTable) -> (pending: Vec<
        (Vec<u8>, (u32, u32, u32, u32), (u32, u32, u32, u32)),
    >)
        requires
            forall|k: Seq<u8>|
                count_of(old(self)@, k) + count_of(part@, k) <= u32::MAX,
        ensures
            merged_counts(old(self)@, part@, final(self)@),
            forall|k: Seq<u8>| #[trigger] merged_entry_at(old(self)@, part@, final(self)@, k),
            forall|j: int|
                0 <= j < pending@.len() ==> {
                    let k = (#[trigger] pending@[j]).0@;
                    &&& old(self)@.contains_key(k)
                    &&& part@.contains_key(k)
                    &&& pending@[j].1 == old(self)@[k]
                    &&& pending@[j].2 == part@[k]
                },
            forall|k: Seq<u8>|
                old(self)@.contains_key(k) && #[trigger] part@.contains_key(k) ==> exists|j: int|
                    0 <= j < pending@.len() && (#[trigger] pending@[j]).0@ == k,
    {
        let ghost m0 = self@;
        let entries = hb_entries(&part.m);
        let mut pending: Vec<(Vec<u8>, (u32, u32, u32, u32), (u32, u32, u32, u32))> = Vec::new();
        let mut idx: usize = 0;
        while idx < entries.len()
            invariant
                idx <= entries@.len(),
                part@ == table_contents(part.m),
                forall|i: int|
                    0 <= i < entries@.len() ==> part@.contains_key((#[trigger] entries@[i]).0@)
                        && part@[entries@[i].0@] == entries@[i].1,
                forall|k: Seq<u8>|
                    part@.contains_key(k) ==> exists|i: int|
                        0 <= i < entries@.len() && (#[trigger] entries@[i]).0@ == k,
                forall|i: int, j: int|
                    0 <= i < j < entries@.len() ==> (#[trigger] entries@[i]).0@ != (
                    #[trigger] entries@[j]).0@,
                forall|k: Seq<u8>| count_of(m0, k) + count_of(part@, k) <= u32::MAX,
                forall|k: Seq<u8>|
                    #[trigger] key_in_prefix(entries@, idx as int, k) || agree_at(m0, self@, k),
                forall|i: int|
                    0 <= i < idx ==> merged_entry_at(m0, part@, self@, (#[trigger] entries@[i]).0@),
                forall|j: int|
                    0 <= j < pending@.len() ==> {
                        let k = (#[trigger] pending@[j]).0@;
                        &&& m0.contains_key(k)
                        &&& part@.contains_key(k)
                        &&& pending@[j].1 == m0[k]
                        &&& pending@[j].2 == part@[k]
                    },
                forall|i: int|
                    0 <= i < idx && m0.contains_key((#[trigger] entries@[i]).0@) ==> exists|j: int|
                        0 <= j < pending@.len() && (#[trigger] pending@[j]).0@ == entries@[i].0@,
            decreases entries@.len() - idx,
        {
            let key_slice = entries[idx].0.as_slice();
            let e = entries[idx].1;
            let ghost ki = key_slice@;
            let ghost pend0 = pending@;
            proof {
                assert(!key_in_prefix(entries@, idx as int, ki)) by {
                    if key_in_prefix(entries@, idx as int, ki) {
                        let i = choose|i: int|
                            0 <= i < idx as int && (#[trigger] entries@[i]).0@ == ki;
                        assert(entries@[i].0@ != entries@[idx as int].0@);
                    }
                }
                assert(agree_at(m0, self@, ki));
            }
            match hb_get(&self.m, key_slice) {
                None => {
                    hb_insert(&mut self.m, vstd::slice::slice_to_vec(key_slice), e);
                    proof {
                        assert(!m0.contains_key(ki));
                        assert(merged_entry_at(m0, part@, self@, ki));
                    }
                },
                Some(cur) => {
                    proof {
                        assert(m0.contains_key(ki) && m0[ki] == cur);
                        assert(count_of(m0, ki) + count_of(part@, ki) <= u32::MAX);
                    }
                    hb_insert(
                        &mut self.m,
                        vstd::slice::slice_to_vec(key_slice),
                        (cur.0 + e.0, cur.1, cur.2, cur.3),
                    );
                    pending.push((vstd::slice::slice_to_vec(key_slice), cur, e));
                    proof {
                        assert(pending@[pending@.len() - 1].0@ == ki);
                        assert(merged_entry_at(m0, part@, self@, ki));
                    }
                },
            }
            proof {
                assert forall|k: Seq<u8>|
                    #[trigger] key_in_prefix(entries@, idx as int + 1, k) || agree_at(
                        m0,
                        self@,
                        k,
                    ) by {
                    if !key_in_prefix(entries@, idx as int + 1, k) {
                        assert(!key_in_prefix(entries@, idx as int, k)) by {
                            if key_in_prefix(entries@, idx as int, k) {
                                let i = choose|i: int|
                                    0 <= i < idx as int && (#[trigger] entries@[i]).0@ == k;
                                assert(0 <= i < idx as int + 1 && entries@[i].0@ == k);
                            }
                        }
                        assert(k != ki) by {
                            if k == ki {
                                assert(entries@[idx as int].0@ == k);
                                assert(key_in_prefix(entries@, idx as int + 1, k));
                            }
                        }
                        assert(agree_at(m0, self@, k));
                    }
                }
                assert forall|i: int|
                    0 <= i < idx as int + 1 && m0.contains_key(
                        (#[trigger] entries@[i]).0@,
                    ) implies exists|j: int|
                    0 <= j < pending@.len() && (#[trigger] pending@[j]).0@ == entries@[i].0@ by {
                    if i < idx as int {
                        let j = choose|j: int|
                            0 <= j < pend0.len() && (#[trigger] pend0[j]).0@ == entries@[i].0@;
                        assert(0 <= j < pending@.len() && pending@[j].0@ == entries@[i].0@);
                    } else {
                        assert(0 <= pending@.len() - 1 < pending@.len() && pending@[pending@.len()
                            - 1].0@ == entries@[i].0@);
                    }
                }
            }
            idx += 1;
        }
        proof {
            assert forall|k: Seq<u8>| #[trigger] merged_entry_at(m0, part@, self@, k) by {
                if part@.contains_key(k) {
                    let i = choose|i: int|
                        0 <= i < entries@.len() && (#[trigger] entries@[i]).0@ == k;
                    assert(merged_entry_at(m0, part@, self@, entries@[i].0@));
                } else {
                    assert(!key_in_prefix(entries@, idx as int, k)) by {
                        if key_in_prefix(entries@, idx as int, k) {
                            let i = choose|i: int|
                                0 <= i < idx as int && (#[trigger] entries@[i]).0@ == k;
                            assert(part@.contains_key(entries@[i].0@));
                        }
                    }
                    assert(agree_at(m0, self@, k));
                }
            }
            assert forall|k: Seq<u8>|
                #[trigger] self@.contains_key(k) <==> m0.contains_key(k) || part@.contains_key(
                    k,
                ) by {
                assert(merged_entry_at(m0, part@, self@, k));
            }
            assert forall|k: Seq<u8>|
                #[trigger] count_of(self@, k) == count_of(m0, k) + count_of(part@, k) by {
                assert(merged_entry_at(m0, part@, self@, k));
                assert(count_of(m0, k) + count_of(part@, k) <= u32::MAX);
            }
            assert(merged_counts(m0, part@, self@));
            assert forall|k: Seq<u8>|
                m0.contains_key(k) && #[trigger] part@.contains_key(k) implies exists|j: int|
                0 <= j < pending@.len() && (#[trigger] pending@[j]).0@ == k by {
                let i = choose|i: int|
                    0 <= i < entries@.len() && (#[trigger] entries@[i]).0@ == k;
                assert(m0.contains_key(entries@[i].0@));
            }
        }
        pending
    }

    /// Store the combined statistics for a key the merge left pending: the
    /// count stays what the merge made it, the three statistics are replaced
    /// by the values the caller combined from the two old entries.
    pub fn store_combined(&mut self, key: &[u8], sum: u32, min: u32, max: u32)
        requires
            old(self)@.contains_key(key@),
        ensures
            final(self)@ == old(self)@.insert(key@, (old(self)@[key@].0, sum, min, max)),
    {
        match hb_get(&self.m, key) {
            Some(cur) => {
                hb_insert(&mut self.m, vstd::slice::slice_to_vec(key), (cur.0, sum, min, max));
            },
            None => {
                assert(false);
            },
        }
    }
}

} // verus!
