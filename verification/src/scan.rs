use vstd::prelude::*;
use crate::{is_delim, is_term};
use crate::records::{find_byte, lemma_find_byte, lemma_find_byte_is, line_malformed, lines_ok, records_of};

verus! {

/// A fatal format violation: the job that hits one of these produces no
/// output at all.
#[derive(Debug, Clone, Copy, PartialEq, Eq)]
pub enum FormatError {
    /// A record's line terminator, or the region's end, comes before its `;`.
    MissingDelimiter,
    /// A record's value text does not parse as a number.
    BadNumber,
}

/// What one step of scanning a region found.
#[derive(Debug, Clone, Copy, PartialEq, Eq)]
pub enum ScanStep {
    /// One record: the key is `data[key_start..key_end]` and the value text
    /// is `data[val_start..val_end]`.
    Record { key_start: usize, key_end: usize, val_start: usize, val_end: usize },
    /// The cursor has reached the end of the region.
    Finished,
}

/// A cursor over one region `[pos, end)` of the shared byte buffer.
///
/// Each call of `advance` either delivers the next `key;value` record, tells
/// that the region is exhausted, or reports the region as malformed.
pub struct RegionScanner {
    pub pos: usize,
    pub end: usize,
}

impl RegionScanner {
    /// The cursor stays inside the region and the region inside the buffer.
    pub open spec fn wf(self, data: Seq<u8>) -> bool {
        self.pos <= self.end <= data.len()
    }

    /// A scanner for the region `[start, end)`.
    pub fn new(start: usize, end: usize) -> (s: Self)
        requires
            start <= end,
        ensures
            s.pos == start,
            s.end == end,
    {
        RegionScanner { pos: start, end }
    }

    /// Deliver the next record of the region, or `Finished` when the cursor
    /// has reached the region's end.
    ///
    /// A record is the bytes up to the first `;` of the current line (the
    /// key), the `;` itself, and the bytes up to the first line terminator
    /// after it or the region's end (the value text); the cursor then moves
    /// past the terminator.  A line whose terminator, or the region's end,
    /// comes before any `;` is a fatal format violation: the whole job must
    /// fail, and no partial table may be used.
    pub fn advance(&mut self, data: &[u8]) -> (r: Result<ScanStep, FormatError>)
        requires
            old(self).wf(data@),
        ensures
            final(self).end == old(self).end,
            final(self).wf(data@),
            match r {
                Ok(ScanStep::Finished) => {
                    &&& old(self).pos >= old(self).end
                    &&& *final(self) == *old(self)
                    &&& records_of(data@, old(self).pos as int, old(self).end as int)
                        == Seq::<(Seq<u8>, Seq<u8>)>::empty()
                },
                Ok(ScanStep::Record { key_start, key_end, val_start, val_end }) => {
                    &&& old(self).pos < old(self).end
                    &&& key_start == old(self).pos
                    &&& key_start <= key_end < old(self).end
                    &&& is_delim(data@[key_end as int])
                    &&& forall|k: int|
                        key_start <= k < key_end ==> !is_delim(data@[k]) && !is_term(data@[k])
                    &&& val_start == key_end + 1
                    &&& val_start <= val_end <= old(self).end
                    &&& forall|k: int| val_start <= k < val_end ==> !is_term(data@[k])
                    &&& (val_end < old(self).end ==> is_term(data@[val_end as int]))
                    &&& final(self).pos == (if val_end < old(self).end {
                        val_end + 1
                    } else {
                        val_end as int
                    })
                    &&& records_of(data@, old(self).pos as int, old(self).end as int) == seq![
                        (
                            data@.subrange(key_start as int, key_end as int),
                            data@.subrange(val_start as int, val_end as int),
                        ),
                    ] + records_of(data@, final(self).pos as int, old(self).end as int)
                    &&& lines_ok(data@, old(self).pos as int, old(self).end as int)
                        == lines_ok(data@, final(self).pos as int, old(self).end as int)
                },
                Err(e) => {
                    &&& e == FormatError::MissingDelimiter
                    &&& old(self).pos < old(self).end
                    &&& line_malformed(data@, old(self).pos as int, old(self).end as int)
                    &&& *final(self) == *old(self)
                    &&& records_of(data@, old(self).pos as int, old(self).end as int)
                        == Seq::<(Seq<u8>, Seq<u8>)>::empty()
                    &&& !lines_ok(data@, old(self).pos as int, old(self).end as int)
                },
            },
    {
        if self.pos >= self.end {
            return Ok(ScanStep::Finished);
        }
        let key_start = self.pos;
        let mut i = self.pos;
        while i < self.end && *vstd::slice::slice_index_get(data, i) != 59u8
            && *vstd::slice::slice_index_get(data, i) != 10u8
            invariant
                key_start <= i <= self.end,
                self.end <= data@.len(),
                forall|k: int| key_start <= k < i ==> !is_delim(data@[k]) && !is_term(data@[k]),
            decreases self.end - i,
        {
            i = i + 1;
        }
        if i == self.end || *vstd::slice::slice_index_get(data, i) == 10u8 {
            proof {
                let lo = key_start as int;
                let hi = self.end as int;
                lemma_find_byte(data@, lo, hi, 59u8);
                lemma_find_byte_is(data@, lo, hi, 10u8, i as int);
                if find_byte(data@, lo, hi, 59u8) < i as int {
                    assert(!is_delim(data@[find_byte(data@, lo, hi, 59u8)]));
                }
                assert(records_of(data@, lo, hi) == Seq::<(Seq<u8>, Seq<u8>)>::empty());
                assert(!lines_ok(data@, lo, hi));
            }
            return Err(FormatError::MissingDelimiter);
        }
        let key_end = i;
        let val_start = i + 1;
        let mut j = val_start;
        while j < self.end && *vstd::slice::slice_index_get(data, j) != 10u8
            invariant
                val_start <= j <= self.end,
                self.end <= data@.len(),
                forall|k: int| val_start <= k < j ==> !is_term(data@[k]),
            decreases self.end - j,
        {
            j = j + 1;
        }
        let val_end = j;
        self.pos = if val_end < self.end {
            val_end + 1
        } else {
            val_end
        };
        proof {
            let lo = key_start as int;
            let hi = self.end as int;
            lemma_find_byte_is(data@, lo, hi, 59u8, key_end as int);
            lemma_find_byte_is(data@, lo, hi, 10u8, val_end as int);
            lemma_find_byte_is(data@, key_end as int + 1, hi, 10u8, val_end as int);
            assert(records_of(data@, lo, hi) == seq![
                (
                    data@.subrange(lo, key_end as int),
                    data@.subrange(key_end as int + 1, val_end as int),
                ),
            ] + records_of(data@, self.pos as int, hi));
            assert(lines_ok(data@, lo, hi) == lines_ok(data@, self.pos as int, hi));
        }
        Ok(ScanStep::Record { key_start, key_end, val_start, val_end })
    }
}

} // verus!
