use vstd::prelude::*;

pub mod chunks;
pub mod merge;
pub mod records;
pub mod scan;
pub mod table;

verus! {

/// The byte that separates a record's key from its value text.
pub open spec fn is_delim(b: u8) -> bool {
    b == 59u8
}

/// The line terminator that ends a record.
pub open spec fn is_term(b: u8) -> bool {
    b == 10u8
}

} // verus!
