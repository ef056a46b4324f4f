use vstd::prelude::*;

verus! {

/// A snapshot whose parentage cannot be a lineage.
pub enum LineageError {
    /// The shard with this id names itself as its parent.
    InvalidLineage(String),
}

} // verus!
