//! The outcome of comparing two states.

use std::cmp::Ordering;
use vstd::prelude::*;

verus! {

/// How the first of two states ranks against the second. A state that ranks
/// greater is the more promising one: it is kept in preference to the other
/// when a layer must shrink.
#[derive(Clone, Copy, Debug, PartialEq, Eq, Hash)]
pub enum Rank {
    Less,
    Equal,
    Greater,
}

impl Rank {
    /// The rank that corresponds to an ordering of the standard library.
    pub fn of(ordering: Ordering) -> (rank: Rank)
        ensures
            rank == match ordering {
                Ordering::Less => Rank::Less,
                Ordering::Equal => Rank::Equal,
                Ordering::Greater => Rank::Greater,
            },
    {
        match ordering {
            Ordering::Less => Rank::Less,
            Ordering::Equal => Rank::Equal,
            Ordering::Greater => Rank::Greater,
        }
    }
}

} // verus!
