//! Plain option types shared between the library and its callers.

use vstd::prelude::*;

verus! {

/// The ranking policy for listings and truncation.
#[derive(Clone, Copy, Debug, PartialEq, Eq, Structural)]
pub enum SortMethod {
    Recent,
    Frequent,
    Frecent,
}

/// What kind of listing a caller asked for.
#[derive(Clone, Copy, Debug)]
pub struct StatsArgs {
    /// Print the stored items in order of highest to lowest score.
    pub sorted: bool,
    /// Print statistics about the stored items.
    pub stat: bool,
    /// Cap on the number of results printed.
    pub limit: Option<usize>,
    /// Override for the number of digits shown with statistics.
    pub stat_digits: Option<usize>,
}

} // verus!
