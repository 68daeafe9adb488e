//! Error taxonomy shared by all components.

use vstd::prelude::*;

verus! {

/// Every failure a component can report to its caller.
#[derive(Clone, Copy, Debug, PartialEq, Eq, Structural)]
pub enum CoreError {
    /// A coordinate lies outside the grid bounds.
    InvalidCoordinate,
    /// A path endpoint is a blocked cell.
    UnwalkableEndpoint,
    /// The search space was exhausted without reaching the goal.
    NoPathFound,
    /// The node-expansion budget was reached before the goal.
    SearchBudgetExceeded,
    /// A grid has ragged rows or zero dimensions.
    MalformedGrid,
    /// A scalar parameter is out of its allowed range.
    InvalidParameter,
}

impl CoreError {
    /// A short stable name for the error, for hosts that log or display it.
    pub fn describe(&self) -> (r: &'static str)
        ensures
            r@ =~= match *self {
                CoreError::InvalidCoordinate => "invalid coordinate"@,
                CoreError::UnwalkableEndpoint => "unwalkable endpoint"@,
                CoreError::NoPathFound => "no path found"@,
                CoreError::SearchBudgetExceeded => "search budget exceeded"@,
                CoreError::MalformedGrid => "malformed grid"@,
                CoreError::InvalidParameter => "invalid parameter"@,
            },
    {
        match *self {
            CoreError::InvalidCoordinate => "invalid coordinate",
            CoreError::UnwalkableEndpoint => "unwalkable endpoint",
            CoreError::NoPathFound => "no path found",
            CoreError::SearchBudgetExceeded => "search budget exceeded",
            CoreError::MalformedGrid => "malformed grid",
            CoreError::InvalidParameter => "invalid parameter",
        }
    }
}

} // verus!
