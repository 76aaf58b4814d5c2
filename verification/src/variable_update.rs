//! News about a variable.
use vstd::prelude::*;

use crate::range_constraint::RangeConstraint;

verus! {

/// A variable became known, or its range constraint did.
#[derive(Debug)]
pub struct VariableUpdate<T, V> {
    pub variable: V,
    /// If true, the variable is known from now on.
    pub known: bool,
    pub range_constraint: RangeConstraint<T>,
}

} // verus!
