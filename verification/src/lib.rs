//! Extraction of filter-operator cost summaries from encoded query plans.
//!
//! A diagnostic record carries a plan payload: JSON-like text in which the
//! field keys of each node are themselves quoted a second time, and in which
//! newlines appear as the literal two-character sequence `\n`.  This crate
//! decodes such a payload into a generic tree, selects the nodes that
//! represent filter operators, sums their textual cost vectors, and formats
//! the resulting integers with thousands separators.

use vstd::prelude::*;

pub mod cost;
pub mod extract;
pub mod format;
pub mod plan;
pub mod text;

verus! {

/// The failures the library reports.
///
/// `MalformedPlan`: the plan payload, after unescaping, is not parseable.
/// `MissingField`: a plan node that qualifies as a filter node lacks one of
/// its required fields (the field's logical name is carried along).
/// `CostParse`: a cost-vector token is not numeric, or the vector is empty,
/// or its total does not fit the result type.
#[derive(Debug, Clone, PartialEq, Eq)]
pub enum PlanError {
    MalformedPlan,
    MissingField(String),
    CostParse,
}

} // verus!
