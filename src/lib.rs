//! A promotion evaluation engine for retail baskets.
use vstd::prelude::*;

pub mod money;
pub mod tags;
pub mod discounts;
pub mod items;
pub mod promotions;
pub mod solver;
pub mod candidates;
pub mod search;
pub mod graph;
pub mod layered;
pub mod receipt;
pub mod laws;
pub mod fixtures;

verus! {

/// Arguments of the basket examples.
#[derive(Clone, Copy, Debug)]
pub struct ExampleBasketArgs {
    /// Number of items to add to the basket.
    pub n: Option<usize>,
}

} // verus!
