//! Distinct identifier types for users, products and orders, so that one
//! cannot be passed where another is expected.

use vstd::prelude::*;

verus! {

/// A user identifier.
#[derive(Debug, PartialEq, Eq)]
pub struct UserId(pub u64);

/// A product identifier.
#[derive(Debug, PartialEq, Eq)]
pub struct ProductId(pub u64);

/// An order identifier.
#[derive(Debug, PartialEq, Eq)]
pub struct OrderId(pub u64);

} // verus!
