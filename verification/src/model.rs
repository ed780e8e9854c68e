//! The catalog's records.

use vstd::prelude::*;

verus! {

/// The unsigned integer that names one record of the catalog.
pub type ProductId = u64;

/// One record of the catalog.
///
/// `price` is the bit pattern of the price (see the module `scalar`).
#[derive(Debug, Clone)]
pub struct Product {
    pub id: ProductId,
    pub name: String,
    pub category: String,
    pub brand: String,
    pub price: u32,
    pub tags: Vec<String>,
}

} // verus!
