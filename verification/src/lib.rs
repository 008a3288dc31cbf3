//! A budget, what is left of it, and what that is worth in bitcoin.

pub mod budget;
pub mod currency;
pub mod decimal;
pub mod double;
pub mod growth;
pub mod json;
pub mod laws;
pub mod market;
pub mod naturals;
pub mod numbers;
pub mod pie;
pub mod promises;
pub mod proportions;
pub mod rates;
pub mod reading;
pub mod report;
pub mod rounding;
