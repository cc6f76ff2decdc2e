//! Search engine for a generalized postage-stamp problem: for a number of
//! denominations and an L1 usage budget, find the denomination vectors that
//! maximize the length of the contiguous range of sums representable from 0.

pub mod coeffs;
pub mod coverage;
pub mod order;
pub mod search;
pub mod weights;
