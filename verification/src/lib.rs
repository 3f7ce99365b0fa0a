//! The core of a data oracle: a small set of submitters record numbers under
//! registered keys, and at every tick that a key's schedule divides, the
//! numbers recorded under the key are reduced to the one value published
//! for it.
//!
//! - [`value`]: the values, their two representations, and a key's settings;
//! - [`decimal`]: a decimal literal turned into a value without loss;
//! - [`json`]: one number read out of a JSON response;
//! - [`ring`]: the bounded history of one submitter under one key;
//! - [`aggregate`]: sum and average with saturation;
//! - [`table`]: the map by byte strings that the state is made of;
//! - [`oracle`]: the state and everything that changes it;
//! - [`fetch`]: what is decided before a request and after its response;
//! - [`fixed`]: the arithmetic of decimal numbers;
//! - [`error`]: what is refused.

pub mod aggregate;
pub mod decimal;
pub mod error;
pub mod fetch;
pub mod fixed;
pub mod json;
pub mod oracle;
pub mod ring;
pub mod table;
pub mod value;
