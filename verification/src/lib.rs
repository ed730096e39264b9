//! Integer statistics over data sets of numbers read one per line.

pub mod dataset;
pub mod order;
pub mod sums;
pub mod text;
pub mod reading;
pub mod work;
pub mod split;
pub mod plot;
