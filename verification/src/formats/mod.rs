//! Conversion algorithms, one submodule per category, plus the placeholder identity converter.

pub mod identity;
pub mod image;
pub mod units;
