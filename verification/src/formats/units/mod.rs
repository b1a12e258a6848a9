//! Unit conversions: the request format they share and the checks every conversion starts with.

pub mod converter;
pub mod payload;

pub use converter::UnitsConverter;
