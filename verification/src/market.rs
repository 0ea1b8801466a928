//! Market notions shared by all stages.
pub mod instant;
pub mod price;
pub mod timeframe;
