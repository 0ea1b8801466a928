//! Conversion of foreign-exchange tick quotes into open/high/low/close bars
//! of a fixed time frame.
//!
//! The stages are plain functions over plain values: the line source splits a
//! text into numbered lines, the row parser reads a line into a tick, the
//! grouper collects ticks into time frames and the converter reduces each
//! group to one output row.
pub mod converter;
pub mod formatter;
pub mod fxconv;
pub mod fxtickconv;
pub mod grouper;
pub mod line_producer;
pub mod market;
pub mod number;
pub mod settings;
pub mod text;
