//! A dialogue-preserving dynamics processor for watching films quietly, in verified
//! fixed-point arithmetic.

pub mod audiochunk;
pub mod config;
pub mod decibels;
pub mod filters;
pub mod fixed;
pub mod gain;
pub mod hops;
pub mod laws;
pub mod model;
pub mod night_mode;
pub mod output;
pub mod settings;
pub mod sidechain;
pub mod trig;
pub mod tuning;
pub mod validation;
