//! Explains what is heating a Mac from process and system readings.

pub mod cli;
pub mod diagnosis;
pub mod grouping;
pub mod model;
pub mod order;
pub mod sampler;
pub mod session;
pub mod text;
pub mod ui;
