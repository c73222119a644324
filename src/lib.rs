//! A terminal temperature monitor: turns sensor readings into an ordered
//! sample of labelled temperatures and decides how each line is shown.
use vstd::prelude::*;

pub mod text;
pub mod sample;
pub mod sensors;
pub mod display;
pub mod monitor;
