use vstd::prelude::*;

pub mod decimal;
pub mod duration;
pub mod text;
pub mod cli;
pub mod output;
pub mod json;
pub mod process;
