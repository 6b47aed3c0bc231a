use vstd::prelude::*;

pub mod text;
pub mod insights;
pub mod cli;
pub mod julia;
pub mod shell;
pub mod toolchain;
pub mod project;
pub mod doctor;
pub mod paths;

verus! {
} // verus!
