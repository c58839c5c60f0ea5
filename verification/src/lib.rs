//! Declarative first-boot provisioning for Raspberry Pi 5 SD cards.

use vstd::prelude::*;

pub mod apply;
pub mod cli;
pub mod desktop;
pub mod num;
pub mod render;
pub mod specification;
pub mod text;
pub mod toml;

verus! {

} // verus!
