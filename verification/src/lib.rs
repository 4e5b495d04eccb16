use vstd::prelude::*;

pub mod armstrong;
pub mod backpack;
pub mod bytecode;
pub mod calculator;
pub mod cpu;
pub mod dirtree;
pub mod magazine;
pub mod marker;
pub mod monkey;
pub mod ranges;
pub mod forest;
pub mod gigasecond;
pub mod grids;
pub mod player;
pub mod resistor;
pub mod rps;
pub mod stacks;
pub mod rope;
pub mod text;

verus! {

} // verus!
