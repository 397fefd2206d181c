//! Values of the machine.

pub mod symbol;
