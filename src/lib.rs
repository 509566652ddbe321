//! Conversion between the Intel-styled hardware thread numbering of a
//! two-socket SMT machine and the order that OpenMPI's CPU-set binding
//! expects, and selection of OpenMPI-order threads by socket, rank within
//! the core, and parity.

pub mod commands;
pub mod error;
pub mod filter;
pub mod ompi;
pub mod smt;
