//! A small model of a C-like type system: a registry of atomic, struct and
//! union type definitions, with size and alignment computed under three
//! layout strategies (natural padding, fully packed, and an exhaustive
//! search over member orderings that minimizes padded size).

pub mod layout;
pub mod report;
pub mod type_system;
pub mod utils;
