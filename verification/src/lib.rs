//! Process-side data structures of an interaction-model analysis tool: the
//! queue of nodes that remain to be explored, the states memorised along an
//! exploration, the names of analysis options, and the worklist that drives
//! the three-phase canonisation of an interaction term.

pub mod canonize;
pub mod process;
