//! Shared list machinery: the slot arena that threads every
//! doubly-linked chain, and a plain list built on it.

pub mod arena;
pub mod list;
