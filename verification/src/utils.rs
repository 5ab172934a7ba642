//! Reusable containers and formatting helpers shared by the runtime's
//! components.

pub mod decimal;
pub mod linkedlist;
