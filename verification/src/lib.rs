//! Data-representation core for a dynamic-language runtime: a tagged value
//! model with length-tiered text storage, a value-keyed field map for class
//! instances, and a sentinel-bounded doubly linked list used as the runtime's
//! ordered work-list container.

pub mod object;
pub mod utils;
pub mod value;
