//! A resizable hash table with epoch-deferred reclamation, and the hash set
//! built on it.

pub mod key;
pub mod node;
pub mod bin;
pub mod ebr;
pub mod table;
pub mod map;
pub mod set;
pub mod set_ref;
pub mod laws;

pub use ebr::Guard;
pub use key::Key;
pub use map::HashMap;
pub use set::HashSet;
pub use set_ref::HashSetRef;
