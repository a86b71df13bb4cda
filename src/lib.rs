//! Traversal engine of a resizable hash table whose bins may be forwarded
//! into a larger replacement table while the traversal is under way.

pub mod table;
pub mod machine;
pub mod traverser;
pub mod laws;
