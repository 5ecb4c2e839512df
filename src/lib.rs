//! Sorting a stack of distinct integers with the two-stack instruction set
//! (`sa sb ra rb rra rrb ss rr rrr pa pb`), looking for a short instruction list.
pub mod machine;
pub mod order;
pub mod rotation;
pub mod cost;
pub mod solver;
pub mod table;
pub mod table_proof;
