//! Enumeration of self-describing digit assignments: partitions of an integer
//! into digits, ordered pairings of two sorted digit sequences, the tests that
//! a pairing of repetition counts with descriptors has to pass, the solution
//! of a pairing that passes, its text, and the search over all of them.

pub mod partition_parts;
pub mod ordered_pairings;
pub mod checks;
pub mod solution;
pub mod counts;
pub mod render;
pub mod solver;
