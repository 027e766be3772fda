//! A small generic graph library: an adjacency-list container holding
//! vertex payloads and labelled directed edges, together with verified
//! breadth-first and depth-first traversals.

pub mod assoc;
pub mod graph;
pub mod traversal;
pub mod vid;
