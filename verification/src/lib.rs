//! A red-black tree that keeps its nodes in numbered slots of flat tables
//! and reuses the slots that removals free. Every operation is verified
//! against a mathematical model of the tree: which slot holds which value,
//! how the slots hang under one another, and which of them are red.

pub mod order;
pub mod shape;
pub mod shape_proofs;
pub mod links;
pub mod colour;
pub mod tree;
pub mod traverse;
pub mod rotate;
pub mod insert;
pub mod mend;
pub mod cut;
pub mod short;
pub mod swap;
pub mod remove;
pub mod model;
pub mod laws;

pub use crate::tree::Tree;
