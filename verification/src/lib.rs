//! Verified solutions to a set of graph and routing puzzles: spanning trees and
//! depth-first tours over planted trees, delivery chains through a street network,
//! and stick figures compared through their block-cut trees.

pub mod flags;
pub mod traversal;
pub mod trees;
pub mod spanning;
pub mod bignat;
pub mod tours;
pub mod text;
pub mod words;
pub mod input;
pub mod delivery;
pub mod graphs;
pub mod streets;
pub mod plan;
pub mod checks;
pub mod dot;
pub mod figures;
pub mod grid;
pub mod blocks;
pub mod bc_tree;
pub mod centers;
pub mod matching;
pub mod mirror;
pub mod acyclic;
pub mod transform;
pub mod plan_laws;
