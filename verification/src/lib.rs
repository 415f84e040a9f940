//! An identifier-addressed directed graph store with CRUD operations, a
//! depth-first reachability and path search, and an ingestion path that
//! builds a graph from a streamed map dataset, together with a collection
//! of small verified algorithm exercises.

pub mod adjgraph;
pub mod algo;
pub mod numtext;
pub mod one_away;
pub mod osm;
pub mod remove_duplicates;
pub mod unique_chars;
pub mod string_rotation;
pub mod word_search;
pub mod zero_matrix;
pub mod assoc;
pub mod display;
pub mod graph;
pub mod graphtraits;
pub mod idgraph;
