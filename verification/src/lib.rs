//! Graph invariants by fingerprint.
//!
//! Two embeddings turn the adjacency matrix of a graph into a 256-bit
//! fingerprint that does not depend on how the vertices are numbered: the
//! walk-count embedding (`id_gnn_fast`) and colour refinement (`wl`). Both
//! rest on the canonical hash of a multiset of records (`record`, `ranking`,
//! `canonical`). Graphs with equal fingerprints are gathered into collision
//! groups (`collisions`), of which `report` and `overlap` give the figures
//! that are printed and `mathematica` the graphs as text. `gen` reads graphs
//! from the listing of `showg`.
//!
//! `laws` states what the embeddings promise as functions of a graph;
//! `matrix`, `order` and `permutation` hold the mathematics underneath.

pub mod adjacency;
pub mod canonical;
pub mod collisions;
pub mod digest;
pub mod gen;
pub mod id_gnn_fast;
pub mod laws;
pub mod mathematica;
pub mod matrix;
pub mod order;
pub mod overlap;
pub mod permutation;
pub mod ranking;
pub mod record;
pub mod report;
pub mod text;
pub mod wl;
