//! Detection of triangular arbitrage opportunities on a live market feed.
//!
//! The currency graph, the search for closed trading cycles, their reduction to
//! unique triangles, the leg-by-leg assembly of each triangle into an ordered
//! trade sequence, and the evaluation of every triangle touched by a price tick
//! are all stated as contracts over sequences, sets and maps and proved.
pub mod assembler;
pub mod control;
pub mod currency;
pub mod decimal;
pub mod decimal_laws;
pub mod evaluator;
pub mod graph;
pub mod graph_laws;
pub mod ident;
pub mod index;
pub mod lexical;
pub mod observer;
pub mod pipeline;
pub mod queue;
pub mod reaction;
pub mod reduction;
pub mod reduction_laws;
pub mod report;
pub mod search;
pub mod search_laws;
pub mod settings;
pub mod store;
pub mod text;
pub mod triangle;
