//! Sequential decoding of graphs stored in the BV compressed format.
//!
//! A graph is a stream of per-node records. Each record rebuilds the sorted
//! successor list of one node from a copy of an earlier list, runs of
//! consecutive ids, and gap-coded residual ids.
//!
//! - `codes`: the reader of fields that the decoder drives, and its model;
//! - `window`: the ring of recent successor lists;
//! - `successors`: the three parts of a record;
//! - `record`: what a whole record decodes to, and its errors;
//! - `sequential`: the iterator over nodes and successor lists;
//! - `degrees`: the iterator over outdegrees alone;
//! - `graph`: the description of a graph, from which iterators start;
//! - `tape`: a reader over fields held in memory.

pub mod codes;
pub mod degrees;
pub mod graph;
pub mod record;
pub mod sequential;
pub mod successors;
pub mod tape;
pub mod window;
