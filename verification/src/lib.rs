//! Name and wire-format core of `scry3`, a command line over stock Kythe
//! serving tables.

pub mod archive;
pub mod callgraph;
pub mod filter;
pub mod http;
pub mod indexer;
pub mod json;
pub mod kzip;
pub mod laws;
pub mod marked_source;
pub mod nameindex;
pub mod peek;
pub mod query;
pub mod repl;
pub mod serving;
pub mod stream;
pub mod text;
pub mod ticket;
pub mod wire;
