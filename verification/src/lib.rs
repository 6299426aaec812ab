//! A registry of well-known network service assignments (service name, port
//! number, transport protocol), compiled once from raw tabular rows into an
//! immutable, queryable in-memory index.
//!
//! The registry is built by [`Registry::compile`], which validates and filters
//! raw rows, keeps the surviving records in a canonical array in source order,
//! and builds two positional indices over that array: one keyed by port, one
//! keyed by service name. After compilation nothing is ever mutated; queries
//! return restartable, bidirectional, exact-size iterators.

pub mod iter;
pub mod laws;
pub mod record;
pub mod registry;

pub use iter::Iter;
pub use laws::lemma_by_name_absent_empty;
pub use laws::lemma_by_name_exact;
pub use laws::lemma_by_port_absent_empty;
pub use laws::lemma_by_port_exact;
pub use laws::lemma_compile_deterministic;
pub use laws::lemma_reverse_traversal;
pub use record::RawRow;
pub use record::Service;
pub use record::TransportProtocol;
pub use registry::CompileError;
pub use registry::Registry;
