//! Discovery and validation of public proxy endpoints harvested from web pages.
//!
//! The library holds the decisions of the pipeline: which text is an address
//! and a port, which strategy of extraction applies to a page, in which order
//! the protocols of a candidate are probed and when probing stops, how a live
//! candidate becomes a record, and what an export holds.
pub mod address;
pub mod canonical;
pub mod proxy;
pub mod extract;
pub mod probe;
pub mod pipeline;
pub mod export;
