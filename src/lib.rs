//! A multi-tenant document store's query engine: documents, predicate
//! matching, partitioned search, a time-bounded result cache and the
//! filter / sort / paginate pipeline built on them, with the users and
//! the lookup-URL protocol around it.
pub mod auth;
pub mod cache;
pub mod document;
pub mod fields;
pub mod matcher;
pub mod order;
pub mod paging;
pub mod pipeline;
pub mod protocol;
pub mod search;
