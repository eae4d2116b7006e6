//! Core of a local e-book library: a content-addressed store of imported
//! books, with cover resolution, bookmark and reader-style sidecar state,
//! and the pure decision logic behind the import and conversion flows.
//!
//! All filesystem and network work is performed by the surrounding
//! application; this crate holds the verified data model and the rules
//! that decide what that work must be.
#![verifier::loop_isolation(false)]

pub mod codec;
pub mod convert;
pub mod cover;
pub mod hash;
pub mod listing;
pub mod menu;
pub mod model;
pub mod scan;
pub mod search;
pub mod store;
pub mod text;
