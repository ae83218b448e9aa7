//! Verified core of a literature aggregation gateway.
//!
//! The gateway fans out to public literature APIs (a quotes service, a
//! poetry database, two book catalogs, a URL shortener) and merges,
//! filters and sorts their results behind one REST surface.  This crate
//! holds everything that can be stated and proved: credential checking,
//! query validation, the merge/filter/sort engine for authors, poems and
//! books, word counting, the seeded random pick, and the error taxonomy
//! that maps upstream outcomes to response statuses.  The HTTP server,
//! outbound requests and JSON decoding live outside, and hand this crate
//! plain values.

pub mod auth;
pub mod authors;
pub mod books;
pub mod error;
pub mod order;
pub mod pick;
pub mod poems;
pub mod quote;
pub mod text;
pub mod wordcount;
