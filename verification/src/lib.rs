//! The core of a netnews server: an article store, a group index and an
//! access policy, each operation with a contract that is proved of it.
//!
//! Articles are kept under their message identifier and posted to one or
//! more named groups. Within a group every article has a number; numbers
//! rise with every posting and are never handed out twice. A policy decides,
//! for every identity and group, who may read and who may post.
//!
//! * [`text`] compares, trims and renders byte strings.
//! * [`ident`] validates message identifiers and derives new ones.
//! * [`header`] parses header blocks and reads the target groups.
//! * [`access`] holds the policy and decides.
//! * [`group`] holds the groups, their watermarks and their overview rows.
//! * [`article`] holds the articles; posting, fetching and expiring.
//! * [`service`] puts the three together behind five operations.
//! * [`filters`] holds what the proofs need to know of filtered sequences.
//! * [`coherence`] proves that store and index stay in agreement.
//! * [`laws`] states what holds of the service whatever it is asked to do.
//!
//! The core holds no clock and performs no input or output: the time of a
//! posting is an argument, and the state is a value that the caller keeps.

pub mod access;
pub mod article;
pub mod coherence;
pub mod error;
pub mod filters;
pub mod group;
pub mod header;
pub mod ident;
pub mod laws;
pub mod service;
pub mod text;

pub use access::{AccessControl, Operation};
pub use article::{Article, ArticleStore};
pub use error::{Error, ErrorKind};
pub use group::{Group, GroupIndex, OverviewRow, Snapshot};
pub use header::{Header, Headers};
pub use service::Service;
