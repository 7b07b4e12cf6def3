//! A peer-to-peer content-addressed storage overlay: each node owns a
//! cryptographic identity, keeps a bounded routing table of peers bucketed by
//! XOR distance, and cooperates with its peers to locate, upload and download
//! data addressed by content digest.
//!
//! The transport that carries messages between nodes is abstract: the node
//! logic is written against the [`node::Backend`] trait, and a concrete
//! transport (HTTP, in-process, a test double) implements it outside this
//! library.

pub mod identity;
pub mod node;
pub mod routing;
pub mod store;
pub mod tag;

pub use crate::identity::{PrivateId, PublicId};
pub use crate::node::Node;
pub use crate::tag::Tag;
