//! Traversal of ActivityPub-style outbox collections.
//!
//! An outbox is the root of a federated object graph: a collection whose
//! entries are activities, each present either inline or as a link that must
//! be resolved (fetched) before it can be inspected.  This crate walks such a
//! graph under a caller-given item budget and exposes typed views over the
//! resolved nodes (activities, items, attachments).

pub mod model;
pub mod node;
pub mod outbox;
pub mod views;

pub use node::LinkResolver;
pub use node::Node;
pub use node::NodeRef;
pub use node::ResolveError;
pub use outbox::Outbox;
pub use views::Activity;
pub use views::Attachment;
pub use views::Item;
