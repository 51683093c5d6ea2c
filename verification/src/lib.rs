//! Disk-usage scanning: from the flat list of filesystem entries that a
//! traversal finds to a size-annotated tree, the totals, the messages by
//! which a scan reports both, and the state of the consumer that takes them.
//!
//! - [`location`]: paths as component lists.
//! - [`entry`]: the entries of a traversal and the totals over them.
//! - [`reduce`]: the order-independent sum on the worker pool.
//! - [`tree`]: the nodes of the result.
//! - [`aggregate`]: what the tree of a scan is, and the code that builds it.
//! - [`message`]: what a scan sends, and in which order.
//! - [`mailbox`]: the channel between a scan and its consumer.
//! - [`viewer`]: the consumer's state and its steps.
//! - [`members`], [`laws`], [`order`]: what holds of every tree.

pub mod aggregate;
pub mod entry;
pub mod laws;
pub mod location;
pub mod mailbox;
pub mod members;
pub mod message;
pub mod order;
pub mod reduce;
pub mod tree;
pub mod viewer;
