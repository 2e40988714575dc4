//! Zero-copy, bounds-checked decoder for Flattened Device Tree blobs.
pub mod devtree;
pub mod error;
pub mod format;
pub mod node;
pub mod property;

pub use devtree::{DevTree, DevTreeHeader, MemReservation, MemReservations};
pub use error::DtError;
pub use node::{ChildNodeIterator, DevTreeNode, NodeIterator, PropertyIterator};
pub use property::Property;
