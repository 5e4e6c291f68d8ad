//! A minimal content-addressed version-control object store: loose objects,
//! tree and commit bodies, pkt-line framing, and the packfile decoder used by
//! a smart-HTTP clone.

pub mod encoding;
pub mod err;
pub mod commit;
pub mod object;
pub mod pack;
pub mod pkt;
pub mod refs;
pub mod sha;
pub mod tree;
pub mod zlib;

pub use err::GitError;
pub use object::{Object, ObjectKind};
pub use pack::{PackEntry, Packet};
pub use refs::RefItem;
pub use commit::CommitLink;
pub use pkt::{PacketLine, PacketLineBuilder, PacketLineIterator};
pub use tree::{Node, NodeKind, Tree};
