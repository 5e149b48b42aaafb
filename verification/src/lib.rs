//! Posting lists of a full-text index: a sorted list of document ids that
//! grows while the index is built, its bit-packed read-only form, and a
//! cursor over that form for probes that arrive in increasing order.

pub mod codec;
pub mod compressed;
pub mod layout;
pub mod mutable;
pub mod packing;
pub mod sorted;
pub mod visitor;

pub use crate::compressed::CompressedPostingList;
pub use crate::layout::CompressedPostingChunk;
pub use crate::mutable::{PointOffsetType, PostingList};
pub use crate::visitor::CompressedPostingVisitor;
