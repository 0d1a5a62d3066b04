//! Routing-table core of a Kademlia-style distributed hash table node.
//!
//! The table keeps the set of known peer identifiers, organized into
//! contiguous key-space partitions ("buckets") of bounded size.  Inserting a
//! newly observed peer either records it in the bucket owning its identifier,
//! refines the partition around the local node's own identifier by splitting
//! that bucket, or drops the peer when a far bucket is already full.

pub mod bucket;
pub mod key;
pub mod node;
pub mod table;
