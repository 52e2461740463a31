//! An in-memory longest-prefix-match store for IP prefixes, organised as a
//! tree bitmap: a multi-bit trie whose nodes record the presence of child
//! nodes and of prefixes in two bitmaps.
//!
//! The store of one address family is a [`tree::TreeBitMap`]; a
//! [`store::Store`] holds one for each family. The prefixes of a store are
//! spoken of as paths ([`path::Path`]): the view of a store is the map from
//! the paths of its prefixes to their metadata, and [`model`] says over such
//! maps what every query returns. What holds whatever is in a store is
//! stated in [`laws`].

pub mod af;
pub mod buckets;
pub mod consistency;
pub mod direct;
pub mod epoch;
pub mod errors;
pub mod laws;
pub mod levels;
pub mod meta_examples;
pub mod model;
pub mod more_specifics;
pub mod node;
pub mod node_id;
pub mod options;
pub mod path;
pub mod prefix_record;
pub mod query;
pub mod stats;
pub mod storage;
pub mod store;
pub mod stride;
pub mod tree;
