//! Verified streaming of blobs.
//!
//! A blob is cut into chunks of 1024 bytes, and a binary tree of hashes is put over them. Its root
//! hash names the blob. Whoever has the blob and its outboard, the hashes of the tree, can send any
//! chunks of it together with the hashes on the way to them, so that a receiver who knows only the
//! root hash can check every piece as it comes in.
//!
//! Reading and writing are kept out of the logic. Encoding ([`encode`]), decoding ([`decode`]), the
//! computation of outboards ([`create`]) and validation ([`validate`]) are state machines that say
//! what to read next and take what was read; for data in memory there are functions that run them
//! to the end. [`outboard`] holds the traits for outboards and two outboards in memory, [`tree`],
//! [`geometry`] and [`iter`] the shape of the tree and the walks over it, and [`laws`] what holds
//! of all this together.
//!
//! [`commp`] and [`padding`] compute the outboards of piece commitments.
pub mod commp;
pub mod content;
pub mod copy;
pub mod create;
pub mod decode;
pub mod encode;
pub mod error;
pub mod geometry;
pub mod hash;
pub mod iter;
pub mod laws;
pub mod outboard;
pub mod padding;
pub mod ranges;
pub mod select;
pub mod stack;
pub mod tree;
pub mod validate;
