//! What can go wrong while encoding and decoding.
use crate::tree::{ChunkNum, TreeNode};
use vstd::prelude::*;

verus! {

/// The kinds of failure of a read or a write that make a difference.
#[derive(Clone, Copy, Debug, PartialEq, Eq, Structural)]
pub enum IoError {
    /// The source ended before all the requested bytes were read.
    UnexpectedEof,
    /// The peer closed the connection.
    ConnectionReset,
    /// Any other failure.
    Other,
}

/// What can go wrong while encoding.
#[derive(Clone, Copy, Debug, PartialEq, Eq, Structural)]
pub enum EncodeError {
    /// The outboard does not have the hash pair of the node.
    ParentNotFound(TreeNode),
    /// The hash of the node's pair is not the expected one.
    ParentHashMismatch(TreeNode),
    /// The hash of the data from this chunk on is not the expected one.
    LeafHashMismatch(ChunkNum),
    /// The peer stopped reading while the node's pair was written.
    ParentWrite(TreeNode),
    /// The peer stopped reading while the data from this chunk on was written.
    LeafWrite(ChunkNum),
    /// Another read or write failed.
    Io(IoError),
}

impl EncodeError {
    /// What a failed write of a node's hash pair means.
    pub open spec fn parent_write(e: IoError, node: TreeNode) -> EncodeError {
        if e == IoError::ConnectionReset {
            EncodeError::ParentWrite(node)
        } else {
            EncodeError::Io(e)
        }
    }

    /// What a failed write of data means.
    pub open spec fn leaf_write(e: IoError, chunk: ChunkNum) -> EncodeError {
        if e == IoError::ConnectionReset {
            EncodeError::LeafWrite(chunk)
        } else {
            EncodeError::Io(e)
        }
    }

    /// The error for a failed write of a node's hash pair.
    pub fn maybe_parent_write(e: IoError, node: TreeNode) -> (res: EncodeError)
        ensures
            res == EncodeError::parent_write(e, node),
            e == IoError::ConnectionReset ==> res == EncodeError::ParentWrite(node),
            e != IoError::ConnectionReset ==> res == EncodeError::Io(e),
    {
        if e == IoError::ConnectionReset {
            EncodeError::ParentWrite(node)
        } else {
            EncodeError::Io(e)
        }
    }

    /// The error for a failed write of the data from `chunk` on.
    pub fn maybe_leaf_write(e: IoError, chunk: ChunkNum) -> (res: EncodeError)
        ensures
            res == EncodeError::leaf_write(e, chunk),
            e == IoError::ConnectionReset ==> res == EncodeError::LeafWrite(chunk),
            e != IoError::ConnectionReset ==> res == EncodeError::Io(e),
    {
        if e == IoError::ConnectionReset {
            EncodeError::LeafWrite(chunk)
        } else {
            EncodeError::Io(e)
        }
    }
}

/// What can go wrong while decoding.
#[derive(Clone, Copy, Debug, PartialEq, Eq, Structural)]
pub enum DecodeError {
    /// The stream ended where the hash pair of the node should be.
    ParentNotFound(TreeNode),
    /// The stream ended where the data from this chunk on should be.
    LeafNotFound(ChunkNum),
    /// The hash of the node's pair is not the expected one.
    ParentHashMismatch(TreeNode),
    /// The hash of the data from this chunk on is not the expected one.
    LeafHashMismatch(ChunkNum),
    /// Another read or write failed.
    Io(IoError),
}

impl DecodeError {
    /// What a failed read of a node's hash pair means.
    pub open spec fn parent_read(e: IoError, node: TreeNode) -> DecodeError {
        if e == IoError::UnexpectedEof {
            DecodeError::ParentNotFound(node)
        } else {
            DecodeError::Io(e)
        }
    }

    /// What a failed read of data means.
    pub open spec fn leaf_read(e: IoError, chunk: ChunkNum) -> DecodeError {
        if e == IoError::UnexpectedEof {
            DecodeError::LeafNotFound(chunk)
        } else {
            DecodeError::Io(e)
        }
    }

    /// The error for a failed read of a node's hash pair.
    pub fn maybe_parent_not_found(e: IoError, node: TreeNode) -> (res: DecodeError)
        ensures
            res == DecodeError::parent_read(e, node),
            e == IoError::UnexpectedEof ==> res == DecodeError::ParentNotFound(node),
            e != IoError::UnexpectedEof ==> res == DecodeError::Io(e),
    {
        if e == IoError::UnexpectedEof {
            DecodeError::ParentNotFound(node)
        } else {
            DecodeError::Io(e)
        }
    }

    /// The error for a failed read of the data from `chunk` on.
    pub fn maybe_leaf_not_found(e: IoError, chunk: ChunkNum) -> (res: DecodeError)
        ensures
            res == DecodeError::leaf_read(e, chunk),
            e == IoError::UnexpectedEof ==> res == DecodeError::LeafNotFound(chunk),
            e != IoError::UnexpectedEof ==> res == DecodeError::Io(e),
    {
        if e == IoError::UnexpectedEof {
            DecodeError::LeafNotFound(chunk)
        } else {
            DecodeError::Io(e)
        }
    }
}

} // verus!
