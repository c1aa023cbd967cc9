use bao_fsm::error::{DecodeError, EncodeError, IoError};
use bao_fsm::hash::{combine_hash_pair, parse_hash_pair, read_parent, Digest};
use bao_fsm::iter::{BaoChunk, NodeIter, RangesIter};
use bao_fsm::outboard::{post_order_byte_offset, pre_order_byte_offset};
use bao_fsm::ranges::ChunkRanges;
use bao_fsm::tree::{BaoTree, BlockSize, ChunkNum, TreeNode};

fn tree(size: u64, log: u8) -> BaoTree {
    BaoTree::new(size, BlockSize::from_chunk_log(log))
}

fn nodes(tree: BaoTree) -> Vec<u64> {
    let mut res = Vec::new();
    let mut iter = NodeIter::new(tree);
    while let Some(node) = iter.next() {
        res.push(node.0);
    }
    res
}

fn steps(mut iter: RangesIter) -> Vec<BaoChunk> {
    let mut res = Vec::new();
    while let Some(step) = iter.next() {
        res.push(step);
    }
    res
}

fn leaf(start: u64, size: u64, is_root: bool, full: bool) -> BaoChunk {
    BaoChunk::Leaf { start_chunk: ChunkNum(start), size, is_root, full }
}

fn parent(node: u64, is_root: bool, left: bool, right: bool) -> BaoChunk {
    BaoChunk::Parent { node: TreeNode(node), is_root, left, right }
}

#[test]
fn chunk_numbers() {
    assert_eq!(ChunkNum::chunks(0), ChunkNum(0));
    assert_eq!(ChunkNum::chunks(1), ChunkNum(1));
    assert_eq!(ChunkNum::chunks(1024), ChunkNum(1));
    assert_eq!(ChunkNum::chunks(1025), ChunkNum(2));
    assert_eq!(ChunkNum::full_chunks(1025), ChunkNum(1));
    assert_eq!(ChunkNum(3).to_bytes(), 3072);
}

#[test]
fn block_sizes() {
    assert_eq!(BlockSize::from_chunk_log(0).bytes(), 1024);
    assert_eq!(BlockSize::from_chunk_log(4).bytes(), 16384);
    assert_eq!(BlockSize::from_chunk_log(4).chunks(), 16);
}

#[test]
fn blocks_of_a_tree() {
    assert_eq!(tree(0, 0).blocks(), 1);
    assert_eq!(tree(1024, 0).blocks(), 1);
    assert_eq!(tree(5000, 0).blocks(), 5);
    assert_eq!(tree(5000, 1).blocks(), 3);
    assert_eq!(tree(5000, 3).blocks(), 1);
    assert_eq!(tree(5000, 0).size(), 5000);
    assert_eq!(tree(5000, 0).chunks(), ChunkNum(5));
    assert_eq!(tree(0, 0).total_chunks(), 1);
}

#[test]
fn nodes_come_in_pre_order() {
    assert_eq!(nodes(tree(5000, 0)), vec![3, 1, 0, 2]);
    assert_eq!(nodes(tree(5000, 1)), vec![3, 1]);
    assert_eq!(nodes(tree(5000, 3)), Vec::<u64>::new());
    assert_eq!(nodes(tree(0, 0)), Vec::<u64>::new());
}

#[test]
fn places_of_nodes() {
    let t = tree(5000, 0);
    for (i, n) in [3u64, 1, 0, 2].iter().enumerate() {
        assert_eq!(t.pre_order_offset(TreeNode(*n)), Some(i as u64));
        assert_eq!(pre_order_byte_offset(t, TreeNode(*n)), Some(64 * i as u64));
    }
    for (i, n) in [0u64, 2, 1, 3].iter().enumerate() {
        assert_eq!(t.post_order_offset(TreeNode(*n)), Some(i as u64));
        assert_eq!(post_order_byte_offset(t, TreeNode(*n)), Some(64 * i as u64));
    }
    assert_eq!(t.pre_order_offset(TreeNode(4)), None);
    assert_eq!(t.post_order_offset(TreeNode(4)), None);
    assert_eq!(tree(5000, 1).pre_order_offset(TreeNode(0)), None);
}

#[test]
fn walk_for_encoding_stops_at_groups() {
    let ranges = ChunkRanges::new(vec![1, 2]).unwrap();
    assert_eq!(
        steps(RangesIter::encode(tree(5000, 1), &ranges)),
        vec![
            parent(3, true, true, false),
            parent(1, false, true, false),
            leaf(0, 2048, false, false),
        ]
    );
    assert_eq!(
        steps(RangesIter::encode(tree(5000, 0), &ranges)),
        vec![
            parent(3, true, true, false),
            parent(1, false, true, false),
            parent(0, false, false, true),
            leaf(1, 1024, false, true),
        ]
    );
}

#[test]
fn walk_for_a_response_goes_into_groups() {
    let part = ChunkRanges::new(vec![1, 4]).unwrap();
    assert_eq!(
        steps(RangesIter::response(tree(5000, 1), &part)),
        vec![
            parent(3, true, true, false),
            parent(1, false, true, true),
            parent(0, false, false, true),
            leaf(1, 1024, false, true),
            leaf(2, 2048, false, true),
        ]
    );
}

#[test]
fn what_lies_behind_the_end_stands_for_the_last_chunk() {
    let beyond = ChunkRanges::new(vec![1000]).unwrap();
    assert_eq!(
        steps(RangesIter::encode(tree(5000, 0), &beyond)),
        vec![parent(3, true, false, true), leaf(4, 904, false, true)]
    );
    assert_eq!(steps(RangesIter::encode(tree(0, 0), &beyond)), vec![leaf(0, 0, true, true)]);
    assert_eq!(steps(RangesIter::encode(tree(5000, 0), &ChunkRanges::empty())), vec![]);
}

#[test]
fn sets_of_chunks() {
    assert!(ChunkRanges::new(vec![3, 3]).is_none());
    assert!(ChunkRanges::new(vec![4, 3]).is_none());
    let r = ChunkRanges::new(vec![2, 5, 8]).unwrap();
    assert!(r.intersects(0, 3));
    assert!(!r.intersects(0, 2));
    assert!(!r.intersects(5, 3));
    assert!(r.intersects(5, 4));
    assert!(r.covers(2, 3));
    assert!(!r.covers(2, 4));
    assert!(r.covers(100, 100));
    assert!(ChunkRanges::all().covers(0, 1000));
    assert!(!ChunkRanges::empty().intersects(0, 1000));
    let cut = r.truncated(4);
    assert!(cut.covers(2, 2));
    assert!(!cut.intersects(0, 2));
}

#[test]
fn hash_pairs_and_their_bytes() {
    let l = Digest([1u8; 32]);
    let r = Digest([2u8; 32]);
    let bytes = combine_hash_pair(&l, &r);
    assert_eq!(&bytes[..32], &[1u8; 32]);
    assert_eq!(&bytes[32..], &[2u8; 32]);
    assert_eq!(read_parent(&bytes), (l, r));
    assert_eq!(parse_hash_pair(&bytes), Ok((l, r)));
    assert_eq!(parse_hash_pair(&bytes[1..]), Err(IoError::UnexpectedEof));
    assert_eq!(parse_hash_pair(&[]), Err(IoError::UnexpectedEof));
    assert!(l.same(&Digest([1u8; 32])));
    assert!(!l.same(&r));
    assert_eq!(Digest::zero(), Digest([0u8; 32]));
}

#[test]
fn errors_of_writes_and_reads() {
    let node = TreeNode(3);
    let chunk = ChunkNum(4);
    assert_eq!(
        EncodeError::maybe_parent_write(IoError::ConnectionReset, node),
        EncodeError::ParentWrite(node)
    );
    assert_eq!(
        EncodeError::maybe_parent_write(IoError::Other, node),
        EncodeError::Io(IoError::Other)
    );
    assert_eq!(
        EncodeError::maybe_leaf_write(IoError::ConnectionReset, chunk),
        EncodeError::LeafWrite(chunk)
    );
    assert_eq!(
        EncodeError::maybe_leaf_write(IoError::UnexpectedEof, chunk),
        EncodeError::Io(IoError::UnexpectedEof)
    );
    assert_eq!(
        DecodeError::maybe_parent_not_found(IoError::UnexpectedEof, node),
        DecodeError::ParentNotFound(node)
    );
    assert_eq!(
        DecodeError::maybe_parent_not_found(IoError::ConnectionReset, node),
        DecodeError::Io(IoError::ConnectionReset)
    );
    assert_eq!(
        DecodeError::maybe_leaf_not_found(IoError::UnexpectedEof, chunk),
        DecodeError::LeafNotFound(chunk)
    );
    assert_eq!(
        DecodeError::maybe_leaf_not_found(IoError::Other, chunk),
        DecodeError::Io(IoError::Other)
    );
}
