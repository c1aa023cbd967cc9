use bao_fsm::commp::CommpHasher;
use bao_fsm::content::BaoContentItem;
use bao_fsm::copy::copy;
use bao_fsm::create::{
    outboard, outboard_post_order, CreateOutboard, CreateStep, OutboardCreator,
};
use bao_fsm::decode::{decode_ranges, ResponseDecoder, ResponseDecoderNext};
use bao_fsm::encode::{
    encode_ranges, encode_ranges_validated, pair_to_write, ValidatedEncoder,
};
use bao_fsm::error::{DecodeError, EncodeError, IoError};
use bao_fsm::hash::{combine_hash_pair, Digest, Hasher};
use bao_fsm::iter::BaoChunk;
use bao_fsm::outboard::{Outboard, OutboardMut, PostOrderOutboard, PreOrderOutboard};
use bao_fsm::ranges::ChunkRanges;
use bao_fsm::tree::{BaoTree, BlockSize, ChunkNum, TreeNode};
use core::marker::PhantomData;
use vstd::prelude::{Seq, View};

/// A hasher that hashes groups of chunks as trees. The functions that only speak of hashes in
/// contracts are never called.
#[derive(Debug)]
struct TreeHasher;

impl Hasher for TreeHasher {
    const CHUNK_SIZE: usize = 1024;

    fn chunk_hash(_start_chunk: u64, _data: Seq<u8>, _is_root: bool) -> Digest {
        unreachable!()
    }

    fn inner_hash(_left: Digest, _right: Digest, _is_root: bool) -> Digest {
        unreachable!()
    }

    fn hash_chunk(start_chunk: u64, data: &[u8], is_root: bool) -> Digest {
        if data.len() <= 1024 {
            let mut input = data.to_vec();
            input.extend_from_slice(&start_chunk.to_le_bytes());
            input.push(is_root as u8);
            return CommpHasher::hash_chunk(0, &input, false);
        }
        let mut half: usize = 1024;
        while 2 * half < data.len() {
            half *= 2;
        }
        let mid = start_chunk + (half / 1024) as u64;
        let left = TreeHasher::hash_chunk(start_chunk, &data[..half], false);
        let right = TreeHasher::hash_chunk(mid, &data[half..], false);
        TreeHasher::hash_inner(&left, &right, is_root)
    }

    fn hash_inner(left_child: &Digest, right_child: &Digest, is_root: bool) -> Digest {
        let mut input = combine_hash_pair(left_child, right_child).to_vec();
        input.push(is_root as u8);
        CommpHasher::hash_chunk(0, &input, false)
    }
}

/// An outboard that has only some of the hash pairs, and fails where it is told to.
struct PartialOutboard {
    inner: PreOrderOutboard<TreeHasher>,
    missing: Option<TreeNode>,
    broken: Option<TreeNode>,
}

impl View for PartialOutboard {
    type V = ();

    fn view(&self) -> () {
        unreachable!()
    }
}

impl Outboard for PartialOutboard {
    type Hasher = TreeHasher;

    fn root_of(_st: ()) -> Digest {
        unreachable!()
    }

    fn tree_of(_st: ()) -> BaoTree {
        unreachable!()
    }

    fn load_from(_st: (), _node: TreeNode) -> Result<Option<(Digest, Digest)>, IoError> {
        unreachable!()
    }

    fn stored_in(_st: (), _node: TreeNode) -> bool {
        unreachable!()
    }

    fn stored(&mut self, node: TreeNode) -> bool {
        self.missing != Some(node) && self.inner.stored(node)
    }

    fn root(&self) -> Digest {
        self.inner.root
    }

    fn tree(&self) -> BaoTree {
        self.inner.tree
    }

    fn load(&mut self, node: TreeNode) -> Result<Option<(Digest, Digest)>, IoError> {
        if self.broken == Some(node) {
            return Err(IoError::Other);
        }
        if self.missing == Some(node) {
            return Ok(None);
        }
        self.inner.load(node)
    }
}

fn blob(size: usize) -> Vec<u8> {
    (0..size).map(|i| (i / 1024 * 17 + i % 253) as u8).collect()
}

fn created(data: &[u8], log: u8) -> PreOrderOutboard<TreeHasher> {
    PreOrderOutboard::create(data, BlockSize(log)).unwrap()
}

fn empty_post(root: Digest, tree: BaoTree) -> PostOrderOutboard<TreeHasher> {
    PostOrderOutboard { root, tree, data: Vec::new(), hasher: PhantomData }
}

fn empty_pre(root: Digest, tree: BaoTree) -> PreOrderOutboard<TreeHasher> {
    PreOrderOutboard { root, tree, data: Vec::new(), hasher: PhantomData }
}

fn chunk(data: &[u8], c: usize) -> Digest {
    let end = if 1024 * (c + 1) < data.len() { 1024 * (c + 1) } else { data.len() };
    TreeHasher::hash_chunk(c as u64, &data[1024 * c..end], false)
}

/// The hash pairs of the nodes 0 to 3 of a tree of five chunks.
fn five_pairs(data: &[u8]) -> Vec<(Digest, Digest)> {
    let c: Vec<Digest> = (0..5).map(|i| chunk(data, i)).collect();
    let n0 = TreeHasher::hash_inner(&c[0], &c[1], false);
    let n2 = TreeHasher::hash_inner(&c[2], &c[3], false);
    let n1 = TreeHasher::hash_inner(&n0, &n2, false);
    vec![(c[0], c[1]), (n0, n2), (c[2], c[3]), (n1, c[4])]
}

fn encoded(data: &[u8], log: u8, ranges: &ChunkRanges) -> Vec<u8> {
    let mut ob = created(data, log);
    let mut out = Vec::new();
    assert_eq!(encode_ranges_validated(data, &mut ob, ranges, &mut out), Ok(()));
    out
}

#[test]
fn outboard_has_root_and_pairs() {
    let data = blob(5000);
    let pairs = five_pairs(&data);
    let root = TreeHasher::hash_inner(&pairs[3].0, &pairs[3].1, true);
    let mut pre = created(&data, 0);
    assert_eq!(pre.root, root);
    let mut post: PostOrderOutboard<TreeHasher> =
        PostOrderOutboard::create(&data, BlockSize(0)).unwrap();
    assert_eq!(post.root, root);
    for n in 0..4u64 {
        assert_eq!(pre.load(TreeNode(n)), Ok(Some(pairs[n as usize])));
        assert_eq!(post.load(TreeNode(n)), Ok(Some(pairs[n as usize])));
    }
    assert_eq!(pre.load(TreeNode(4)), Ok(None));
    assert_eq!(post.load(TreeNode(4)), Ok(None));
    assert_eq!(pre.data.len(), 256);
    assert_eq!(&pre.data[..64], &combine_hash_pair(&pairs[3].0, &pairs[3].1)[..]);
    assert_eq!(&post.data[..64], &combine_hash_pair(&pairs[0].0, &pairs[0].1)[..]);
}

#[test]
fn root_does_not_depend_on_groups() {
    let data = blob(70_000);
    let root = created(&data, 0).root;
    for log in 1..8u8 {
        assert_eq!(created(&data, log).root, root);
    }
    assert_eq!(TreeHasher::hash_chunk(0, &data, true), root);
}

#[test]
fn post_order_outboard_is_a_stream() {
    for size in [0usize, 1, 1024, 1025, 5000, 20_000] {
        let data = blob(size);
        let tree = BaoTree::new(size as u64, BlockSize(0));
        let mut out = Vec::new();
        let root = outboard_post_order::<TreeHasher>(&data, tree, &mut out).unwrap();
        let mut store = empty_post(Digest::zero(), tree);
        assert_eq!(outboard(&data, tree, &mut store), Ok(root));
        assert_eq!(store.data, out);
        assert_eq!(store.sync(), Ok(()));
    }
}

#[test]
fn data_behind_the_size_is_not_read() {
    let data = blob(5000);
    let mut longer = data.clone();
    longer.push(1);
    let tree = BaoTree::new(5000, BlockSize(0));
    let mut a = Vec::new();
    let mut b = Vec::new();
    assert_eq!(
        outboard_post_order::<TreeHasher>(&data, tree, &mut a),
        outboard_post_order::<TreeHasher>(&longer, tree, &mut b)
    );
    assert_eq!(a, b);
    let sized: PreOrderOutboard<TreeHasher> =
        PreOrderOutboard::create_sized(&longer, 5000, BlockSize(0)).unwrap();
    assert_eq!(sized.root, created(&data, 0).root);
}

#[test]
fn short_data_fails() {
    let data = blob(4000);
    let tree = BaoTree::new(5000, BlockSize(0));
    let mut out = Vec::new();
    assert_eq!(
        outboard_post_order::<TreeHasher>(&data, tree, &mut out),
        Err(IoError::UnexpectedEof)
    );
    let res: Result<PreOrderOutboard<TreeHasher>, IoError> =
        PreOrderOutboard::create_sized(&data, 5000, BlockSize(0));
    assert!(matches!(res, Err(IoError::UnexpectedEof)));
    let whole = blob(5000);
    let mut ob = created(&whole, 0);
    let root = ob.root;
    assert_eq!(ob.init_from(&data), Err(IoError::UnexpectedEof));
    assert_eq!(ob.root, root);
}

#[test]
fn init_from_replaces_what_is_there() {
    let data = blob(5000);
    let mut ob = created(&data, 0);
    let mut other = data.clone();
    other[4500] ^= 1;
    assert_eq!(ob.init_from(&other), Ok(()));
    assert_eq!(ob.root, created(&other, 0).root);
    assert_eq!(ob.data, created(&other, 0).data);
}

#[test]
fn creator_asks_for_data_and_saves_in_post_order() {
    let data = blob(2500);
    let tree = BaoTree::new(2500, BlockSize(0));
    let mut creator: OutboardCreator<TreeHasher> = OutboardCreator::new(tree);
    let mut pos: usize = 0;
    let mut saved: Vec<u64> = Vec::new();
    let root = loop {
        match creator.next() {
            CreateStep::Read { size, .. } => {
                let end = pos + size as usize;
                creator.leaf(&data[pos..end]);
                pos = end;
            }
            CreateStep::Save { node, .. } => saved.push(node.0),
            CreateStep::Done(root) => break root,
        }
    };
    assert_eq!(pos, 2500);
    assert_eq!(saved, vec![0, 1]);
    assert_eq!(root, created(&data, 0).root);
}

#[test]
fn load_after_save() {
    let tree = BaoTree::new(5000, BlockSize(0));
    let pair = (Digest([1u8; 32]), Digest([2u8; 32]));
    let zero = (Digest::zero(), Digest::zero());
    let mut pre = empty_pre(Digest::zero(), tree);
    let mut post = empty_post(Digest::zero(), tree);
    assert_eq!(pre.save(TreeNode(2), &pair), Ok(()));
    assert_eq!(post.save(TreeNode(2), &pair), Ok(()));
    for n in [0u64, 1, 3] {
        assert_eq!(pre.load(TreeNode(n)), Ok(Some(zero)));
        assert_eq!(post.load(TreeNode(n)), Ok(Some(zero)));
    }
    assert_eq!(pre.load(TreeNode(2)), Ok(Some(pair)));
    assert_eq!(post.load(TreeNode(2)), Ok(Some(pair)));
    assert_eq!(pre.data.len(), 256);
    assert_eq!(post.data.len(), 128);
    assert_eq!(pre.save(TreeNode(9), &pair), Ok(()));
    assert_eq!(pre.data.len(), 256);
    assert_eq!(pre.load(TreeNode(9)), Ok(None));
}

#[test]
fn copy_between_orders() {
    let data = blob(20_000);
    let mut pre = created(&data, 1);
    let mut post = empty_post(pre.root, pre.tree);
    assert_eq!(copy(&mut pre, &mut post), Ok(()));
    let direct: PostOrderOutboard<TreeHasher> =
        PostOrderOutboard::create(&data, BlockSize(1)).unwrap();
    assert_eq!(post.data, direct.data);
    let mut back = empty_pre(pre.root, pre.tree);
    assert_eq!(copy(&mut post, &mut back), Ok(()));
    assert_eq!(back.data, pre.data);
}

#[test]
fn copy_within_an_order() {
    let data = blob(9000);
    let mut pre = created(&data, 0);
    let mut pre_copy = empty_pre(Digest::zero(), pre.tree);
    assert_eq!(copy(&mut pre, &mut pre_copy), Ok(()));
    assert_eq!(pre_copy.data, pre.data);
    assert_eq!(pre_copy.root, Digest::zero());
    let mut post: PostOrderOutboard<TreeHasher> =
        PostOrderOutboard::create(&data, BlockSize(0)).unwrap();
    let mut post_copy = empty_post(Digest::zero(), pre.tree);
    assert_eq!(copy(&mut post, &mut post_copy), Ok(()));
    assert_eq!(post_copy.data, post.data);
}

#[test]
fn save_keeps_other_pairs() {
    let data = blob(5000);
    let pairs = five_pairs(&data);
    let mut pre = created(&data, 0);
    let mut post: PostOrderOutboard<TreeHasher> =
        PostOrderOutboard::create(&data, BlockSize(0)).unwrap();
    let other = (Digest([7u8; 32]), Digest([8u8; 32]));
    assert_eq!(pre.save(TreeNode(1), &other), Ok(()));
    assert_eq!(post.save(TreeNode(1), &other), Ok(()));
    for n in 0..4u64 {
        let expected = if n == 1 { other } else { pairs[n as usize] };
        assert_eq!(pre.load(TreeNode(n)), Ok(Some(expected)));
        assert_eq!(post.load(TreeNode(n)), Ok(Some(expected)));
    }
}

#[test]
fn a_pair_that_is_cut_off_is_zero() {
    let data = blob(5000);
    let mut pre = created(&data, 0);
    pre.data.truncate(255);
    assert_eq!(pre.load(TreeNode(2)), Ok(Some((Digest::zero(), Digest::zero()))));
    assert_eq!(pre.load(TreeNode(0)), Ok(Some(five_pairs(&data)[0])));
}

#[test]
fn copy_skips_what_is_missing() {
    let data = blob(5000);
    let inner = created(&data, 0);
    let tree = inner.tree;
    let mut from = PartialOutboard { inner, missing: Some(TreeNode(1)), broken: None };
    let mut to = empty_pre(Digest::zero(), tree);
    assert_eq!(copy(&mut from, &mut to), Ok(()));
    assert_eq!(to.load(TreeNode(1)), Ok(Some((Digest::zero(), Digest::zero()))));
    assert_eq!(to.load(TreeNode(2)), Ok(Some(five_pairs(&data)[2])));
    from.broken = Some(TreeNode(0));
    assert_eq!(copy(&mut from, &mut to), Err(IoError::Other));
}

#[test]
fn response_for_one_chunk() {
    let data = blob(5000);
    let pairs = five_pairs(&data);
    let out = encoded(&data, 0, &ChunkRanges::new(vec![2, 3]).unwrap());
    let mut expected = Vec::new();
    for n in [3usize, 1, 2] {
        expected.extend_from_slice(&combine_hash_pair(&pairs[n].0, &pairs[n].1));
    }
    expected.extend_from_slice(&data[2048..3072]);
    assert_eq!(out, expected);
}

#[test]
fn response_for_a_part_of_a_group() {
    let data = blob(5000);
    let pairs = five_pairs(&data);
    let ranges = ChunkRanges::new(vec![2, 3]).unwrap();
    let by_chunk = encoded(&data, 0, &ranges);
    assert_eq!(encoded(&data, 1, &ranges), by_chunk);
    assert_eq!(encoded(&data, 4, &ranges), by_chunk);
    let whole = ChunkRanges::new(vec![2, 4]).unwrap();
    let mut expected = Vec::new();
    for n in [3usize, 1] {
        expected.extend_from_slice(&combine_hash_pair(&pairs[n].0, &pairs[n].1));
    }
    expected.extend_from_slice(&data[2048..4096]);
    assert_eq!(encoded(&data, 1, &whole), expected);
}

#[test]
fn empty_query_and_empty_blob() {
    let data = blob(5000);
    assert_eq!(encoded(&data, 0, &ChunkRanges::empty()), Vec::<u8>::new());
    assert_eq!(encoded(&[], 0, &ChunkRanges::all()), Vec::<u8>::new());
    let ob = created(&[], 0);
    let mut target = Vec::new();
    let mut to = empty_pre(ob.root, ob.tree);
    assert_eq!(decode_ranges(&[], &ChunkRanges::all(), &mut target, &mut to), Ok(()));
    assert_eq!(target, Vec::<u8>::new());
}

#[test]
fn roundtrip() {
    for size in [1usize, 1024, 1025, 5000, 17_000] {
        let data = blob(size);
        for log in 0..4u8 {
            let ob = created(&data, log);
            let queries =
                [vec![0u64], vec![0, 1], vec![1, 3], vec![2, 3, 9, 12], vec![7], vec![4000]];
            for query in queries {
                let ranges = ChunkRanges::new(query).unwrap();
                let response = encoded(&data, log, &ranges);
                let selected = ranges.truncated(ob.tree.total_chunks());
                let mut pre = empty_pre(ob.root, ob.tree);
                let mut post = empty_post(ob.root, ob.tree);
                let mut target = vec![0xaau8; 10];
                let mut other = vec![0xaau8; 10];
                assert_eq!(decode_ranges(&response, &ranges, &mut target, &mut pre), Ok(()));
                assert_eq!(decode_ranges(&response, &ranges, &mut other, &mut post), Ok(()));
                assert_eq!(target, other);
                for i in 0..target.len() {
                    if i < size && selected.intersects(i as u64 / 1024, 1) {
                        assert_eq!(target[i], data[i]);
                    } else {
                        assert_eq!(target[i], if i < 10 { 0xaa } else { 0 });
                    }
                }
                for i in target.len()..size {
                    assert!(!selected.intersects(i as u64 / 1024, 1));
                }
            }
        }
    }
}

#[test]
fn what_was_received_can_be_sent_on() {
    let data = blob(17_000);
    let ob = created(&data, 1);
    let ranges = ChunkRanges::new(vec![2, 4, 8, 10]).unwrap();
    let response = encoded(&data, 1, &ranges);
    let mut target = Vec::new();
    let mut mine = empty_post(ob.root, ob.tree);
    assert_eq!(decode_ranges(&response, &ranges, &mut target, &mut mine), Ok(()));
    let mut again = Vec::new();
    assert_eq!(encode_ranges_validated(&target, &mut mine, &ranges, &mut again), Ok(()));
    assert_eq!(again, response);
    let mut unchecked = Vec::new();
    assert_eq!(encode_ranges(&target, &mut mine, &ranges, &mut unchecked), Ok(()));
    assert_eq!(unchecked, response);
}

#[test]
fn encoding_without_validation_writes_whole_groups() {
    let data = blob(5000);
    let pairs = five_pairs(&data);
    let mut ob = created(&data, 1);
    let mut out = vec![5u8];
    let ranges = ChunkRanges::new(vec![2, 3]).unwrap();
    assert_eq!(encode_ranges(&data, &mut ob, &ranges, &mut out), Ok(()));
    let mut expected = vec![5u8];
    for n in [3usize, 1] {
        expected.extend_from_slice(&combine_hash_pair(&pairs[n].0, &pairs[n].1));
    }
    expected.extend_from_slice(&data[2048..4096]);
    assert_eq!(out, expected);
}

#[test]
fn encoding_fails_at_what_is_missing() {
    let data = blob(5000);
    let all = ChunkRanges::all();
    let mut ob =
        PartialOutboard { inner: created(&data, 0), missing: Some(TreeNode(2)), broken: None };
    let mut out = Vec::new();
    let lost = EncodeError::ParentNotFound(TreeNode(2));
    assert_eq!(encode_ranges(&data, &mut ob, &all, &mut out), Err(lost));
    assert_eq!(out.len(), 3 * 64 + 2 * 1024);
    let mut out = Vec::new();
    assert_eq!(encode_ranges_validated(&data, &mut ob, &all, &mut out), Err(lost));
    assert_eq!(out.len(), 3 * 64 + 2 * 1024);
    ob.missing = None;
    ob.broken = Some(TreeNode(1));
    let mut out = Vec::new();
    let broken = EncodeError::Io(IoError::Other);
    assert_eq!(encode_ranges_validated(&data, &mut ob, &all, &mut out), Err(broken));
    assert_eq!(out.len(), 64);
    ob.broken = None;
    let mut out = Vec::new();
    let short = EncodeError::Io(IoError::UnexpectedEof);
    assert_eq!(encode_ranges(&data[..4999], &mut ob, &all, &mut out), Err(short));
    assert_eq!(out.len(), 4 * 64 + 4096);
    let first = ChunkRanges::new(vec![0, 4]).unwrap();
    let mut out = Vec::new();
    assert_eq!(encode_ranges_validated(&data[..4096], &mut ob, &first, &mut out), Ok(()));
}

#[test]
fn encoding_fails_where_the_outboard_ends() {
    let data = blob(5000);
    let all = ChunkRanges::all();
    let mut pre = created(&data, 0);
    pre.data.truncate(3 * 64 + 63);
    assert!(pre.stored(TreeNode(0)));
    assert!(!pre.stored(TreeNode(2)));
    assert!(!pre.stored(TreeNode(4)));
    let mut out = vec![9u8];
    assert_eq!(
        encode_ranges(&data, &mut pre, &all, &mut out),
        Err(EncodeError::ParentNotFound(TreeNode(2)))
    );
    assert_eq!(out.len(), 1 + 3 * 64 + 2048);
    assert_eq!(out[1..], encoded(&data, 0, &all)[..3 * 64 + 2048]);
    let first = ChunkRanges::new(vec![0, 2]).unwrap();
    let mut out = Vec::new();
    assert_eq!(encode_ranges(&data, &mut pre, &first, &mut out), Ok(()));
    let mut out = Vec::new();
    assert_eq!(
        encode_ranges_validated(&data, &mut pre, &all, &mut out),
        Err(EncodeError::ParentHashMismatch(TreeNode(2)))
    );
    assert_eq!(out.len(), 3 * 64 + 2048);
    let two = blob(2000);
    let mut empty = empty_post(Digest::zero(), BaoTree::new(2000, BlockSize(0)));
    let mut out = Vec::new();
    assert_eq!(
        encode_ranges(&two, &mut empty, &all, &mut out),
        Err(EncodeError::ParentNotFound(TreeNode(0)))
    );
    assert_eq!(out, Vec::<u8>::new());
    let zero = (Digest::zero(), Digest::zero());
    assert_eq!(empty.load(TreeNode(0)), Ok(Some(zero)));
    assert_eq!(empty.save(TreeNode(0), &zero), Ok(()));
    assert!(empty.stored(TreeNode(0)));
    assert_eq!(encode_ranges(&two, &mut empty, &all, &mut out), Ok(()));
    assert_eq!(out.len(), 64 + 2000);
}

#[test]
fn what_passes_validation_is_decoded() {
    // the hash pair of the left half is missing, so that no blob is known for the root hash
    let data = blob(5000);
    let mut ob = created(&data, 0);
    ob.data.truncate(64);
    let last = ChunkRanges::new(vec![4]).unwrap();
    let mut holes = vec![0u8; 5000];
    holes[4096..].copy_from_slice(&data[4096..]);
    let mut out = Vec::new();
    assert_eq!(encode_ranges_validated(&holes, &mut ob, &last, &mut out), Ok(()));
    let mut target = Vec::new();
    let mut to = empty_post(ob.root, ob.tree);
    assert_eq!(decode_ranges(&out, &last, &mut target, &mut to), Ok(()));
    assert_eq!(target[4096..], data[4096..]);
    assert_eq!(to.load(TreeNode(3)), ob.load(TreeNode(3)));
}

#[test]
fn leaves_of_a_response_ascend() {
    let data = blob(17_000);
    let ranges = ChunkRanges::new(vec![1, 3, 4, 9, 12]).unwrap();
    let ob = created(&data, 1);
    let response = encoded(&data, 1, &ranges);
    let mut decoder: ResponseDecoder<(), TreeHasher> =
        ResponseDecoder::new(ob.root, &ranges, ob.tree, ());
    let mut pos: usize = 0;
    let mut end: u64 = 0;
    let mut chunks: Vec<u64> = Vec::new();
    while let Some(size) = decoder.want() {
        let read = response[pos..pos + size as usize].to_vec();
        pos += size as usize;
        match decoder.next(Ok(read)) {
            ResponseDecoderNext::Done(_) => panic!("more was wanted"),
            ResponseDecoderNext::More((next, item)) => {
                if let BaoContentItem::Leaf(l) = item.unwrap() {
                    assert!(l.offset >= end);
                    end = l.offset + l.data.len() as u64;
                    for c in l.offset / 1024..(end + 1023) / 1024 {
                        chunks.push(c);
                    }
                }
                decoder = next;
            }
        }
    }
    assert_eq!(pos, response.len());
    assert_eq!(end, 17_000);
    assert_eq!(chunks, vec![1, 2, 4, 5, 6, 7, 8, 12, 13, 14, 15, 16]);
}

#[test]
fn encoding_validates_before_it_writes() {
    let data = blob(5000);
    let mut bad = data.clone();
    bad[3000] ^= 1;
    let mut ob = created(&data, 0);
    let all = ChunkRanges::all();
    let mut out = Vec::new();
    assert_eq!(
        encode_ranges_validated(&bad, &mut ob, &all, &mut out),
        Err(EncodeError::LeafHashMismatch(ChunkNum(2)))
    );
    let good = encoded(&data, 0, &all);
    assert_eq!(out[..], good[..out.len()]);
    assert_eq!(out.len(), 4 * 64 + 2048);
    ob.data[70] ^= 1;
    let mut out = Vec::new();
    assert_eq!(
        encode_ranges_validated(&data, &mut ob, &all, &mut out),
        Err(EncodeError::ParentHashMismatch(TreeNode(1)))
    );
    assert_eq!(out.len(), 64);
}

#[test]
fn encoding_a_part_of_a_group_needs_a_hasher_for_trees() {
    let data = blob(5000);
    let mut ob: PreOrderOutboard<CommpHasher> =
        PreOrderOutboard::create(&data, BlockSize(1)).unwrap();
    let mut out = Vec::new();
    let part = ChunkRanges::new(vec![2, 3]).unwrap();
    assert_eq!(
        encode_ranges_validated(&data, &mut ob, &part, &mut out),
        Err(EncodeError::LeafHashMismatch(ChunkNum(2)))
    );
    let whole = ChunkRanges::new(vec![2, 4]).unwrap();
    let mut out = Vec::new();
    assert_eq!(encode_ranges_validated(&data, &mut ob, &whole, &mut out), Ok(()));
}

#[test]
fn validated_encoder_says_what_to_read() {
    let data = blob(2000);
    let ob = created(&data, 0);
    let mut encoder: ValidatedEncoder<TreeHasher> =
        ValidatedEncoder::new(ob.root, ob.tree, &ChunkRanges::new(vec![1]).unwrap());
    let pair = (chunk(&data, 0), chunk(&data, 1));
    assert_eq!(
        encoder.want(),
        Some(BaoChunk::Parent { node: TreeNode(0), is_root: true, left: false, right: true })
    );
    assert_eq!(encoder.supply_pair(Some(pair)), Ok(combine_hash_pair(&pair.0, &pair.1)));
    assert_eq!(
        encoder.want(),
        Some(BaoChunk::Leaf { start_chunk: ChunkNum(1), size: 976, is_root: false, full: true })
    );
    assert_eq!(encoder.supply_data(&data[1024..]), Ok(data[1024..].to_vec()));
    assert_eq!(encoder.want(), None);
}

#[test]
fn decoding_fails_at_the_end_of_the_response() {
    let data = blob(5000);
    let ob = created(&data, 0);
    let all = ChunkRanges::all();
    let response = encoded(&data, 0, &all);
    let cases = [
        (0usize, DecodeError::ParentNotFound(TreeNode(3))),
        (63, DecodeError::ParentNotFound(TreeNode(3))),
        (64, DecodeError::ParentNotFound(TreeNode(1))),
        (192, DecodeError::LeafNotFound(ChunkNum(0))),
        (response.len() - 1, DecodeError::LeafNotFound(ChunkNum(4))),
    ];
    for (len, error) in cases {
        let mut target = Vec::new();
        let mut to = empty_pre(ob.root, ob.tree);
        assert_eq!(decode_ranges(&response[..len], &all, &mut target, &mut to), Err(error));
        assert_eq!(target[..], data[..target.len()]);
    }
}

#[test]
fn decoding_rejects_what_does_not_match() {
    let data = blob(5000);
    let ob = created(&data, 0);
    let all = ChunkRanges::all();
    let response = encoded(&data, 0, &all);
    let cases = [
        (0usize, DecodeError::ParentHashMismatch(TreeNode(3)), 0usize),
        (130, DecodeError::ParentHashMismatch(TreeNode(0)), 0),
        (192 + 5, DecodeError::LeafHashMismatch(ChunkNum(0)), 0),
        (192 + 1024, DecodeError::LeafHashMismatch(ChunkNum(1)), 1024),
        (response.len() - 1, DecodeError::LeafHashMismatch(ChunkNum(4)), 4096),
    ];
    for (at, error, kept) in cases {
        let mut bad = response.clone();
        bad[at] ^= 0x80;
        let mut target = Vec::new();
        let mut to = empty_pre(ob.root, ob.tree);
        assert_eq!(decode_ranges(&bad, &all, &mut target, &mut to), Err(error));
        assert_eq!(target[..], data[..kept]);
    }
}

#[test]
fn decoding_does_not_read_on() {
    let data = blob(3000);
    let ob = created(&data, 0);
    let all = ChunkRanges::all();
    let mut response = encoded(&data, 0, &all);
    response.extend_from_slice(b"more");
    let mut target = Vec::new();
    let mut to = empty_pre(ob.root, ob.tree);
    assert_eq!(decode_ranges(&response, &all, &mut target, &mut to), Ok(()));
    assert_eq!(target, data);
    assert_eq!(to.data, ob.data);
}

#[test]
fn decoder_gives_items_one_by_one() {
    let data = blob(2000);
    let ob = created(&data, 0);
    let all = ChunkRanges::all();
    let response = encoded(&data, 0, &all);
    let mut decoder: ResponseDecoder<u8, TreeHasher> =
        ResponseDecoder::new(ob.root, &all, ob.tree, 7);
    assert_eq!(decoder.tree(), ob.tree);
    assert_eq!(*decoder.hash(), ob.root);
    let mut pos: usize = 0;
    let mut seen: Vec<(u64, usize)> = Vec::new();
    let reader = loop {
        let size = match decoder.want() {
            Some(size) => size as usize,
            None => 0,
        };
        *decoder.encoded() += 1;
        let read = response[pos..pos + size].to_vec();
        pos += size;
        match decoder.next(Ok(read)) {
            ResponseDecoderNext::Done(reader) => break reader,
            ResponseDecoderNext::More((next, item)) => {
                decoder = next;
                match item.unwrap() {
                    BaoContentItem::Parent(p) => seen.push((p.node.0, 64)),
                    BaoContentItem::Leaf(l) => seen.push((l.offset, l.data.len())),
                }
                assert_eq!(*decoder.hash(), ob.root);
            }
        }
    };
    assert_eq!(seen, vec![(0, 64), (0, 1024), (1024, 976)]);
    assert_eq!(reader, 11);
    let unread: ResponseDecoder<u8, TreeHasher> = ResponseDecoder::new(ob.root, &all, ob.tree, 9);
    assert_eq!(unread.finish(), 9);
}

#[test]
fn decoder_passes_on_failed_reads() {
    let data = blob(2000);
    let ob = created(&data, 0);
    let all = ChunkRanges::all();
    let reads = [
        (Err(IoError::ConnectionReset), DecodeError::Io(IoError::ConnectionReset)),
        (Err(IoError::UnexpectedEof), DecodeError::ParentNotFound(TreeNode(0))),
        (Ok(vec![0u8; 10]), DecodeError::ParentNotFound(TreeNode(0))),
    ];
    for (read, error) in reads {
        let decoder: ResponseDecoder<(), TreeHasher> =
            ResponseDecoder::new(ob.root, &all, ob.tree, ());
        match decoder.next(read) {
            ResponseDecoderNext::Done(_) => panic!("the response is not done"),
            ResponseDecoderNext::More((_, item)) => assert_eq!(item.unwrap_err(), error),
        }
    }
}

fn step<R>(
    decoder: ResponseDecoder<R, TreeHasher>,
    read: Result<Vec<u8>, IoError>,
) -> (ResponseDecoder<R, TreeHasher>, Result<BaoContentItem, DecodeError>) {
    match decoder.next(read) {
        ResponseDecoderNext::Done(_) => panic!("the response is done"),
        ResponseDecoderNext::More(res) => res,
    }
}

#[test]
fn decoding_goes_on_after_a_mismatch() {
    let data = blob(2000);
    let ob = created(&data, 0);
    let all = ChunkRanges::all();
    let good = chunk(&data, 0);
    let wrong = Digest([3u8; 32]);
    let pair = combine_hash_pair(&good, &wrong).to_vec();
    let decoder: ResponseDecoder<(), TreeHasher> =
        ResponseDecoder::new(ob.root, &all, ob.tree, ());
    let (decoder, item) = step(decoder, Ok(pair));
    assert_eq!(item.unwrap_err(), DecodeError::ParentHashMismatch(TreeNode(0)));
    assert_eq!(*decoder.hash(), ob.root);
    let (decoder, item) = step(decoder, Ok(data[..1024].to_vec()));
    match item {
        Ok(BaoContentItem::Leaf(l)) => assert_eq!(l.data, data[..1024]),
        _ => panic!("the left data has the left hash"),
    }
    let (decoder, item) = step(decoder, Ok(data[1024..].to_vec()));
    assert_eq!(item.unwrap_err(), DecodeError::LeafHashMismatch(ChunkNum(1)));
    assert!(matches!(decoder.next(Ok(vec![])), ResponseDecoderNext::Done(())));
}

#[test]
fn decoding_goes_on_after_a_failed_read() {
    let data = blob(2000);
    let ob = created(&data, 0);
    let all = ChunkRanges::all();
    let decoder: ResponseDecoder<(), TreeHasher> =
        ResponseDecoder::new(ob.root, &all, ob.tree, ());
    let (decoder, item) = step(decoder, Err(IoError::Other));
    assert_eq!(item.unwrap_err(), DecodeError::Io(IoError::Other));
    let (decoder, item) = step(decoder, Ok(data[..1024].to_vec()));
    assert_eq!(item.unwrap_err(), DecodeError::LeafHashMismatch(ChunkNum(0)));
    // no hash is expected any more
    let (decoder, item) = step(decoder, Ok(data[1024..].to_vec()));
    assert_eq!(item.unwrap_err(), DecodeError::LeafHashMismatch(ChunkNum(1)));
    assert!(matches!(decoder.next(Ok(vec![])), ResponseDecoderNext::Done(())));
    let first = ChunkRanges::new(vec![0, 1]).unwrap();
    let decoder: ResponseDecoder<(), TreeHasher> =
        ResponseDecoder::new(ob.root, &first, ob.tree, ());
    let (decoder, item) = step(decoder, Err(IoError::UnexpectedEof));
    assert_eq!(item.unwrap_err(), DecodeError::ParentNotFound(TreeNode(0)));
    let (decoder, item) = step(decoder, Err(IoError::UnexpectedEof));
    assert_eq!(item.unwrap_err(), DecodeError::LeafNotFound(ChunkNum(0)));
    assert!(matches!(decoder.next(Ok(vec![])), ResponseDecoderNext::Done(())));
}

#[test]
fn a_pair_is_written_if_it_is_loaded_and_stored() {
    let node = TreeNode(5);
    let pair = (Digest([1u8; 32]), Digest([2u8; 32]));
    let lost = Err(EncodeError::ParentNotFound(node));
    assert_eq!(pair_to_write(node, Some(pair), true), Ok(combine_hash_pair(&pair.0, &pair.1)));
    assert_eq!(pair_to_write(node, Some(pair), false), lost);
    assert_eq!(pair_to_write(node, None, true), lost);
    assert_eq!(pair_to_write(node, None, false), lost);
}

#[test]
fn part_of_a_group_with_hashes_down_to_chunks() {
    let data = blob(4096);
    let by_chunk: PreOrderOutboard<CommpHasher> =
        PreOrderOutboard::create(&data, BlockSize(0)).unwrap();
    let tree = BaoTree::new(4096, BlockSize(1));
    let mut ob: PreOrderOutboard<CommpHasher> = PreOrderOutboard {
        root: by_chunk.root,
        tree,
        data: by_chunk.data[..64].to_vec(),
        hasher: PhantomData,
    };
    let ranges = ChunkRanges::new(vec![2, 3]).unwrap();
    let mut out = Vec::new();
    assert_eq!(encode_ranges_validated(&data, &mut ob, &ranges, &mut out), Ok(()));
    let mut to: PostOrderOutboard<CommpHasher> =
        PostOrderOutboard { root: ob.root, tree, data: Vec::new(), hasher: PhantomData };
    let mut target = Vec::new();
    assert_eq!(decode_ranges(&out, &ranges, &mut target, &mut to), Ok(()));
    assert_eq!(target[2048..3072], data[2048..3072]);
    assert_eq!(to.load(TreeNode(1)), ob.load(TreeNode(1)));
}

#[test]
fn decoding_deep_trees_needs_a_long_stack() {
    let data = blob(40 * 1024);
    let ob = created(&data, 0);
    let last = ChunkRanges::new(vec![0, 1, 39]).unwrap();
    let response = encoded(&data, 0, &last);
    let mut target = Vec::new();
    let mut to = empty_pre(ob.root, ob.tree);
    assert_eq!(decode_ranges(&response, &last, &mut target, &mut to), Ok(()));
    assert_eq!(target[..1024], data[..1024]);
    assert_eq!(target[39 * 1024..], data[39 * 1024..]);
}
