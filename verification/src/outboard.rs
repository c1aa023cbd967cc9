//! Outboards: where the hash pairs of a tree are kept.
use crate::content::{write_at, write_over};
use crate::error::IoError;
use crate::geometry::{lemma_groups_one, lemma_post_order, lemma_pre_order};
use crate::hash::{
    combine_hash_pair, pair_bytes, pair_of, parse_hash_pair, zero_hash, Digest, Hasher,
};
use crate::tree::{lemma_group, BaoTree, BlockSize, TreeNode};
use core::marker::PhantomData;
use vstd::prelude::*;
use vstd::slice::slice_subrange;

verus! {

/// A binary merkle tree over a blob: its geometry, its root hash, and a way to load the hash pair
/// of a node.
///
/// It is up to the implementor how the hashes are stored. `PreOrderOutboard` and
/// `PostOrderOutboard` keep them in memory, in pre order and in post order. What an outboard
/// answers is a function of its view.
pub trait Outboard: View + Sized {
    /// The hasher that is used.
    type Hasher: Hasher;

    /// The root hash in this state.
    spec fn root_of(st: Self::V) -> Digest;

    /// The tree in this state.
    spec fn tree_of(st: Self::V) -> BaoTree;

    /// What loading the hash pair of a node gives in this state.
    spec fn load_from(st: Self::V, node: TreeNode) -> Result<Option<(Digest, Digest)>, IoError>;

    /// The outboard has the hash pair of a node in this state. A load may answer for a node that
    /// it does not have.
    spec fn stored_in(st: Self::V, node: TreeNode) -> bool;

    /// The root hash.
    fn root(&self) -> (res: Digest)
        ensures
            res == Self::root_of(self@),
    ;

    /// The tree: the size of the blob and the block size.
    fn tree(&self) -> (res: BaoTree)
        ensures
            res == Self::tree_of(self@),
    ;

    /// Loads the hash pair of a node.
    ///
    /// This takes `&mut self` not because it changes the outboard, but so that there is only one
    /// load at a time.
    fn load(&mut self, node: TreeNode) -> (res: Result<Option<(Digest, Digest)>, IoError>)
        requires
            Self::tree_of(old(self)@).wf(),
        ensures
            res == Self::load_from(old(self)@, node),
            final(self)@ == old(self)@,
    ;

    /// Says whether the outboard has the hash pair of a node. It takes `&mut self` as `load` does.
    fn stored(&mut self, node: TreeNode) -> (res: bool)
        requires
            Self::tree_of(old(self)@).wf(),
        ensures
            res == Self::stored_in(old(self)@, node),
            final(self)@ == old(self)@,
    ;
}

/// An outboard that hash pairs can be saved to, one at a time, while data is received.
pub trait OutboardMut: View + Sized {
    /// The hasher that is used.
    type Hasher: Hasher;

    /// Hash pairs can be saved in this state.
    spec fn can_save(st: Self::V) -> bool;

    /// What saving the hash pair of a node does in this state, and what it returns.
    spec fn saved(st: Self::V, node: TreeNode, pair: (Digest, Digest)) -> (
        Self::V,
        Result<(), IoError>,
    );

    /// What a sync does in this state, and what it returns.
    spec fn synced(st: Self::V) -> (Self::V, Result<(), IoError>);

    /// Saves the hash pair of a node.
    fn save(&mut self, node: TreeNode, hash_pair: &(Digest, Digest)) -> (res: Result<(), IoError>)
        requires
            Self::can_save(old(self)@),
        ensures
            final(self)@ == Self::saved(old(self)@, node, *hash_pair).0,
            res == Self::saved(old(self)@, node, *hash_pair).1,
            Self::can_save(final(self)@),
    ;

    /// Makes what was saved permanent.
    fn sync(&mut self) -> (res: Result<(), IoError>)
        requires
            Self::can_save(old(self)@),
        ensures
            final(self)@ == Self::synced(old(self)@).0,
            res == Self::synced(old(self)@).1,
            Self::can_save(final(self)@),
    ;
}

/// What an outboard in memory holds.
pub struct OutboardState {
    pub root: Digest,
    pub tree: BaoTree,
    pub data: Seq<u8>,
}

/// The place of a node in a list of nodes.
pub open spec fn slot_of(nodes: Seq<int>, node: TreeNode) -> Option<int> {
    if nodes.contains(node.0 as int) {
        Some(nodes.index_of(node.0 as int))
    } else {
        None
    }
}

/// At most `len` bytes of `data` from `start` on.
pub open spec fn bytes_up_to(data: Seq<u8>, start: int, len: int) -> Seq<u8> {
    if start >= data.len() {
        Seq::empty()
    } else if start + len <= data.len() {
        data.subrange(start, start + len)
    } else {
        data.skip(start)
    }
}

/// The hash pair in what was read for it: two zero hashes if it is not complete.
pub open spec fn pair_in(content: Seq<u8>) -> (Digest, Digest) {
    if content.len() == 64 {
        pair_of(content)
    } else {
        (zero_hash(), zero_hash())
    }
}

/// The hash pair with the number `k` in `data`.
pub open spec fn pair_at(data: Seq<u8>, k: int) -> (Digest, Digest) {
    pair_in(bytes_up_to(data, 64 * k, 64))
}

/// What loading a node gives that has this place.
pub open spec fn load_slot(data: Seq<u8>, slot: Option<int>) -> Result<
    Option<(Digest, Digest)>,
    IoError,
> {
    Ok(
        match slot {
            Some(k) => Some(pair_at(data, k)),
            None => None,
        },
    )
}

/// All the bytes of the hash pair of a node that has this place are there.
pub open spec fn stored_slot(data: Seq<u8>, slot: Option<int>) -> bool {
    slot matches Some(k) && 64 * k + 64 <= data.len()
}

/// `data` after saving the pair of a node that has this place.
pub open spec fn save_slot(data: Seq<u8>, slot: Option<int>, pair: (Digest, Digest)) -> Seq<u8> {
    match slot {
        Some(k) => write_over(data, 64 * k, pair_bytes(pair.0, pair.1)),
        None => data,
    }
}

/// The hash pair in what was read for it: two zero hashes if it is not complete.
pub fn loaded_pair(content: &[u8]) -> (res: (Digest, Digest))
    ensures
        res == pair_in(content@),
        content@.len() == 64 ==> res.0@ + res.1@ == content@,
        content@.len() != 64 ==> forall|i: int| 0 <= i < 32 ==> res.0@[i] == 0 && res.1@[i] == 0,
{
    match parse_hash_pair(content) {
        Ok(pair) => pair,
        Err(_) => (Digest::zero(), Digest::zero()),
    }
}

/// Where the hash pair of a node starts in an outboard in pre order, if the outboard tracks it.
pub fn pre_order_byte_offset(tree: BaoTree, node: TreeNode) -> (res: Option<u64>)
    requires
        tree.wf(),
    ensures
        match res {
            Some(o) => slot_of(tree.pre_order_nodes(), node) == Some(o as int / 64) && o % 64 == 0,
            None => slot_of(tree.pre_order_nodes(), node) is None,
        },
        res matches Some(o) ==> o as int / 64 < tree.pre_order_nodes().len()
            && tree.pre_order_nodes()[o as int / 64] == node.0,
        res is None ==> !tree.pre_order_nodes().contains(node.0 as int),
        res matches Some(o) ==> o <= 0x1000_0000_0000_0000,
{
    proof {
        lemma_tracked(tree);
    }
    match tree.pre_order_offset(node) {
        Some(k) => {
            proof {
                lemma_index_of(tree.pre_order_nodes(), k as int);
            }
            Some(k * 64)
        },
        None => None,
    }
}

/// Where the hash pair of a node starts in an outboard in post order, if the outboard tracks it.
pub fn post_order_byte_offset(tree: BaoTree, node: TreeNode) -> (res: Option<u64>)
    requires
        tree.wf(),
    ensures
        match res {
            Some(o) => slot_of(tree.post_order_nodes(), node) == Some(o as int / 64) && o % 64 == 0,
            None => slot_of(tree.post_order_nodes(), node) is None,
        },
        res matches Some(o) ==> o as int / 64 < tree.post_order_nodes().len()
            && tree.post_order_nodes()[o as int / 64] == node.0,
        res is None ==> !tree.post_order_nodes().contains(node.0 as int),
        res matches Some(o) ==> o <= 0x1000_0000_0000_0000,
{
    proof {
        lemma_tracked(tree);
    }
    match tree.post_order_offset(node) {
        Some(k) => {
            proof {
                lemma_index_of(tree.post_order_nodes(), k as int);
            }
            Some(k * 64)
        },
        None => None,
    }
}

/// In a list without duplicates, `index_of` finds the one place of a member.
pub proof fn lemma_index_of(nodes: Seq<int>, k: int)
    requires
        nodes.no_duplicates(),
        0 <= k < nodes.len(),
    ensures
        nodes.contains(nodes[k]),
        nodes.index_of(nodes[k]) == k,
{
    let i = nodes.index_of(nodes[k]);
    assert(0 <= i < nodes.len() && nodes[i] == nodes[k]);
}

/// The nodes that an outboard tracks: in both orders the same, each once, and fewer than chunks.
pub proof fn lemma_tracked(tree: BaoTree)
    requires
        tree.wf(),
    ensures
        tree.pre_order_nodes().no_duplicates(),
        tree.post_order_nodes().no_duplicates(),
        tree.pre_order_nodes().len() == tree.post_order_nodes().len(),
        tree.pre_order_nodes().len() < tree.total(),
        forall|x: int| #[trigger]
            tree.post_order_nodes().contains(x) <==> tree.pre_order_nodes().contains(x),
{
    lemma_group(tree.block_size);
    lemma_pre_order(tree.group(), 0, tree.total());
    lemma_post_order(tree.group(), 0, tree.total());
    lemma_groups_one(tree.group(), tree.total());
}

fn load_at(data: &Vec<u8>, offset: u64) -> (res: (Digest, Digest))
    requires
        offset <= 0x1000_0000_0000_0000,
    ensures
        res == pair_in(bytes_up_to(data@, offset as int, 64)),
{
    let len: u64 = data.len() as u64;
    if offset >= len {
        return loaded_pair(&[]);
    }
    let end: u64 = if len - offset >= 64 {
        offset + 64
    } else {
        len
    };
    let content = slice_subrange(data.as_slice(), offset as usize, end as usize);
    assert(content@ =~= bytes_up_to(data@, offset as int, 64));
    loaded_pair(content)
}

/// An outboard in memory, its hash pairs in pre order.
#[derive(Debug)]
pub struct PreOrderOutboard<H> {
    /// The root hash.
    pub root: Digest,
    /// The tree.
    pub tree: BaoTree,
    /// The hash pairs, 64 bytes each.
    pub data: Vec<u8>,
    /// The hasher.
    pub hasher: PhantomData<H>,
}

/// An outboard in memory, its hash pairs in post order.
#[derive(Debug)]
pub struct PostOrderOutboard<H> {
    /// The root hash.
    pub root: Digest,
    /// The tree.
    pub tree: BaoTree,
    /// The hash pairs, 64 bytes each.
    pub data: Vec<u8>,
    /// The hasher.
    pub hasher: PhantomData<H>,
}

/// The hash pairs of a tree fit into memory. They do where the blob does.
pub open spec fn fits_memory(tree: BaoTree) -> bool {
    &&& tree.wf()
    &&& tree.size <= usize::MAX || 64 * tree.pre_order_nodes().len() <= usize::MAX
}

impl<H> View for PreOrderOutboard<H> {
    type V = OutboardState;

    open spec fn view(&self) -> OutboardState {
        OutboardState { root: self.root, tree: self.tree, data: self.data@ }
    }
}

impl<H> View for PostOrderOutboard<H> {
    type V = OutboardState;

    open spec fn view(&self) -> OutboardState {
        OutboardState { root: self.root, tree: self.tree, data: self.data@ }
    }
}

impl<H: Hasher> Outboard for PreOrderOutboard<H> {
    type Hasher = H;

    open spec fn root_of(st: OutboardState) -> Digest {
        st.root
    }

    open spec fn tree_of(st: OutboardState) -> BaoTree {
        st.tree
    }

    open spec fn load_from(st: OutboardState, node: TreeNode) -> Result<
        Option<(Digest, Digest)>,
        IoError,
    > {
        load_slot(st.data, slot_of(st.tree.pre_order_nodes(), node))
    }

    open spec fn stored_in(st: OutboardState, node: TreeNode) -> bool {
        stored_slot(st.data, slot_of(st.tree.pre_order_nodes(), node))
    }

    fn root(&self) -> (res: Digest) {
        self.root
    }

    fn tree(&self) -> (res: BaoTree) {
        self.tree
    }

    fn load(&mut self, node: TreeNode) -> (res: Result<Option<(Digest, Digest)>, IoError>) {
        match pre_order_byte_offset(self.tree, node) {
            Some(offset) => Ok(Some(load_at(&self.data, offset))),
            None => Ok(None),
        }
    }

    fn stored(&mut self, node: TreeNode) -> (res: bool) {
        match pre_order_byte_offset(self.tree, node) {
            Some(offset) => offset + 64 <= self.data.len() as u64,
            None => false,
        }
    }
}

impl<H: Hasher> Outboard for PostOrderOutboard<H> {
    type Hasher = H;

    open spec fn root_of(st: OutboardState) -> Digest {
        st.root
    }

    open spec fn tree_of(st: OutboardState) -> BaoTree {
        st.tree
    }

    open spec fn load_from(st: OutboardState, node: TreeNode) -> Result<
        Option<(Digest, Digest)>,
        IoError,
    > {
        load_slot(st.data, slot_of(st.tree.post_order_nodes(), node))
    }

    open spec fn stored_in(st: OutboardState, node: TreeNode) -> bool {
        stored_slot(st.data, slot_of(st.tree.post_order_nodes(), node))
    }

    fn root(&self) -> (res: Digest) {
        self.root
    }

    fn tree(&self) -> (res: BaoTree) {
        self.tree
    }

    fn load(&mut self, node: TreeNode) -> (res: Result<Option<(Digest, Digest)>, IoError>) {
        match post_order_byte_offset(self.tree, node) {
            Some(offset) => Ok(Some(load_at(&self.data, offset))),
            None => Ok(None),
        }
    }

    fn stored(&mut self, node: TreeNode) -> (res: bool) {
        match post_order_byte_offset(self.tree, node) {
            Some(offset) => offset + 64 <= self.data.len() as u64,
            None => false,
        }
    }
}

impl<H: Hasher> OutboardMut for PreOrderOutboard<H> {
    type Hasher = H;

    open spec fn can_save(st: OutboardState) -> bool {
        fits_memory(st.tree)
    }

    open spec fn saved(st: OutboardState, node: TreeNode, pair: (Digest, Digest)) -> (
        OutboardState,
        Result<(), IoError>,
    ) {
        let data = save_slot(st.data, slot_of(st.tree.pre_order_nodes(), node), pair);
        (OutboardState { root: st.root, tree: st.tree, data }, Ok(()))
    }

    open spec fn synced(st: OutboardState) -> (OutboardState, Result<(), IoError>) {
        (st, Ok(()))
    }

    fn save(&mut self, node: TreeNode, hash_pair: &(Digest, Digest)) -> (res: Result<
        (),
        IoError,
    >) {
        proof {
            lemma_tracked(self.tree);
        }
        match pre_order_byte_offset(self.tree, node) {
            Some(offset) => {
                let buf = combine_hash_pair(&hash_pair.0, &hash_pair.1);
                write_at(&mut self.data, offset, buf.as_slice());
                Ok(())
            },
            None => Ok(()),
        }
    }

    fn sync(&mut self) -> (res: Result<(), IoError>) {
        Ok(())
    }
}

impl<H: Hasher> OutboardMut for PostOrderOutboard<H> {
    type Hasher = H;

    open spec fn can_save(st: OutboardState) -> bool {
        fits_memory(st.tree)
    }

    open spec fn saved(st: OutboardState, node: TreeNode, pair: (Digest, Digest)) -> (
        OutboardState,
        Result<(), IoError>,
    ) {
        let data = save_slot(st.data, slot_of(st.tree.post_order_nodes(), node), pair);
        (OutboardState { root: st.root, tree: st.tree, data }, Ok(()))
    }

    open spec fn synced(st: OutboardState) -> (OutboardState, Result<(), IoError>) {
        (st, Ok(()))
    }

    fn save(&mut self, node: TreeNode, hash_pair: &(Digest, Digest)) -> (res: Result<
        (),
        IoError,
    >) {
        proof {
            lemma_tracked(self.tree);
        }
        match post_order_byte_offset(self.tree, node) {
            Some(offset) => {
                let buf = combine_hash_pair(&hash_pair.0, &hash_pair.1);
                write_at(&mut self.data, offset, buf.as_slice());
                Ok(())
            },
            None => Ok(()),
        }
    }

    fn sync(&mut self) -> (res: Result<(), IoError>) {
        Ok(())
    }
}

impl<H> Default for PreOrderOutboard<H> {
    fn default() -> (res: Self)
        ensures
            res@ == empty_outboard(),
    {
        let tree = BaoTree::new(0, BlockSize(0));
        let res = PreOrderOutboard {
            root: Digest::zero(),
            tree,
            data: Vec::new(),
            hasher: PhantomData,
        };
        assert(res.data@ =~= Seq::empty());
        res
    }
}

impl<H> Default for PostOrderOutboard<H> {
    fn default() -> (res: Self)
        ensures
            res@ == empty_outboard(),
    {
        let tree = BaoTree::new(0, BlockSize(0));
        let res = PostOrderOutboard {
            root: Digest::zero(),
            tree,
            data: Vec::new(),
            hasher: PhantomData,
        };
        assert(res.data@ =~= Seq::empty());
        res
    }
}

/// The outboard of the empty blob, before its root hash is set.
pub open spec fn empty_outboard() -> OutboardState {
    OutboardState {
        root: zero_hash(),
        tree: BaoTree { size: 0, block_size: BlockSize(0) },
        data: Seq::empty(),
    }
}

} // verus!
