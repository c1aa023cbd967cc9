//! Chunks, nodes, block sizes and trees.
use crate::geometry::{
    byte_start, chunks_of, groups, lemma_groups_cover, lemma_groups_one, lemma_groups_split, lemma_post_order,
    lemma_pre_order, lemma_split_at_group, lemma_split_point_unique, post_order, pre_order,
    split_point, tree_chunks, CHUNK_LEN,
};
use vstd::arithmetic::power2::{
    is_pow2, is_pow2_equiv, is_pow2_exists, lemma2_to64, lemma_pow2, lemma_pow2_pos,
    lemma_pow2_strictly_increases, pow2,
};
use vstd::bits::lemma_u64_shl_is_mul;
use vstd::prelude::*;

verus! {

/// The number of a chunk of 1024 bytes.
#[derive(Clone, Copy, Debug, PartialEq, Eq, Structural)]
pub struct ChunkNum(pub u64);

impl ChunkNum {
    /// Number of chunks that fit into `size` bytes.
    pub fn full_chunks(size: u64) -> (res: ChunkNum)
        ensures
            res.0 == size as int / 1024,
    {
        ChunkNum(size / CHUNK_LEN)
    }

    /// Number of chunks that `size` bytes fill, the last one perhaps in part.
    pub fn chunks(size: u64) -> (res: ChunkNum)
        ensures
            res.0 == chunks_of(size as int),
            1024 * res.0 >= size,
            1024 * (res.0 - 1) < size,
    {
        let full = size / CHUNK_LEN;
        if size % CHUNK_LEN == 0 {
            ChunkNum(full)
        } else {
            ChunkNum(full + 1)
        }
    }

    /// The offset in bytes at which the chunk starts.
    pub fn to_bytes(&self) -> (res: u64)
        requires
            self.0 * 1024 <= u64::MAX,
        ensures
            res == byte_start(self.0 as int),
            res == 1024 * self.0,
    {
        self.0 * CHUNK_LEN
    }
}

/// The number of a node of a tree.
#[derive(Clone, Copy, Debug, PartialEq, Eq, Structural)]
pub struct TreeNode(pub u64);

/// The size of a chunk group, as the logarithm to the base 2 of its number of chunks.
#[derive(Clone, Copy, Debug, PartialEq, Eq, Structural)]
pub struct BlockSize(pub u8);

impl BlockSize {
    /// A group's size in bytes fits into 64 bits.
    pub open spec fn wf(self) -> bool {
        self.0 <= 53
    }

    /// Number of chunks in a group.
    pub open spec fn group(self) -> int {
        pow2(self.0 as nat) as int
    }

    /// Creates a block size from the logarithm of its number of chunks.
    pub fn from_chunk_log(chunk_log: u8) -> (res: BlockSize)
        requires
            chunk_log <= 53,
        ensures
            res.0 == chunk_log,
            res.wf(),
    {
        BlockSize(chunk_log)
    }

    /// Number of chunks in a group.
    pub fn chunks(&self) -> (res: u64)
        requires
            self.wf(),
        ensures
            res == self.group(),
            res == pow2(self.0 as nat),
            1 <= res <= 0x20_0000_0000_0000,
    {
        proof {
            lemma_group(*self);
            assert(1u64 * pow2(self.0 as nat) <= u64::MAX);
            lemma_u64_shl_is_mul(1, self.0 as u64);
        }
        1u64 << (self.0 as u64)
    }

    /// Number of bytes in a group: 1024 times its number of chunks.
    pub fn bytes(&self) -> (res: u64)
        requires
            self.wf(),
        ensures
            res == 1024 * self.group(),
            res == 1024 * pow2(self.0 as nat),
    {
        self.chunks() * CHUNK_LEN
    }
}

/// A group holds a power of two of chunks, at most `2^53`.
pub proof fn lemma_group(b: BlockSize)
    requires
        b.wf(),
    ensures
        1 <= b.group() <= 0x20_0000_0000_0000,
        is_pow2(b.group()),
{
    lemma_pow2_pos(b.0 as nat);
    assert(pow2(53) == 0x20_0000_0000_0000) by {
        lemma2_to64();
        vstd::arithmetic::power2::lemma2_to64_rest();
    }
    if b.0 < 53 {
        lemma_pow2_strictly_increases(b.0 as nat, 53);
    }
    lemma_pow2(b.0 as nat);
    assert(is_pow2_exists(b.group()));
    is_pow2_equiv(b.group());
}

/// The geometry of a tree: the size of the blob, and the size of the groups at which an outboard
/// stops.
#[derive(Clone, Copy, Debug, PartialEq, Eq, Structural)]
pub struct BaoTree {
    /// The size of the blob in bytes.
    pub size: u64,
    /// The size of a chunk group.
    pub block_size: BlockSize,
}

/// The split point of `m`.
pub(crate) fn split_at(m: u64) -> (p: u64)
    requires
        2 <= m <= 0x40_0000_0000_0000,
    ensures
        p == split_point(m as int),
        1 <= p < m,
{
    let mut p: u64 = 1;
    proof {
        reveal(is_pow2);
    }
    while p < m - p
        invariant
            1 <= p < m <= 0x40_0000_0000_0000,
            is_pow2(p as int),
        decreases m - p,
    {
        proof {
            reveal(is_pow2);
        }
        p = p * 2;
    }
    proof {
        lemma_split_point_unique(m as int, p as int);
    }
    p
}

impl BaoTree {
    /// The block size is one that a tree can have.
    pub open spec fn wf(self) -> bool {
        self.block_size.wf()
    }

    /// Number of chunks in a group.
    pub open spec fn group(self) -> int {
        self.block_size.group()
    }

    /// Number of chunks in the tree, at least one.
    pub open spec fn total(self) -> int {
        tree_chunks(self.size as int)
    }

    /// The nodes that an outboard for the tree tracks, in pre order.
    pub open spec fn pre_order_nodes(self) -> Seq<int> {
        pre_order(self.group(), 0, self.total())
    }

    /// The nodes that an outboard for the tree tracks, in post order.
    pub open spec fn post_order_nodes(self) -> Seq<int> {
        post_order(self.group(), 0, self.total())
    }

    /// Creates the tree for a blob of `size` bytes.
    pub fn new(size: u64, block_size: BlockSize) -> (res: BaoTree)
        ensures
            res.size == size,
            res.block_size == block_size,
    {
        BaoTree { size, block_size }
    }

    /// The size of the blob in bytes.
    pub fn size(&self) -> (res: u64)
        ensures
            res == self.size,
    {
        self.size
    }

    /// Number of chunks that the blob fills.
    pub fn chunks(&self) -> (res: ChunkNum)
        ensures
            res.0 == chunks_of(self.size as int),
            1024 * res.0 >= self.size,
            1024 * (res.0 - 1) < self.size,
    {
        ChunkNum::chunks(self.size)
    }

    /// Number of chunks in the tree, at least one.
    pub fn total_chunks(&self) -> (res: u64)
        ensures
            res == self.total(),
            1 <= res <= 0x40_0000_0000_0000,
            1024 * res >= self.size,
            1024 * (res - 1) < self.size || res == 1,
    {
        let n: u64 = self.chunks().0;
        if n == 0 {
            1
        } else {
            n
        }
    }

    /// Number of chunk groups in the tree, at least one.
    pub fn blocks(&self) -> (res: u64)
        requires
            self.wf(),
        ensures
            res == groups(self.group(), self.total()),
            res >= 1,
            res * self.group() * 1024 >= self.size,
            (res - 1) * self.group() * 1024 < self.size || res == 1,
    {
        let g = self.block_size.chunks();
        let n = self.total_chunks();
        proof {
            lemma_groups_one(g as int, n as int);
            lemma_groups_cover(g as int, n as int);
        }
        (n + (g - 1)) / g
    }

    /// The place of a node among the nodes of the tree in pre order, if an outboard tracks it.
    pub fn pre_order_offset(&self, node: TreeNode) -> (res: Option<u64>)
        requires
            self.wf(),
        ensures
            match res {
                Some(k) => k < self.pre_order_nodes().len() && self.pre_order_nodes()[k as int]
                    == node.0,
                None => !self.pre_order_nodes().contains(node.0 as int),
            },
    {
        let g = self.block_size.chunks();
        let mut s: u64 = 0;
        let mut m: u64 = self.total_chunks();
        let mut base: u64 = 0;
        let ghost all = self.pre_order_nodes();
        proof {
            lemma_group(self.block_size);
            lemma_pre_order(g as int, 0, m as int);
            lemma_groups_one(g as int, m as int);
        }
        while m > g
            invariant
                all == self.pre_order_nodes(),
                is_pow2(g as int),
                1 <= g,
                1 <= m <= 0x40_0000_0000_0000,
                s + m <= 0x40_0000_0000_0000,
                base + pre_order(g as int, s as int, m as int).len() <= all.len(),
                all.len() <= 0x40_0000_0000_0000,
                forall|k: int|
                    0 <= k < pre_order(g as int, s as int, m as int).len() ==> all[base + k]
                        == #[trigger] pre_order(g as int, s as int, m as int)[k],
                all.contains(node.0 as int) ==> pre_order(g as int, s as int, m as int).contains(
                    node.0 as int,
                ),
            decreases m,
        {
            let p = split_at(m);
            let x = s + (p - 1);
            let ghost here = pre_order(g as int, s as int, m as int);
            let ghost a = pre_order(g as int, s as int, p as int);
            let ghost b = pre_order(g as int, s + p, m - p);
            proof {
                lemma_pre_order(g as int, s as int, m as int);
                lemma_pre_order(g as int, s as int, p as int);
                lemma_pre_order(g as int, s + p, m - p);
                lemma_split_at_group(g as int, m as int);
                lemma_groups_split(g as int, p as int, m - p);
                lemma_groups_one(g as int, p as int);
                lemma_groups_one(g as int, m - p);
                assert(here =~= seq![x as int] + a + b);
                assert(all[base as int] == here[0]);
                if all.contains(node.0 as int) {
                    let i = choose|i: int| 0 <= i < here.len() && here[i] == node.0;
                    if 1 <= i < 1 + a.len() {
                        assert(a[i - 1] == node.0);
                        assert(a.contains(node.0 as int));
                    } else if i >= 1 + a.len() {
                        assert(b[i - 1 - a.len()] == node.0);
                        assert(b.contains(node.0 as int));
                    }
                }
                assert forall|k: int| 0 <= k < a.len() implies all[base + 1 + k] == #[trigger] a[k] by {
                    assert(here[1 + k] == a[k]);
                    assert(all[base + (1 + k)] == here[1 + k]);
                }
                assert forall|k: int| 0 <= k < b.len() implies all[base + 1 + a.len() + k]
                    == #[trigger] b[k] by {
                    assert(here[1 + a.len() + k] == b[k]);
                    assert(all[base + (1 + a.len() + k)] == here[1 + a.len() + k]);
                }
            }
            if node.0 == x {
                return Some(base);
            }
            if node.0 < x {
                m = p;
                base = base + 1;
            } else {
                base = base + p / g;
                s = s + p;
                m = m - p;
            }
        }
        None
    }

    /// The place of a node among the nodes of the tree in post order, if an outboard tracks it.
    pub fn post_order_offset(&self, node: TreeNode) -> (res: Option<u64>)
        requires
            self.wf(),
        ensures
            match res {
                Some(k) => k < self.post_order_nodes().len() && self.post_order_nodes()[k as int]
                    == node.0,
                None => !self.post_order_nodes().contains(node.0 as int),
            },
    {
        let g = self.block_size.chunks();
        let mut s: u64 = 0;
        let mut m: u64 = self.total_chunks();
        let mut base: u64 = 0;
        let ghost all = self.post_order_nodes();
        proof {
            lemma_group(self.block_size);
            lemma_post_order(g as int, 0, m as int);
            lemma_groups_one(g as int, m as int);
        }
        while m > g
            invariant
                all == self.post_order_nodes(),
                is_pow2(g as int),
                1 <= g,
                1 <= m <= 0x40_0000_0000_0000,
                s + m <= 0x40_0000_0000_0000,
                base + post_order(g as int, s as int, m as int).len() <= all.len(),
                all.len() <= 0x40_0000_0000_0000,
                forall|k: int|
                    0 <= k < post_order(g as int, s as int, m as int).len() ==> all[base + k]
                        == #[trigger] post_order(g as int, s as int, m as int)[k],
                all.contains(node.0 as int) ==> post_order(g as int, s as int, m as int).contains(
                    node.0 as int,
                ),
            decreases m,
        {
            let p = split_at(m);
            let x = s + (p - 1);
            let ghost here = post_order(g as int, s as int, m as int);
            let ghost a = post_order(g as int, s as int, p as int);
            let ghost b = post_order(g as int, s + p, m - p);
            proof {
                lemma_post_order(g as int, s as int, m as int);
                lemma_post_order(g as int, s as int, p as int);
                lemma_pre_order(g as int, s as int, p as int);
                lemma_pre_order(g as int, s + p, m - p);
                lemma_groups_one(g as int, m as int);
                lemma_post_order(g as int, s + p, m - p);
                lemma_split_at_group(g as int, m as int);
                lemma_groups_split(g as int, p as int, m - p);
                lemma_groups_one(g as int, p as int);
                lemma_groups_one(g as int, m - p);
                assert(here =~= a + b + seq![x as int]);
                assert(all[base + (a.len() + b.len())] == here[(a.len() + b.len()) as int]);
                if all.contains(node.0 as int) {
                    let i = choose|i: int| 0 <= i < here.len() && here[i] == node.0;
                    if i < a.len() {
                        assert(a[i] == node.0);
                        assert(a.contains(node.0 as int));
                        assert(pre_order(g as int, s as int, p as int).contains(node.0 as int));
                    } else if i < a.len() + b.len() {
                        assert(b[i - a.len()] == node.0);
                        assert(b.contains(node.0 as int));
                        assert(pre_order(g as int, s + p, m - p).contains(node.0 as int));
                    }
                }
                assert forall|k: int| 0 <= k < a.len() implies all[base + k] == #[trigger] a[k] by {
                    assert(here[k] == a[k]);
                }
                assert forall|k: int| 0 <= k < b.len() implies all[base + a.len() + k]
                    == #[trigger] b[k] by {
                    assert(here[a.len() + k] == b[k]);
                    assert(all[base + (a.len() + k)] == here[a.len() + k]);
                }
            }
            if node.0 == x {
                return Some(base + ((m + (g - 1)) / g - 2));
            }
            if node.0 < x {
                m = p;
            } else {
                base = base + (p / g - 1);
                s = s + p;
                m = m - p;
            }
        }
        None
    }
}

} // verus!
