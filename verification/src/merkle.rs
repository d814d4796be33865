//! SHA3-256 Merkle tree binding the sequence of hiding commitments.
//!
//! Leaf hashing: `H(0x00 || leaf)`. Internal node: `H(0x01 || left || right)`.
//! The tree root (32 bytes) is the public commitment `com`.
use vstd::prelude::*;
use crate::hashing::{sha3_256, spec_sha3_256};

verus! {

/// 32-byte Merkle root / hash output.
pub type Hash = [u8; 32];

/// Leaf hash `H(0x00 || leaf)`.
pub open spec fn leaf_hash(leaf: Seq<u8>) -> Seq<u8> {
    spec_sha3_256(seq![0u8] + leaf)
}

/// Internal node hash `H(0x01 || left || right)`.
pub open spec fn node_hash(left: Seq<u8>, right: Seq<u8>) -> Seq<u8> {
    spec_sha3_256(seq![1u8] + left + right)
}

/// The 32-byte all-zero placeholder used for padding leaves.
pub open spec fn zero_hash() -> Seq<u8> {
    Seq::new(32, |i: int| 0u8)
}

/// The smallest power of two that is at least `n`, searching from `p`.
pub open spec fn pow2_at_least(n: nat, p: nat) -> nat
    decreases (if p >= n {
        0
    } else {
        n - p
    }),
    when p > 0
{
    if p >= n {
        p
    } else {
        pow2_at_least(n, 2 * p)
    }
}

/// The smallest power of two that is at least `n`.
pub open spec fn padded_size(n: nat) -> nat {
    pow2_at_least(n, 1)
}

/// Recomputing a root from hash `h` at position `index` with the sibling
/// hashes `sibs`, lowest level first.
pub open spec fn climb(h: Seq<u8>, index: nat, sibs: Seq<Seq<u8>>) -> Seq<u8>
    decreases sibs.len(),
{
    if sibs.len() == 0 {
        h
    } else {
        let up = if index % 2 == 0 {
            node_hash(h, sibs[0])
        } else {
            node_hash(sibs[0], h)
        };
        climb(up, index / 2, sibs.drop_first())
    }
}

/// The levels of a tree stored level by level: the level of `size` nodes
/// starting at `start` hashes pairwise into the next level, up to a single
/// root stored last.
pub open spec fn levels_ok(nodes: Seq<Seq<u8>>, start: int, size: int) -> bool
    decreases size,
{
    if size <= 1 {
        size == 1 && start == nodes.len() - 1 && start >= 0
    } else {
        &&& size % 2 == 0
        &&& start >= 0
        &&& start + size + size / 2 <= nodes.len()
        &&& forall|i: int|
            0 <= i < size / 2 ==> #[trigger] nodes[start + size + i] == node_hash(
                nodes[start + 2 * i],
                nodes[start + 2 * i + 1],
            )
        &&& levels_ok(nodes, start + size, size / 2)
    }
}

/// The authentication path of position `idx` in the level of `size` nodes
/// starting at `start`: one sibling per level up to the root.
pub open spec fn path_from(nodes: Seq<Seq<u8>>, start: int, size: int, idx: int) -> Seq<Seq<u8>>
    decreases size,
{
    if size <= 1 {
        Seq::empty()
    } else {
        let sib = if idx % 2 == 0 {
            idx + 1
        } else {
            idx - 1
        };
        seq![nodes[start + sib]] + path_from(nodes, start + size, size / 2, idx / 2)
    }
}

/// The number of halvings from a level of `size` nodes down to the root.
pub open spec fn levels(size: int) -> nat
    decreases size,
{
    if size <= 1 {
        0
    } else {
        1 + levels(size / 2)
    }
}

/// An authentication path has one sibling per level.
proof fn lemma_path_len(nodes: Seq<Seq<u8>>, start: int, size: int, idx: int)
    ensures
        path_from(nodes, start, size, idx).len() == levels(size),
    decreases size,
{
    if size > 1 {
        lemma_path_len(nodes, start + size, size / 2, idx / 2);
    }
}

/// A level of fewer than `2^(k+1)` nodes is at most `k` halvings from the root.
proof fn lemma_levels_bound(size: int, k: nat)
    requires
        size < vstd::arithmetic::power2::pow2(k + 1),
    ensures
        levels(size) <= k,
    decreases k,
{
    vstd::arithmetic::power2::lemma_pow2_unfold(k + 1);
    if size > 1 && k > 0 {
        lemma_levels_bound(size / 2, (k - 1) as nat);
    } else if size > 1 {
        vstd::arithmetic::power2::lemma2_to64();
    }
}

/// The next level up: node `i` hashes nodes `2i` and `2i + 1`.
pub open spec fn level_up(level: Seq<Seq<u8>>) -> Seq<Seq<u8>> {
    Seq::new(level.len() / 2, |i: int| node_hash(level[2 * i], level[2 * i + 1]))
}

/// The root over a level: hash pairwise until one node is left.
pub open spec fn root_of_level(level: Seq<Seq<u8>>) -> Seq<u8>
    decreases level.len(),
{
    if level.len() <= 1 {
        level[0]
    } else {
        root_of_level(level_up(level))
    }
}

/// The authentication path of position `idx` in `level`: its sibling, then
/// the path of its parent in the level above, up to the root.
pub open spec fn level_path(level: Seq<Seq<u8>>, idx: int) -> Seq<Seq<u8>>
    decreases level.len(),
{
    if level.len() <= 1 {
        Seq::empty()
    } else {
        let sib = if idx % 2 == 0 {
            idx + 1
        } else {
            idx - 1
        };
        seq![level[sib]] + level_path(level_up(level), idx / 2)
    }
}

/// Completeness of authentication paths over a level of power-of-two size:
/// climbing from position `idx` with the siblings on its path gives the
/// root of the level.
pub proof fn lemma_climb_level(level: Seq<Seq<u8>>, idx: int)
    requires
        pow2_ok(level.len()),
        0 <= idx < level.len(),
    ensures
        climb(level[idx], idx as nat, level_path(level, idx)) == root_of_level(level),
    decreases level.len(),
{
    if level.len() > 1 {
        let up = level_up(level);
        let p = level_path(level, idx);
        assert(p.drop_first() =~= level_path(up, idx / 2));
        assert(up[idx / 2] == node_hash(level[2 * (idx / 2)], level[2 * (idx / 2) + 1]));
        lemma_climb_level(up, idx / 2);
    }
}

/// On consistent levels, the stored path of a position is its path in the
/// first level.
proof fn lemma_path_from_level(nodes: Seq<Seq<u8>>, start: int, size: int, idx: int)
    requires
        levels_ok(nodes, start, size),
        0 <= idx < size,
    ensures
        path_from(nodes, start, size, idx) == level_path(nodes.subrange(start, start + size), idx),
    decreases size,
{
    let level = nodes.subrange(start, start + size);
    if size > 1 {
        lemma_levels_len(nodes, start + size, size / 2);
        assert(level_up(level) =~= nodes.subrange(start + size, start + size + size / 2)) by {
            assert forall|i: int| 0 <= i < size / 2 implies #[trigger] level_up(level)[i] == nodes[start + size + i] by {
                assert(level[2 * i] == nodes[start + 2 * i]);
                assert(level[2 * i + 1] == nodes[start + 2 * i + 1]);
            }
        }
        lemma_path_from_level(nodes, start + size, size / 2, idx / 2);
        let sib = if idx % 2 == 0 {
            idx + 1
        } else {
            idx - 1
        };
        assert(level[sib] == nodes[start + sib]);
        assert(path_from(nodes, start, size, idx) =~= level_path(level, idx));
    }
}

/// The leaf level of the tree over `leaves`: the leaf hashes, padded to the
/// next power of two with all-zero placeholders.
pub open spec fn padded_leaf_hashes(leaves: Seq<Seq<u8>>) -> Seq<Seq<u8>> {
    Seq::new(
        padded_size(leaves.len()),
        |i: int|
            if i < leaves.len() {
                leaf_hash(leaves[i])
            } else {
                zero_hash()
            },
    )
}

/// The Merkle root over `leaves`.
pub open spec fn merkle_root(leaves: Seq<Seq<u8>>) -> Seq<u8> {
    root_of_level(padded_leaf_hashes(leaves))
}

/// Consistent levels end in the root of their first level.
proof fn lemma_levels_root(nodes: Seq<Seq<u8>>, start: int, size: int)
    requires
        levels_ok(nodes, start, size),
    ensures
        nodes.last() == root_of_level(nodes.subrange(start, start + size)),
    decreases size,
{
    let level = nodes.subrange(start, start + size);
    if size > 1 {
        lemma_levels_len(nodes, start + size, size / 2);
        assert(level_up(level) =~= nodes.subrange(start + size, start + size + size / 2)) by {
            assert forall|i: int| 0 <= i < size / 2 implies #[trigger] level_up(level)[i] == nodes[start + size + i] by {
                assert(level[2 * i] == nodes[start + 2 * i]);
                assert(level[2 * i + 1] == nodes[start + 2 * i + 1]);
            }
        }
        lemma_levels_root(nodes, start + size, size / 2);
    }
}

/// The views of a sequence of hashes.
pub open spec fn hash_views(hs: Seq<Hash>) -> Seq<Seq<u8>> {
    hs.map_values(|h: Hash| h@)
}

/// A Merkle tree over `L` leaves, each a serialized polynomial.
///
/// Internally the tree is padded to the next power of two with all-zero
/// placeholder leaves; this is invisible to callers.
pub struct MerkleTree {
    /// All nodes, level-order: `[leaves..., parents..., ..., root]`.
    nodes: Vec<Hash>,
    /// Number of real leaves (before padding).
    leaf_count: usize,
}

/// Authentication path for one leaf.
///
/// Carries the leaf index so that verification can recompute direction bits
/// without an extra parameter.
#[derive(Clone)]
pub struct MerklePath {
    /// Leaf index in `[0, leaf_count)`.
    pub index: usize,
    /// Sibling hashes from leaf level up to (but not including) the root.
    pub siblings: Vec<Hash>,
}

impl MerkleTree {
    /// The hashes of all nodes, level-order.
    spec fn node_views(&self) -> Seq<Seq<u8>> {
        hash_views(self.nodes@)
    }

    /// The number of real leaves.
    pub closed spec fn spec_leaf_count(&self) -> nat {
        self.leaf_count as nat
    }

    /// The leaf level: the leaf hashes and the padding placeholders.
    pub closed spec fn leaf_level(&self) -> Seq<Seq<u8>> {
        self.node_views().subrange(0, padded_size(self.leaf_count as nat) as int)
    }

    /// The hash stored for leaf position `i`.
    pub open spec fn leaf_node(&self, i: int) -> Seq<u8> {
        self.leaf_level()[i]
    }

    /// The root hash.
    pub open spec fn root_view(&self) -> Seq<u8> {
        root_of_level(self.leaf_level())
    }

    /// The authentication path of leaf `i`.
    pub open spec fn path_of(&self, i: int) -> Seq<Seq<u8>> {
        level_path(self.leaf_level(), i)
    }

    /// The levels are consistent and the leaf level has the padded size.
    pub closed spec fn wf(&self) -> bool {
        &&& self.leaf_count >= 1
        &&& self.leaf_count <= 0x4000_0000
        &&& self.leaf_count <= padded_size(self.leaf_count as nat)
        &&& levels_ok(self.node_views(), 0, padded_size(self.leaf_count as nat) as int)
        &&& forall|i: int|
            self.leaf_count <= i < padded_size(self.leaf_count as nat) ==> #[trigger] self.node_views()[i] == zero_hash()
    }
}

/// Appends `other` to `v`.
fn append_bytes(v: &mut Vec<u8>, other: &[u8])
    ensures
        final(v)@ == old(v)@ + other@,
{
    v.extend_from_slice(other);
    assert(final(v)@ =~= old(v)@ + other@);
}

/// Hash a leaf: `H(0x00 || leaf_bytes)`.
fn hash_leaf(leaf: &[u8]) -> (r: Hash)
    ensures
        r@ == leaf_hash(leaf@),
{
    let mut buf: Vec<u8> = Vec::new();
    buf.push(0u8);
    append_bytes(&mut buf, leaf);
    assert(buf@ =~= seq![0u8] + leaf@);
    sha3_256(buf.as_slice())
}

/// Hash an internal node: `H(0x01 || left || right)`.
fn hash_pair(left: &Hash, right: &Hash) -> (r: Hash)
    ensures
        r@ == node_hash(left@, right@),
{
    let mut buf: Vec<u8> = Vec::new();
    buf.push(1u8);
    append_bytes(&mut buf, left.as_slice());
    append_bytes(&mut buf, right.as_slice());
    assert(buf@ =~= seq![1u8] + left@ + right@);
    sha3_256(buf.as_slice())
}

/// Whether two hashes are equal, comparing every byte.
fn hash_eq(a: &Hash, b: &Hash) -> (r: bool)
    ensures
        r == (a@ == b@),
{
    let mut i: usize = 0;
    while i < 32
        invariant
            i <= 32,
            forall|t: int| 0 <= t < i ==> a@[t] == b@[t],
        decreases 32 - i,
    {
        if a[i] != b[i] {
            return false;
        }
        i = i + 1;
    }
    assert(a@ =~= b@);
    true
}

/// The smallest power of two that is at least `n`.
fn next_power_of_two(n: usize) -> (p: usize)
    requires
        1 <= n <= 0x4000_0000,
    ensures
        p == padded_size(n as nat),
        n <= p < 2 * n,
        p >= 1,
{
    let mut p: usize = 1;
    while p < n
        invariant
            1 <= p,
            p < 2 * n,
            1 <= n <= 0x4000_0000,
            pow2_at_least(n as nat, p as nat) == padded_size(n as nat),
        decreases 2 * n - p,
    {
        p = p * 2;
    }
    p
}

/// Recomputing the root along the path of a node reaches the stored root.
/// Completeness of authentication paths: recomputing the root from the hash of
/// the leaf stored at position `i` and the path of `i` gives the tree's root.
pub proof fn lemma_merkle_path_complete(tree: &MerkleTree, i: int)
    requires
        tree.wf(),
        0 <= i < tree.spec_leaf_count(),
    ensures
        climb(tree.leaf_node(i), i as nat, tree.path_of(i)) == tree.root_view(),
{
    let padded = padded_size(tree.leaf_count as nat);
    lemma_levels_len(tree.node_views(), 0, padded as int);
    lemma_padded_pow2(tree.leaf_count as nat, 1);
    lemma_climb_level(tree.leaf_level(), i);
}

/// The padded size is at least the number of leaves.
proof fn lemma_pow2_at_least_ge(n: nat, p: nat)
    requires
        p > 0,
    ensures
        pow2_at_least(n, p) >= n,
    decreases (if p >= n {
        0
    } else {
        n - p
    }),
{
    if p < n {
        lemma_pow2_at_least_ge(n, 2 * p);
    }
}

/// Every generated path verifies: in a tree built over `leaves`, climbing
/// from the hash of leaf `i` with the siblings on the path of `i` gives the
/// root, which is what `verify_path` checks for `generate_path(i)`.
pub proof fn lemma_built_path_verifies(tree: &MerkleTree, leaves: Seq<Seq<u8>>, i: int)
    requires
        tree.leaf_level() == padded_leaf_hashes(leaves),
        0 <= i < leaves.len(),
    ensures
        climb(leaf_hash(leaves[i]), i as nat, tree.path_of(i)) == tree.root_view(),
{
    lemma_padded_pow2(leaves.len(), 1);
    lemma_pow2_at_least_ge(leaves.len(), 1);
    lemma_climb_level(tree.leaf_level(), i);
}

/// `x` is a power of two.
pub open spec fn pow2_ok(x: nat) -> bool
    decreases x,
{
    if x <= 1 {
        x == 1
    } else {
        x % 2 == 0 && pow2_ok(x / 2)
    }
}

proof fn lemma_pow2_double(x: nat)
    requires
        pow2_ok(x),
    ensures
        pow2_ok(2 * x),
{
    assert((2 * x) / 2 == x);
}

proof fn lemma_padded_pow2(n: nat, p: nat)
    requires
        p > 0,
        pow2_ok(p),
    ensures
        pow2_ok(pow2_at_least(n, p)),
    decreases (if p >= n {
        0
    } else {
        n - p
    }),
{
    if p < n {
        lemma_pow2_double(p);
        lemma_padded_pow2(n, 2 * p);
    }
}

/// Level `start` of `size` nodes hashes pairwise into the following level.
pub open spec fn pairwise(nodes: Seq<Seq<u8>>, start: int, size: int) -> bool {
    forall|i: int|
        0 <= i < size / 2 ==> #[trigger] nodes[start + size + i] == node_hash(
            nodes[start + 2 * i],
            nodes[start + 2 * i + 1],
        )
}

/// Every level from `(start, size)` up to (but not including) the level that
/// starts at `stop` hashes pairwise into its successor.
pub open spec fn built(nodes: Seq<Seq<u8>>, start: int, size: int, stop: int) -> bool
    decreases size,
{
    if start == stop {
        true
    } else if size <= 1 {
        false
    } else {
        &&& size % 2 == 0
        &&& start >= 0
        &&& start + size + size / 2 <= nodes.len()
        &&& pairwise(nodes, start, size)
        &&& built(nodes, start + size, size / 2, stop)
    }
}

proof fn lemma_built_prefix(n1: Seq<Seq<u8>>, n2: Seq<Seq<u8>>, start: int, size: int, stop: int)
    requires
        built(n1, start, size, stop),
        n1.len() <= n2.len(),
        n2.subrange(0, n1.len() as int) == n1,
    ensures
        built(n2, start, size, stop),
    decreases size,
{
    if start != stop {
        assert forall|i: int| 0 <= i < size / 2 implies #[trigger] n2[start + size + i] == node_hash(
            n2[start + 2 * i],
            n2[start + 2 * i + 1],
        ) by {
            assert(n1[start + size + i] == node_hash(n1[start + 2 * i], n1[start + 2 * i + 1]));
            assert(n2[start + size + i] == n2.subrange(0, n1.len() as int)[start + size + i]);
            assert(n2[start + 2 * i] == n2.subrange(0, n1.len() as int)[start + 2 * i]);
            assert(n2[start + 2 * i + 1] == n2.subrange(0, n1.len() as int)[start + 2 * i + 1]);
        }
        lemma_built_prefix(n1, n2, start + size, size / 2, stop);
    }
}

proof fn lemma_built_le(nodes: Seq<Seq<u8>>, start: int, size: int, stop: int)
    requires
        built(nodes, start, size, stop),
    ensures
        start <= stop,
    decreases size,
{
    if start != stop {
        lemma_built_le(nodes, start + size, size / 2, stop);
    }
}

proof fn lemma_built_extend(nodes: Seq<Seq<u8>>, start: int, size: int, stop: int, ssize: int)
    requires
        built(nodes, start, size, stop),
        start >= 0,
        stop + 2 * ssize == start + 2 * size,
        pow2_ok(size as nat),
        size >= 1,
        ssize > 1,
        ssize % 2 == 0,
        stop + ssize + ssize / 2 <= nodes.len(),
        pairwise(nodes, stop, ssize),
    ensures
        built(nodes, start, size, stop + ssize),
    decreases size,
{
    if start == stop {
        assert(size == ssize);
        assert(built(nodes, start + size, size / 2, stop + ssize));
    } else {
        lemma_built_le(nodes, start + size, size / 2, stop);
        lemma_built_extend(nodes, start + size, size / 2, stop, ssize);
    }
}

proof fn lemma_built_levels(nodes: Seq<Seq<u8>>, start: int, size: int)
    requires
        built(nodes, start, size, nodes.len() - 1),
        nodes.len() - 1 + 2 == start + 2 * size,
        pow2_ok(size as nat),
        size >= 1,
        start >= 0,
    ensures
        levels_ok(nodes, start, size),
    decreases size,
{
    if start != nodes.len() - 1 {
        lemma_built_levels(nodes, start + size, size / 2);
    }
}

impl MerkleTree {
    /// Build a tree from raw leaf bytes (each entry the serialization of a
    /// polynomial). The tree is padded to the next power of two with all-zero
    /// placeholder hashes.
    pub fn build(leaves: &[Vec<u8>]) -> (r: Self)
        requires
            1 <= leaves@.len() <= 0x4000_0000,
        ensures
            r.wf(),
            r.spec_leaf_count() == leaves@.len(),
            forall|i: int| 0 <= i < leaves@.len() ==> #[trigger] r.leaf_node(i) == leaf_hash(leaves@[i]@),
            r.leaf_level() == padded_leaf_hashes(leaves@.map_values(|l: Vec<u8>| l@)),
            r.root_view() == merkle_root(leaves@.map_values(|l: Vec<u8>| l@)),
    {
        let leaf_count = leaves.len();
        let padded = next_power_of_two(leaf_count);
        proof {
            lemma_padded_pow2(leaf_count as nat, 1);
        }
        let mut nodes: Vec<Hash> = Vec::with_capacity(2 * padded);
        let mut i: usize = 0;
        while i < padded
            invariant
                leaf_count == leaves@.len(),
                i <= padded,
                nodes@.len() == i,
                forall|t: int| 0 <= t < i ==> #[trigger] nodes@[t]@ == if t < leaf_count {
                    leaf_hash(leaves@[t]@)
                } else {
                    zero_hash()
                },
            decreases padded - i,
        {
            if i < leaf_count {
                nodes.push(hash_leaf(leaves[i].as_slice()));
            } else {
                let z = [0u8; 32];
                assert(z@ =~= zero_hash());
                nodes.push(z);
            }
            i = i + 1;
        }
        let ghost leaf_level = hash_views(nodes@);
        let mut level_start: usize = 0;
        let mut level_size: usize = padded;
        while level_size > 1
            invariant
                1 <= level_size <= padded,
                padded <= 0x8000_0000,
                level_start + level_size == nodes@.len(),
                level_start + 2 * level_size == 2 * padded,
                padded <= nodes@.len(),
                hash_views(nodes@).subrange(0, padded as int) == leaf_level,
                pow2_ok(level_size as nat),
                pow2_ok(padded as nat),
                built(hash_views(nodes@), 0, padded as int, level_start as int),
            decreases level_size,
        {
            let half = level_size / 2;
            let ghost pre = hash_views(nodes@);
            let mut k: usize = 0;
            while k < half
                invariant
                    level_start + level_size + k == nodes@.len(),
                    level_start + 2 * level_size == 2 * padded,
                    padded <= 0x8000_0000,
                    k <= half,
                    half == level_size / 2,
                    nodes@.len() >= pre.len(),
                    hash_views(nodes@).subrange(0, pre.len() as int) == pre,
                    pre.len() == level_start + level_size,
                    forall|t: int| 0 <= t < k ==> #[trigger] hash_views(nodes@)[level_start + level_size + t] == node_hash(
                        hash_views(nodes@)[level_start + 2 * t],
                        hash_views(nodes@)[level_start + 2 * t + 1],
                    ),
                decreases half - k,
            {
                let left = nodes[level_start + 2 * k];
                let right = nodes[level_start + 2 * k + 1];
                let h = hash_pair(&left, &right);
                let ghost before = nodes@;
                nodes.push(h);
                proof {
                    assert(hash_views(nodes@) =~= hash_views(before).push(h@));
                    assert(hash_views(nodes@).subrange(0, pre.len() as int) =~= pre);
                }
                k = k + 1;
            }
            proof {
                let post = hash_views(nodes@);
                lemma_built_prefix(pre, post, 0, padded as int, level_start as int);
                assert(post.subrange(0, padded as int) =~= leaf_level) by {
                    assert(pre.subrange(0, padded as int) == leaf_level);
                }
                lemma_built_extend(post, 0, padded as int, level_start as int, level_size as int);
            }
            level_start = level_start + level_size;
            level_size = half;
        }
        proof {
            let v = hash_views(nodes@);
            lemma_built_levels(v, 0, padded as int);
            assert forall|t: int| 0 <= t < padded implies #[trigger] v[t] == leaf_level[t] by {
                assert(v.subrange(0, padded as int)[t] == v[t]);
            }
        }
        let r = MerkleTree { nodes, leaf_count };
        proof {
            assert forall|t: int| 0 <= t < leaf_count implies #[trigger] r.leaf_node(t) == leaf_hash(leaves@[t]@) by {
                assert(leaf_level[t] == nodes@[t]@);
            }
            let v = hash_views(nodes@);
            let views = leaves@.map_values(|l: Vec<u8>| l@);
            lemma_levels_root(v, 0, padded as int);
            assert(v.subrange(0, padded as int) =~= padded_leaf_hashes(views)) by {
                assert forall|t: int| 0 <= t < padded implies #[trigger] v.subrange(0, padded as int)[t]
                    == padded_leaf_hashes(views)[t] by {
                    assert(v[t] == leaf_level[t]);
                    if t < leaf_count {
                        assert(views[t] == leaves@[t]@);
                    }
                }
            }
        }
        r
    }
}

proof fn lemma_levels_len(nodes: Seq<Seq<u8>>, start: int, size: int)
    requires
        levels_ok(nodes, start, size),
    ensures
        0 <= start < nodes.len(),
        start + size <= nodes.len(),
    decreases size,
{
    if size > 1 {
        lemma_levels_len(nodes, start + size, size / 2);
    }
}

impl MerkleTree {
    /// The 32-byte Merkle root (the commitment `com`).
    pub fn root(&self) -> (r: Hash)
        requires
            self.wf(),
        ensures
            r@ == self.root_view(),
    {
        proof {
            lemma_levels_len(self.node_views(), 0, padded_size(self.leaf_count as nat) as int);
            lemma_levels_root(self.node_views(), 0, padded_size(self.leaf_count as nat) as int);
        }
        self.nodes[self.nodes.len() - 1]
    }

    /// Number of real leaves.
    pub fn leaf_count(&self) -> (r: usize)
        ensures
            r == self.spec_leaf_count(),
    {
        self.leaf_count
    }

    /// Authentication path for leaf `index`.
    pub fn generate_path(&self, index: usize) -> (r: MerklePath)
        requires
            self.wf(),
            index < self.spec_leaf_count(),
        ensures
            r.index == index,
            hash_views(r.siblings@) == self.path_of(index as int),
            r.siblings@.len() <= 30,
    {
        let padded = next_power_of_two(self.leaf_count);
        let ghost views = self.node_views();
        let total = self.nodes.len();
        let mut siblings: Vec<Hash> = Vec::new();
        let mut idx = index;
        let mut level_start: usize = 0;
        let mut level_size: usize = padded;
        proof {
            assert(hash_views(siblings@) + path_from(views, 0, padded as int, index as int) =~= path_from(
                views,
                0,
                padded as int,
                index as int,
            ));
        }
        while level_size > 1
            invariant
                views == self.node_views(),
                views.len() == self.nodes@.len(),
                total == views.len(),
                levels_ok(views, level_start as int, level_size as int),
                idx < level_size,
                hash_views(siblings@) + path_from(views, level_start as int, level_size as int, idx as int)
                    == path_from(views, 0, padded as int, index as int),
            decreases level_size,
        {
            proof {
                lemma_levels_len(views, level_start as int + level_size as int, level_size as int / 2);
            }
            let sibling = if idx % 2 == 0 {
                idx + 1
            } else {
                idx - 1
            };
            let ghost rest = path_from(views, level_start as int, level_size as int, idx as int);
            let ghost before = siblings@;
            siblings.push(self.nodes[level_start + sibling]);
            proof {
                assert(rest =~= seq![views[level_start + sibling]] + path_from(
                    views,
                    level_start + level_size,
                    level_size as int / 2,
                    idx as int / 2,
                ));
                assert(hash_views(siblings@) =~= hash_views(before).push(views[level_start + sibling]));
                assert(hash_views(siblings@) + path_from(views, level_start + level_size, level_size as int / 2, idx as int / 2)
                    =~= hash_views(before) + rest);
            }
            idx = idx / 2;
            level_start = level_start + level_size;
            level_size = level_size / 2;
        }
        proof {
            assert(path_from(views, level_start as int, level_size as int, idx as int) =~= Seq::empty());
            assert(hash_views(siblings@) =~= hash_views(siblings@) + Seq::<Seq<u8>>::empty());
            lemma_path_len(views, 0, padded as int, index as int);
            lemma_path_from_level(views, 0, padded as int, index as int);
            vstd::arithmetic::power2::lemma2_to64();
            lemma_levels_bound(padded as int, 30);
            assert(hash_views(siblings@).len() == siblings@.len());
        }
        MerklePath { index, siblings }
    }
}

/// Verify that `leaf_bytes` is the leaf at `path.index` under `root`:
/// recompute the leaf hash, walk the sibling list using the direction bits of
/// the index, and compare with the root.
pub fn verify_path(root: &Hash, leaf_bytes: &[u8], path: &MerklePath) -> (r: bool)
    ensures
        r == (climb(leaf_hash(leaf_bytes@), path.index as nat, hash_views(path.siblings@)) == root@),
{
    let mut h = hash_leaf(leaf_bytes);
    let mut idx = path.index;
    let ghost all = hash_views(path.siblings@);
    let mut k: usize = 0;
    proof {
        assert(all.subrange(0, all.len() as int) =~= all);
    }
    while k < path.siblings.len()
        invariant
            k <= path.siblings@.len(),
            all == hash_views(path.siblings@),
            climb(h@, idx as nat, all.subrange(k as int, all.len() as int)) == climb(
                leaf_hash(leaf_bytes@),
                path.index as nat,
                all,
            ),
        decreases path.siblings@.len() - k,
    {
        let sibling = path.siblings[k];
        let ghost rest = all.subrange(k as int, all.len() as int);
        proof {
            assert(rest[0] == sibling@);
            assert(rest.drop_first() =~= all.subrange(k + 1, all.len() as int));
        }
        if idx % 2 == 0 {
            h = hash_pair(&h, &sibling);
        } else {
            h = hash_pair(&sibling, &h);
        }
        idx = idx / 2;
        k = k + 1;
    }
    proof {
        assert(all.subrange(k as int, all.len() as int) =~= Seq::<Seq<u8>>::empty());
    }
    hash_eq(&h, root)
}

} // verus!
