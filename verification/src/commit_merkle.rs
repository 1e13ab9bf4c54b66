//! Merkle trees of 32-byte blocks, hashed with BLAKE3.
//!
//! They authenticate the commitments of a repetition and are never evaluated inside a circuit.

use crate::encoding;
use crate::hash;
use crate::tree;
use vstd::arithmetic::power2::*;
use vstd::prelude::*;

verus! {

/// How two children combine.
pub open spec fn combine() -> spec_fn(Seq<u8>, Seq<u8>) -> Seq<u8> {
    |a: Seq<u8>, b: Seq<u8>| hash::blake3_digest(a + b)
}

/// The root of the tree over a list of blocks.
pub open spec fn commit_root(leaves: Seq<Seq<u8>>) -> Seq<u8> {
    tree::root(
        tree::padded(leaves, encoding::zero_block()),
        tree::tree_depth(leaves.len()),
        combine(),
    )
}

/// The bytes that are hashed to the value above level `level`, on the way from a leaf to the root.
pub open spec fn hashed_above(
    leaf: Seq<u8>,
    index: nat,
    siblings: Seq<Seq<u8>>,
    level: nat,
) -> Seq<u8> {
    let current = tree::fold(leaf, index, siblings, level, combine());
    if (index / pow2(level)) % 2 == 0 {
        current + siblings[level as int]
    } else {
        siblings[level as int] + current
    }
}

/// Two different byte strings, hashed at the same level of two ways to the root, that have the same
/// digest.
pub open spec fn paths_collide(
    a: Seq<u8>,
    s: Seq<Seq<u8>>,
    b: Seq<u8>,
    t: Seq<Seq<u8>>,
    index: nat,
    level: nat,
) -> bool {
    &&& hashed_above(a, index, s, level) != hashed_above(b, index, t, level)
    &&& hash::blake3_digest(hashed_above(a, index, s, level)) == hash::blake3_digest(
        hashed_above(b, index, t, level),
    )
}

/// Trees bind: if two leaves have ways from the same index to the same root, they are equal, or two
/// byte strings that are hashed on the ways collide under BLAKE3.
pub proof fn lemma_paths_bind(
    a: Seq<u8>,
    s: Seq<Seq<u8>>,
    b: Seq<u8>,
    t: Seq<Seq<u8>>,
    index: nat,
    n: nat,
)
    requires
        n <= s.len(),
        n <= t.len(),
        forall|k: int| 0 <= k < n ==> (#[trigger] s[k]).len() == t[k].len(),
        tree::fold(a, index, s, n, combine()) == tree::fold(b, index, t, n, combine()),
    ensures
        a == b || exists|level: nat| level < n && #[trigger] paths_collide(a, s, b, t, index, level),
    decreases n,
{
    if n > 0 {
        let m = (n - 1) as nat;
        let u = hashed_above(a, index, s, m);
        let v = hashed_above(b, index, t, m);
        let x = tree::fold(a, index, s, m, combine());
        let y = tree::fold(b, index, t, m, combine());
        assert(tree::fold(a, index, s, n, combine()) == hash::blake3_digest(u));
        assert(tree::fold(b, index, t, n, combine()) == hash::blake3_digest(v));
        if u == v {
            assert(s[m as int].len() == t[m as int].len());
            if (index / pow2(m)) % 2 == 0 {
                assert(u.len() == x.len() + s[m as int].len());
                assert(v.len() == y.len() + t[m as int].len());
                assert(x =~= u.subrange(0, x.len() as int));
                assert(y =~= v.subrange(0, y.len() as int));
            } else {
                let k = s[m as int].len() as int;
                assert(x =~= u.subrange(k, u.len() as int));
                assert(y =~= v.subrange(k, v.len() as int));
            }
            lemma_paths_bind(a, s, b, t, index, m);
            if a != b {
                let level = choose|level: nat|
                    level < m && #[trigger] paths_collide(a, s, b, t, index, level);
                assert(level < n && paths_collide(a, s, b, t, index, level));
            }
        } else {
            assert(paths_collide(a, s, b, t, index, m));
        }
    }
}

fn blake3_hash_pair(left: &[u8; 32], right: &[u8; 32]) -> (r: [u8; 32])
    ensures
        r@ == combine()(left@, right@),
{
    let mut input: Vec<u8> = Vec::with_capacity(64);
    encoding::push_block(&mut input, left);
    encoding::push_block(&mut input, right);
    proof {
        assert(input@ =~= left@ + right@);
    }
    hash::blake3_hash(&input)
}

/// A leaf and the siblings on its way to the root.
#[derive(Debug)]
pub struct CommitMerkleProof {
    pub leaf: [u8; 32],
    pub leaf_index: usize,
    pub siblings: Vec<[u8; 32]>,
    pub root: [u8; 32],
}

impl CommitMerkleProof {
    /// What the leaf and the siblings combine to.
    pub open spec fn computed_root(&self) -> Seq<u8> {
        tree::fold(
            self.leaf@,
            self.leaf_index as nat,
            encoding::blocks(self.siblings@),
            self.siblings@.len(),
            combine(),
        )
    }

    /// Whether the leaf and the siblings combine to the root.
    pub fn verify(&self) -> (r: bool)
        ensures
            r == (self.computed_root() == self.root@),
            r == (tree::fold(
                self.leaf@,
                self.leaf_index as nat,
                encoding::blocks(self.siblings@),
                self.siblings@.len(),
                combine(),
            ) == self.root@),
    {
        let mut current: [u8; 32] = self.leaf;
        let mut idx: usize = self.leaf_index;
        let mut k: usize = 0;
        proof {
            lemma2_to64();
            vstd::arithmetic::div_mod::lemma_div_basics(self.leaf_index as int);
        }
        while k < self.siblings.len()
            invariant
                k <= self.siblings.len(),
                idx == self.leaf_index as nat / pow2(k as nat),
                current@ == tree::fold(
                    self.leaf@,
                    self.leaf_index as nat,
                    encoding::blocks(self.siblings@),
                    k as nat,
                    combine(),
                ),
            decreases self.siblings.len() - k,
        {
            let sibling: [u8; 32] = self.siblings[k];
            if idx % 2 == 0 {
                current = blake3_hash_pair(&current, &sibling);
            } else {
                current = blake3_hash_pair(&sibling, &current);
            }
            proof {
                tree::lemma_halve(self.leaf_index as nat, k as nat);
            }
            idx = idx / 2;
            k = k + 1;
        }
        encoding::same_block(&current, &self.root)
    }
}

impl Clone for CommitMerkleProof {
    fn clone(&self) -> (r: Self)
        ensures
            r.leaf == self.leaf,
            r.leaf_index == self.leaf_index,
            r.siblings@ == self.siblings@,
            r.root == self.root,
    {
        CommitMerkleProof {
            leaf: self.leaf,
            leaf_index: self.leaf_index,
            siblings: encoding::copy_blocks(&self.siblings),
            root: self.root,
        }
    }
}

/// A Merkle tree with all its nodes, in heap order.
#[derive(Debug)]
pub struct CommitTree {
    leaves: Vec<[u8; 32]>,
    nodes: Vec<[u8; 32]>,
    depth: usize,
}

impl CommitTree {
    #[verifier::type_invariant]
    spec fn consistent(self) -> bool {
        &&& self.leaves@.len() == pow2(self.depth as nat)
        &&& self.nodes@.len() == 2 * pow2(self.depth as nat)
        &&& forall|pos: int|
            1 <= pos < self.nodes@.len() ==> (#[trigger] self.nodes@[pos])@ == tree::node(
                encoding::blocks(self.leaves@),
                self.depth as nat,
                pos as nat,
                combine(),
            )
    }

    /// The leaves, with the zeros that fill the last level.
    pub closed spec fn leaves(self) -> Seq<Seq<u8>> {
        encoding::blocks(self.leaves@)
    }

    /// Number of levels above the leaves.
    pub closed spec fn depth(self) -> nat {
        self.depth as nat
    }

    /// Builds the tree over a list of blocks. The last level is filled up with zeros to a power
    /// of two.
    pub fn build(leaves: &[[u8; 32]]) -> (r: Self)
        requires
            2 * pow2(tree::tree_depth(leaves@.len())) <= usize::MAX,
        ensures
            r.leaves() == tree::padded(encoding::blocks(leaves@), encoding::zero_block()),
            r.depth() == tree::tree_depth(leaves@.len()),
    {
        let depth: usize = tree::depth_for(leaves.len());
        let base: usize = tree::power_of_two(depth);
        let ghost all = tree::padded(encoding::blocks(leaves@), encoding::zero_block());
        let zero: [u8; 32] = [0u8; 32];
        proof {
            assert(zero@ =~= encoding::zero_block());
        }
        let mut filled: Vec<[u8; 32]> = Vec::with_capacity(base);
        let mut nodes: Vec<[u8; 32]> = Vec::with_capacity(2 * base);
        let mut i: usize = 0;
        while i < base
            invariant
                i <= base,
                base == pow2(depth as nat),
                depth == tree::tree_depth(leaves@.len()),
                zero@ == encoding::zero_block(),
                all == tree::padded(encoding::blocks(leaves@), encoding::zero_block()),
                filled@.len() == i,
                nodes@.len() == i,
                forall|j: int| 0 <= j < i ==> (#[trigger] filled@[j])@ == all[j],
            decreases base - i,
        {
            if i < leaves.len() {
                filled.push(leaves[i]);
            } else {
                filled.push(zero);
            }
            nodes.push(zero);
            i = i + 1;
        }
        proof {
            assert(encoding::blocks(filled@) =~= all);
        }
        let mut j: usize = 0;
        while j < base
            invariant
                j <= base,
                base == pow2(depth as nat),
                encoding::blocks(filled@) == all,
                filled@.len() == base,
                all.len() == base,
                nodes@.len() == base + j,
                forall|pos: int|
                    base <= pos < base + j ==> (#[trigger] nodes@[pos])@ == all[pos - base],
            decreases base - j,
        {
            proof {
                assert(all[j as int] == filled@[j as int]@);
            }
            nodes.push(filled[j]);
            j = j + 1;
        }
        let mut pos: usize = base;
        proof {
            lemma_pow2_pos(depth as nat);
            assert forall|p: int| base <= p < 2 * base implies (#[trigger] nodes@[p])@
                == tree::node(
                all,
                depth as nat,
                p as nat,
                combine(),
            ) by {
                assert(nodes@[p]@ == all[p - base]);
            }
        }
        while pos > 1
            invariant
                1 <= pos <= base,
                2 * base <= usize::MAX,
                base == pow2(depth as nat),
                nodes@.len() == 2 * base,
                forall|p: int|
                    pos <= p < 2 * base ==> (#[trigger] nodes@[p])@ == tree::node(
                        all,
                        depth as nat,
                        p as nat,
                        combine(),
                    ),
            decreases pos,
        {
            pos = pos - 1;
            let left: [u8; 32] = nodes[2 * pos];
            let right: [u8; 32] = nodes[2 * pos + 1];
            nodes[pos] = blake3_hash_pair(&left, &right);
        }
        CommitTree { leaves: filled, nodes, depth }
    }

    /// The root.
    pub fn root(&self) -> (r: [u8; 32])
        ensures
            r@ == tree::root(self.leaves(), self.depth(), combine()),
    {
        proof {
            use_type_invariant(self);
            lemma_pow2_pos(self.depth as nat);
        }
        self.nodes[1]
    }

    /// The path of the leaf at `leaf_index`. It verifies.
    pub fn prove_membership(&self, leaf_index: usize) -> (r: CommitMerkleProof)
        requires
            leaf_index < self.leaves().len(),
        ensures
            r.leaf@ == self.leaves()[leaf_index as int],
            r.leaf_index == leaf_index,
            encoding::blocks(r.siblings@) == tree::path(
                self.leaves(),
                self.depth(),
                leaf_index as nat,
                combine(),
            ),
            r.root@ == tree::root(self.leaves(), self.depth(), combine()),
            r.computed_root() == r.root@,
    {
        proof {
            use_type_invariant(self);
        }
        let ghost index = leaf_index as nat;
        let ghost depth = self.depth as nat;
        let ghost expected = tree::path(encoding::blocks(self.leaves@), depth, index, combine());
        let mut siblings: Vec<[u8; 32]> = Vec::with_capacity(self.depth);
        let mut pos: usize = self.nodes.len() / 2 + leaf_index;
        let mut k: usize = 0;
        proof {
            lemma2_to64();
            vstd::arithmetic::div_mod::lemma_div_basics((pow2(depth) + index) as int);
        }
        while k < self.depth
            invariant
                k <= self.depth,
                depth == self.depth,
                index < pow2(depth),
                expected == tree::path(encoding::blocks(self.leaves@), depth, index, combine()),
                self.consistent(),
                pos == tree::ancestor(depth, index, k as nat),
                siblings@.len() == k,
                forall|j: int| 0 <= j < k ==> (#[trigger] siblings@[j])@ == expected[j],
            decreases self.depth - k,
        {
            proof {
                tree::lemma_ancestor(depth, index, k as nat);
            }
            let other: usize = if pos % 2 == 0 {
                pos + 1
            } else {
                pos - 1
            };
            siblings.push(self.nodes[other]);
            pos = pos / 2;
            k = k + 1;
        }
        proof {
            assert(encoding::blocks(siblings@) =~= expected);
            tree::lemma_fold_path(encoding::blocks(self.leaves@), depth, index, combine());
        }
        CommitMerkleProof { leaf: self.leaves[leaf_index], leaf_index, siblings, root: self.root() }
    }
}

impl Clone for CommitTree {
    fn clone(&self) -> (r: Self)
        ensures
            r.leaves() == self.leaves(),
            r.depth() == self.depth(),
    {
        proof {
            use_type_invariant(self);
        }
        CommitTree {
            leaves: encoding::copy_blocks(&self.leaves),
            nodes: encoding::copy_blocks(&self.nodes),
            depth: self.depth,
        }
    }
}

/// The root over one block is that block. The root over twice as many blocks as fill a tree is the
/// BLAKE3 digest of the roots over the two halves.
pub proof fn lemma_roots(leaves: Seq<Seq<u8>>, depth: nat)
    requires
        leaves.len() == 2 * pow2(depth),
    ensures
        tree::root(leaves.subrange(0, 1), 0, combine()) == leaves[0],
        tree::root(leaves, depth + 1, combine()) == hash::blake3_digest(
            tree::root(leaves.subrange(0, pow2(depth) as int), depth, combine()) + tree::root(
                leaves.subrange(pow2(depth) as int, 2 * pow2(depth) as int),
                depth,
                combine(),
            ),
        ),
{
    tree::lemma_root_of_halves(leaves, depth, combine());
}

/// Blocks that do not fill a tree are followed by blocks of zeros.
pub proof fn lemma_root_of(leaves: Seq<Seq<u8>>, filled: Seq<Seq<u8>>, depth: nat)
    requires
        leaves.len() <= pow2(depth),
        depth > 0 ==> pow2((depth - 1) as nat) < leaves.len(),
        filled.len() == pow2(depth),
        forall|i: int| 0 <= i < leaves.len() ==> #[trigger] filled[i] == leaves[i],
        forall|i: int|
            leaves.len() <= i < filled.len() ==> #[trigger] filled[i] == Seq::new(32, |k: int| 0u8),
    ensures
        commit_root(leaves) == tree::root(filled, depth, combine()),
{
    let d = tree::tree_depth(leaves.len());
    tree::lemma_least_depth(leaves.len());
    if d < depth {
        if d < depth - 1 {
            lemma_pow2_strictly_increases(d, (depth - 1) as nat);
        }
    } else if depth < d {
        if depth < d - 1 {
            lemma_pow2_strictly_increases(depth, (d - 1) as nat);
        }
    }
    assert(d == depth);
    assert(encoding::zero_block() =~= Seq::new(32, |k: int| 0u8));
    assert(tree::padded(leaves, encoding::zero_block()) =~= filled);
}

/// A proof is checked from the leaf up: the leaf and its sibling are hashed, in the order that the
/// lowest bit of the index says, and the rest is checked at half the index.
pub proof fn lemma_checked_upwards(leaf: Seq<u8>, index: nat, siblings: Seq<Seq<u8>>)
    requires
        siblings.len() > 0,
    ensures
        tree::fold(leaf, index, siblings, 0, combine()) == leaf,
        tree::fold(leaf, index, siblings, siblings.len(), combine()) == tree::fold(
            if index % 2 == 0 {
                hash::blake3_digest(leaf + siblings[0])
            } else {
                hash::blake3_digest(siblings[0] + leaf)
            },
            index / 2,
            siblings.drop_first(),
            (siblings.len() - 1) as nat,
            combine(),
        ),
{
    tree::lemma_fold_first(leaf, index, siblings, (siblings.len() - 1) as nat, combine());
}

} // verus!
