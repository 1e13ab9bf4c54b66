//! Merkle trees of words, hashed with MiMC.
//!
//! The same hash is computed inside the set-membership circuit, so a path of such a tree is a
//! witness for that circuit.

use crate::mimc;
use crate::tree;
use vstd::arithmetic::power2::*;
use vstd::prelude::*;

verus! {

/// How two children combine.
pub open spec fn combine() -> spec_fn(u32, u32) -> u32 {
    |a: u32, b: u32| mimc::mimc_pair(a, b)
}

/// The root of the tree over a list of words.
pub open spec fn merkle_root(leaves: Seq<u32>) -> u32 {
    tree::root(tree::padded(leaves, 0), tree::tree_depth(leaves.len()), combine())
}

/// A leaf and the siblings on its way to the root.
#[derive(Debug)]
pub struct MerkleProof {
    pub leaf: u32,
    pub leaf_index: usize,
    pub siblings: Vec<u32>,
    pub root: u32,
}

impl MerkleProof {
    /// What the leaf and the siblings combine to.
    pub open spec fn computed_root(&self) -> u32 {
        tree::fold(
            self.leaf,
            self.leaf_index as nat,
            self.siblings@,
            self.siblings@.len(),
            combine(),
        )
    }

    /// Whether the leaf and the siblings combine to the root.
    pub fn verify(&self) -> (r: bool)
        ensures
            r == (self.computed_root() == self.root),
            r == (tree::fold(
                self.leaf,
                self.leaf_index as nat,
                self.siblings@,
                self.siblings@.len(),
                combine(),
            ) == self.root),
    {
        let mut current: u32 = self.leaf;
        let mut idx: usize = self.leaf_index;
        let mut k: usize = 0;
        proof {
            lemma2_to64();
            vstd::arithmetic::div_mod::lemma_div_basics(self.leaf_index as int);
        }
        while k < self.siblings.len()
            invariant
                k <= self.siblings.len(),
                idx == self.leaf_index as nat / pow2(k as nat),
                current == tree::fold(
                    self.leaf,
                    self.leaf_index as nat,
                    self.siblings@,
                    k as nat,
                    combine(),
                ),
            decreases self.siblings.len() - k,
        {
            let sibling: u32 = self.siblings[k];
            if idx % 2 == 0 {
                current = mimc::mimc_hash_native(current, sibling, mimc::MIMC_ROUNDS).0;
            } else {
                current = mimc::mimc_hash_native(sibling, current, mimc::MIMC_ROUNDS).0;
            }
            proof {
                tree::lemma_halve(self.leaf_index as nat, k as nat);
            }
            idx = idx / 2;
            k = k + 1;
        }
        current == self.root
    }
}

impl Clone for MerkleProof {
    fn clone(&self) -> (r: Self)
        ensures
            r.leaf == self.leaf,
            r.leaf_index == self.leaf_index,
            r.siblings@ == self.siblings@,
            r.root == self.root,
    {
        MerkleProof {
            leaf: self.leaf,
            leaf_index: self.leaf_index,
            siblings: crate::encoding::copy_words(&self.siblings),
            root: self.root,
        }
    }
}

/// A Merkle tree with all its nodes, in heap order.
#[derive(Debug)]
pub struct MerkleTree {
    leaves: Vec<u32>,
    nodes: Vec<u32>,
    depth: usize,
}

impl MerkleTree {
    #[verifier::type_invariant]
    spec fn consistent(self) -> bool {
        &&& self.leaves@.len() == pow2(self.depth as nat)
        &&& self.nodes@.len() == 2 * pow2(self.depth as nat)
        &&& forall|pos: int|
            1 <= pos < self.nodes@.len() ==> #[trigger] self.nodes@[pos] == tree::node(
                self.leaves@,
                self.depth as nat,
                pos as nat,
                combine(),
            )
    }

    /// The leaves, with the zeros that fill the last level.
    pub closed spec fn leaves(self) -> Seq<u32> {
        self.leaves@
    }

    /// Number of levels above the leaves.
    pub closed spec fn depth(self) -> nat {
        self.depth as nat
    }

    /// Builds the tree over a list of words. The last level is filled up with zeros to a power
    /// of two.
    pub fn build(leaves: &[u32]) -> (r: Self)
        requires
            2 * pow2(tree::tree_depth(leaves@.len())) <= usize::MAX,
        ensures
            r.leaves() == tree::padded(leaves@, 0),
            r.depth() == tree::tree_depth(leaves@.len()),
    {
        let depth: usize = tree::depth_for(leaves.len());
        let base: usize = tree::power_of_two(depth);
        let ghost all = tree::padded(leaves@, 0);
        let mut filled: Vec<u32> = Vec::with_capacity(base);
        let mut nodes: Vec<u32> = Vec::with_capacity(2 * base);
        let mut i: usize = 0;
        while i < base
            invariant
                i <= base,
                base == pow2(depth as nat),
                depth == tree::tree_depth(leaves@.len()),
                all == tree::padded(leaves@, 0),
                filled@.len() == i,
                nodes@.len() == i,
                forall|j: int| 0 <= j < i ==> #[trigger] filled@[j] == all[j],
            decreases base - i,
        {
            if i < leaves.len() {
                filled.push(leaves[i]);
            } else {
                filled.push(0);
            }
            nodes.push(0);
            i = i + 1;
        }
        proof {
            assert(filled@ =~= all);
        }
        let mut j: usize = 0;
        while j < base
            invariant
                j <= base,
                base == pow2(depth as nat),
                filled@ == all,
                all.len() == base,
                nodes@.len() == base + j,
                forall|pos: int|
                    base <= pos < base + j ==> #[trigger] nodes@[pos] == all[pos - base],
            decreases base - j,
        {
            nodes.push(filled[j]);
            j = j + 1;
        }
        let mut pos: usize = base;
        proof {
            lemma_pow2_pos(depth as nat);
            assert forall|p: int| base <= p < 2 * base implies #[trigger] nodes@[p] == tree::node(
                all,
                depth as nat,
                p as nat,
                combine(),
            ) by {
                assert(nodes@[p] == all[p - base]);
            }
        }
        while pos > 1
            invariant
                1 <= pos <= base,
                2 * base <= usize::MAX,
                base == pow2(depth as nat),
                nodes@.len() == 2 * base,
                forall|p: int|
                    pos <= p < 2 * base ==> #[trigger] nodes@[p] == tree::node(
                        all,
                        depth as nat,
                        p as nat,
                        combine(),
                    ),
            decreases pos,
        {
            pos = pos - 1;
            let left: u32 = nodes[2 * pos];
            let right: u32 = nodes[2 * pos + 1];
            nodes[pos] = mimc::mimc_hash_native(left, right, mimc::MIMC_ROUNDS).0;
        }
        MerkleTree { leaves: filled, nodes, depth }
    }

    /// The root.
    pub fn root(&self) -> (r: u32)
        ensures
            r == tree::root(self.leaves(), self.depth(), combine()),
    {
        proof {
            use_type_invariant(self);
            lemma_pow2_pos(self.depth as nat);
        }
        self.nodes[1]
    }

    /// The path of the leaf at `leaf_index`. It verifies.
    pub fn prove_membership(&self, leaf_index: usize) -> (r: MerkleProof)
        requires
            leaf_index < self.leaves().len(),
        ensures
            r.leaf == self.leaves()[leaf_index as int],
            r.leaf_index == leaf_index,
            r.siblings@ == tree::path(self.leaves(), self.depth(), leaf_index as nat, combine()),
            r.root == tree::root(self.leaves(), self.depth(), combine()),
            r.computed_root() == r.root,
    {
        proof {
            use_type_invariant(self);
        }
        let ghost index = leaf_index as nat;
        let ghost depth = self.depth as nat;
        let ghost expected = tree::path(self.leaves@, depth, index, combine());
        let mut siblings: Vec<u32> = Vec::with_capacity(self.depth);
        let mut pos: usize = self.nodes.len() / 2 + leaf_index;
        let mut k: usize = 0;
        proof {
            lemma2_to64();
            vstd::arithmetic::div_mod::lemma_div_basics((pow2(depth) + index) as int);
        }
        while k < self.depth
            invariant
                k <= self.depth,
                depth == self.depth,
                index < pow2(depth),
                expected == tree::path(self.leaves@, depth, index, combine()),
                self.consistent(),
                pos == tree::ancestor(depth, index, k as nat),
                siblings@.len() == k,
                forall|j: int| 0 <= j < k ==> #[trigger] siblings@[j] == expected[j],
            decreases self.depth - k,
        {
            proof {
                tree::lemma_ancestor(depth, index, k as nat);
            }
            let other: usize = if pos % 2 == 0 {
                pos + 1
            } else {
                pos - 1
            };
            siblings.push(self.nodes[other]);
            pos = pos / 2;
            k = k + 1;
        }
        proof {
            assert(siblings@ =~= expected);
            tree::lemma_fold_path(self.leaves@, depth, index, combine());
        }
        MerkleProof { leaf: self.leaves[leaf_index], leaf_index, siblings, root: self.root() }
    }
}

impl Clone for MerkleTree {
    fn clone(&self) -> (r: Self)
        ensures
            r.leaves() == self.leaves(),
            r.depth() == self.depth(),
    {
        proof {
            use_type_invariant(self);
        }
        MerkleTree {
            leaves: crate::encoding::copy_words(&self.leaves),
            nodes: crate::encoding::copy_words(&self.nodes),
            depth: self.depth,
        }
    }
}

/// The root over one word is that word. The root over twice as many words as fill a tree is the left
/// word of the MiMC hash, in 64 rounds, of the roots over the two halves.
pub proof fn lemma_roots(leaves: Seq<u32>, depth: nat)
    requires
        leaves.len() == 2 * pow2(depth),
    ensures
        tree::root(leaves.subrange(0, 1), 0, combine()) == leaves[0],
        tree::root(leaves, depth + 1, combine()) == mimc::mimc(
            tree::root(leaves.subrange(0, pow2(depth) as int), depth, combine()),
            tree::root(leaves.subrange(pow2(depth) as int, 2 * pow2(depth) as int), depth, combine()),
            64,
        ).0,
{
    tree::lemma_root_of_halves(leaves, depth, combine());
}

/// Members that do not fill a tree are followed by zeros.
pub proof fn lemma_root_of(leaves: Seq<u32>, filled: Seq<u32>, depth: nat)
    requires
        leaves.len() <= pow2(depth),
        depth > 0 ==> pow2((depth - 1) as nat) < leaves.len(),
        filled.len() == pow2(depth),
        forall|i: int| 0 <= i < leaves.len() ==> #[trigger] filled[i] == leaves[i],
        forall|i: int| leaves.len() <= i < filled.len() ==> #[trigger] filled[i] == 0,
    ensures
        merkle_root(leaves) == tree::root(filled, depth, combine()),
{
    let d = tree::tree_depth(leaves.len());
    tree::lemma_least_depth(leaves.len());
    if d < depth {
        if d < depth - 1 {
            lemma_pow2_strictly_increases(d, (depth - 1) as nat);
        }
    } else if depth < d {
        if depth < d - 1 {
            lemma_pow2_strictly_increases(depth, (d - 1) as nat);
        }
    }
    assert(d == depth);
    assert(tree::padded(leaves, 0) =~= filled);
}

/// A proof is checked from the leaf up: the leaf and its sibling are hashed, in the order that the
/// lowest bit of the index says, and the rest is checked at half the index.
pub proof fn lemma_checked_upwards(leaf: u32, index: nat, siblings: Seq<u32>)
    requires
        siblings.len() > 0,
    ensures
        tree::fold(leaf, index, siblings, 0, combine()) == leaf,
        tree::fold(leaf, index, siblings, siblings.len(), combine()) == tree::fold(
            if index % 2 == 0 {
                mimc::mimc(leaf, siblings[0], 64).0
            } else {
                mimc::mimc(siblings[0], leaf, 64).0
            },
            index / 2,
            siblings.drop_first(),
            (siblings.len() - 1) as nat,
            combine(),
        ),
{
    tree::lemma_fold_first(leaf, index, siblings, (siblings.len() - 1) as nat, combine());
}

} // verus!
