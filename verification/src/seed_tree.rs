//! Binary seed trees.
//!
//! A root seed grows into one seed per party: each seed has a left child `BLAKE3(seed, 0)` and a
//! right child `BLAKE3(seed, 1)`. To reveal all leaves but one, it is enough to hand out the
//! *co-path*: the sibling of each node on the way from the hidden leaf to the root. Whoever has
//! the co-path grows the subtrees below it again.
//!
//! If the number of parties is no power of two, the tree is that of the next power of two; the
//! leaves without a party are never used.

use crate::encoding;
use crate::hash;
use crate::tree;
use vstd::arithmetic::div_mod::*;
use vstd::arithmetic::power2::*;
use vstd::prelude::*;

verus! {

/// The child of a seed; side 0 is left and side 1 is right.
pub open spec fn seed_child(parent: Seq<u8>, side: nat) -> Seq<u8> {
    hash::blake3_digest(parent.push(side as u8))
}

/// The seed at a position of the tree.
pub open spec fn seed_at(root: Seq<u8>, pos: nat) -> Seq<u8>
    decreases pos,
{
    if pos <= 1 {
        root
    } else {
        seed_child(seed_at(root, pos / 2), pos % 2)
    }
}

/// The seeds of `n` parties.
pub open spec fn leaves_of(root: Seq<u8>, n: nat) -> Seq<Seq<u8>> {
    Seq::new(n, |i: int| seed_at(root, (pow2(tree::tree_depth(n)) + i) as nat))
}

/// The co-path that hides leaf `hidden`, leaf level first.
pub open spec fn co_path_of(root: Seq<u8>, n: nat, hidden: nat) -> Seq<Seq<u8>> {
    let depth = tree::tree_depth(n);
    Seq::new(
        depth,
        |k: int| seed_at(root, tree::sibling(tree::ancestor(depth, hidden, k as nat))),
    )
}

/// The leaves, with those below position `pos` grown from `seed`.
pub open spec fn grown(leaves: Seq<Seq<u8>>, seed: Seq<u8>, pos: nat, base: nat) -> Seq<Seq<u8>>
    decreases 2 * base - pos,
    when pos >= 1
{
    if pos >= base {
        if pos - base < leaves.len() {
            leaves.update(pos - base, seed)
        } else {
            leaves
        }
    } else {
        grown(
            grown(leaves, seed_child(seed, 0), 2 * pos, base),
            seed_child(seed, 1),
            2 * pos + 1,
            base,
        )
    }
}

/// The leaves after the subtrees of the first `k` entries of a co-path have been grown.
pub open spec fn regrown(co_path: Seq<Seq<u8>>, hidden: nat, depth: nat, k: nat) -> Seq<Seq<u8>>
    decreases k,
{
    if k == 0 {
        Seq::new(pow2(depth), |i: int| encoding::zero_block())
    } else {
        grown(
            regrown(co_path, hidden, depth, (k - 1) as nat),
            co_path[k - 1],
            tree::sibling(tree::ancestor(depth, hidden, (k - 1) as nat)),
            pow2(depth),
        )
    }
}

/// The seeds of `n` parties as far as a co-path determines them.
pub open spec fn reconstructed(co_path: Seq<Seq<u8>>, hidden: nat, n: nat) -> Seq<Seq<u8>> {
    let depth = tree::tree_depth(n);
    regrown(co_path, hidden, depth, depth).subrange(0, n as int)
}

/// Whether `pos` is `leaf` or above it.
spec fn under(leaf: nat, pos: nat) -> bool
    decreases leaf,
{
    leaf == pos || (leaf > pos && leaf > 0 && under(leaf / 2, pos))
}

/// Whether one of the first `k` entries of the co-path is at or above a leaf.
spec fn covered(leaf: nat, depth: nat, hidden: nat, k: nat) -> bool
    decreases k,
{
    k > 0 && (covered(leaf, depth, hidden, (k - 1) as nat) || under(
        leaf,
        tree::sibling(tree::ancestor(depth, hidden, (k - 1) as nat)),
    ))
}

proof fn lemma_under_children(leaf: nat, pos: nat)
    requires
        pos >= 1,
        leaf > pos,
    ensures
        under(leaf, pos) <==> under(leaf, 2 * pos) || under(leaf, 2 * pos + 1),
    decreases leaf,
{
    reveal_with_fuel(under, 2);
    if leaf / 2 > pos {
        lemma_under_children(leaf / 2, pos);
    }
}

proof fn lemma_grown(root: Seq<u8>, leaves: Seq<Seq<u8>>, pos: nat, base: nat)
    requires
        pos >= 1,
        pos < 2 * base,
        leaves.len() == base,
    ensures
        grown(leaves, seed_at(root, pos), pos, base).len() == base,
        forall|i: int|
            0 <= i < base ==> #[trigger] grown(leaves, seed_at(root, pos), pos, base)[i] == if under(
                (base + i) as nat,
                pos,
            ) {
                seed_at(root, (base + i) as nat)
            } else {
                leaves[i]
            },
    decreases 2 * base - pos,
{
    if pos < base {
        let seed = seed_at(root, pos);
        assert(seed_at(root, 2 * pos) == seed_child(seed, 0)) by {
            assert((2 * pos) / 2 == pos && (2 * pos) % 2 == 0);
        }
        assert(seed_at(root, 2 * pos + 1) == seed_child(seed, 1)) by {
            assert((2 * pos + 1) / 2 == pos && (2 * pos + 1) % 2 == 1);
        }
        lemma_grown(root, leaves, 2 * pos, base);
        let mid = grown(leaves, seed_child(seed, 0), 2 * pos, base);
        lemma_grown(root, mid, 2 * pos + 1, base);
        let end = grown(leaves, seed, pos, base);
        assert(end == grown(mid, seed_child(seed, 1), 2 * pos + 1, base));
        assert forall|i: int| 0 <= i < base implies #[trigger] end[i] == if under(
            (base + i) as nat,
            pos,
        ) {
            seed_at(root, (base + i) as nat)
        } else {
            leaves[i]
        } by {
            lemma_under_children((base + i) as nat, pos);
        }
    } else {
        let seed = seed_at(root, pos);
        let end = grown(leaves, seed, pos, base);
        assert forall|i: int| 0 <= i < base implies #[trigger] end[i] == if under(
            (base + i) as nat,
            pos,
        ) {
            seed_at(root, (base + i) as nat)
        } else {
            leaves[i]
        } by {
            if base + i != pos {
                lemma_under_leaf((base + i) as nat, pos, base);
            }
        }
    }
}

proof fn lemma_under_leaf(leaf: nat, pos: nat, base: nat)
    requires
        base <= pos,
        leaf < 2 * base,
        leaf != pos,
    ensures
        !under(leaf, pos),
{
    reveal_with_fuel(under, 2);
}

proof fn lemma_regrown(root: Seq<u8>, n: nat, hidden: nat, k: nat)
    requires
        hidden < pow2(tree::tree_depth(n)),
        k <= tree::tree_depth(n),
    ensures
        ({
            let depth = tree::tree_depth(n);
            let base = pow2(depth);
            let r = regrown(co_path_of(root, n, hidden), hidden, depth, k);
            &&& r.len() == base
            &&& forall|i: int|
                0 <= i < base ==> #[trigger] r[i] == if covered(
                    (base + i) as nat,
                    depth,
                    hidden,
                    k,
                ) {
                    seed_at(root, (base + i) as nat)
                } else {
                    encoding::zero_block()
                }
        }),
    decreases k,
{
    let depth = tree::tree_depth(n);
    let base = pow2(depth);
    if k > 0 {
        let m = (k - 1) as nat;
        lemma_regrown(root, n, hidden, m);
        tree::lemma_ancestor(depth, hidden, m);
        let pos = tree::sibling(tree::ancestor(depth, hidden, m));
        assert(co_path_of(root, n, hidden)[m as int] == seed_at(root, pos));
        lemma_grown(root, regrown(co_path_of(root, n, hidden), hidden, depth, m), pos, base);
    }
}

proof fn lemma_under_self(leaf: nat, k: nat)
    requires
        leaf >= 1,
    ensures
        under(leaf, leaf / pow2(k)),
    decreases k,
{
    lemma2_to64();
    lemma_pow2_pos(k);
    if k == 0 {
        lemma_div_basics(leaf as int);
    } else {
        let m = (k - 1) as nat;
        lemma_pow2_pos(m);
        lemma_pow2_unfold(k);
        lemma_div_denominator(leaf as int, 2, pow2(m) as int);
        assert(leaf / pow2(k) == (leaf / 2) / pow2(m));
        if leaf / 2 >= 1 {
            lemma_under_self(leaf / 2, m);
            lemma_div_nonincreasing((leaf / 2) as int, pow2(m) as int);
        } else {
            lemma_div_basics(leaf as int);
            assert(leaf == 1);
            lemma_basic_div(0, pow2(m) as int);
            assert(under(0, 0));
        }
    }
}

proof fn lemma_not_under_sibling(leaf: nat, k: nat)
    requires
        leaf / pow2(k) >= 2,
    ensures
        !under(leaf, tree::sibling(leaf / pow2(k))),
    decreases k,
{
    lemma2_to64();
    lemma_pow2_pos(k);
    let s = tree::sibling(leaf / pow2(k));
    if k == 0 {
        lemma_div_basics(leaf as int);
        reveal_with_fuel(under, 2);
    } else {
        let m = (k - 1) as nat;
        lemma_pow2_pos(m);
        lemma_pow2_unfold(k);
        lemma_div_denominator(leaf as int, 2, pow2(m) as int);
        assert(leaf / pow2(k) == (leaf / 2) / pow2(m));
        lemma_div_nonincreasing((leaf / 2) as int, pow2(m) as int);
        lemma_not_under_sibling(leaf / 2, m);
        assert(leaf > s);
    }
}

proof fn lemma_meet(leaf: nat, depth: nat, hidden: nat, k: nat) -> (level: nat)
    requires
        pow2(depth) <= leaf < 2 * pow2(depth),
        hidden < pow2(depth),
        k <= depth,
        leaf / pow2(k) != tree::ancestor(depth, hidden, k),
    ensures
        level < depth,
        leaf / pow2(level) == tree::sibling(tree::ancestor(depth, hidden, level)),
    decreases depth - k,
{
    if k == depth {
        lemma_pow2_pos(depth);
        lemma_fundamental_div_mod_converse(leaf as int, pow2(k) as int, 1, leaf - pow2(depth));
        lemma_fundamental_div_mod_converse(
            (pow2(depth) + hidden) as int,
            pow2(k) as int,
            1,
            hidden as int,
        );
        0
    } else {
        tree::lemma_ancestor(depth, hidden, k);
        tree::lemma_halve(leaf, k);
        if leaf / pow2(k + 1) == tree::ancestor(depth, hidden, k + 1) {
            k
        } else {
            lemma_meet(leaf, depth, hidden, k + 1)
        }
    }
}

proof fn lemma_covered_from(leaf: nat, depth: nat, hidden: nat, level: nat, k: nat)
    requires
        level < k,
        under(leaf, tree::sibling(tree::ancestor(depth, hidden, level))),
    ensures
        covered(leaf, depth, hidden, k),
    decreases k,
{
    if level < k - 1 {
        lemma_covered_from(leaf, depth, hidden, level, (k - 1) as nat);
    }
}

proof fn lemma_hidden_not_covered(depth: nat, hidden: nat, k: nat)
    requires
        hidden < pow2(depth),
        k <= depth,
    ensures
        !covered((pow2(depth) + hidden) as nat, depth, hidden, k),
    decreases k,
{
    if k > 0 {
        let m = (k - 1) as nat;
        lemma_hidden_not_covered(depth, hidden, m);
        tree::lemma_ancestor(depth, hidden, m);
        lemma_not_under_sibling((pow2(depth) + hidden) as nat, m);
    }
}

/// The co-path of a hidden leaf gives back every other leaf and nothing of the hidden one, whose
/// slot stays zero.
pub proof fn lemma_co_path_round_trip(root: Seq<u8>, n: nat, hidden: nat)
    requires
        hidden < n,
    ensures
        reconstructed(co_path_of(root, n, hidden), hidden, n).len() == n,
        forall|i: int|
            0 <= i < n && i != hidden ==> #[trigger] reconstructed(
                co_path_of(root, n, hidden),
                hidden,
                n,
            )[i] == leaves_of(root, n)[i],
        reconstructed(co_path_of(root, n, hidden), hidden, n)[hidden as int]
            == encoding::zero_block(),
{
    let depth = tree::tree_depth(n);
    let base = pow2(depth);
    tree::lemma_tree_depth(n);
    lemma_pow2_pos(depth);
    lemma_regrown(root, n, hidden, depth);
    let r = reconstructed(co_path_of(root, n, hidden), hidden, n);
    assert forall|i: int| 0 <= i < n && i != hidden implies #[trigger] r[i] == leaves_of(
        root,
        n,
    )[i] by {
        let leaf = (base + i) as nat;
        lemma2_to64();
        lemma_div_basics(leaf as int);
        lemma_div_basics((base + hidden) as int);
        let level = lemma_meet(leaf, depth, hidden, 0);
        lemma_under_self(leaf, level);
        lemma_covered_from(leaf, depth, hidden, level, depth);
    }
    lemma_hidden_not_covered(depth, hidden, depth);
}

fn derive_child(parent: &[u8; 32], side: u8) -> (r: [u8; 32])
    ensures
        r@ == seed_child(parent@, side as nat),
{
    let mut input: Vec<u8> = Vec::with_capacity(33);
    encoding::push_block(&mut input, parent);
    input.push(side);
    proof {
        assert(input@ =~= parent@.push(side));
    }
    hash::blake3_hash(&input)
}

/// A seed tree with all its nodes, in heap order.
pub struct SeedTree {
    nodes: Vec<[u8; 32]>,
    /// Number of leaves, a power of two.
    pub n_padded: usize,
    /// Number of parties.
    pub num_parties: usize,
}

impl SeedTree {
    /// The seed that the tree grows from.
    pub closed spec fn root_seed(self) -> Seq<u8> {
        self.nodes@[1]@
    }

    /// Number of parties.
    pub closed spec fn parties(self) -> nat {
        self.num_parties as nat
    }

    /// Number of leaves.
    pub closed spec fn leaf_count(self) -> nat {
        self.n_padded as nat
    }

    /// The nodes are those that the root seed grows into.
    pub closed spec fn wf(self) -> bool {
        &&& self.num_parties >= 2
        &&& self.n_padded == pow2(tree::tree_depth(self.num_parties as nat))
        &&& 2 * self.n_padded < usize::MAX
        &&& self.nodes@.len() == 2 * self.n_padded + 1
        &&& forall|pos: int|
            1 <= pos < 2 * self.n_padded ==> (#[trigger] self.nodes@[pos])@ == seed_at(
                self.nodes@[1]@,
                pos as nat,
            )
    }

    /// Grows the tree for a number of parties.
    pub fn build(root_seed: [u8; 32], num_parties: usize) -> (r: Self)
        requires
            num_parties >= 2,
            2 * pow2(tree::tree_depth(num_parties as nat)) < usize::MAX,
        ensures
            r.wf(),
            r.root_seed() == root_seed@,
            r.parties() == num_parties,
            r.leaf_count() == pow2(tree::tree_depth(num_parties as nat)),
    {
        let depth: usize = tree::depth_for(num_parties);
        let n_padded: usize = tree::power_of_two(depth);
        let zero: [u8; 32] = [0u8; 32];
        let mut nodes: Vec<[u8; 32]> = Vec::with_capacity(2 * n_padded + 1);
        nodes.push(zero);
        nodes.push(root_seed);
        proof {
            lemma_pow2_pos(depth as nat);
        }
        let mut i: usize = 1;
        while i < n_padded
            invariant
                1 <= i <= n_padded,
                2 * n_padded < usize::MAX,
                nodes@.len() == 2 * i,
                nodes@[1]@ == root_seed@,
                forall|pos: int|
                    1 <= pos < 2 * i ==> (#[trigger] nodes@[pos])@ == seed_at(
                        root_seed@,
                        pos as nat,
                    ),
            decreases n_padded - i,
        {
            let parent: [u8; 32] = nodes[i];
            nodes.push(derive_child(&parent, 0));
            nodes.push(derive_child(&parent, 1));
            proof {
                assert(nodes@[i as int]@ == seed_at(root_seed@, i as nat));
                assert((2 * i) as nat / 2 == i && (2 * i) as nat % 2 == 0);
                assert((2 * i + 1) as nat / 2 == i && (2 * i + 1) as nat % 2 == 1);
                assert(seed_at(root_seed@, (2 * i) as nat) == seed_child(
                    seed_at(root_seed@, i as nat),
                    0,
                ));
                assert(seed_at(root_seed@, (2 * i + 1) as nat) == seed_child(
                    seed_at(root_seed@, i as nat),
                    1,
                ));
            }
            i = i + 1;
        }
        nodes.push(zero);
        SeedTree { nodes, n_padded, num_parties }
    }

    /// The seeds of the parties.
    pub fn leaf_seeds(&self) -> (r: Vec<[u8; 32]>)
        requires
            self.wf(),
        ensures
            encoding::blocks(r@) == leaves_of(self.root_seed(), self.parties()),
    {
        proof {
            tree::lemma_tree_depth(self.num_parties as nat);
        }
        let mut out: Vec<[u8; 32]> = Vec::with_capacity(self.num_parties);
        let mut i: usize = 0;
        while i < self.num_parties
            invariant
                i <= self.num_parties,
                self.wf(),
                self.num_parties <= self.n_padded,
                out@.len() == i,
                forall|j: int|
                    0 <= j < i ==> (#[trigger] out@[j])@ == leaves_of(
                        self.root_seed(),
                        self.num_parties as nat,
                    )[j],
            decreases self.num_parties - i,
        {
            out.push(self.nodes[self.n_padded + i]);
            i = i + 1;
        }
        proof {
            assert(encoding::blocks(out@) =~= leaves_of(
                self.root_seed(),
                self.num_parties as nat,
            ));
        }
        out
    }

    /// The co-path that hides the leaf at `hidden_index`, leaf level first.
    pub fn co_path(&self, hidden_index: usize) -> (r: Vec<[u8; 32]>)
        requires
            self.wf(),
            hidden_index < self.parties(),
        ensures
            encoding::blocks(r@) == co_path_of(
                self.root_seed(),
                self.parties(),
                hidden_index as nat,
            ),
    {
        let depth: usize = tree::depth_for(self.num_parties);
        let ghost n = self.num_parties as nat;
        let ghost expected = co_path_of(self.root_seed(), n, hidden_index as nat);
        let mut out: Vec<[u8; 32]> = Vec::with_capacity(depth);
        let mut pos: usize = self.n_padded;
        proof {
            tree::lemma_tree_depth(n);
            lemma2_to64();
            lemma_div_basics((pow2(depth as nat) + hidden_index) as int);
        }
        pos = pos + hidden_index;
        let mut k: usize = 0;
        while k < depth
            invariant
                k <= depth,
                self.wf(),
                n == self.num_parties,
                depth == tree::tree_depth(n),
                hidden_index < pow2(depth as nat),
                expected == co_path_of(self.root_seed(), n, hidden_index as nat),
                pos == tree::ancestor(depth as nat, hidden_index as nat, k as nat),
                out@.len() == k,
                forall|j: int| 0 <= j < k ==> (#[trigger] out@[j])@ == expected[j],
            decreases depth - k,
        {
            proof {
                tree::lemma_ancestor(depth as nat, hidden_index as nat, k as nat);
            }
            let other: usize = if pos % 2 == 0 {
                pos + 1
            } else {
                pos - 1
            };
            out.push(self.nodes[other]);
            pos = pos / 2;
            k = k + 1;
        }
        proof {
            assert(encoding::blocks(out@) =~= expected);
        }
        out
    }
}

/// The seeds that a root seed grows into.
pub fn build_seed_tree(root_seed: [u8; 32], num_parties: usize) -> (r: Vec<[u8; 32]>)
    requires
        num_parties >= 2,
        2 * pow2(tree::tree_depth(num_parties as nat)) < usize::MAX,
    ensures
        encoding::blocks(r@) == leaves_of(root_seed@, num_parties as nat),
{
    SeedTree::build(root_seed, num_parties).leaf_seeds()
}

/// The co-path that hides one leaf of the tree of a root seed.
pub fn get_co_path(root_seed: [u8; 32], num_parties: usize, hidden_index: usize) -> (r: Vec<
    [u8; 32],
>)
    requires
        num_parties >= 2,
        2 * pow2(tree::tree_depth(num_parties as nat)) < usize::MAX,
        hidden_index < num_parties,
    ensures
        encoding::blocks(r@) == co_path_of(root_seed@, num_parties as nat, hidden_index as nat),
{
    SeedTree::build(root_seed, num_parties).co_path(hidden_index)
}

/// Grows the subtrees of a co-path and returns the leaves of the parties. The slot at
/// `hidden_index` stays zero when the co-path is that of `hidden_index`; it is no party's seed.
pub fn reconstruct_leaves_from_co_path(
    co_path: &[[u8; 32]],
    hidden_index: usize,
    num_parties: usize,
) -> (r: Vec<[u8; 32]>)
    requires
        co_path@.len() == tree::tree_depth(num_parties as nat),
        2 * pow2(tree::tree_depth(num_parties as nat)) < usize::MAX,
        pow2(tree::tree_depth(num_parties as nat)) + hidden_index < usize::MAX,
    ensures
        encoding::blocks(r@) == reconstructed(
            encoding::blocks(co_path@),
            hidden_index as nat,
            num_parties as nat,
        ),
        r@.len() == num_parties,
{
    let depth: usize = tree::depth_for(num_parties);
    let base: usize = tree::power_of_two(depth);
    let zero: [u8; 32] = [0u8; 32];
    let ghost path = encoding::blocks(co_path@);
    let ghost hidden = hidden_index as nat;
    let mut leaves: Vec<[u8; 32]> = Vec::with_capacity(base);
    let mut i: usize = 0;
    while i < base
        invariant
            i <= base,
            leaves@.len() == i,
            forall|j: int| 0 <= j < i ==> #[trigger] leaves@[j] == zero,
        decreases base - i,
    {
        leaves.push(zero);
        i = i + 1;
    }
    let mut pos: usize = base + hidden_index;
    let mut k: usize = 0;
    proof {
        assert(zero@ =~= encoding::zero_block());
        assert(encoding::blocks(leaves@) =~= regrown(path, hidden, depth as nat, 0));
        lemma2_to64();
        lemma_div_basics((pow2(depth as nat) + hidden_index) as int);
        tree::lemma_tree_depth(num_parties as nat);
    }
    while k < co_path.len()
        invariant
            k <= co_path.len(),
            co_path@.len() == depth,
            base == pow2(depth as nat),
            2 * base < usize::MAX,
            base + hidden_index < usize::MAX,
            hidden == hidden_index,
            path == encoding::blocks(co_path@),
            pos == tree::ancestor(depth as nat, hidden, k as nat),
            pos <= base + hidden_index,
            leaves@.len() == base,
            encoding::blocks(leaves@) == regrown(path, hidden, depth as nat, k as nat),
        decreases co_path.len() - k,
    {
        proof {
            lemma_ancestor_any(depth as nat, hidden, k as nat);
        }
        let other: usize = if pos % 2 == 0 {
            pos + 1
        } else {
            pos - 1
        };
        let seed: [u8; 32] = co_path[k];
        expand_subtree(&seed, other, base, &mut leaves);
        pos = pos / 2;
        k = k + 1;
    }
    let mut out: Vec<[u8; 32]> = Vec::with_capacity(num_parties);
    let mut j: usize = 0;
    while j < num_parties
        invariant
            j <= num_parties,
            num_parties <= leaves@.len(),
            out@ == leaves@.subrange(0, j as int),
        decreases num_parties - j,
    {
        out.push(leaves[j]);
        j = j + 1;
    }
    proof {
        assert(encoding::blocks(out@) =~= encoding::blocks(leaves@).subrange(
            0,
            num_parties as int,
        ));
    }
    out
}

proof fn lemma_ancestor_any(depth: nat, index: nat, level: nat)
    requires
        level < depth,
    ensures
        tree::ancestor(depth, index, level) >= 2,
        tree::ancestor(depth, index, level + 1) == tree::ancestor(depth, index, level) / 2,
{
    lemma_pow2_pos(level);
    lemma_pow2_unfold(level + 1);
    let x = (pow2(depth) + index) as int;
    lemma_div_denominator(x, pow2(level) as int, 2);
    let rest = (depth - level) as nat;
    lemma_pow2_adds(level, rest);
    lemma_pow2_unfold(rest);
    lemma_pow2_pos((rest - 1) as nat);
    lemma_div_is_ordered(pow2(depth) as int, x, pow2(level) as int);
    lemma_div_by_multiple(pow2(rest) as int, pow2(level) as int);
    assert(pow2(rest) * pow2(level) == pow2(level) * pow2(rest)) by (nonlinear_arith);
}

/// Grows the subtree at position `pos` from `seed` into the leaves.
fn expand_subtree(seed: &[u8; 32], pos: usize, n_padded: usize, leaves: &mut Vec<[u8; 32]>)
    requires
        pos >= 1,
        2 * n_padded < usize::MAX,
    ensures
        final(leaves)@.len() == old(leaves)@.len(),
        encoding::blocks(final(leaves)@) == grown(
            encoding::blocks(old(leaves)@),
            seed@,
            pos as nat,
            n_padded as nat,
        ),
    decreases 2 * n_padded - pos,
{
    if pos >= n_padded {
        let idx: usize = pos - n_padded;
        if idx < leaves.len() {
            leaves[idx] = *seed;
        }
        proof {
            assert(encoding::blocks(leaves@) =~= grown(
                encoding::blocks(old(leaves)@),
                seed@,
                pos as nat,
                n_padded as nat,
            ));
        }
        return ;
    }
    let left: [u8; 32] = derive_child(seed, 0);
    let right: [u8; 32] = derive_child(seed, 1);
    expand_subtree(&left, 2 * pos, n_padded, leaves);
    expand_subtree(&right, 2 * pos + 1, n_padded, leaves);
}

/// The left child of a seed is the BLAKE3 digest of the seed and a zero byte, the right child that of
/// the seed and a one byte; the seeds of the parties are the leaves from left to right.
pub proof fn lemma_seeds(root: Seq<u8>, n: nat, depth: nat, pos: nat, i: nat)
    requires
        pos >= 1,
        i < n <= pow2(depth),
        depth > 0 ==> pow2((depth - 1) as nat) < n,
    ensures
        seed_at(root, 1) == root,
        seed_at(root, 2 * pos) == hash::blake3_digest(seed_at(root, pos) + seq![0u8]),
        seed_at(root, 2 * pos + 1) == hash::blake3_digest(seed_at(root, pos) + seq![1u8]),
        leaves_of(root, n).len() == n,
        leaves_of(root, n)[i as int] == seed_at(root, pow2(depth) + i),
{
    assert((2 * pos) / 2 == pos && (2 * pos) % 2 == 0);
    assert((2 * pos + 1) / 2 == pos && (2 * pos + 1) % 2 == 1);
    assert(seed_at(root, pos).push(0u8) =~= seed_at(root, pos) + seq![0u8]);
    assert(seed_at(root, pos).push(1u8) =~= seed_at(root, pos) + seq![1u8]);
    lemma_depth_is(n, depth);
}

proof fn lemma_depth_is(n: nat, depth: nat)
    requires
        n <= pow2(depth),
        depth > 0 ==> pow2((depth - 1) as nat) < n,
    ensures
        tree::tree_depth(n) == depth,
{
    let d = tree::tree_depth(n);
    tree::lemma_least_depth(n);
    if d < depth {
        if d < depth - 1 {
            lemma_pow2_strictly_increases(d, (depth - 1) as nat);
        }
    } else if depth < d {
        if depth < d - 1 {
            lemma_pow2_strictly_increases(depth, (d - 1) as nat);
        }
    }
}

/// The co-path holds, level by level, the seed of the sibling of the node above the hidden leaf, and
/// no other seed.
pub proof fn lemma_co_path(root: Seq<u8>, n: nat, depth: nat, hidden: nat, level: nat)
    requires
        hidden < n <= pow2(depth),
        depth > 0 ==> pow2((depth - 1) as nat) < n,
        level < depth,
    ensures
        co_path_of(root, n, hidden).len() == depth,
        ({
            let above = (pow2(depth) + hidden) / pow2(level);
            co_path_of(root, n, hidden)[level as int] == seed_at(
                root,
                if above % 2 == 0 {
                    above + 1
                } else {
                    (above - 1) as nat
                },
            )
        }),
{
    lemma_depth_is(n, depth);
}

} // verus!
