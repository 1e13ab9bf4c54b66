//! Complete binary trees in heap order.
//!
//! Position 1 is the root and positions `2p` and `2p + 1` are the children of position `p`.
//! In a tree of depth `d` the leaves are at positions `2^d` to `2^(d+1) - 1`.

use vstd::arithmetic::div_mod::*;
use vstd::arithmetic::power2::*;
use vstd::prelude::*;

verus! {

/// Depth of the smallest complete tree with at least `n` leaves.
pub open spec fn tree_depth(n: nat) -> nat
    decreases n,
{
    if n <= 1 {
        0
    } else {
        1 + tree_depth((n + 1) / 2)
    }
}

/// The leaves, filled up to the next power of two.
pub open spec fn padded<T>(leaves: Seq<T>, fill: T) -> Seq<T> {
    Seq::new(
        pow2(tree_depth(leaves.len())),
        |i: int|
            if i < leaves.len() {
                leaves[i]
            } else {
                fill
            },
    )
}

/// The value at a position: a leaf, or the combination of the values of the two children.
pub open spec fn node<T>(
    leaves: Seq<T>,
    depth: nat,
    pos: nat,
    combine: spec_fn(T, T) -> T,
) -> T
    decreases 2 * pow2(depth) - pos,
    when pos >= 1
{
    if pos >= pow2(depth) {
        leaves[pos - pow2(depth)]
    } else {
        combine(
            node(leaves, depth, 2 * pos, combine),
            node(leaves, depth, 2 * pos + 1, combine),
        )
    }
}

/// The value at the root.
pub open spec fn root<T>(leaves: Seq<T>, depth: nat, combine: spec_fn(T, T) -> T) -> T {
    node(leaves, depth, 1, combine)
}

/// The other child of the same parent.
pub open spec fn sibling(pos: nat) -> nat {
    if pos % 2 == 0 {
        pos + 1
    } else {
        (pos - 1) as nat
    }
}

/// The position `level` steps above the leaf with index `index`.
pub open spec fn ancestor(depth: nat, index: nat, level: nat) -> nat {
    (pow2(depth) + index) / pow2(level)
}

/// The siblings on the way from a leaf to the root, leaf level first.
pub open spec fn path<T>(
    leaves: Seq<T>,
    depth: nat,
    index: nat,
    combine: spec_fn(T, T) -> T,
) -> Seq<T> {
    Seq::new(
        depth,
        |k: int| node(leaves, depth, sibling(ancestor(depth, index, k as nat)), combine),
    )
}

/// What a leaf and the first `n` siblings combine to. Bit `k` of the index says on which side
/// the sibling of level `k` stands.
pub open spec fn fold<T>(
    leaf: T,
    index: nat,
    siblings: Seq<T>,
    n: nat,
    combine: spec_fn(T, T) -> T,
) -> T
    decreases n,
{
    if n == 0 {
        leaf
    } else {
        let current = fold(leaf, index, siblings, (n - 1) as nat, combine);
        if (index / pow2((n - 1) as nat)) % 2 == 0 {
            combine(current, siblings[n - 1])
        } else {
            combine(siblings[n - 1], current)
        }
    }
}

/// The tree has room for the leaves, and one level less would not have.
pub proof fn lemma_tree_depth(n: nat)
    ensures
        n <= pow2(tree_depth(n)),
        n >= 2 ==> pow2((tree_depth(n) - 1) as nat) < n,
        n >= 2 ==> tree_depth(n) >= 1,
    decreases n,
{
    lemma2_to64();
    if n >= 2 {
        let h = (n + 1) / 2;
        lemma_tree_depth(h);
        lemma_pow2_unfold(tree_depth(n));
        if h >= 2 {
            lemma_pow2_unfold(tree_depth(h));
        }
    }
}

/// Dividing by powers of two one step at a time.
pub proof fn lemma_halve(x: nat, level: nat)
    ensures
        x / pow2(level + 1) == (x / pow2(level)) / 2,
{
    lemma_pow2_pos(level);
    lemma_pow2_unfold(level + 1);
    lemma_div_denominator(x as int, pow2(level) as int, 2);
}

/// A leaf or its sibling and their parent.
pub proof fn lemma_ancestor(depth: nat, index: nat, level: nat)
    requires
        index < pow2(depth),
        level < depth,
    ensures
        ancestor(depth, index, level) >= 2,
        ancestor(depth, index, level) < 2 * pow2(depth),
        ancestor(depth, index, level + 1) == ancestor(depth, index, level) / 2,
        ancestor(depth, index, level) % 2 == (index / pow2(level)) % 2,
        sibling(ancestor(depth, index, level)) >= 2,
        sibling(ancestor(depth, index, level)) < 2 * pow2(depth),
        ancestor(depth, index, level + 1) < pow2(depth),
{
    let p = pow2(level) as int;
    lemma_pow2_pos(level);
    lemma_pow2_pos(depth);
    let x = (pow2(depth) + index) as int;
    lemma_div_denominator(x, p, 2);
    lemma_pow2_unfold(level + 1);
    assert(p * 2 == pow2(level + 1));
    let rest = (depth - level) as nat;
    lemma_pow2_adds(level, rest);
    lemma_pow2_unfold(rest);
    let half = pow2((rest - 1) as nat) as int;
    lemma_hoist_over_denominator(index as int, 2 * half, p as nat);
    assert(index + (2 * half) * p == x) by (nonlinear_arith)
        requires
            x == pow2(depth) + index,
            pow2(depth) == p * pow2(rest),
            pow2(rest) == 2 * half,
    ;
    assert(x / p == index as int / p + 2 * half);
    lemma_pow2_pos((rest - 1) as nat);
    lemma_div_pos_is_pos(index as int, p);
    lemma_div_nonincreasing(x, p);
}

/// A leaf and its siblings combine to the root.
pub proof fn lemma_fold_path<T>(
    leaves: Seq<T>,
    depth: nat,
    index: nat,
    combine: spec_fn(T, T) -> T,
)
    requires
        index < pow2(depth),
        leaves.len() == pow2(depth),
    ensures
        fold(leaves[index as int], index, path(leaves, depth, index, combine), depth, combine)
            == root(leaves, depth, combine),
{
    lemma_fold_path_level(leaves, depth, index, depth, combine);
    lemma_pow2_pos(depth);
    lemma_fundamental_div_mod_converse(
        (pow2(depth) + index) as int,
        pow2(depth) as int,
        1,
        index as int,
    );
    assert(ancestor(depth, index, depth) == 1);
}

proof fn lemma_fold_path_level<T>(
    leaves: Seq<T>,
    depth: nat,
    index: nat,
    level: nat,
    combine: spec_fn(T, T) -> T,
)
    requires
        index < pow2(depth),
        leaves.len() == pow2(depth),
        level <= depth,
    ensures
        fold(leaves[index as int], index, path(leaves, depth, index, combine), level, combine)
            == node(leaves, depth, ancestor(depth, index, level), combine),
    decreases level,
{
    lemma2_to64();
    lemma_pow2_pos(depth);
    if level == 0 {
        lemma_div_basics((pow2(depth) + index) as int);
        assert(ancestor(depth, index, 0) == pow2(depth) + index);
    } else {
        let m = (level - 1) as nat;
        lemma_fold_path_level(leaves, depth, index, m, combine);
        lemma_ancestor(depth, index, m);
        let pos = ancestor(depth, index, m);
        let up = ancestor(depth, index, level);
        assert(up == pos / 2);
        assert(path(leaves, depth, index, combine)[m as int] == node(
            leaves,
            depth,
            sibling(pos),
            combine,
        ));
        if pos % 2 == 0 {
            assert(pos == 2 * up && sibling(pos) == 2 * up + 1);
        } else {
            assert(pos == 2 * up + 1 && sibling(pos) == 2 * up);
        }
    }
}

/// Depth of the smallest complete tree with at least `n` leaves.
pub fn depth_for(n: usize) -> (r: usize)
    ensures
        r == tree_depth(n as nat),
        r <= 64,
{
    let mut depth: usize = 0;
    let mut m: usize = n;
    let ghost mut bound: nat = 64;
    proof {
        lemma2_to64_rest();
        lemma2_to64();
    }
    while m > 1
        invariant
            depth + tree_depth(m as nat) == tree_depth(n as nat),
            depth + bound == 64,
            m <= pow2(bound),
        decreases m,
    {
        proof {
            if bound == 0 {
                lemma2_to64();
            }
            lemma_pow2_unfold(bound);
            bound = (bound - 1) as nat;
        }
        m = m / 2 + m % 2;
        depth = depth + 1;
    }
    depth
}

/// The power of two with exponent `depth`.
pub fn power_of_two(depth: usize) -> (r: usize)
    requires
        pow2(depth as nat) <= usize::MAX,
    ensures
        r == pow2(depth as nat),
{
    let mut power: usize = 1;
    let mut i: usize = 0;
    proof {
        lemma2_to64();
    }
    while i < depth
        invariant
            i <= depth,
            pow2(depth as nat) <= usize::MAX,
            power == pow2(i as nat),
        decreases depth - i,
    {
        proof {
            lemma_pow2_unfold((i + 1) as nat);
            if i + 1 < depth {
                lemma_pow2_strictly_increases((i + 1) as nat, depth as nat);
            }
        }
        power = 2 * power;
        i = i + 1;
    }
    power
}

/// The depth is the least for which there are enough leaves.
pub proof fn lemma_least_depth(n: nat)
    ensures
        n <= pow2(tree_depth(n)),
        tree_depth(n) > 0 ==> pow2((tree_depth(n) - 1) as nat) < n,
{
    lemma_tree_depth(n);
}

/// The leaves stay where they are; the rest of the last level is filled.
pub proof fn lemma_padded<T>(leaves: Seq<T>, fill: T, i: int)
    requires
        0 <= i < pow2(tree_depth(leaves.len())),
    ensures
        padded(leaves, fill).len() == pow2(tree_depth(leaves.len())),
        padded(leaves, fill)[i] == if i < leaves.len() {
            leaves[i]
        } else {
            fill
        },
{
}

proof fn lemma_node_half<T>(
    leaves: Seq<T>,
    depth: nat,
    half: Seq<T>,
    side: nat,
    pos: nat,
    width: nat,
    combine: spec_fn(T, T) -> T,
)
    requires
        side < 2,
        leaves.len() == 2 * pow2(depth),
        half == leaves.subrange(
            (side * pow2(depth)) as int,
            (side * pow2(depth) + pow2(depth)) as int,
        ),
        1 <= pos,
        width >= 1,
        width <= pos < 2 * width,
        exists|e: nat| e <= depth && width == #[trigger] pow2(e),
    ensures
        node(leaves, depth + 1, pos + width * (1 + side), combine) == node(
            half,
            depth,
            pos,
            combine,
        ),
    decreases 2 * pow2(depth) - pos,
{
    let e = choose|e: nat| e <= depth && width == #[trigger] pow2(e);
    let b = pow2(depth);
    lemma_pow2_unfold(depth + 1);
    lemma_pow2_pos(depth);
    let there = pos + width * (1 + side);
    assert(width * (1 + side) == width + width * side) by (nonlinear_arith);
    assert(side * b == b * side) by (nonlinear_arith);
    if e == depth {
        assert(there >= pow2(depth + 1));
        assert(half[pos - b] == leaves[side * b + (pos - b)]);
        assert(there - pow2(depth + 1) == side * b + (pos - b));
    } else {
        lemma_pow2_unfold(e + 1);
        if e + 1 < depth {
            lemma_pow2_strictly_increases(e + 1, depth);
        }
        assert(2 * width <= b);
        assert(there < 2 * b) by (nonlinear_arith)
            requires
                pos < 2 * width,
                2 * width <= b,
                side < 2,
                there == pos + width * (1 + side),
        ;
        lemma_node_half(leaves, depth, half, side, 2 * pos, 2 * width, combine);
        lemma_node_half(leaves, depth, half, side, 2 * pos + 1, 2 * width, combine);
        assert(2 * there == 2 * pos + 2 * width * (1 + side)) by (nonlinear_arith)
            requires
                there == pos + width * (1 + side),
        ;
    }
}

/// A tree with one leaf is that leaf. The root of a larger one combines the roots of its two halves.
pub proof fn lemma_root_of_halves<T>(leaves: Seq<T>, depth: nat, combine: spec_fn(T, T) -> T)
    requires
        leaves.len() == 2 * pow2(depth),
    ensures
        root(leaves.subrange(0, 1), 0, combine) == leaves[0],
        root(leaves, depth + 1, combine) == combine(
            root(leaves.subrange(0, pow2(depth) as int), depth, combine),
            root(leaves.subrange(pow2(depth) as int, 2 * pow2(depth) as int), depth, combine),
        ),
{
    lemma_pow2_pos(depth);
    lemma_pow2_unfold(depth + 1);
    lemma2_to64();
    let a = leaves.subrange(0, pow2(depth) as int);
    let b = leaves.subrange(pow2(depth) as int, 2 * pow2(depth) as int);
    assert(pow2(0) == 1);
    assert(0 * pow2(depth) == 0);
    assert(1 * pow2(depth) == pow2(depth));
    lemma_node_half(leaves, depth, a, 0, 1, 1, combine);
    lemma_node_half(leaves, depth, b, 1, 1, 1, combine);
}

/// A way to the root is walked from the leaf: first the leaf and its sibling are combined, the leaf on
/// the left if the index is even, and then the rest of the way is walked at half the index.
pub proof fn lemma_fold_first<T>(
    leaf: T,
    index: nat,
    siblings: Seq<T>,
    n: nat,
    combine: spec_fn(T, T) -> T,
)
    requires
        n < siblings.len(),
    ensures
        fold(leaf, index, siblings, 0, combine) == leaf,
        fold(leaf, index, siblings, n + 1, combine) == fold(
            if index % 2 == 0 {
                combine(leaf, siblings[0])
            } else {
                combine(siblings[0], leaf)
            },
            index / 2,
            siblings.drop_first(),
            n,
            combine,
        ),
    decreases n,
{
    lemma2_to64();
    lemma_div_basics(index as int);
    if n > 0 {
        lemma_fold_first(leaf, index, siblings, (n - 1) as nat, combine);
        lemma_pow2_unfold(n);
        lemma_pow2_pos((n - 1) as nat);
        lemma_div_denominator(index as int, 2, pow2((n - 1) as nat) as int);
        assert(siblings.drop_first()[n - 1] == siblings[n as int]);
    }
}

/// The siblings of a leaf are, level by level, the other children of the nodes above it.
pub proof fn lemma_positions(depth: nat, index: nat, level: nat, pos: nat)
    ensures
        sibling(2 * pos) == 2 * pos + 1,
        sibling(2 * pos + 1) == 2 * pos,
        ancestor(depth, index, level) == (pow2(depth) + index) / pow2(level),
{
    assert((2 * pos) % 2 == 0 && (2 * pos + 1) % 2 == 1);
}

/// What is combined at level `level` of a way to the root.
pub open spec fn combined_at<T>(
    leaf: T,
    index: nat,
    siblings: Seq<T>,
    level: nat,
    combine: spec_fn(T, T) -> T,
) -> (T, T) {
    let current = fold(leaf, index, siblings, level, combine);
    if (index / pow2(level)) % 2 == 0 {
        (current, siblings[level as int])
    } else {
        (siblings[level as int], current)
    }
}

/// If two leaves have ways from the same index to the same root, they are equal, or on the ways two
/// different pairs combine to the same value.
pub proof fn lemma_same_root<T>(
    a: T,
    s: Seq<T>,
    b: T,
    t: Seq<T>,
    index: nat,
    n: nat,
    combine: spec_fn(T, T) -> T,
)
    requires
        n <= s.len(),
        n <= t.len(),
        fold(a, index, s, n, combine) == fold(b, index, t, n, combine),
    ensures
        a == b || exists|level: nat|
            {
                let x = #[trigger] combined_at(a, index, s, level, combine);
                let y = combined_at(b, index, t, level, combine);
                level < n && x != y && combine(x.0, x.1) == combine(y.0, y.1)
            },
    decreases n,
{
    if n > 0 {
        let m = (n - 1) as nat;
        let x = combined_at(a, index, s, m, combine);
        let y = combined_at(b, index, t, m, combine);
        assert(fold(a, index, s, n, combine) == combine(x.0, x.1));
        assert(fold(b, index, t, n, combine) == combine(y.0, y.1));
        if x == y {
            lemma_same_root(a, s, b, t, index, m, combine);
        }
    }
}

} // verus!
