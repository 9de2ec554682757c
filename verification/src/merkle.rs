//! The Merkle tree over leaf digests, its root, and authentication paths.

use vstd::prelude::*;

verus! {

/// A tree as a mathematical value: what `Tree` and `TreeBin` both stand for.
pub enum Shape {
    Node(Seq<Shape>),
    Leaf(Seq<u8>),
}

/// A hash tree: a leaf holds a digest, a node its children in order.
#[derive(Debug)]
pub enum Tree {
    Node(Vec<Tree>),
    Leaf(Vec<u8>),
}

/// The wire mirror of `Tree`.
#[derive(Debug)]
pub enum TreeBin {
    Node(Vec<TreeBin>),
    Leaf(Vec<u8>),
}

impl View for Tree {
    type V = Shape;

    open spec fn view(&self) -> Shape
        decreases self,
    {
        match self {
            Tree::Node(nodes) => Shape::Node(
                Seq::new(
                    nodes@.len(),
                    |i: int|
                        if 0 <= i < nodes@.len() {
                            nodes@[i].view()
                        } else {
                            Shape::Leaf(Seq::empty())
                        },
                ),
            ),
            Tree::Leaf(digest) => Shape::Leaf(digest@),
        }
    }
}

impl View for TreeBin {
    type V = Shape;

    open spec fn view(&self) -> Shape
        decreases self,
    {
        match self {
            TreeBin::Node(nodes) => Shape::Node(
                Seq::new(
                    nodes@.len(),
                    |i: int|
                        if 0 <= i < nodes@.len() {
                            nodes@[i].view()
                        } else {
                            Shape::Leaf(Seq::empty())
                        },
                ),
            ),
            TreeBin::Leaf(digest) => Shape::Leaf(digest@),
        }
    }
}

/// The shapes of a row of trees.
pub open spec fn shapes(row: Seq<Tree>) -> Seq<Shape> {
    Seq::new(row.len(), |i: int| row[i]@)
}

/// The shapes of a row of wire mirrors.
pub open spec fn bins(row: Seq<TreeBin>) -> Seq<Shape> {
    Seq::new(row.len(), |i: int| row[i]@)
}

/// The byte strings of a row of digests.
pub open spec fn strings(row: Seq<Vec<u8>>) -> Seq<Seq<u8>> {
    Seq::new(row.len(), |i: int| row[i]@)
}

/// The hash of a tree: a leaf's own digest, or the digest of the children's
/// hashes laid end to end.
pub open spec fn root<H: crate::utils::Hash>(t: Shape) -> Seq<u8>
    decreases t,
{
    match t {
        Shape::Node(children) => H::digest(joined::<H>(children)),
        Shape::Leaf(digest) => digest,
    }
}

/// The hashes of a row of trees, laid end to end.
pub open spec fn joined<H: crate::utils::Hash>(row: Seq<Shape>) -> Seq<u8>
    decreases row,
{
    if row.len() == 0 {
        Seq::empty()
    } else {
        joined::<H>(row.drop_last()) + root::<H>(row.last())
    }
}

/// Rows whose trees hash alike, one by one, join to the same bytes.
pub proof fn lemma_joined_alike<H: crate::utils::Hash>(a: Seq<Shape>, b: Seq<Shape>)
    requires
        a.len() == b.len(),
        forall|i: int| 0 <= i < a.len() ==> root::<H>(#[trigger] a[i]) == root::<H>(b[i]),
    ensures
        joined::<H>(a) == joined::<H>(b),
    decreases a.len(),
{
    if a.len() > 0 {
        lemma_joined_alike::<H>(a.drop_last(), b.drop_last());
        assert(root::<H>(a[a.len() - 1]) == root::<H>(b[a.len() - 1]));
    }
}

/// Whether `n` is a power of two.
pub open spec fn is_pow2(n: nat) -> bool
    decreases n,
{
    n == 1 || (n > 1 && n % 2 == 0 && is_pow2(n / 2))
}

/// Two to the power `k`.
pub open spec fn two_to(k: nat) -> nat
    decreases k,
{
    if k == 0 {
        1
    } else {
        2 * two_to((k - 1) as nat)
    }
}

/// Two to any power is a power of two, and grows with the power.
pub proof fn lemma_two_to(k: nat)
    ensures
        is_pow2(two_to(k)),
        two_to(k) >= 1,
        forall|j: nat| j <= k ==> #[trigger] two_to(j) <= two_to(k),
    decreases k,
{
    if k > 0 {
        lemma_two_to((k - 1) as nat);
        assert(two_to(k) / 2 == two_to((k - 1) as nat));
        assert forall|j: nat| j <= k implies #[trigger] two_to(j) <= two_to(k) by {
            if j < k {
                assert(two_to(j) <= two_to((k - 1) as nat));
            }
        }
    }
}

/// Two to a power below 32 fits the machine's word.
pub proof fn lemma_two_to_fits(k: nat)
    requires
        k <= 31,
    ensures
        two_to(k) <= usize::MAX,
{
    lemma_two_to(31);
    assert(two_to(31) == 0x8000_0000) by {
        reveal_with_fuel(two_to, 32);
    }
    assert(two_to(k) <= two_to(31));
}

/// Whether `t` is the full binary tree of the given height: every node has
/// two children, and every leaf stands `height` nodes below the root.
pub open spec fn is_full(t: Shape, height: nat) -> bool
    decreases height,
{
    if height == 0 {
        t is Leaf
    } else {
        &&& t is Node
        &&& t->Node_0.len() == 2
        &&& is_full(t->Node_0[0], (height - 1) as nat)
        &&& is_full(t->Node_0[1], (height - 1) as nat)
    }
}

/// The balanced tree whose leaves, read left to right, are `row`: one tree
/// alone is itself, a longer row is a node over its two halves.
pub open spec fn balanced(row: Seq<Shape>) -> Shape
    decreases row.len(),
{
    if row.len() <= 1 {
        row[0]
    } else {
        Shape::Node(
            seq![
                balanced(row.take(row.len() as int / 2)),
                balanced(row.skip(row.len() as int / 2)),
            ],
        )
    }
}

/// Neighbours of `row` joined two by two, in order.
pub open spec fn paired(row: Seq<Shape>) -> Seq<Shape> {
    Seq::new((row.len() / 2) as nat, |i: int| Shape::Node(seq![row[2 * i], row[2 * i + 1]]))
}

/// Pairing neighbours first leaves the balanced tree as it is.
pub proof fn lemma_paired_balanced(row: Seq<Shape>)
    requires
        is_pow2(row.len()),
        row.len() >= 2,
    ensures
        balanced(paired(row)) == balanced(row),
    decreases row.len(),
{
    let n = row.len() as int;
    if n == 2 {
        assert(row.take(1)[0] == row[0]);
        assert(row.skip(1)[0] == row[1]);
        assert(balanced(row.take(1)) == row[0]);
        assert(balanced(row.skip(1)) == row[1]);
        assert(paired(row)[0] == Shape::Node(seq![row[0], row[1]]));
    } else {
        assert(is_pow2((n / 2) as nat));
        assert(n / 2 >= 2);
        let left = row.take(n / 2);
        let right = row.skip(n / 2);
        lemma_paired_balanced(left);
        lemma_paired_balanced(right);
        assert(paired(row).take(n / 4) =~= paired(left));
        assert(paired(row).skip(n / 4) =~= paired(right));
        assert(paired(row).len() == n / 2);
    }
}

/// The balanced tree over two to the `height` leaves is the full binary
/// tree of that height.
pub proof fn lemma_balanced_full(row: Seq<Shape>, height: nat)
    requires
        row.len() == two_to(height),
        forall|i: int| 0 <= i < row.len() ==> (#[trigger] row[i]) is Leaf,
    ensures
        is_full(balanced(row), height),
    decreases height,
{
    if height > 0 {
        let half = row.len() as int / 2;
        assert(half == two_to((height - 1) as nat));
        lemma_two_to((height - 1) as nat);
        lemma_balanced_full(row.take(half), (height - 1) as nat);
        lemma_balanced_full(row.skip(half), (height - 1) as nat);
    }
}

/// The balanced tree over a row of leaves has their digests as its leaves,
/// in the order of the row.
pub proof fn lemma_balanced_leaves(row: Seq<Shape>)
    requires
        row.len() >= 1,
        forall|i: int| 0 <= i < row.len() ==> (#[trigger] row[i]) is Leaf,
    ensures
        leaves(balanced(row)) == digests(row),
    decreases row.len(),
{
    if row.len() == 1 {
        assert(leaves(row[0]) =~= digests(row));
    } else {
        let half = row.len() as int / 2;
        let left = row.take(half);
        let right = row.skip(half);
        lemma_balanced_leaves(left);
        lemma_balanced_leaves(right);
        let both = seq![balanced(left), balanced(right)];
        assert(both.drop_last() =~= seq![balanced(left)]);
        assert(seq![balanced(left)].drop_last() =~= Seq::<Shape>::empty());
        assert(row_leaves(Seq::<Shape>::empty()) =~= Seq::<Seq<u8>>::empty());
        assert(seq![balanced(left)].last() == balanced(left));
        assert(row_leaves(seq![balanced(left)]) =~= row_leaves(Seq::<Shape>::empty()) + leaves(
            balanced(left),
        ));
        assert(row_leaves(seq![balanced(left)]) =~= digests(left));
        assert(row_leaves(both) =~= digests(left) + digests(right));
        assert(digests(left) + digests(right) =~= digests(row));
    }
}

/// The root over four leaves that hold the digests of `a`, `b`, `c` and `d`
/// is the digest of the two digests of the pairs, each laid end to end.
pub proof fn lemma_root_of_four<H: crate::utils::Hash>(
    a: Seq<u8>,
    b: Seq<u8>,
    c: Seq<u8>,
    d: Seq<u8>,
)
    ensures
        root::<H>(
            balanced(
                seq![
                    Shape::Leaf(H::digest(a)),
                    Shape::Leaf(H::digest(b)),
                    Shape::Leaf(H::digest(c)),
                    Shape::Leaf(H::digest(d)),
                ],
            ),
        ) == H::digest(
            H::digest(H::digest(a) + H::digest(b)) + H::digest(H::digest(c) + H::digest(d)),
        ),
{
    let row = seq![
        Shape::Leaf(H::digest(a)),
        Shape::Leaf(H::digest(b)),
        Shape::Leaf(H::digest(c)),
        Shape::Leaf(H::digest(d)),
    ];
    let left = seq![Shape::Leaf(H::digest(a)), Shape::Leaf(H::digest(b))];
    let right = seq![Shape::Leaf(H::digest(c)), Shape::Leaf(H::digest(d))];
    assert(row.take(2) =~= left);
    assert(row.skip(2) =~= right);
    lemma_root_of_two::<H>(left[0], left[1]);
    lemma_root_of_two::<H>(right[0], right[1]);
    assert(left.take(1) =~= seq![left[0]]);
    assert(left.skip(1) =~= seq![left[1]]);
    assert(right.take(1) =~= seq![right[0]]);
    assert(right.skip(1) =~= seq![right[1]]);
    assert(balanced(seq![left[0]]) == left[0]);
    assert(balanced(seq![left[1]]) == left[1]);
    assert(balanced(seq![right[0]]) == right[0]);
    assert(balanced(seq![right[1]]) == right[1]);
    assert(balanced(left) == Shape::Node(seq![left[0], left[1]]));
    assert(balanced(right) == Shape::Node(seq![right[0], right[1]]));
    lemma_root_of_two::<H>(balanced(left), balanced(right));
}

/// The root of a node over two trees is the digest of their two roots laid
/// end to end.
pub proof fn lemma_root_of_two<H: crate::utils::Hash>(left: Shape, right: Shape)
    ensures
        root::<H>(Shape::Node(seq![left, right])) == H::digest(
            root::<H>(left) + root::<H>(right),
        ),
{
    let both = seq![left, right];
    assert(both.drop_last() =~= seq![left]);
    assert(seq![left].drop_last() =~= Seq::<Shape>::empty());
    assert(joined::<H>(Seq::<Shape>::empty()) =~= Seq::<u8>::empty());
    assert(joined::<H>(seq![left]) =~= joined::<H>(Seq::<Shape>::empty()) + root::<H>(left));
    assert(joined::<H>(seq![left]) =~= root::<H>(left));
    assert(joined::<H>(both) =~= root::<H>(left) + root::<H>(right));
}

/// Whether every node of the tree has a child.
pub open spec fn populated(t: Shape) -> bool
    decreases t,
{
    match t {
        Shape::Node(children) => children.len() > 0 && forall|i: int|
            0 <= i < children.len() ==> populated(#[trigger] children[i]),
        Shape::Leaf(_) => true,
    }
}

/// Whether every tree of `pruned` but the one at `at` is the leaf that holds
/// the hash of the tree at its place in `full`.
pub open spec fn collapsed_but<H: crate::utils::Hash>(
    full: Seq<Shape>,
    pruned: Seq<Shape>,
    at: int,
) -> bool {
    &&& pruned.len() == full.len()
    &&& forall|j: int|
        0 <= j < full.len() && j != at ==> #[trigger] pruned[j] == Shape::Leaf(
            root::<H>(full[j]),
        )
}

/// Whether `path` is an authentication path of `t` for the leaf digest
/// `leaf`: a leaf is its own path; below a node one child is pruned in turn
/// and every other child is collapsed to its hash.
pub open spec fn prunes<H: crate::utils::Hash>(t: Shape, path: Shape, leaf: Seq<u8>) -> bool
    decreases t,
{
    match t {
        Shape::Node(children) => path is Node && exists|i: int|
            0 <= i < children.len() && #[trigger] collapsed_but::<H>(children, path->Node_0, i)
                && prunes::<H>(children[i], path->Node_0[i], leaf),
        Shape::Leaf(digest) => path == t && leaf == digest,
    }
}

/// The leaf digests of a tree, left to right.
pub open spec fn leaves(t: Shape) -> Seq<Seq<u8>>
    decreases t,
{
    match t {
        Shape::Node(children) => row_leaves(children),
        Shape::Leaf(digest) => seq![digest],
    }
}

/// The leaf digests of a row of trees, left to right.
pub open spec fn row_leaves(row: Seq<Shape>) -> Seq<Seq<u8>>
    decreases row,
{
    if row.len() == 0 {
        Seq::empty()
    } else {
        row_leaves(row.drop_last()) + leaves(row.last())
    }
}

/// The leaves of the first `k` trees of a row begin the leaves of the row.
pub proof fn lemma_row_leaves_prefix(row: Seq<Shape>, k: int)
    requires
        0 <= k <= row.len(),
    ensures
        row_leaves(row.take(k)).len() <= row_leaves(row).len(),
        row_leaves(row).take(row_leaves(row.take(k)).len() as int) == row_leaves(row.take(k)),
    decreases row.len(),
{
    if k == row.len() {
        assert(row.take(k) =~= row);
        assert(row_leaves(row).take(row_leaves(row).len() as int) =~= row_leaves(row));
    } else {
        lemma_row_leaves_prefix(row.drop_last(), k);
        assert(row.drop_last().take(k) =~= row.take(k));
        let head = row_leaves(row.drop_last());
        let short = row_leaves(row.take(k));
        assert(row_leaves(row).take(short.len() as int) =~= head.take(short.len() as int));
    }
}

/// How many leaves stand in the first `k` trees of a row.
pub open spec fn leaves_before(row: Seq<Shape>, k: int) -> nat {
    row_leaves(row.take(k)).len()
}

/// Whether the tree at place `i` of a row holds the leaf at place `index` of
/// the row's leaves.
pub open spec fn holds_leaf(row: Seq<Shape>, i: int, index: nat) -> bool {
    leaves_before(row, i) <= index < leaves_before(row, i) + leaves(row[i]).len()
}

/// The authentication path of the leaf at place `index`, counted from the
/// left: below every node the child that holds the leaf gives way to its own
/// path, and every other child to the leaf that holds its hash.
pub open spec fn path_to<H: crate::utils::Hash>(t: Shape, index: nat) -> Shape
    decreases t,
{
    match t {
        Shape::Node(children) => Shape::Node(
            Seq::new(
                children.len(),
                |i: int|
                    if 0 <= i < children.len() && holds_leaf(children, i, index) {
                        path_to::<H>(children[i], (index - leaves_before(children, i)) as nat)
                    } else {
                        Shape::Leaf(root::<H>(children[i]))
                    },
            ),
        ),
        Shape::Leaf(_) => t,
    }
}

/// Whether `path` and `leaf` are the authentication path and the digest of
/// the leaf at place `index`.
pub open spec fn is_pick<H: crate::utils::Hash>(
    t: Shape,
    index: nat,
    path: Shape,
    leaf: Seq<u8>,
) -> bool {
    index < leaves(t).len() && path == path_to::<H>(t, index) && leaf == leaves(t)[index as int]
}

/// The place in a row of the tree that holds the leaf at place `index`.
pub open spec fn holder(row: Seq<Shape>, index: nat) -> int
    decreases row.len(),
{
    if row.len() == 0 {
        0
    } else if index >= row_leaves(row.drop_last()).len() {
        row.len() - 1
    } else {
        holder(row.drop_last(), index)
    }
}

/// The leaves before a tree and its own make the leaves before the next.
pub proof fn lemma_leaves_before_next(row: Seq<Shape>, k: int)
    requires
        0 <= k < row.len(),
    ensures
        row_leaves(row.take(k + 1)) == row_leaves(row.take(k)) + leaves(row[k]),
        leaves_before(row, k + 1) == leaves_before(row, k) + leaves(row[k]).len(),
{
    let next = row.take(k + 1);
    assert(next.drop_last() =~= row.take(k));
    assert(next.last() == row[k]);
}

/// Further along a row there are no fewer leaves before.
pub proof fn lemma_leaves_before_grows(row: Seq<Shape>, a: int, b: int)
    requires
        0 <= a <= b <= row.len(),
    ensures
        leaves_before(row, a) <= leaves_before(row, b),
{
    lemma_row_leaves_prefix(row.take(b), a);
    assert(row.take(b).take(a) =~= row.take(a));
}

/// One tree of a row holds each of the row's leaves, and holds it at the
/// place that is left after the leaves before the tree.
pub proof fn lemma_holder(row: Seq<Shape>, index: nat)
    requires
        index < row_leaves(row).len(),
    ensures
        0 <= holder(row, index) < row.len(),
        holds_leaf(row, holder(row, index), index),
        row_leaves(row)[index as int] == leaves(row[holder(row, index)])[index - leaves_before(
            row,
            holder(row, index),
        )],
    decreases row.len(),
{
    let head = row.drop_last();
    if index >= row_leaves(head).len() {
        assert(row.take(row.len() - 1) =~= head);
    } else {
        lemma_holder(head, index);
        let i = holder(head, index);
        assert(head.take(i) =~= row.take(i));
        assert(head[i] == row[i]);
    }
}

/// Only one tree of a row holds a given leaf.
pub proof fn lemma_one_holder(row: Seq<Shape>, i: int, j: int, index: nat)
    requires
        0 <= i < row.len(),
        0 <= j < row.len(),
        holds_leaf(row, i, index),
        holds_leaf(row, j, index),
    ensures
        i == j,
{
    if i < j {
        lemma_leaves_before_next(row, i);
        lemma_leaves_before_grows(row, i + 1, j);
    } else if j < i {
        lemma_leaves_before_next(row, j);
        lemma_leaves_before_grows(row, j + 1, i);
    }
}

/// The path to a leaf is an authentication path of the tree for that leaf.
pub proof fn lemma_path_prunes<H: crate::utils::Hash>(t: Shape, index: nat)
    requires
        index < leaves(t).len(),
    ensures
        prunes::<H>(t, path_to::<H>(t, index), leaves(t)[index as int]),
    decreases t,
{
    match t {
        Shape::Node(children) => {
            lemma_holder(children, index);
            let i = holder(children, index);
            let kept = path_to::<H>(t, index)->Node_0;
            lemma_path_prunes::<H>(children[i], (index - leaves_before(children, i)) as nat);
            assert forall|j: int| 0 <= j < children.len() && j != i implies #[trigger] kept[j]
                == Shape::Leaf(root::<H>(children[j])) by {
                if holds_leaf(children, j, index) {
                    lemma_one_holder(children, i, j, index);
                }
            }
            assert(collapsed_but::<H>(children, kept, i));
        },
        Shape::Leaf(digest) => {},
    }
}

/// Whether a tree is of the kind that is built over keys and sent as a
/// path: every node has exactly two children, and every leaf holds a digest
/// of `H::width()` bytes.
pub open spec fn proper<H: crate::utils::Hash>(t: Shape) -> bool
    decreases t,
{
    match t {
        Shape::Node(children) => children.len() == 2 && forall|i: int|
            0 <= i < children.len() ==> proper::<H>(#[trigger] children[i]),
        Shape::Leaf(digest) => digest.len() == H::width(),
    }
}

/// The root of a proper tree is as long as a digest.
pub proof fn lemma_root_width<H: crate::utils::Hash>(t: Shape)
    requires
        proper::<H>(t),
    ensures
        root::<H>(t).len() == H::width(),
{
    match t {
        Shape::Node(children) => {
            H::digest_has_width(joined::<H>(children));
        },
        Shape::Leaf(_) => {},
    }
}

/// The path to a leaf of a proper tree is proper.
pub proof fn lemma_path_proper<H: crate::utils::Hash>(t: Shape, index: nat)
    requires
        proper::<H>(t),
    ensures
        proper::<H>(path_to::<H>(t, index)),
    decreases t,
{
    match t {
        Shape::Node(children) => {
            let kept = path_to::<H>(t, index)->Node_0;
            assert forall|i: int| 0 <= i < kept.len() implies proper::<H>(#[trigger] kept[i]) by {
                assert(proper::<H>(children[i]));
                if holds_leaf(children, i, index) {
                    lemma_path_proper::<H>(
                        children[i],
                        (index - leaves_before(children, i)) as nat,
                    );
                } else {
                    lemma_root_width::<H>(children[i]);
                }
            }
        },
        Shape::Leaf(_) => {},
    }
}

/// The balanced tree over a row of proper trees is proper.
pub proof fn lemma_balanced_proper<H: crate::utils::Hash>(row: Seq<Shape>)
    requires
        row.len() >= 1,
        forall|i: int| 0 <= i < row.len() ==> proper::<H>(#[trigger] row[i]),
    ensures
        proper::<H>(balanced(row)),
    decreases row.len(),
{
    if row.len() > 1 {
        let half = row.len() as int / 2;
        lemma_balanced_proper::<H>(row.take(half));
        lemma_balanced_proper::<H>(row.skip(half));
    }
}

/// The place of the first node in a row, or the row's length if it holds
/// leaves alone.
pub open spec fn first_inner(row: Seq<Shape>) -> nat
    decreases row.len(),
{
    if row.len() == 0 {
        0
    } else if row[0] is Node {
        0
    } else {
        1 + first_inner(row.skip(1))
    }
}

/// The digests that the leaves of a row hold.
pub open spec fn digests(row: Seq<Shape>) -> Seq<Seq<u8>> {
    Seq::new(row.len(), |i: int| row[i]->Leaf_0)
}

/// The bottom pair of an authentication path: the digests of the children
/// of the first node, going down by the first node among the children, whose
/// children are all leaves. A leaf alone gives its own digest.
pub open spec fn bottom(t: Shape) -> Seq<Seq<u8>>
    decreases t,
{
    match t {
        Shape::Node(children) => {
            let k = first_inner(children);
            if k < children.len() {
                bottom(children[k as int])
            } else {
                digests(children)
            }
        },
        Shape::Leaf(digest) => seq![digest],
    }
}

/// `first_inner` finds the node that only leaves precede, and the end of a
/// row of leaves.
pub proof fn lemma_first_inner(row: Seq<Shape>, k: int)
    requires
        0 <= k <= row.len(),
        forall|j: int| 0 <= j < k ==> (#[trigger] row[j]) is Leaf,
        k < row.len() ==> row[k] is Node,
    ensures
        first_inner(row) == k,
    decreases k,
{
    if k > 0 {
        assert(row[0] is Leaf);
        let rest = row.skip(1);
        assert forall|j: int| 0 <= j < k - 1 implies (#[trigger] rest[j]) is Leaf by {
            assert(rest[j] == row[j + 1]);
        }
        lemma_first_inner(rest, k - 1);
    }
}

/// An authentication path hashes to the root of its tree, and its bottom
/// pair holds the chosen leaf.
pub proof fn lemma_pruning_sound<H: crate::utils::Hash>(t: Shape, path: Shape, leaf: Seq<u8>)
    requires
        prunes::<H>(t, path, leaf),
    ensures
        root::<H>(path) == root::<H>(t),
        bottom(path).contains(leaf),
    decreases t,
{
    match t {
        Shape::Node(children) => {
            let kept = path->Node_0;
            let i = choose|i: int|
                0 <= i < children.len() && #[trigger] collapsed_but::<H>(children, kept, i)
                    && prunes::<H>(children[i], kept[i], leaf);
            lemma_pruning_sound::<H>(children[i], kept[i], leaf);
            assert forall|j: int| 0 <= j < children.len() implies root::<H>(
                #[trigger] children[j],
            ) == root::<H>(kept[j]) by {
                if j != i {
                    assert(kept[j] == Shape::Leaf(root::<H>(children[j])));
                }
            }
            lemma_joined_alike::<H>(children, kept);
            assert forall|j: int| 0 <= j < i implies (#[trigger] kept[j]) is Leaf by {
                assert(kept[j] == Shape::Leaf(root::<H>(children[j])));
            }
            if kept[i] is Node {
                lemma_first_inner(kept, i);
            } else {
                assert forall|j: int| 0 <= j < kept.len() implies (#[trigger] kept[j]) is Leaf by {
                    if j != i {
                        assert(kept[j] == Shape::Leaf(root::<H>(children[j])));
                    }
                }
                lemma_first_inner(kept, kept.len() as int);
                assert(children[i] is Leaf);
                assert(digests(kept)[i] == leaf);
            }
        },
        Shape::Leaf(digest) => {
            assert(seq![digest][0] == leaf);
        },
    }
}

impl Tree {
    /// A node without children yet.
    pub fn node() -> (tree: Tree)
        ensures
            tree@ == Shape::Node(Seq::empty()),
    {
        let tree = Tree::Node(Vec::with_capacity(2));
        proof {
            assert(tree@->Node_0 =~= Seq::<Shape>::empty());
        }
        tree
    }

    /// The leaf that holds the digest of `data`.
    pub fn leaf<H: crate::utils::Hash>(data: &[u8]) -> (tree: Tree)
        ensures
            tree@ == Shape::Leaf(H::digest(data@)),
    {
        Tree::Leaf(H::hash(data))
    }

    pub fn is_leaf(&self) -> (yes: bool)
        ensures
            yes == (self@ is Leaf),
    {
        match self {
            Tree::Node(_) => false,
            Tree::Leaf(_) => true,
        }
    }

    /// A copy of the whole tree.
    pub fn duplicate(&self) -> (copy: Tree)
        ensures
            copy@ == self@,
        decreases self,
    {
        match self {
            Tree::Node(nodes) => {
                let mut copies: Vec<Tree> = Vec::new();
                let mut i: usize = 0;
                while i < nodes.len()
                    invariant
                        i <= nodes.len(),
                        *self == Tree::Node(*nodes),
                        copies@.len() == i,
                        forall|j: int| 0 <= j < i ==> (#[trigger] copies@[j])@ == nodes@[j]@,
                    decreases nodes.len() - i,
                {
                    proof {
                        assert(decreases_to!(self => self->Node_0));
                        assert(decreases_to!(self->Node_0 => self->Node_0@));
                        assert(decreases_to!(nodes@ => nodes@[i as int]));
                    }
                    let copy = nodes[i].duplicate();
                    copies.push(copy);
                    i += 1;
                }
                let copy = Tree::Node(copies);
                proof {
                    assert(copy@->Node_0 =~= self@->Node_0);
                }
                copy
            },
            Tree::Leaf(digest) => Tree::Leaf(digest.clone()),
        }
    }

    /// Computes the hash of the tree.
    pub fn hash<H: crate::utils::Hash>(&self) -> (out: Vec<u8>)
        ensures
            out@ == root::<H>(self@),
        decreases self,
    {
        match self {
            Tree::Node(nodes) => {
                let mut sum: Vec<u8> = Vec::with_capacity(2);
                let mut i: usize = 0;
                proof {
                    assert(self@->Node_0.take(0) =~= Seq::<Shape>::empty());
                }
                while i < nodes.len()
                    invariant
                        i <= nodes.len(),
                        *self == Tree::Node(*nodes),
                        sum@ == joined::<H>(self@->Node_0.take(i as int)),
                    decreases nodes.len() - i,
                {
                    proof {
                        assert(decreases_to!(nodes@ => nodes@[i as int]));
                    }
                    let mut next = nodes[i].hash::<H>();
                    proof {
                        let row = self@->Node_0.take(i + 1);
                        assert(row.drop_last() =~= self@->Node_0.take(i as int));
                        assert(row.last() == nodes@[i as int]@);
                    }
                    sum.append(&mut next);
                    i += 1;
                }
                proof {
                    assert(self@->Node_0.take(nodes.len() as int) =~= self@->Node_0);
                }
                H::hash(sum.as_slice())
            },
            Tree::Leaf(digest) => digest.clone(),
        }
    }

    /// Adds `tree` as the last child of a node.
    pub fn push(&mut self, tree: Tree) -> (same: &mut Tree)
        requires
            old(self)@ is Node,
        ensures
            same@ == Shape::Node(old(self)@->Node_0.push(tree@)),
            *final(self) == *final(same),
    {
        match self {
            Tree::Node(nodes) => {
                nodes.push(tree);
            },
            Tree::Leaf(_) => {},
        }
        proof {
            assert(self@->Node_0 =~= old(self)@->Node_0.push(tree@));
        }
        self
    }

    /// Builds the balanced tree over a row of leaves, pairing neighbours
    /// left to right, row after row.
    pub fn build(leafs: Vec<Tree>) -> (tree: Tree)
        requires
            is_pow2(leafs@.len()),
        ensures
            tree@ == balanced(shapes(leafs@)),
        decreases leafs@.len(),
    {
        let mut leafs = leafs;
        if leafs.len() == 1 {
            leafs.remove(0)
        } else {
            let ghost row = shapes(leafs@);
            let mut pairs: Vec<Tree> = Vec::new();
            let mut i: usize = 0;
            while i < leafs.len() / 2
                invariant
                    i <= leafs@.len() / 2,
                    row == shapes(leafs@),
                    pairs@.len() == i,
                    forall|j: int| 0 <= j < i ==> (#[trigger] pairs@[j])@ == paired(row)[j],
                decreases leafs@.len() / 2 - i,
            {
                let mut pair: Vec<Tree> = Vec::new();
                pair.push(leafs[2 * i].duplicate());
                pair.push(leafs[2 * i + 1].duplicate());
                let node = Tree::Node(pair);
                proof {
                    assert(node@->Node_0 =~= seq![row[2 * i], row[2 * i + 1]]);
                }
                pairs.push(node);
                i += 1;
            }
            proof {
                assert(shapes(pairs@) =~= paired(row));
                lemma_paired_balanced(row);
            }
            Tree::build(pairs)
        }
    }

    /// The node over `nodes` in which every child but the one at `at` is
    /// collapsed to its hash, and `kept` stands at `at`.
    fn collapse_around<H: crate::utils::Hash>(nodes: &Vec<Tree>, at: usize, kept: Tree) -> (path:
        Tree)
        requires
            at < nodes@.len(),
        ensures
            path@ is Node,
            collapsed_but::<H>(shapes(nodes@), path@->Node_0, at as int),
            path@->Node_0[at as int] == kept@,
    {
        let mut row: Vec<Tree> = Vec::new();
        let mut i: usize = 0;
        let count = nodes.len();
        while i < at
            invariant
                i <= at < nodes@.len() == count,
                row@.len() == i,
                forall|j: int|
                    0 <= j < i ==> (#[trigger] row@[j])@ == Shape::Leaf(root::<H>(nodes@[j]@)),
            decreases at - i,
        {
            row.push(Tree::Leaf(nodes[i].hash::<H>()));
            i += 1;
        }
        row.push(kept);
        i += 1;
        while i < nodes.len()
            invariant
                at < i <= nodes@.len(),
                row@.len() == i,
                row@[at as int]@ == kept@,
                forall|j: int|
                    0 <= j < i && j != at ==> (#[trigger] row@[j])@ == Shape::Leaf(
                        root::<H>(nodes@[j]@),
                    ),
            decreases nodes@.len() - i,
        {
            row.push(Tree::Leaf(nodes[i].hash::<H>()));
            i += 1;
        }
        Tree::Node(row)
    }

    /// Walks down from the root by a child that `rng` picks at every node,
    /// and returns the authentication path of the leaf it reaches, with that
    /// leaf's digest. Which leaf it is depends on `rng`: the contract holds of
    /// every walk.
    pub fn choose_leaf<H: crate::utils::Hash, R: crate::utils::RandomSource>(
        &self,
        rng: &mut R,
    ) -> (picked: (Tree, Vec<u8>))
        requires
            populated(self@),
        ensures
            exists|index: nat| #[trigger] is_pick::<H>(self@, index, picked.0@, picked.1@),
            prunes::<H>(self@, picked.0@, picked.1@),
            root::<H>(picked.0@) == root::<H>(self@),
            bottom(picked.0@).contains(picked.1@),
            leaves(self@).contains(picked.1@),
        decreases self,
    {
        let picked = match self {
            Tree::Node(nodes) => {
                let at = rng.random_index(nodes.len());
                proof {
                    assert(decreases_to!(self => self->Node_0));
                    assert(decreases_to!(self->Node_0 => self->Node_0@));
                    assert(decreases_to!(nodes@ => nodes@[at as int]));
                    assert(populated(self@->Node_0[at as int]));
                }
                let (kept, leaf) = nodes[at].choose_leaf::<H, R>(rng);
                let path = Tree::collapse_around::<H>(nodes, at, kept);
                proof {
                    let row = self@->Node_0;
                    assert(shapes(nodes@) =~= row);
                    let below = choose|below: nat| #[trigger]
                        is_pick::<H>(row[at as int], below, kept@, leaf@);
                    let index = leaves_before(row, at as int) + below;
                    lemma_leaves_before_next(row, at as int);
                    lemma_row_leaves_prefix(row, at + 1);
                    let upto = row_leaves(row.take(at + 1));
                    assert(upto[index as int] == leaf@);
                    assert(row_leaves(row).take(upto.len() as int)[index as int] == row_leaves(
                        row,
                    )[index as int]);
                    assert(holds_leaf(row, at as int, index));
                    let wanted = path_to::<H>(self@, index)->Node_0;
                    assert forall|j: int| 0 <= j < row.len() implies path@->Node_0[j]
                        == #[trigger] wanted[j] by {
                        if j != at && holds_leaf(row, j, index) {
                            lemma_one_holder(row, at as int, j, index);
                        }
                    }
                    assert(path@->Node_0 =~= wanted);
                    assert(is_pick::<H>(self@, index, path@, leaf@));
                }
                (path, leaf)
            },
            Tree::Leaf(digest) => {
                let picked = (Tree::Leaf(digest.clone()), digest.clone());
                proof {
                    assert(is_pick::<H>(self@, 0, picked.0@, picked.1@));
                }
                picked
            },
        };
        proof {
            let index = choose|index: nat| #[trigger]
                is_pick::<H>(self@, index, picked.0@, picked.1@);
            lemma_path_prunes::<H>(self@, index);
            lemma_pruning_sound::<H>(self@, picked.0@, picked.1@);
        }
        picked
    }

    /// The authentication path of the leaf at place `index`, counted from
    /// the left, with that leaf's digest; or, past the last leaf, the number
    /// of leaves.
    pub fn select<H: crate::utils::Hash>(&self, index: usize) -> (found: Result<
        (Tree, Vec<u8>),
        usize,
    >)
        ensures
            match found {
                Ok((path, leaf)) => index < leaves(self@).len() && leaf@ == leaves(
                    self@,
                )[index as int] && path@ == path_to::<H>(self@, index as nat),
                Err(count) => count == leaves(self@).len() && count <= index,
            },
        decreases self,
    {
        match self {
            Tree::Node(nodes) => {
                let ghost row = self@->Node_0;
                let mut passed: usize = 0;
                let mut i: usize = 0;
                proof {
                    assert(row.take(0) =~= Seq::<Shape>::empty());
                }
                while i < nodes.len()
                    invariant
                        i <= nodes@.len(),
                        *self == Tree::Node(*nodes),
                        row == self@->Node_0,
                        passed == row_leaves(row.take(i as int)).len(),
                        passed <= index,
                    decreases nodes@.len() - i,
                {
                    proof {
                        assert(decreases_to!(self => self->Node_0));
                        assert(decreases_to!(self->Node_0 => self->Node_0@));
                        assert(decreases_to!(nodes@ => nodes@[i as int]));
                        let next = row.take(i + 1);
                        assert(next.drop_last() =~= row.take(i as int));
                        assert(next.last() == row[i as int]);
                        lemma_row_leaves_prefix(row, i + 1);
                    }
                    match nodes[i].select::<H>(index - passed) {
                        Ok((kept, leaf)) => {
                            let path = Tree::collapse_around::<H>(nodes, i, kept);
                            proof {
                                assert(shapes(nodes@) =~= row);
                                let upto = row_leaves(row.take(i + 1));
                                assert(upto[index as int] == leaf@);
                                assert(row_leaves(row).take(upto.len() as int)[index as int]
                                    == row_leaves(row)[index as int]);
                                assert(holds_leaf(row, i as int, index as nat));
                                let wanted = path_to::<H>(self@, index as nat)->Node_0;
                                assert forall|j: int| 0 <= j < row.len() implies path@->Node_0[j]
                                    == #[trigger] wanted[j] by {
                                    if j != i && holds_leaf(row, j, index as nat) {
                                        lemma_one_holder(row, i as int, j, index as nat);
                                    }
                                }
                                assert(path@->Node_0 =~= wanted);
                            }
                            return Ok((path, leaf));
                        },
                        Err(count) => {
                            passed = passed + count;
                        },
                    }
                    i += 1;
                }
                proof {
                    assert(row.take(nodes@.len() as int) =~= row);
                }
                Err(passed)
            },
            Tree::Leaf(digest) => {
                if index == 0 {
                    Ok((Tree::Leaf(digest.clone()), digest.clone()))
                } else {
                    Err(1)
                }
            },
        }
    }

    /// Whether every node has exactly two children and every leaf a digest
    /// of the hash's width.
    pub fn is_proper<H: crate::utils::Hash>(&self) -> (yes: bool)
        ensures
            yes == proper::<H>(self@),
        decreases self,
    {
        match self {
            Tree::Node(nodes) => {
                if nodes.len() != 2 {
                    return false;
                }
                proof {
                    assert(decreases_to!(self => self->Node_0));
                    assert(decreases_to!(self->Node_0 => self->Node_0@));
                    assert(decreases_to!(nodes@ => nodes@[0]));
                    assert(decreases_to!(nodes@ => nodes@[1]));
                }
                let left = nodes[0].is_proper::<H>();
                let right = nodes[1].is_proper::<H>();
                proof {
                    assert(self@->Node_0[0] == nodes@[0]@);
                    assert(self@->Node_0[1] == nodes@[1]@);
                }
                left && right
            },
            Tree::Leaf(digest) => digest.len() == H::bytes(),
        }
    }

    /// The bottom pair of an authentication path.
    pub fn vals(&self) -> (pair: Option<Vec<Vec<u8>>>)
        ensures
            pair is Some,
            strings(pair.unwrap()@) == bottom(self@),
        decreases self,
    {
        match self {
            Tree::Node(nodes) => {
                let mut out: Vec<Vec<u8>> = Vec::new();
                let mut i: usize = 0;
                while i < nodes.len()
                    invariant
                        i <= nodes@.len(),
                        *self == Tree::Node(*nodes),
                        out@.len() == i,
                        forall|j: int| 0 <= j < i ==> (#[trigger] nodes@[j])@ is Leaf,
                        forall|j: int| 0 <= j < i ==> (#[trigger] out@[j])@ == nodes@[j]@->Leaf_0,
                    decreases nodes@.len() - i,
                {
                    match &nodes[i] {
                        Tree::Node(_) => {
                            proof {
                                assert(decreases_to!(self => self->Node_0));
                                assert(decreases_to!(self->Node_0 => self->Node_0@));
                                assert(decreases_to!(nodes@ => nodes@[i as int]));
                                assert forall|j: int| 0 <= j < i implies (
                                #[trigger] self@->Node_0[j]) is Leaf by {
                                    assert(nodes@[j]@ is Leaf);
                                }
                                lemma_first_inner(self@->Node_0, i as int);
                            }
                            return nodes[i].vals();
                        },
                        Tree::Leaf(digest) => {
                            out.push(digest.clone());
                        },
                    }
                    i += 1;
                }
                proof {
                    assert forall|j: int| 0 <= j < nodes@.len() implies (
                    #[trigger] self@->Node_0[j]) is Leaf by {
                        assert(nodes@[j]@ is Leaf);
                    }
                    lemma_first_inner(self@->Node_0, nodes@.len() as int);
                    assert(strings(out@) =~= digests(self@->Node_0));
                }
                Some(out)
            },
            Tree::Leaf(digest) => {
                let out = vec![digest.clone()];
                proof {
                    assert(strings(out@) =~= seq![digest@]);
                }
                Some(out)
            },
        }
    }

    /// The wire mirror of the tree.
    pub fn to_bin(&self) -> (bin: TreeBin)
        ensures
            bin@ == self@,
        decreases self,
    {
        match self {
            Tree::Node(nodes) => {
                let mut row: Vec<TreeBin> = Vec::new();
                let mut i: usize = 0;
                while i < nodes.len()
                    invariant
                        i <= nodes@.len(),
                        *self == Tree::Node(*nodes),
                        row@.len() == i,
                        forall|j: int| 0 <= j < i ==> (#[trigger] row@[j])@ == nodes@[j]@,
                    decreases nodes@.len() - i,
                {
                    proof {
                        assert(decreases_to!(self => self->Node_0));
                        assert(decreases_to!(self->Node_0 => self->Node_0@));
                        assert(decreases_to!(nodes@ => nodes@[i as int]));
                    }
                    row.push(nodes[i].to_bin());
                    i += 1;
                }
                let bin = TreeBin::Node(row);
                proof {
                    assert(bin@->Node_0 =~= self@->Node_0);
                }
                bin
            },
            Tree::Leaf(digest) => TreeBin::Leaf(digest.clone()),
        }
    }
}

impl TreeBin {
    /// The tree that the wire form stands for.
    pub fn to_tree(&self) -> (tree: Tree)
        ensures
            tree@ == self@,
        decreases self,
    {
        match self {
            TreeBin::Node(nodes) => {
                let mut row: Vec<Tree> = Vec::new();
                let mut i: usize = 0;
                while i < nodes.len()
                    invariant
                        i <= nodes@.len(),
                        *self == TreeBin::Node(*nodes),
                        row@.len() == i,
                        forall|j: int| 0 <= j < i ==> (#[trigger] row@[j])@ == nodes@[j]@,
                    decreases nodes@.len() - i,
                {
                    proof {
                        assert(decreases_to!(self => self->Node_0));
                        assert(decreases_to!(self->Node_0 => self->Node_0@));
                        assert(decreases_to!(nodes@ => nodes@[i as int]));
                    }
                    row.push(nodes[i].to_tree());
                    i += 1;
                }
                let tree = Tree::Node(row);
                proof {
                    assert(tree@->Node_0 =~= self@->Node_0);
                }
                tree
            },
            TreeBin::Leaf(digest) => Tree::Leaf(digest.clone()),
        }
    }
}

impl From<Tree> for TreeBin {
    fn from(tree: Tree) -> (bin: TreeBin)
        ensures
            bin@ == tree@,
    {
        tree.to_bin()
    }
}

impl vstd::std_specs::convert::FromSpecImpl<Tree> for TreeBin {
    open spec fn obeys_from_spec() -> bool {
        false
    }

    open spec fn from_spec(tree: Tree) -> TreeBin {
        arbitrary()
    }
}

impl From<TreeBin> for Tree {
    fn from(bin: TreeBin) -> (tree: Tree)
        ensures
            tree@ == bin@,
    {
        bin.to_tree()
    }
}

impl vstd::std_specs::convert::FromSpecImpl<TreeBin> for Tree {
    open spec fn obeys_from_spec() -> bool {
        false
    }

    open spec fn from_spec(bin: TreeBin) -> Tree {
        arbitrary()
    }
}

impl Clone for TreeBin {
    fn clone(&self) -> (copy: TreeBin)
        ensures
            copy@ == self@,
    {
        self.to_tree().to_bin()
    }
}

impl Clone for Tree {
    fn clone(&self) -> (copy: Tree)
        ensures
            copy@ == self@,
    {
        self.duplicate()
    }
}

} // verus!
