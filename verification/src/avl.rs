use vstd::prelude::*;
use vstd::arithmetic::power2::{pow2, lemma_pow2_unfold, lemma_pow2_strictly_increases};

verus! {

/// A node of an AVL tree of `u32` values.  `depth` caches the height of
/// the subtree rooted here and `cnt` the number of nodes in it.
pub struct AVLNode {
    pub depth: u32,
    pub cnt: u32,
    pub val: u32,
    pub left: Option<Box<AVLNode>>,
    pub right: Option<Box<AVLNode>>,
}

// ── mathematical model ──────────────────────────────────────────────────────

pub open spec fn max_nat(a: nat, b: nat) -> nat {
    if a >= b { a } else { b }
}

/// The values of a tree, read in order (left subtree, node, right subtree).
pub open spec fn tree_seq(t: Option<Box<AVLNode>>) -> Seq<u32>
    decreases t,
{
    match t {
        None => Seq::empty(),
        Some(n) => tree_seq(n.left) + seq![n.val] + tree_seq(n.right),
    }
}

/// The real height of a tree (0 for the empty tree).
pub open spec fn height(t: Option<Box<AVLNode>>) -> nat
    decreases t,
{
    match t {
        None => 0,
        Some(n) => 1 + max_nat(height(n.left), height(n.right)),
    }
}

/// The cached depth of a subtree, as `depth` reads it.
pub open spec fn depth_of(t: Option<Box<AVLNode>>) -> nat {
    match t {
        None => 0,
        Some(n) => n.depth as nat,
    }
}

/// The cached node count of a subtree, as `cnt` reads it.
pub open spec fn cnt_of(t: Option<Box<AVLNode>>) -> nat {
    match t {
        None => 0,
        Some(n) => n.cnt as nat,
    }
}

pub open spec fn all_le(s: Seq<u32>, v: u32) -> bool {
    forall|i: int| 0 <= i < s.len() ==> #[trigger] s[i] <= v
}

pub open spec fn all_ge(s: Seq<u32>, v: u32) -> bool {
    forall|i: int| 0 <= i < s.len() ==> v <= #[trigger] s[i]
}

pub open spec fn sorted(s: Seq<u32>) -> bool {
    forall|i: int, j: int| 0 <= i <= j < s.len() ==> s[i] <= s[j]
}

/// The AVL invariant: every cached depth and count is exact, the two
/// subtrees of every node differ in height by at most one, and every value
/// in a left subtree is at most the node's value, which is at most every
/// value in its right subtree.
pub open spec fn is_avl(t: Option<Box<AVLNode>>) -> bool
    decreases t,
{
    match t {
        None => true,
        Some(n) => {
            &&& is_avl(n.left)
            &&& is_avl(n.right)
            &&& n.depth == 1 + max_nat(height(n.left), height(n.right))
            &&& n.cnt == tree_seq(n.left).len() + 1 + tree_seq(n.right).len()
            &&& height(n.left) <= height(n.right) + 1
            &&& height(n.right) <= height(n.left) + 1
            &&& all_le(tree_seq(n.left), n.val)
            &&& all_ge(tree_seq(n.right), n.val)
        },
    }
}

/// A node built from a value and two subtrees, with the depth and count
/// computed from those cached at the subtrees, as `update` computes them.
pub open spec fn mk(val: u32, l: Option<Box<AVLNode>>, r: Option<Box<AVLNode>>) -> AVLNode {
    AVLNode {
        depth: (1 + max_nat(depth_of(l), depth_of(r))) as u32,
        cnt: (1 + cnt_of(l) + cnt_of(r)) as u32,
        val,
        left: l,
        right: r,
    }
}

// ── basic lemmas ────────────────────────────────────────────────────────────

/// The cached fields of an AVL tree are its real height and size.
pub proof fn lemma_avl_fields(t: Option<Box<AVLNode>>)
    requires
        is_avl(t),
    ensures
        depth_of(t) == height(t),
        cnt_of(t) == tree_seq(t).len(),
{
}

/// A tree is never higher than it has nodes.
pub proof fn lemma_height_le_len(t: Option<Box<AVLNode>>)
    ensures
        height(t) <= tree_seq(t).len(),
    decreases t,
{
    match t {
        None => {},
        Some(n) => {
            lemma_height_le_len(n.left);
            lemma_height_le_len(n.right);
        },
    }
}

/// The two subtrees of `n` are AVL trees on the correct sides of its value,
/// and the whole fits the `u32` counters: what rebalancing at `n` needs.
pub open spec fn subtrees_ok(n: AVLNode) -> bool {
    &&& is_avl(n.left)
    &&& is_avl(n.right)
    &&& all_le(tree_seq(n.left), n.val)
    &&& all_ge(tree_seq(n.right), n.val)
    &&& tree_seq(n.left).len() + 1 + tree_seq(n.right).len() <= u32::MAX
}

pub open spec fn balanced(l: Option<Box<AVLNode>>, r: Option<Box<AVLNode>>) -> bool {
    height(l) <= height(r) + 1 && height(r) <= height(l) + 1
}

proof fn lemma_mk_avl(v: u32, l: Option<Box<AVLNode>>, r: Option<Box<AVLNode>>)
    requires
        subtrees_ok(AVLNode { depth: 0, cnt: 0, val: v, left: l, right: r }),
        balanced(l, r),
    ensures
        is_avl(Some(Box::new(mk(v, l, r)))),
        tree_seq(Some(Box::new(mk(v, l, r)))) == tree_seq(l) + seq![v] + tree_seq(r),
        height(Some(Box::new(mk(v, l, r)))) == 1 + max_nat(height(l), height(r)),
        cnt_of(Some(Box::new(mk(v, l, r)))) == tree_seq(l).len() + 1 + tree_seq(r).len(),
{
    lemma_avl_fields(l);
    lemma_avl_fields(r);
    lemma_height_le_len(l);
    lemma_height_le_len(r);
}

proof fn lemma_all_le_concat(a: Seq<u32>, b: Seq<u32>, v: u32)
    ensures
        all_le(a + b, v) <==> (all_le(a, v) && all_le(b, v)),
{
    if all_le(a + b, v) {
        assert forall|i: int| 0 <= i < b.len() implies #[trigger] b[i] <= v by {
            assert((a + b)[a.len() + i] == b[i]);
        }
        assert forall|i: int| 0 <= i < a.len() implies #[trigger] a[i] <= v by {
            assert((a + b)[i] == a[i]);
        }
    }
    if all_le(a, v) && all_le(b, v) {
        assert forall|i: int| 0 <= i < (a + b).len() implies #[trigger] (a + b)[i] <= v by {
            if i < a.len() {
                assert((a + b)[i] == a[i]);
            } else {
                assert((a + b)[i] == b[i - a.len()]);
            }
        }
    }
}

proof fn lemma_all_ge_concat(a: Seq<u32>, b: Seq<u32>, v: u32)
    ensures
        all_ge(a + b, v) <==> (all_ge(a, v) && all_ge(b, v)),
{
    if all_ge(a + b, v) {
        assert forall|i: int| 0 <= i < b.len() implies v <= #[trigger] b[i] by {
            assert((a + b)[a.len() + i] == b[i]);
        }
        assert forall|i: int| 0 <= i < a.len() implies v <= #[trigger] a[i] by {
            assert((a + b)[i] == a[i]);
        }
    }
    if all_ge(a, v) && all_ge(b, v) {
        assert forall|i: int| 0 <= i < (a + b).len() implies v <= #[trigger] (a + b)[i] by {
            if i < a.len() {
                assert((a + b)[i] == a[i]);
            } else {
                assert((a + b)[i] == b[i - a.len()]);
            }
        }
    }
}

/// Splits the order facts about a node's in-order sequence into facts about
/// its parts.
proof fn lemma_parts(a: Seq<u32>, x: u32, b: Seq<u32>, v: u32)
    ensures
        all_le(a + seq![x] + b, v) <==> (all_le(a, v) && x <= v && all_le(b, v)),
        all_ge(a + seq![x] + b, v) <==> (all_ge(a, v) && v <= x && all_ge(b, v)),
{
    lemma_all_le_concat(a + seq![x], b, v);
    lemma_all_le_concat(a, seq![x], v);
    lemma_all_ge_concat(a + seq![x], b, v);
    lemma_all_ge_concat(a, seq![x], v);
    assert(seq![x][0] == x);
}

proof fn lemma_le_mono(s: Seq<u32>, v: u32, w: u32)
    requires
        v <= w,
    ensures
        all_le(s, v) ==> all_le(s, w),
        all_ge(s, w) ==> all_ge(s, v),
{
}

/// `r` is `s` with `v` inserted at some position.
pub open spec fn inserted(s: Seq<u32>, v: u32, r: Seq<u32>) -> bool {
    exists|i: int| 0 <= i <= s.len() && r == s.insert(i, v)
}

/// `r` is `s` with one occurrence of `v` taken out.
pub open spec fn removed_one(s: Seq<u32>, v: u32, r: Seq<u32>) -> bool {
    exists|i: int| 0 <= i < s.len() && s[i] == v && r == s.remove(i)
}

proof fn lemma_insert_bounds(s: Seq<u32>, i: int, v: u32, w: u32)
    requires
        0 <= i <= s.len(),
    ensures
        all_le(s, w) && v <= w ==> all_le(s.insert(i, v), w),
        all_ge(s, w) && w <= v ==> all_ge(s.insert(i, v), w),
{
    if all_le(s, w) && v <= w {
        assert forall|k: int| 0 <= k < s.insert(i, v).len() implies #[trigger] s.insert(i, v)[k] <= w by {
            if k < i {
                assert(s.insert(i, v)[k] == s[k]);
            } else if k > i {
                assert(s.insert(i, v)[k] == s[k - 1]);
            }
        }
    }
    if all_ge(s, w) && w <= v {
        assert forall|k: int| 0 <= k < s.insert(i, v).len() implies w <= #[trigger] s.insert(i, v)[k] by {
            if k < i {
                assert(s.insert(i, v)[k] == s[k]);
            } else if k > i {
                assert(s.insert(i, v)[k] == s[k - 1]);
            }
        }
    }
}

proof fn lemma_remove_bounds(s: Seq<u32>, i: int, w: u32)
    requires
        0 <= i < s.len(),
    ensures
        all_le(s, w) ==> all_le(s.remove(i), w),
        all_ge(s, w) ==> all_ge(s.remove(i), w),
{
    if all_le(s, w) {
        assert forall|k: int| 0 <= k < s.remove(i).len() implies #[trigger] s.remove(i)[k] <= w by {
            if k < i {
                assert(s.remove(i)[k] == s[k]);
            } else {
                assert(s.remove(i)[k] == s[k + 1]);
            }
        }
    }
    if all_ge(s, w) {
        assert forall|k: int| 0 <= k < s.remove(i).len() implies w <= #[trigger] s.remove(i)[k] by {
            if k < i {
                assert(s.remove(i)[k] == s[k]);
            } else {
                assert(s.remove(i)[k] == s[k + 1]);
            }
        }
    }
}

// ── executable code ─────────────────────────────────────────────────────────

impl AVLNode {
    /// A tree of one node holding `val`.
    pub fn new(val: u32) -> (res: Box<Self>)
        ensures
            *res == (AVLNode { depth: 1, cnt: 1, val, left: None, right: None }),
            is_avl(Some(res)),
            tree_seq(Some(res)) == seq![val],
            height(Some(res)) == 1,
    {
        let res = Box::new(AVLNode { depth: 1, cnt: 1, val, left: None, right: None });
        proof {
            reveal_with_fuel(tree_seq, 2);
            reveal_with_fuel(height, 2);
            reveal_with_fuel(is_avl, 2);
            assert(tree_seq(Some(res)) =~= seq![val]);
        }
        res
    }
}

fn depth(node: &Option<Box<AVLNode>>) -> (d: u32)
    ensures
        d == depth_of(*node),
{
    match node {
        None => 0,
        Some(n) => n.depth,
    }
}

fn cnt(node: &Option<Box<AVLNode>>) -> (c: u32)
    ensures
        c == cnt_of(*node),
{
    match node {
        None => 0,
        Some(n) => n.cnt,
    }
}

/// Recomputes the cached depth and count of `node` from its children.
fn update(node: &mut AVLNode)
    requires
        depth_of(old(node).left) < u32::MAX,
        depth_of(old(node).right) < u32::MAX,
        1 + cnt_of(old(node).left) + cnt_of(old(node).right) <= u32::MAX,
    ensures
        *final(node) == mk(old(node).val, old(node).left, old(node).right),
{
    let dl = depth(&node.left);
    let dr = depth(&node.right);
    node.depth = 1 + if dl >= dr { dl } else { dr };
    node.cnt = 1 + cnt(&node.left) + cnt(&node.right);
}

/// Appends the values of the tree to `out`, in order.
pub fn collect(node: &Option<Box<AVLNode>>, out: &mut Vec<u32>)
    ensures
        final(out)@ == old(out)@ + tree_seq(*node),
    decreases *node,
{
    if let Some(n) = node {
        collect(&n.left, out);
        out.push(n.val);
        collect(&n.right, out);
        proof {
            assert(final(out)@ =~= old(out)@ + tree_seq(*node));
        }
    }
}

// ── rotations ───────────────────────────────────────────────────────────────

/// The three subtrees that a rotation moves can be re-measured without
/// overflow: the two nodes rebuilt above them get a depth and a count that
/// fit in a `u32`.  Only the cached fields are read.
pub open spec fn rotatable(a: Option<Box<AVLNode>>, c: Option<Box<AVLNode>>, e: Option<Box<AVLNode>>) -> bool {
    &&& depth_of(a) + 2 <= u32::MAX
    &&& depth_of(c) + 2 <= u32::MAX
    &&& depth_of(e) + 2 <= u32::MAX
    &&& cnt_of(a) + cnt_of(c) + cnt_of(e) + 2 <= u32::MAX
}

/// AVL subtrees whose sizes fit, with the two rebuilt nodes, in a `u32`
/// can be rotated.
proof fn lemma_avl_rotatable(a: Option<Box<AVLNode>>, c: Option<Box<AVLNode>>, e: Option<Box<AVLNode>>)
    requires
        is_avl(a),
        is_avl(c),
        is_avl(e),
        tree_seq(a).len() + tree_seq(c).len() + tree_seq(e).len() + 2 <= u32::MAX,
    ensures
        rotatable(a, c, e),
{
    lemma_avl_fields(a);
    lemma_avl_fields(c);
    lemma_avl_fields(e);
    lemma_height_le_len(a);
    lemma_height_le_len(c);
    lemma_height_le_len(e);
}

//      b                d
//     / \              / \
//    a   d    →       b   e
//       / \          / \
//      c   e        a   c
fn rot_left(mut node: Box<AVLNode>) -> (res: Box<AVLNode>)
    requires
        node.right is Some,
        rotatable(node.left, node.right.unwrap().left, node.right.unwrap().right),
    ensures
        ({
            let d = *node.right.unwrap();
            *res == mk(d.val, Some(Box::new(mk(node.val, node.left, d.left))), d.right)
        }),
{
    let mut new_root = node.right.take().unwrap();
    node.right = new_root.left.take();
    update(&mut node);
    new_root.left = Some(node);
    update(&mut new_root);
    new_root
}

//        d                b
//       / \              / \
//      b   e    →       a   d
//     / \                  / \
//    a   c                c   e
fn rot_right(mut node: Box<AVLNode>) -> (res: Box<AVLNode>)
    requires
        node.left is Some,
        rotatable(node.left.unwrap().left, node.left.unwrap().right, node.right),
    ensures
        ({
            let b = *node.left.unwrap();
            *res == mk(b.val, b.left, Some(Box::new(mk(node.val, b.right, node.right))))
        }),
{
    let mut new_root = node.left.take().unwrap();
    node.left = new_root.right.take();
    update(&mut node);
    new_root.right = Some(node);
    update(&mut new_root);
    new_root
}

// ── fixing imbalance ────────────────────────────────────────────────────────

/// Rebalancing a node whose left subtree is two levels deeper than its
/// right one, when the left child leans right: rotate the child left, then
/// the node right.  The result is an AVL tree with the same values.
#[verifier::spinoff_prover]
#[verifier::rlimit(40)]
proof fn lemma_left_right_case(n: AVLNode)
    requires
        subtrees_ok(n),
        height(n.left) == height(n.right) + 2,
        n.left is Some,
        depth_of(n.left.unwrap().left) < depth_of(n.left.unwrap().right),
    ensures
        ({
            let b = *n.left.unwrap();
            let c = *b.right.unwrap();
            let x = Some(Box::new(mk(b.val, b.left, c.left)));
            let y = Some(Box::new(mk(n.val, c.right, n.right)));
            let t = Some(Box::new(mk(c.val, x, y)));
            &&& b.right is Some
            &&& rotatable(b.left, c.left, c.right)
            &&& rotatable(x, c.right, n.right)
            &&& is_avl(t)
            &&& tree_seq(t) == tree_seq(Some(Box::new(n)))
            &&& height(n.left) <= height(t) <= height(n.left) + 1
        }),
{
    let b = *n.left.unwrap();
    let ll = b.left;
    let lr = b.right;
    let r = n.right;
    assert(n.left == Some(n.left.unwrap()));
    lemma_avl_fields(ll);
    lemma_avl_fields(lr);
    assert(is_avl(lr));
    assert(lr == Some(lr.unwrap()));
    let c = *lr.unwrap();
    assert(is_avl(c.left));
    lemma_avl_fields(c.left);
    lemma_avl_fields(c.right);
    lemma_parts(tree_seq(ll), b.val, tree_seq(lr), n.val);
    lemma_parts(tree_seq(c.left), c.val, tree_seq(c.right), b.val);
    lemma_parts(tree_seq(c.left), c.val, tree_seq(c.right), n.val);
    lemma_le_mono(tree_seq(ll), b.val, c.val);
    lemma_le_mono(tree_seq(r), c.val, n.val);
    lemma_mk_avl(b.val, ll, c.left);
    lemma_mk_avl(n.val, c.right, r);
    lemma_parts(tree_seq(ll), b.val, tree_seq(c.left), c.val);
    lemma_parts(tree_seq(c.right), n.val, tree_seq(r), c.val);
    let x = Some(Box::new(mk(b.val, ll, c.left)));
    let y = Some(Box::new(mk(n.val, c.right, r)));
    lemma_mk_avl(c.val, x, y);
    lemma_height_le_len(x);
    lemma_avl_fields(x);
    assert(tree_seq(Some(Box::new(mk(c.val, x, y)))) =~= tree_seq(Some(Box::new(n))));
    assert(rotatable(ll, c.left, c.right) && rotatable(x, c.right, r)) by {
        lemma_avl_rotatable(ll, c.left, c.right);
        lemma_avl_rotatable(x, c.right, r);
    }
}

/// Rebalancing a node whose left subtree is two levels deeper than its
/// right one, when the left child does not lean right: one right rotation.
proof fn lemma_left_left_case(n: AVLNode)
    requires
        subtrees_ok(n),
        height(n.left) == height(n.right) + 2,
        n.left is Some,
        depth_of(n.left.unwrap().left) >= depth_of(n.left.unwrap().right),
    ensures
        ({
            let b = *n.left.unwrap();
            let y = Some(Box::new(mk(n.val, b.right, n.right)));
            let t = Some(Box::new(mk(b.val, b.left, y)));
            &&& rotatable(b.left, b.right, n.right)
            &&& is_avl(t)
            &&& tree_seq(t) == tree_seq(Some(Box::new(n)))
            &&& height(n.left) <= height(t) <= height(n.left) + 1
        }),
{
    let b = *n.left.unwrap();
    let ll = b.left;
    let lr = b.right;
    let r = n.right;
    assert(n.left == Some(n.left.unwrap()));
    lemma_avl_fields(ll);
    lemma_avl_fields(lr);
    lemma_parts(tree_seq(ll), b.val, tree_seq(lr), n.val);
    lemma_mk_avl(n.val, lr, r);
    let y = Some(Box::new(mk(n.val, lr, r)));
    lemma_le_mono(tree_seq(r), b.val, n.val);
    lemma_parts(tree_seq(lr), n.val, tree_seq(r), b.val);
    lemma_mk_avl(b.val, ll, y);
    assert(tree_seq(Some(Box::new(mk(b.val, ll, y)))) =~= tree_seq(Some(Box::new(n))));
    lemma_avl_rotatable(ll, lr, r);
}

// left subtree is too deep by 2
fn fix_left(mut node: Box<AVLNode>) -> (res: Box<AVLNode>)
    requires
        subtrees_ok(*node),
        height(node.left) == height(node.right) + 2,
    ensures
        is_avl(Some(res)),
        tree_seq(Some(res)) == tree_seq(Some(node)),
        height(node.left) <= height(Some(res)) <= height(node.left) + 1,
{
    proof {
        assert(node.left is Some);
    }
    // check if we need a double rotation (left-right case)
    if depth(&node.left.as_ref().unwrap().left) < depth(&node.left.as_ref().unwrap().right) {
        proof {
            lemma_left_right_case(*node);
        }
        // left child is right-heavy → rotate it left first
        node.left = Some(rot_left(node.left.take().unwrap()));
    } else {
        proof {
            lemma_left_left_case(*node);
        }
    }
    // now rotate right
    rot_right(node)
}

/// Mirror of `lemma_left_right_case`: the right subtree is two levels
/// deeper and the right child leans left.
#[verifier::spinoff_prover]
#[verifier::rlimit(40)]
proof fn lemma_right_left_case(n: AVLNode)
    requires
        subtrees_ok(n),
        height(n.right) == height(n.left) + 2,
        n.right is Some,
        depth_of(n.right.unwrap().right) < depth_of(n.right.unwrap().left),
    ensures
        ({
            let d = *n.right.unwrap();
            let c = *d.left.unwrap();
            let x = Some(Box::new(mk(n.val, n.left, c.left)));
            let y = Some(Box::new(mk(d.val, c.right, d.right)));
            let t = Some(Box::new(mk(c.val, x, y)));
            &&& d.left is Some
            &&& rotatable(c.left, c.right, d.right)
            &&& rotatable(n.left, c.left, y)
            &&& is_avl(t)
            &&& tree_seq(t) == tree_seq(Some(Box::new(n)))
            &&& height(n.right) <= height(t) <= height(n.right) + 1
        }),
{
    let d = *n.right.unwrap();
    let rl = d.left;
    let rr = d.right;
    let l = n.left;
    assert(n.right == Some(n.right.unwrap()));
    lemma_avl_fields(rl);
    lemma_avl_fields(rr);
    assert(is_avl(rl));
    assert(rl == Some(rl.unwrap()));
    let c = *rl.unwrap();
    assert(is_avl(c.left));
    lemma_avl_fields(c.left);
    lemma_avl_fields(c.right);
    lemma_parts(tree_seq(rl), d.val, tree_seq(rr), n.val);
    lemma_parts(tree_seq(c.left), c.val, tree_seq(c.right), d.val);
    lemma_parts(tree_seq(c.left), c.val, tree_seq(c.right), n.val);
    lemma_le_mono(tree_seq(rr), c.val, d.val);
    lemma_le_mono(tree_seq(l), n.val, c.val);
    lemma_mk_avl(n.val, l, c.left);
    lemma_mk_avl(d.val, c.right, rr);
    lemma_parts(tree_seq(l), n.val, tree_seq(c.left), c.val);
    lemma_parts(tree_seq(c.right), d.val, tree_seq(rr), c.val);
    let x = Some(Box::new(mk(n.val, l, c.left)));
    let y = Some(Box::new(mk(d.val, c.right, rr)));
    lemma_mk_avl(c.val, x, y);
    lemma_height_le_len(y);
    lemma_avl_fields(y);
    assert(tree_seq(Some(Box::new(mk(c.val, x, y)))) =~= tree_seq(Some(Box::new(n))));
    lemma_avl_rotatable(c.left, c.right, rr);
    lemma_avl_rotatable(l, c.left, y);
}

/// Mirror of `lemma_left_left_case`: one left rotation.
proof fn lemma_right_right_case(n: AVLNode)
    requires
        subtrees_ok(n),
        height(n.right) == height(n.left) + 2,
        n.right is Some,
        depth_of(n.right.unwrap().right) >= depth_of(n.right.unwrap().left),
    ensures
        ({
            let d = *n.right.unwrap();
            let x = Some(Box::new(mk(n.val, n.left, d.left)));
            let t = Some(Box::new(mk(d.val, x, d.right)));
            &&& rotatable(n.left, d.left, d.right)
            &&& is_avl(t)
            &&& tree_seq(t) == tree_seq(Some(Box::new(n)))
            &&& height(n.right) <= height(t) <= height(n.right) + 1
        }),
{
    let d = *n.right.unwrap();
    let rl = d.left;
    let rr = d.right;
    let l = n.left;
    assert(n.right == Some(n.right.unwrap()));
    lemma_avl_fields(rl);
    lemma_avl_fields(rr);
    lemma_parts(tree_seq(rl), d.val, tree_seq(rr), n.val);
    lemma_mk_avl(n.val, l, rl);
    let x = Some(Box::new(mk(n.val, l, rl)));
    lemma_le_mono(tree_seq(l), n.val, d.val);
    lemma_parts(tree_seq(l), n.val, tree_seq(rl), d.val);
    lemma_mk_avl(d.val, x, rr);
    assert(tree_seq(Some(Box::new(mk(d.val, x, rr)))) =~= tree_seq(Some(Box::new(n))));
    lemma_avl_rotatable(l, rl, rr);
}

// right subtree is too deep by 2
fn fix_right(mut node: Box<AVLNode>) -> (res: Box<AVLNode>)
    requires
        subtrees_ok(*node),
        height(node.right) == height(node.left) + 2,
    ensures
        is_avl(Some(res)),
        tree_seq(Some(res)) == tree_seq(Some(node)),
        height(node.right) <= height(Some(res)) <= height(node.right) + 1,
{
    proof {
        assert(node.right is Some);
    }
    // check if we need a double rotation (right-left case)
    if depth(&node.right.as_ref().unwrap().right) < depth(&node.right.as_ref().unwrap().left) {
        proof {
            lemma_right_left_case(*node);
        }
        // right child is left-heavy → rotate it right first
        node.right = Some(rot_right(node.right.take().unwrap()));
    } else {
        proof {
            lemma_right_right_case(*node);
        }
    }
    // now rotate left
    rot_left(node)
}

/// Recomputes the cached fields of `node` and restores the AVL balance at
/// it, when its subtrees are AVL trees whose heights differ by at most two.
fn fix(mut node: Box<AVLNode>) -> (res: Box<AVLNode>)
    requires
        subtrees_ok(*node),
        height(node.left) <= height(node.right) + 2,
        height(node.right) <= height(node.left) + 2,
    ensures
        is_avl(Some(res)),
        tree_seq(Some(res)) == tree_seq(Some(node)),
        balanced(node.left, node.right) ==> height(Some(res)) == 1 + max_nat(
            height(node.left),
            height(node.right),
        ),
        max_nat(height(node.left), height(node.right)) <= height(Some(res)) <= 1 + max_nat(
            height(node.left),
            height(node.right),
        ),
{
    let ghost n = *node;
    proof {
        lemma_avl_fields(n.left);
        lemma_avl_fields(n.right);
        lemma_height_le_len(n.left);
        lemma_height_le_len(n.right);
    }
    update(&mut node);
    let l = depth(&node.left);
    let r = depth(&node.right);

    if l as u64 == r as u64 + 2 {
        fix_left(node)  // left too heavy
    } else if l as u64 + 2 == r as u64 {
        fix_right(node)  // right too heavy
    } else {
        proof {
            lemma_mk_avl(n.val, n.left, n.right);
            assert(tree_seq(Some(node)) =~= tree_seq(Some(Box::new(n))));
        }
        node  // balanced, nothing to do
    }
}

// ── insert ──────────────────────────────────────────────────────────────────

/// The height that `fix` gives a node with subtrees `l` and `r` allows.
pub open spec fn fixed_height(l: Option<Box<AVLNode>>, r: Option<Box<AVLNode>>, h: nat) -> bool {
    &&& balanced(l, r) ==> h == 1 + max_nat(height(l), height(r))
    &&& max_nat(height(l), height(r)) <= h <= 1 + max_nat(height(l), height(r))
}

proof fn lemma_insert_left(n: AVLNode, nl: Option<Box<AVLNode>>, val: u32)
    requires
        is_avl(Some(Box::new(n))),
        val < n.val,
        tree_seq(Some(Box::new(n))).len() < u32::MAX,
        is_avl(nl),
        inserted(tree_seq(n.left), val, tree_seq(nl)),
        height(n.left) <= height(nl) <= height(n.left) + 1,
    ensures
        ({
            let m = AVLNode { depth: n.depth, cnt: n.cnt, val: n.val, left: nl, right: n.right };
            &&& subtrees_ok(m)
            &&& height(nl) <= height(n.right) + 2
            &&& height(n.right) <= height(nl) + 2
            &&& inserted(tree_seq(Some(Box::new(n))), val, tree_seq(Some(Box::new(m))))
            &&& forall|h: nat| #[trigger] fixed_height(nl, n.right, h)
                ==> height(Some(Box::new(n))) <= h <= height(Some(Box::new(n))) + 1
        }),
{
    let m = AVLNode { depth: n.depth, cnt: n.cnt, val: n.val, left: nl, right: n.right };
    let ls = tree_seq(n.left);
    let i = choose|i: int| 0 <= i <= ls.len() && tree_seq(nl) == ls.insert(i, val);
    lemma_insert_bounds(ls, i, val, n.val);
    assert(tree_seq(Some(Box::new(m))) =~= tree_seq(Some(Box::new(n))).insert(i, val));
}

proof fn lemma_insert_right(n: AVLNode, nr: Option<Box<AVLNode>>, val: u32)
    requires
        is_avl(Some(Box::new(n))),
        n.val <= val,
        tree_seq(Some(Box::new(n))).len() < u32::MAX,
        is_avl(nr),
        inserted(tree_seq(n.right), val, tree_seq(nr)),
        height(n.right) <= height(nr) <= height(n.right) + 1,
    ensures
        ({
            let m = AVLNode { depth: n.depth, cnt: n.cnt, val: n.val, left: n.left, right: nr };
            &&& subtrees_ok(m)
            &&& height(nr) <= height(n.left) + 2
            &&& height(n.left) <= height(nr) + 2
            &&& inserted(tree_seq(Some(Box::new(n))), val, tree_seq(Some(Box::new(m))))
            &&& forall|h: nat| #[trigger] fixed_height(n.left, nr, h)
                ==> height(Some(Box::new(n))) <= h <= height(Some(Box::new(n))) + 1
        }),
{
    let m = AVLNode { depth: n.depth, cnt: n.cnt, val: n.val, left: n.left, right: nr };
    let ls = tree_seq(n.left);
    let rs = tree_seq(n.right);
    let j = choose|j: int| 0 <= j <= rs.len() && tree_seq(nr) == rs.insert(j, val);
    lemma_insert_bounds(rs, j, val, n.val);
    assert(tree_seq(Some(Box::new(m))) =~= tree_seq(Some(Box::new(n))).insert(ls.len() + 1 + j, val));
}

/// Inserts `val` into an AVL tree and returns the rebalanced tree.  A value
/// equal to one already stored goes to the right of it.
pub fn insert(node: Option<Box<AVLNode>>, val: u32) -> (res: Box<AVLNode>)
    requires
        is_avl(node),
        tree_seq(node).len() < u32::MAX,
    ensures
        is_avl(Some(res)),
        inserted(tree_seq(node), val, tree_seq(Some(res))),
        height(node) <= height(Some(res)) <= height(node) + 1,
    decreases node,
{
    match node {
        None => {
            let res = AVLNode::new(val);  // empty spot found, place here
            proof {
                assert(tree_seq(Some(res)) =~= Seq::<u32>::empty().insert(0, val));
            }
            res
        },
        Some(mut n) => {
            let ghost old_n = *n;
            if val < n.val {
                n.left = Some(insert(n.left.take(), val));
                proof {
                    lemma_insert_left(old_n, n.left, val);
                }
            } else {
                n.right = Some(insert(n.right.take(), val));
                proof {
                    lemma_insert_right(old_n, n.right, val);
                }
            }
            let res = fix(n);  // rebalance on the way back up the recursion
            proof {
                assert(fixed_height(n.left, n.right, height(Some(res))));
            }
            res
        },
    }
}

// ── delete ──────────────────────────────────────────────────────────────────

/// The in-order sequence of an AVL tree is sorted.
pub proof fn lemma_avl_sorted(t: Option<Box<AVLNode>>)
    requires
        is_avl(t),
    ensures
        sorted(tree_seq(t)),
    decreases t,
{
    match t {
        None => {},
        Some(n) => {
            lemma_avl_sorted(n.left);
            lemma_avl_sorted(n.right);
            let ls = tree_seq(n.left);
            let rs = tree_seq(n.right);
            let s = tree_seq(t);
            assert(s =~= ls + seq![n.val] + rs);
            assert forall|i: int, j: int| 0 <= i <= j < s.len() implies s[i] <= s[j] by {
                if j < ls.len() {
                    assert(s[i] == ls[i] && s[j] == ls[j]);
                } else if i > ls.len() {
                    assert(s[i] == rs[i - ls.len() - 1] && s[j] == rs[j - ls.len() - 1]);
                } else {
                    if i < ls.len() {
                        assert(s[i] == ls[i]);
                    }
                    if j > ls.len() {
                        assert(s[j] == rs[j - ls.len() - 1]);
                    }
                }
            }
        },
    }
}

/// A child of `n` is replaced by `nc`, whose values are those of the old
/// child less at most one, whose height is at most one less, and which is an
/// AVL tree on the correct side of `n`'s value.  Then `fix` applies, and
/// the height it gives is at most one less than the old height.
pub open spec fn shrunk_child(old_c: Option<Box<AVLNode>>, nc: Option<Box<AVLNode>>) -> bool {
    &&& is_avl(nc)
    &&& height(old_c) <= height(nc) + 1
    &&& height(nc) <= height(old_c)
}

proof fn lemma_shrink_heights(n: AVLNode, m: AVLNode)
    requires
        is_avl(Some(Box::new(n))),
        (m.left == n.left && shrunk_child(n.right, m.right)) || (m.right == n.right
            && shrunk_child(n.left, m.left)),
    ensures
        height(m.left) <= height(m.right) + 2,
        height(m.right) <= height(m.left) + 2,
        forall|h: nat| #[trigger] fixed_height(m.left, m.right, h)
            ==> height(Some(Box::new(n))) <= h + 1 && h <= height(Some(Box::new(n))),
{
}

proof fn lemma_remove_min_step(n: AVLNode, nl: Option<Box<AVLNode>>, mv: u32)
    requires
        is_avl(Some(Box::new(n))),
        n.left is Some,
        shrunk_child(n.left, nl),
        tree_seq(n.left).len() > 0,
        mv == tree_seq(n.left)[0],
        tree_seq(nl) == tree_seq(n.left).drop_first(),
    ensures
        ({
            let m = AVLNode { depth: n.depth, cnt: n.cnt, val: n.val, left: nl, right: n.right };
            &&& subtrees_ok(m)
            &&& mv == tree_seq(Some(Box::new(n)))[0]
            &&& tree_seq(Some(Box::new(m))) == tree_seq(Some(Box::new(n))).drop_first()
        }),
{
    let m = AVLNode { depth: n.depth, cnt: n.cnt, val: n.val, left: nl, right: n.right };
    let ls = tree_seq(n.left);
    lemma_remove_bounds(ls, 0, n.val);
    assert(ls.remove(0) =~= ls.drop_first());
    assert(tree_seq(Some(Box::new(m))) =~= tree_seq(Some(Box::new(n))).drop_first());
}

// find and remove the minimum node in a subtree
// returns (new subtree root, the removed min node's value)
fn remove_min(mut node: Box<AVLNode>) -> (res: (Option<Box<AVLNode>>, u32))
    requires
        is_avl(Some(node)),
    ensures
        shrunk_child(Some(node), res.0),
        tree_seq(Some(node)).len() > 0,
        res.1 == tree_seq(Some(node))[0],
        tree_seq(res.0) == tree_seq(Some(node)).drop_first(),
    decreases node,
{
    let ghost old_n = *node;
    if node.left.is_none() {
        let val = node.val;  // copy first (u32 is Copy)
        let right = node.right.take();  // then take right
        proof {
            assert(tree_seq(Some(Box::new(old_n))) =~= seq![val] + tree_seq(right));
            assert(tree_seq(right) =~= tree_seq(Some(Box::new(old_n))).drop_first());
        }
        return (right, val);
    }
    let (new_left, min_val) = remove_min(node.left.take().unwrap());
    node.left = new_left;
    proof {
        lemma_remove_min_step(old_n, new_left, min_val);
        lemma_shrink_heights(old_n, *node);
    }
    let res = fix(node);
    proof {
        assert(fixed_height(node.left, node.right, height(Some(res))));
    }
    (Some(res), min_val)
}

proof fn lemma_delete_left(n: AVLNode, nl: Option<Box<AVLNode>>, val: u32, deleted: bool)
    requires
        is_avl(Some(Box::new(n))),
        val < n.val,
        shrunk_child(n.left, nl),
        deleted == tree_seq(n.left).contains(val),
        deleted ==> removed_one(tree_seq(n.left), val, tree_seq(nl)),
        !deleted ==> tree_seq(nl) == tree_seq(n.left),
    ensures
        ({
            let m = AVLNode { depth: n.depth, cnt: n.cnt, val: n.val, left: nl, right: n.right };
            let s = tree_seq(Some(Box::new(n)));
            &&& subtrees_ok(m)
            &&& deleted == s.contains(val)
            &&& deleted ==> removed_one(s, val, tree_seq(Some(Box::new(m))))
            &&& !deleted ==> tree_seq(Some(Box::new(m))) == s
        }),
{
    let m = AVLNode { depth: n.depth, cnt: n.cnt, val: n.val, left: nl, right: n.right };
    let s = tree_seq(Some(Box::new(n)));
    let ls = tree_seq(n.left);
    let rs = tree_seq(n.right);
    assert(s =~= ls + seq![n.val] + rs);
    lemma_avl_fields(n.left);
    lemma_avl_fields(n.right);
    if deleted {
        let i = choose|i: int| 0 <= i < ls.len() && ls[i] == val && tree_seq(nl) == ls.remove(i);
        lemma_remove_bounds(ls, i, n.val);
        assert(s[i] == val);
        assert(tree_seq(Some(Box::new(m))) =~= s.remove(i));
    } else {
        assert forall|i: int| 0 <= i < s.len() implies s[i] != val by {
            if i < ls.len() {
                assert(s[i] == ls[i]);
            } else if i > ls.len() {
                assert(s[i] == rs[i - ls.len() - 1]);
            }
        }
        assert(tree_seq(Some(Box::new(m))) =~= s);
    }
}

proof fn lemma_delete_right(n: AVLNode, nr: Option<Box<AVLNode>>, val: u32, deleted: bool)
    requires
        is_avl(Some(Box::new(n))),
        n.val < val,
        shrunk_child(n.right, nr),
        deleted == tree_seq(n.right).contains(val),
        deleted ==> removed_one(tree_seq(n.right), val, tree_seq(nr)),
        !deleted ==> tree_seq(nr) == tree_seq(n.right),
    ensures
        ({
            let m = AVLNode { depth: n.depth, cnt: n.cnt, val: n.val, left: n.left, right: nr };
            let s = tree_seq(Some(Box::new(n)));
            &&& subtrees_ok(m)
            &&& deleted == s.contains(val)
            &&& deleted ==> removed_one(s, val, tree_seq(Some(Box::new(m))))
            &&& !deleted ==> tree_seq(Some(Box::new(m))) == s
        }),
{
    let m = AVLNode { depth: n.depth, cnt: n.cnt, val: n.val, left: n.left, right: nr };
    let s = tree_seq(Some(Box::new(n)));
    let ls = tree_seq(n.left);
    let rs = tree_seq(n.right);
    assert(s =~= ls + seq![n.val] + rs);
    lemma_avl_fields(n.left);
    lemma_avl_fields(n.right);
    if deleted {
        let i = choose|i: int| 0 <= i < rs.len() && rs[i] == val && tree_seq(nr) == rs.remove(i);
        lemma_remove_bounds(rs, i, n.val);
        assert(s[ls.len() + 1 + i] == val);
        assert(tree_seq(Some(Box::new(m))) =~= s.remove(ls.len() + 1 + i));
    } else {
        assert forall|i: int| 0 <= i < s.len() implies s[i] != val by {
            if i < ls.len() {
                assert(s[i] == ls[i]);
            } else if i > ls.len() {
                assert(s[i] == rs[i - ls.len() - 1]);
            }
        }
        assert(tree_seq(Some(Box::new(m))) =~= s);
    }
}

/// Replacing a node's value by the least value of its right subtree, and
/// that subtree by the rest of it, removes the node's value.
proof fn lemma_delete_successor(n: AVLNode, nr: Option<Box<AVLNode>>, mv: u32)
    requires
        is_avl(Some(Box::new(n))),
        shrunk_child(n.right, nr),
        tree_seq(n.right).len() > 0,
        mv == tree_seq(n.right)[0],
        tree_seq(nr) == tree_seq(n.right).drop_first(),
    ensures
        ({
            let m = AVLNode { depth: n.depth, cnt: n.cnt, val: mv, left: n.left, right: nr };
            let s = tree_seq(Some(Box::new(n)));
            &&& subtrees_ok(m)
            &&& removed_one(s, n.val, tree_seq(Some(Box::new(m))))
        }),
{
    let m = AVLNode { depth: n.depth, cnt: n.cnt, val: mv, left: n.left, right: nr };
    let s = tree_seq(Some(Box::new(n)));
    let ls = tree_seq(n.left);
    let rs = tree_seq(n.right);
    lemma_avl_fields(n.left);
    lemma_avl_fields(n.right);
    lemma_avl_sorted(n.right);
    assert(s =~= ls + seq![n.val] + rs);
    assert(n.val <= rs[0]);
    lemma_le_mono(ls, n.val, mv);
    assert forall|i: int| 0 <= i < tree_seq(nr).len() implies mv <= #[trigger] tree_seq(nr)[i] by {
        assert(tree_seq(nr)[i] == rs[i + 1]);
    }
    assert(s[ls.len() as int] == n.val);
    assert(tree_seq(Some(Box::new(m))) =~= s.remove(ls.len() as int));
}

/// Removes one occurrence of `val` from an AVL tree.  Returns the
/// rebalanced tree and whether `val` was found.
pub fn delete(node: Option<Box<AVLNode>>, val: u32) -> (res: (Option<Box<AVLNode>>, bool))
    requires
        is_avl(node),
    ensures
        is_avl(res.0),
        height(node) <= height(res.0) + 1,
        height(res.0) <= height(node),
        res.1 == tree_seq(node).contains(val),
        res.1 ==> removed_one(tree_seq(node), val, tree_seq(res.0)),
        !res.1 ==> tree_seq(res.0) == tree_seq(node),
    decreases node,
{
    match node {
        None => (None, false),  // val not found
        Some(mut n) => {
            let ghost old_n = *n;
            if val < n.val {
                // go left
                let (new_left, deleted) = delete(n.left.take(), val);
                n.left = new_left;
                proof {
                    lemma_delete_left(old_n, new_left, val, deleted);
                    lemma_shrink_heights(old_n, *n);
                }
                let res = fix(n);
                proof {
                    assert(fixed_height(n.left, n.right, height(Some(res))));
                }
                (Some(res), deleted)
            } else if val > n.val {
                // go right
                let (new_right, deleted) = delete(n.right.take(), val);
                n.right = new_right;
                proof {
                    lemma_delete_right(old_n, new_right, val, deleted);
                    lemma_shrink_heights(old_n, *n);
                }
                let res = fix(n);
                proof {
                    assert(fixed_height(n.left, n.right, height(Some(res))));
                }
                (Some(res), deleted)
            } else {
                // found the node to delete
                let ghost s = tree_seq(node);
                let ghost ls = tree_seq(old_n.left);
                let ghost rs = tree_seq(old_n.right);
                proof {
                    assert(s =~= ls + seq![old_n.val] + rs);
                    assert(s[ls.len() as int] == val);
                }
                match (n.left.take(), n.right.take()) {
                    (None, right) => {
                        // no left child, replace with right
                        proof {
                            assert(tree_seq(right) =~= s.remove(ls.len() as int));
                        }
                        (right, true)
                    },
                    (left, None) => {
                        // no right child, replace with left
                        proof {
                            assert(tree_seq(left) =~= s.remove(ls.len() as int));
                        }
                        (left, true)
                    },
                    (left, right) => {
                        // has both children
                        // find in-order successor (min of right subtree)
                        // replace current val with successor val
                        // delete successor from right subtree
                        let (new_right, successor_val) = remove_min(right.unwrap());
                        n.val = successor_val;
                        n.left = left;
                        n.right = new_right;
                        proof {
                            lemma_delete_successor(old_n, new_right, successor_val);
                            let m = AVLNode {
                                depth: old_n.depth,
                                cnt: old_n.cnt,
                                val: old_n.val,
                                left: old_n.left,
                                right: new_right,
                            };
                            lemma_shrink_heights(old_n, m);
                        }
                        let res = fix(n);
                        proof {
                            assert(fixed_height(n.left, n.right, height(Some(res))));
                        }
                        (Some(res), true)
                    },
                }
            }
        },
    }
}

// ── checking ────────────────────────────────────────────────────────────────

/// The largest value of a non-empty tree, found at its rightmost node; for
/// an ordered tree this is the last value read in order.
fn rightmost_val(n: &AVLNode) -> (v: u32)
    ensures
        v == tree_seq(Some(Box::new(*n))).last(),
    decreases *n,
{
    let ghost s = tree_seq(Some(Box::new(*n)));
    assert(s == tree_seq(n.left) + seq![n.val] + tree_seq(n.right));
    match &n.right {
        None => n.val,
        Some(r) => {
            let v = rightmost_val(r);
            proof {
                let rs = tree_seq(n.right);
                assert(rs.len() > 0);
                assert(s[s.len() - 1] == rs[rs.len() - 1]);
            }
            v
        },
    }
}

/// The smallest value of a non-empty tree, found at its leftmost node; for
/// an ordered tree this is the first value read in order.
fn leftmost_val(n: &AVLNode) -> (v: u32)
    ensures
        v == tree_seq(Some(Box::new(*n)))[0],
    decreases *n,
{
    let ghost s = tree_seq(Some(Box::new(*n)));
    assert(s == tree_seq(n.left) + seq![n.val] + tree_seq(n.right));
    match &n.left {
        None => {
            assert(s[0] == n.val);
            n.val
        },
        Some(l) => {
            let v = leftmost_val(l);
            proof {
                let ls = tree_seq(n.left);
                assert(ls.len() > 0);
                assert(s[0] == ls[0]);
            }
            v
        },
    }
}

/// Checks the whole AVL invariant: at every node the cached depth and count
/// are exact, the subtrees differ in height by at most one, every value in
/// the left subtree is at most the node's value and every value in the
/// right subtree at least it.  Returns whether all of it holds.
pub fn verify(node: &Option<Box<AVLNode>>) -> (ok: bool)
    ensures
        ok == is_avl(*node),
    decreases *node,
{
    let n = match node {
        None => {
            return true;
        },
        Some(n) => n,
    };

    // recursively verify children first
    if !verify(&n.left) {
        return false;
    }
    if !verify(&n.right) {
        return false;
    }
    proof {
        lemma_avl_fields(n.left);
        lemma_avl_fields(n.right);
        lemma_avl_sorted(n.left);
        lemma_avl_sorted(n.right);
    }

    // depth must be correct
    let l = depth(&n.left) as u64;
    let r = depth(&n.right) as u64;
    let deeper = if l >= r { l } else { r };
    if n.depth as u64 != 1 + deeper {
        return false;
    }

    // cnt must be correct
    if n.cnt as u64 != 1 + cnt(&n.left) as u64 + cnt(&n.right) as u64 {
        return false;
    }

    // AVL balance property — diff never more than 1
    if l > r + 1 || r > l + 1 {
        return false;
    }

    // BST ordering property, over the whole of each subtree
    if let Some(left) = &n.left {
        let hi = rightmost_val(left);
        proof {
            let s = tree_seq(n.left);
            assert(s.len() > 0);
            assert(all_le(s, hi)) by {
                assert forall|i: int| 0 <= i < s.len() implies s[i] <= hi by {
                    assert(s[i] <= s[s.len() - 1]);
                }
            }
        }
        if hi > n.val {
            proof {
                let s = tree_seq(n.left);
                assert(s[s.len() - 1] > n.val);
            }
            return false;
        }
    }
    if let Some(right) = &n.right {
        let lo = leftmost_val(right);
        proof {
            let s = tree_seq(n.right);
            assert(s.len() > 0);
            assert(all_ge(s, lo)) by {
                assert forall|i: int| 0 <= i < s.len() implies lo <= s[i] by {
                    assert(s[0] <= s[i]);
                }
            }
        }
        if lo < n.val {
            proof {
                let s = tree_seq(n.right);
                assert(s[0] < n.val);
            }
            return false;
        }
    }
    true
}

// ── laws ────────────────────────────────────────────────────────────────────

/// The contract of `insert` pins its result down: two sorted sequences that
/// are both `s` with `v` inserted are equal.
pub proof fn lemma_sorted_insert_unique(s: Seq<u32>, v: u32, r1: Seq<u32>, r2: Seq<u32>)
    requires
        sorted(r1),
        sorted(r2),
        inserted(s, v, r1),
        inserted(s, v, r2),
    ensures
        r1 == r2,
{
    let i1 = choose|i: int| 0 <= i <= s.len() && r1 == s.insert(i, v);
    let i2 = choose|i: int| 0 <= i <= s.len() && r2 == s.insert(i, v);
    if i1 <= i2 {
        lemma_insert_positions(s, v, i1, i2);
    } else {
        lemma_insert_positions(s, v, i2, i1);
    }
}

proof fn lemma_insert_positions(s: Seq<u32>, v: u32, i1: int, i2: int)
    requires
        0 <= i1 <= i2 <= s.len(),
        sorted(s.insert(i1, v)),
        sorted(s.insert(i2, v)),
    ensures
        s.insert(i1, v) == s.insert(i2, v),
{
    let r1 = s.insert(i1, v);
    let r2 = s.insert(i2, v);
    assert forall|j: int| i1 <= j < i2 implies s[j] == v by {
        assert(r1[j + 1] == s[j]);
        assert(r1[i1] == v);
        assert(r2[j] == s[j]);
        assert(r2[i2] == v);
    }
    assert forall|k: int| 0 <= k < r1.len() implies r1[k] == r2[k] by {
        if k < i1 {
        } else if k > i2 {
        } else if k == i1 {
            if k < i2 {
                assert(r2[k] == s[k]);
            }
        } else {
            assert(r1[k] == s[k - 1]);
            if k < i2 {
                assert(r2[k] == s[k]);
            }
        }
    }
    assert(r1 =~= r2);
}

/// Deleting a value just inserted gives back the values the tree had.
pub proof fn lemma_delete_undoes_insert(t: Option<Box<AVLNode>>, v: u32, t1: Option<Box<AVLNode>>, t2: Option<Box<AVLNode>>)
    requires
        is_avl(t1),
        inserted(tree_seq(t), v, tree_seq(t1)),
        removed_one(tree_seq(t1), v, tree_seq(t2)),
    ensures
        tree_seq(t2) == tree_seq(t),
{
    lemma_avl_sorted(t1);
    let s = tree_seq(t);
    let r = tree_seq(t1);
    let i = choose|i: int| 0 <= i <= s.len() && r == s.insert(i, v);
    let j = choose|j: int| 0 <= j < r.len() && r[j] == v && tree_seq(t2) == r.remove(j);
    let q = r.remove(j);
    assert(r[i] == v);
    // every value between the two positions is `v`
    assert forall|k: int| 0 <= k < s.len() implies q[k] == s[k] by {
        if k < i && k < j {
            assert(q[k] == r[k]);
        } else if k >= i && k >= j {
            assert(q[k] == r[k + 1]);
        } else if j <= k < i {
            assert(q[k] == r[k + 1]);
            assert(r[j] <= r[k] <= r[i]);
            assert(r[j] <= r[k + 1] <= r[i]);
            assert(r[k] == s[k]);
        } else {
            // i <= k < j
            assert(q[k] == r[k]);
            assert(r[i] <= r[k] <= r[j]);
            assert(r[i] <= r[k + 1] <= r[j]);
            assert(r[k + 1] == s[k]);
        }
    }
    assert(q =~= s);
}

/// An AVL tree of height `h` has at least `2^(h/2) - 1` nodes: its height
/// grows with the logarithm of its size, whatever order the values came in.
pub proof fn lemma_avl_height_log(t: Option<Box<AVLNode>>)
    requires
        is_avl(t),
    ensures
        pow2(height(t) / 2) <= tree_seq(t).len() + 1,
    decreases t,
{
    match t {
        None => {
            assert(pow2(0) == 1) by {
                vstd::arithmetic::power2::lemma2_to64();
            }
        },
        Some(n) => {
            lemma_avl_height_log(n.left);
            lemma_avl_height_log(n.right);
            let h = height(t);
            let hl = height(n.left);
            let hr = height(n.right);
            if h < 2 {
                assert(pow2(0) == 1) by {
                    vstd::arithmetic::power2::lemma2_to64();
                }
                assert(h / 2 == 0);
            } else {
                let e = ((h - 2) / 2) as nat;
                assert(h / 2 == e + 1);
                lemma_pow2_unfold(e + 1);
                assert(hl / 2 >= e && hr / 2 >= e);
                if hl / 2 > e {
                    lemma_pow2_strictly_increases(e, (hl / 2) as nat);
                }
                if hr / 2 > e {
                    lemma_pow2_strictly_increases(e, (hr / 2) as nat);
                }
            }
        },
    }
}

} // verus!
