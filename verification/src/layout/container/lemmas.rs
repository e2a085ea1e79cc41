//! Facts about the tree model: how sizes, leaves and well-formedness of child sequences
//! behave under sequence edits, and how paths interact with `node_at` and `set_at`.
use vstd::prelude::*;

use super::model::{
    Tree, node_at, set_at, leaves, leaves_upto, size, size_upto, node_wf, kids_wf, descend,
    focus_from, insert_child, remove_child, set_focused, set_layout, TreeState, find, find_from,
    leaf_paths, leaf_paths_upto, no_empty_container, kids_no_empty, first_leaf,
};
use super::behavior::{state_wf, MAX_TREE_NODES};
use super::Layout;

verus! {

// ----------------------------------------------------------------------------
// Sums over child sequences depend only on the prefix that is summed.
// ----------------------------------------------------------------------------
pub proof fn lemma_upto_prefix(s: Seq<Tree>, t: Seq<Tree>, k: int)
    requires
        0 <= k <= s.len(),
        k <= t.len(),
        s.subrange(0, k) == t.subrange(0, k),
    ensures
        size_upto(s, k) == size_upto(t, k),
        leaves_upto(s, k) == leaves_upto(t, k),
        kids_wf(s, k) == kids_wf(t, k),
    decreases k,
{
    if k > 0 {
        assert(s[k - 1] == s.subrange(0, k)[k - 1]);
        assert(t[k - 1] == t.subrange(0, k)[k - 1]);
        assert(s.subrange(0, k - 1) =~= s.subrange(0, k).subrange(0, k - 1));
        assert(t.subrange(0, k - 1) =~= t.subrange(0, k).subrange(0, k - 1));
        lemma_upto_prefix(s, t, k - 1);
    }
}

/// Sizes, leaves and well-formedness of a concatenation of child sequences.
pub proof fn lemma_concat(a: Seq<Tree>, b: Seq<Tree>)
    ensures
        size_upto(a + b, (a.len() + b.len()) as int) == size_upto(a, a.len() as int) + size_upto(
            b,
            b.len() as int,
        ),
        leaves_upto(a + b, (a.len() + b.len()) as int) == leaves_upto(a, a.len() as int)
            + leaves_upto(b, b.len() as int),
        kids_wf(a + b, (a.len() + b.len()) as int) == (kids_wf(a, a.len() as int) && kids_wf(
            b,
            b.len() as int,
        )),
    decreases b.len(),
{
    if b.len() == 0 {
        assert(a + b =~= a);
        assert(leaves_upto(a, a.len() as int) + Seq::<u64>::empty() =~= leaves_upto(a, a.len() as int));
    } else {
        let b1 = b.drop_last();
        let n = (a.len() + b.len()) as int;
        lemma_concat(a, b1);
        assert((a + b).subrange(0, n - 1) =~= (a + b1));
        assert((a + b1).subrange(0, n - 1) =~= (a + b1));
        lemma_upto_prefix(a + b, a + b1, n - 1);
        assert(b.subrange(0, b.len() - 1) =~= b1);
        assert(b1.subrange(0, b.len() - 1) =~= b1);
        lemma_upto_prefix(b, b1, b.len() - 1);
        assert((a + b)[n - 1] == b[b.len() - 1]);
        assert(leaves_upto(a, a.len() as int) + leaves_upto(b1, b1.len() as int) + leaves(
            b[b.len() - 1],
        ) =~= leaves_upto(a, a.len() as int) + (leaves_upto(b1, b1.len() as int) + leaves(
            b[b.len() - 1],
        )));
    }
}

pub proof fn lemma_single(x: Tree)
    ensures
        size_upto(seq![x], 1) == size(x),
        leaves_upto(seq![x], 1) == leaves(x),
        kids_wf(seq![x], 1) == node_wf(x),
{
    assert(size_upto(seq![x], 0) == 0);
    assert(kids_wf(seq![x], 0));
    assert(leaves_upto(seq![x], 0) + leaves(x) =~= leaves(x));
}

/// Splitting a child sequence around position `i`.
pub proof fn lemma_split(s: Seq<Tree>, i: int)
    requires
        0 <= i < s.len(),
    ensures
        size_upto(s, s.len() as int) == size_upto(s.subrange(0, i), i) + size(s[i]) + size_upto(
            s.subrange(i + 1, s.len() as int),
            s.len() - i - 1,
        ),
        leaves_upto(s, s.len() as int) == leaves_upto(s.subrange(0, i), i) + leaves(s[i])
            + leaves_upto(s.subrange(i + 1, s.len() as int), s.len() - i - 1),
        kids_wf(s, s.len() as int) == (kids_wf(s.subrange(0, i), i) && node_wf(s[i]) && kids_wf(
            s.subrange(i + 1, s.len() as int),
            s.len() - i - 1,
        )),
{
    let a = s.subrange(0, i);
    let b = s.subrange(i + 1, s.len() as int);
    assert(s =~= a + seq![s[i]] + b);
    lemma_concat(a + seq![s[i]], b);
    lemma_concat(a, seq![s[i]]);
    lemma_single(s[i]);
}

/// Sizes, leaves and well-formedness after replacing child `i` by `x`.
pub proof fn lemma_update(s: Seq<Tree>, i: int, x: Tree)
    requires
        0 <= i < s.len(),
    ensures
        size_upto(s.update(i, x), s.len() as int) + size(s[i]) == size_upto(s, s.len() as int)
            + size(x),
        leaves_upto(s.update(i, x), s.len() as int) == leaves_upto(s.subrange(0, i), i) + leaves(
            x,
        ) + leaves_upto(s.subrange(i + 1, s.len() as int), s.len() - i - 1),
        kids_wf(s, s.len() as int) && node_wf(x) ==> kids_wf(s.update(i, x), s.len() as int),
{
    let u = s.update(i, x);
    lemma_split(s, i);
    lemma_split(u, i);
    assert(u.subrange(0, i) =~= s.subrange(0, i));
    assert(u.subrange(i + 1, s.len() as int) =~= s.subrange(i + 1, s.len() as int));
}

/// Sizes, leaves and well-formedness after inserting `x` at position `i`.
pub proof fn lemma_insert(s: Seq<Tree>, i: int, x: Tree)
    requires
        0 <= i <= s.len(),
    ensures
        size_upto(s.insert(i, x), s.len() + 1int) == size_upto(s, s.len() as int) + size(x),
        leaves_upto(s.insert(i, x), s.len() + 1int) == leaves_upto(s.subrange(0, i), i) + leaves(x)
            + leaves_upto(s.subrange(i, s.len() as int), s.len() - i),
        kids_wf(s, s.len() as int) && node_wf(x) ==> kids_wf(s.insert(i, x), s.len() + 1int),
        leaves_upto(s, s.len() as int) == leaves_upto(s.subrange(0, i), i) + leaves_upto(
            s.subrange(i, s.len() as int),
            s.len() - i,
        ),
{
    let a = s.subrange(0, i);
    let b = s.subrange(i, s.len() as int);
    assert(s =~= a + b);
    assert(s.insert(i, x) =~= a + seq![x] + b);
    lemma_concat(a + seq![x], b);
    lemma_concat(a, seq![x]);
    lemma_concat(a, b);
    lemma_single(x);
}

/// Sizes, leaves and well-formedness after removing child `i`.
pub proof fn lemma_remove(s: Seq<Tree>, i: int)
    requires
        0 <= i < s.len(),
    ensures
        size_upto(s.remove(i), s.len() - 1) + size(s[i]) == size_upto(s, s.len() as int),
        leaves_upto(s.remove(i), s.len() - 1) == leaves_upto(s.subrange(0, i), i) + leaves_upto(
            s.subrange(i + 1, s.len() as int),
            s.len() - i - 1,
        ),
        kids_wf(s, s.len() as int) ==> kids_wf(s.remove(i), s.len() - 1),
{
    let a = s.subrange(0, i);
    let b = s.subrange(i + 1, s.len() as int);
    assert(s.remove(i) =~= a + b);
    lemma_concat(a, b);
    lemma_split(s, i);
}

/// Every child is smaller than the sum, and the sum is at least the number of children.
pub proof fn lemma_size_upto_bounds(s: Seq<Tree>, n: int)
    requires
        0 <= n <= s.len(),
    ensures
        size_upto(s, n) >= n,
        forall|j: int| 0 <= j < n ==> size(#[trigger] s[j]) <= size_upto(s, n),
        kids_wf(s, n) ==> forall|j: int| 0 <= j < n ==> node_wf(#[trigger] s[j]),
    decreases n,
{
    if n > 0 {
        lemma_size_upto_bounds(s, n - 1);
        lemma_size_pos(s[n - 1]);
    }
}

pub proof fn lemma_size_pos(t: Tree)
    ensures
        size(t) >= 1,
{
}

/// A child is smaller than its parent; a container is bigger than its child count.
pub proof fn lemma_child_size(t: Tree, j: int)
    requires
        t is Container,
        0 <= j < t.kids().len(),
    ensures
        size(t.kids()[j]) < size(t),
        t.kids().len() < size(t),
        node_wf(t) ==> node_wf(t.kids()[j]),
{
    lemma_size_upto_bounds(t.kids(), t.kids().len() as int);
}

/// A container is bigger than its child count.
pub proof fn lemma_child_size_any(t: Tree)
    ensures
        t.kids().len() < size(t),
        node_wf(t) ==> forall|j: int| 0 <= j < t.kids().len() ==> node_wf(#[trigger] t.kids()[j]),
{
    if t is Container {
        lemma_size_upto_bounds(t.kids(), t.kids().len() as int);
    }
}

// ----------------------------------------------------------------------------
// Paths
// ----------------------------------------------------------------------------
/// Every index of a path that names a node is smaller than the size of the tree, and the
/// node reached is well formed when the tree is.
pub proof fn lemma_node_at_facts(t: Tree, p: Seq<usize>)
    requires
        node_at(t, p) is Some,
    ensures
        forall|i: int| 0 <= i < p.len() ==> #[trigger] p[i] < size(t),
        size(node_at(t, p).unwrap()) <= size(t),
        node_wf(t) ==> node_wf(node_at(t, p).unwrap()),
    decreases p.len(),
{
    if p.len() > 0 {
        let c = t.kids()[p[0] as int];
        lemma_child_size(t, p[0] as int);
        lemma_node_at_facts(c, p.skip(1));
        assert forall|i: int| 0 <= i < p.len() implies #[trigger] p[i] < size(t) by {
            if i > 0 {
                assert(p[i] == p.skip(1)[i - 1]);
            }
        }
    }
}

/// Following `p` then `q` is following `p + q`.
pub proof fn lemma_node_at_append(t: Tree, p: Seq<usize>, q: Seq<usize>)
    requires
        node_at(t, p) is Some,
    ensures
        node_at(t, p + q) == node_at(node_at(t, p).unwrap(), q),
    decreases p.len(),
{
    if p.len() == 0 {
        assert(p + q =~= q);
    } else {
        assert((p + q)[0] == p[0]);
        assert((p + q).skip(1) =~= p.skip(1) + q);
        lemma_node_at_append(t.kids()[p[0] as int], p.skip(1), q);
    }
}

/// Following a prefix of a path that names a node also names a node.
pub proof fn lemma_node_at_prefix(t: Tree, p: Seq<usize>, k: int)
    requires
        node_at(t, p) is Some,
        0 <= k <= p.len(),
    ensures
        node_at(t, p.subrange(0, k)) is Some,
{
    let a = p.subrange(0, k);
    let b = p.subrange(k, p.len() as int);
    assert(p =~= a + b);
    lemma_node_at_prefix_rec(t, a, b);
}

proof fn lemma_node_at_prefix_rec(t: Tree, a: Seq<usize>, b: Seq<usize>)
    requires
        node_at(t, a + b) is Some,
    ensures
        node_at(t, a) is Some,
    decreases a.len(),
{
    if a.len() > 0 {
        assert((a + b)[0] == a[0]);
        assert((a + b).skip(1) =~= a.skip(1) + b);
        lemma_node_at_prefix_rec(t.kids()[a[0] as int], a.skip(1), b);
    }
}

/// The walk through focused children ends at a leaf.
pub proof fn lemma_descend_leaf(t: Tree)
    requires
        descend(t) is Some,
    ensures
        node_at(t, descend(t).unwrap()) matches Some(Tree::Leaf(_)),
    decreases t,
{
    match t {
        Tree::Leaf(_) => {},
        Tree::Container(_, ch, f) => {
            let s = descend(ch[f as int]).unwrap();
            lemma_descend_leaf(ch[f as int]);
            assert((seq![f] + s)[0] == f);
            assert((seq![f] + s).skip(1) =~= s);
        },
    }
}

pub proof fn lemma_kids_no_empty(ch: Seq<Tree>, n: int)
    requires
        0 <= n <= ch.len(),
        kids_no_empty(ch, n),
    ensures
        forall|j: int| 0 <= j < n ==> no_empty_container(#[trigger] ch[j]),
    decreases n,
{
    if n > 0 {
        lemma_kids_no_empty(ch, n - 1);
    }
}

/// In a tree without empty containers, every subtree has none either.
pub proof fn lemma_no_empty_at(t: Tree, p: Seq<usize>)
    requires
        no_empty_container(t),
        node_at(t, p) is Some,
    ensures
        no_empty_container(node_at(t, p).unwrap()),
    decreases p.len(),
{
    if p.len() > 0 {
        let ch = t.kids();
        lemma_kids_no_empty(ch, ch.len() as int);
        lemma_no_empty_at(ch[p[0] as int], p.skip(1));
    }
}

proof fn lemma_kids_no_empty_update(ch: Seq<Tree>, n: int, i: int, x: Tree)
    requires
        0 <= i < ch.len(),
        n <= ch.len(),
        kids_no_empty(ch, n),
        no_empty_container(x),
    ensures
        kids_no_empty(ch.update(i, x), n),
    decreases n,
{
    if n > 0 {
        lemma_kids_no_empty_update(ch, n - 1, i, x);
    }
}

/// Replacing a node by one without empty containers keeps a tree free of them.
pub proof fn lemma_no_empty_set_at(t: Tree, p: Seq<usize>, x: Tree)
    requires
        no_empty_container(t),
        no_empty_container(x),
    ensures
        no_empty_container(set_at(t, p, x)),
    decreases p.len(),
{
    if p.len() > 0 {
        match t {
            Tree::Leaf(_) => {},
            Tree::Container(l, ch, f) => {
                if p[0] < ch.len() {
                    let i = p[0] as int;
                    lemma_kids_no_empty(ch, ch.len() as int);
                    lemma_no_empty_set_at(ch[i], p.skip(1), x);
                    lemma_kids_no_empty_update(ch, ch.len() as int, i, set_at(ch[i], p.skip(1), x));
                }
            },
        }
    }
}

/// In a well-formed tree without empty containers, the walk through focused children
/// reaches a leaf, and so does the walk that clamps stale focused indices.
pub proof fn lemma_no_empty_walks(t: Tree)
    requires
        node_wf(t),
        no_empty_container(t),
    ensures
        descend(t) is Some,
        node_at(t, first_leaf(t)) matches Some(Tree::Leaf(_)),
    decreases t,
{
    match t {
        Tree::Leaf(_) => {},
        Tree::Container(_, ch, f) => {
            lemma_kids_no_empty(ch, ch.len() as int);
            lemma_size_upto_bounds(ch, ch.len() as int);
            let i = f as int;
            lemma_no_empty_walks(ch[i]);
            let q = first_leaf(ch[i]);
            assert((seq![f] + q)[0] == f);
            assert((seq![f] + q).skip(1) =~= q);
        },
    }
}

// ----------------------------------------------------------------------------
// Replacing the node at a path
// ----------------------------------------------------------------------------
/// Size and well-formedness after replacing the node at `p` by `x`, and the node found at
/// `p` afterwards.
pub proof fn lemma_set_at(t: Tree, p: Seq<usize>, x: Tree)
    requires
        node_at(t, p) is Some,
    ensures
        size(set_at(t, p, x)) + size(node_at(t, p).unwrap()) == size(t) + size(x),
        node_wf(t) && node_wf(x) ==> node_wf(set_at(t, p, x)),
        node_at(set_at(t, p, x), p) == Some(x),
    decreases p.len(),
{
    if p.len() > 0 {
        let i = p[0] as int;
        let ch = t.kids();
        lemma_set_at(ch[i], p.skip(1), x);
        lemma_update(ch, i, set_at(ch[i], p.skip(1), x));
        lemma_child_size(t, i);
    }
}

} // verus!

verus! {

/// Descending from a node keeps every focus index within the size of the tree.
pub proof fn lemma_focus_from_bound(root: Option<Tree>, p: Seq<usize>)
    requires
        root is Some,
        forall|i: int| 0 <= i < p.len() ==> #[trigger] p[i] <= size(root.unwrap()),
    ensures
        forall|i: int|
            0 <= i < focus_from(root, p).len() ==> #[trigger] focus_from(root, p)[i] <= size(
                root.unwrap(),
            ),
{
    let t = root.unwrap();
    if let Some(n) = node_at(t, p) {
        if let Some(s) = descend(n) {
            lemma_descend_leaf(n);
            lemma_node_at_append(t, p, s);
            lemma_node_at_facts(t, p + s);
        }
    }
}

} // verus!

verus! {

/// Effects of the container edits on size, well-formedness and leaves.
pub proof fn lemma_insert_child(p: Tree, idx: int, x: Tree)
    requires
        p is Container,
        0 <= idx,
    ensures
        size(insert_child(p, idx, x)) == size(p) + size(x),
        node_wf(p) && node_wf(x) ==> node_wf(insert_child(p, idx, x)),
        insert_child(p, idx, x).kids().len() == p.kids().len() + 1,
{
    let k = if idx < p.kids().len() {
        idx
    } else {
        p.kids().len() as int
    };
    lemma_insert(p.kids(), k, x);
}

pub proof fn lemma_set_focused(p: Tree, idx: int)
    ensures
        size(set_focused(p, idx)) == size(p),
        node_wf(p) ==> node_wf(set_focused(p, idx)),
        leaves(set_focused(p, idx)) == leaves(p),
        set_focused(p, idx).kids() == p.kids(),
{
}

pub proof fn lemma_set_layout(p: Tree, l: Layout)
    ensures
        size(set_layout(p, l)) == size(p),
        node_wf(p) ==> node_wf(set_layout(p, l)),
        leaves(set_layout(p, l)) == leaves(p),
        set_layout(p, l).kids() == p.kids(),
{
}

pub proof fn lemma_remove_child(p: Tree, idx: int)
    requires
        p is Container,
        0 <= idx < p.kids().len(),
    ensures
        size(remove_child(p, idx)) + size(p.kids()[idx]) == size(p),
        node_wf(p) ==> node_wf(remove_child(p, idx)),
        remove_child(p, idx).kids() == p.kids().remove(idx),
{
    lemma_remove(p.kids(), idx);
}

/// Replacing the node at `pp` by a well-formed `x` and then descending from `f` gives a
/// well-formed state, provided the new tree fits and `f` stays within its size.
pub proof fn lemma_replace_node_wf(s: TreeState, pp: Seq<usize>, x: Tree, f: Seq<usize>)
    requires
        state_wf(s),
        s.root is Some,
        node_at(s.root.unwrap(), pp) is Some,
        node_wf(x),
        size(set_at(s.root.unwrap(), pp, x)) <= MAX_TREE_NODES,
        forall|i: int| 0 <= i < f.len() ==> #[trigger] f[i] <= size(set_at(s.root.unwrap(), pp, x)),
    ensures
        state_wf(
            TreeState {
                root: Some(set_at(s.root.unwrap(), pp, x)),
                focus: focus_from(Some(set_at(s.root.unwrap(), pp, x)), f),
                stack: s.stack,
                pending: s.pending,
            },
        ),
{
    let r = s.root.unwrap();
    lemma_set_at(r, pp, x);
    lemma_focus_from_bound(Some(set_at(r, pp, x)), f);
}

// ----------------------------------------------------------------------------
// Search and counting.
// ----------------------------------------------------------------------------
/// The path that `find` returns leads to a leaf holding the id.
pub proof fn lemma_find_valid(t: Tree, id: u64)
    requires
        find(t, id) is Some,
        size(t) <= MAX_TREE_NODES,
    ensures
        node_at(t, find(t, id).unwrap()) == Some(Tree::Leaf(id)),
    decreases t, 0int,
{
    match t {
        Tree::Leaf(_) => {},
        Tree::Container(_, ch, _) => lemma_find_from_valid(ch, id, 0),
    }
}


pub proof fn lemma_find_from_valid(ch: Seq<Tree>, id: u64, i: int)
    requires
        find_from(ch, id, i) is Some,
        size_upto(ch, ch.len() as int) < MAX_TREE_NODES,
    ensures
        ({
            let p = find_from(ch, id, i).unwrap();
            &&& p.len() > 0
            &&& p[0] < ch.len()
            &&& node_at(ch[p[0] as int], p.skip(1)) == Some(Tree::Leaf(id))
        }),
    decreases ch, ch.len() - i,
{
    if 0 <= i < ch.len() {
        lemma_size_upto_bounds(ch, ch.len() as int);
        match find(ch[i], id) {
            Some(p) => {
                lemma_find_valid(ch[i], id);
                assert((seq![i as usize] + p).skip(1) =~= p);
            },
            None => lemma_find_from_valid(ch, id, i + 1),
        }
    }
}

/// A tree has no more leaves than nodes.
pub proof fn lemma_leaves_len(t: Tree)
    ensures
        leaves(t).len() <= size(t),
    decreases t, 0int,
{
    match t {
        Tree::Leaf(_) => {},
        Tree::Container(_, ch, _) => lemma_leaves_upto_len(ch, ch.len() as int),
    }
}

pub proof fn lemma_leaves_upto_len(ch: Seq<Tree>, n: int)
    ensures
        leaves_upto(ch, n).len() <= size_upto(ch, n),
    decreases ch, n,
{
    if 0 < n <= ch.len() {
        lemma_leaves_upto_len(ch, n - 1);
        lemma_leaves_len(ch[n - 1]);
    }
}

/// Sizes of prefixes grow with the prefix.
pub proof fn lemma_size_upto_mono(ch: Seq<Tree>, i: int, n: int)
    requires
        0 <= i <= n <= ch.len(),
    ensures
        size_upto(ch, i) <= size_upto(ch, n),
    decreases n - i,
{
    if i < n {
        lemma_size_upto_mono(ch, i, n - 1);
    }
}

/// Setting a node below `p` is setting, at `p`, the node there with its own part replaced.
pub proof fn lemma_set_at_append(t: Tree, p: Seq<usize>, q: Seq<usize>, x: Tree)
    requires
        node_at(t, p) is Some,
    ensures
        set_at(t, p + q, x) == set_at(t, p, set_at(node_at(t, p).unwrap(), q, x)),
    decreases p.len(),
{
    if p.len() == 0 {
        assert(p + q =~= q);
    } else {
        match t {
            Tree::Container(l, ch, f) => {
                let i = p[0] as int;
                assert((p + q).skip(1) =~= p.skip(1) + q);
                assert((p + q)[0] == p[0]);
                lemma_set_at_append(ch[i], p.skip(1), q, x);
            },
            Tree::Leaf(_) => {},
        }
    }
}

/// The child `i` of the container at `p` is the node at `p` extended by `i`.
pub proof fn lemma_node_at_child(t: Tree, p: Seq<usize>, i: usize)
    requires
        node_at(t, p) matches Some(Tree::Container(_, ch, _)) && i < ch.len(),
    ensures
        node_at(t, p.push(i)) == Some(node_at(t, p).unwrap().kids()[i as int]),
{
    lemma_node_at_append(t, p, seq![i]);
    assert(p + seq![i] =~= p.push(i));
    assert(seq![i].skip(1) =~= Seq::<usize>::empty());
    let n = node_at(t, p).unwrap();
    assert(seq![i][0] == i);
    assert(node_at(n, seq![i]) == node_at(n.kids()[i as int], Seq::<usize>::empty()));
}

/// Replacing a node keeps the container above it a container with as many children.
pub proof fn lemma_set_at_parent(t: Tree, p: Seq<usize>, x: Tree)
    requires
        node_at(t, p) is Some,
        p.len() > 0,
    ensures
        node_at(set_at(t, p, x), p.drop_last()) matches Some(Tree::Container(l, ch, f)) && node_at(
            t,
            p.drop_last(),
        ) matches Some(Tree::Container(l0, ch0, f0)) && l == l0 && f == f0 && ch == ch0.update(
            p.last() as int,
            x,
        ) && p.last() < ch0.len(),
{
    let gp = p.drop_last();
    lemma_node_at_prefix(t, p, gp.len() as int);
    assert(p.subrange(0, gp.len() as int) =~= gp);
    assert(gp + seq![p.last()] =~= p);
    lemma_set_at_append(t, gp, seq![p.last()], x);
    lemma_node_at_append(t, gp, seq![p.last()]);
    let g = node_at(t, gp).unwrap();
    assert(seq![p.last()].skip(1) =~= Seq::<usize>::empty());
    assert(node_at(t, p) == node_at(g, seq![p.last()]));
    assert(seq![p.last()][0] == p.last());
    assert(set_at(g.kids()[p.last() as int], Seq::<usize>::empty(), x) == x);
    lemma_set_at(t, gp, set_at(g, seq![p.last()], x));
}

// ----------------------------------------------------------------------------
// `find` succeeds exactly on the ids the leaves hold.
// ----------------------------------------------------------------------------
pub proof fn lemma_leaves_upto_contains(ch: Seq<Tree>, n: int, id: u64)
    requires
        leaves_upto(ch, n).contains(id),
    ensures
        exists|j: int| 0 <= j < n && j < ch.len() && #[trigger] leaves(ch[j]).contains(id),
    decreases n,
{
    if 0 < n <= ch.len() {
        let a = leaves_upto(ch, n - 1);
        let b = leaves(ch[n - 1]);
        let k = choose|k: int| 0 <= k < leaves_upto(ch, n).len() && leaves_upto(ch, n)[k] == id;
        if k < a.len() {
            assert(a[k] == id);
            lemma_leaves_upto_contains(ch, n - 1, id);
        } else {
            assert(b[k - a.len()] == id);
            assert(leaves(ch[n - 1]).contains(id));
        }
    }
}

pub proof fn lemma_find_complete(t: Tree, id: u64)
    requires
        leaves(t).contains(id),
    ensures
        find(t, id) is Some,
    decreases t, 0int,
{
    match t {
        Tree::Leaf(x) => {
            assert(leaves(t)[0] == x);
        },
        Tree::Container(_, ch, _) => {
            lemma_leaves_upto_contains(ch, ch.len() as int, id);
            let j = choose|j: int| 0 <= j < ch.len() && #[trigger] leaves(ch[j]).contains(id);
            lemma_find_from_complete(ch, id, 0, j);
        },
    }
}

pub proof fn lemma_find_from_complete(ch: Seq<Tree>, id: u64, i: int, j: int)
    requires
        0 <= i <= j < ch.len(),
        leaves(ch[j]).contains(id),
    ensures
        find_from(ch, id, i) is Some,
    decreases ch, ch.len() - i,
{
    if find(ch[i], id) is None {
        if i == j {
            lemma_find_complete(ch[j], id);
        } else {
            lemma_find_from_complete(ch, id, i + 1, j);
        }
    }
}

/// A leaf id of the new node is a leaf id of the tree after the replacement.
pub proof fn lemma_set_at_contains(t: Tree, p: Seq<usize>, x: Tree, id: u64)
    requires
        node_at(t, p) is Some,
        leaves(x).contains(id),
    ensures
        leaves(set_at(t, p, x)).contains(id),
    decreases p.len(),
{
    if p.len() > 0 {
        match t {
            Tree::Container(l, ch, f) => {
                let i = p[0] as int;
                let y = set_at(ch[i], p.skip(1), x);
                lemma_set_at_contains(ch[i], p.skip(1), x, id);
                lemma_update(ch, i, y);
                let a = leaves_upto(ch.subrange(0, i), i);
                let k = choose|k: int| 0 <= k < leaves(y).len() && leaves(y)[k] == id;
                assert(leaves(set_at(t, p, x))[a.len() + k] == id);
            },
            Tree::Leaf(_) => {},
        }
    }
}

/// Every path `leaf_paths` lists leads to a leaf.
pub proof fn lemma_leaf_paths_valid(t: Tree)
    requires
        size(t) <= MAX_TREE_NODES,
    ensures
        leaf_paths(t).len() == leaves(t).len(),
        forall|k: int|
            0 <= k < leaf_paths(t).len() ==> node_at(t, #[trigger] leaf_paths(t)[k]) == Some(
                Tree::Leaf(leaves(t)[k]),
            ),
    decreases t, 0int,
{
    match t {
        Tree::Leaf(_) => {},
        Tree::Container(_, ch, _) => {
            lemma_size_upto_bounds(ch, ch.len() as int);
            lemma_leaf_paths_upto_valid(ch, ch.len() as int);
        },
    }
}

pub proof fn lemma_leaf_paths_upto_valid(ch: Seq<Tree>, n: int)
    requires
        0 <= n <= ch.len(),
        size_upto(ch, ch.len() as int) < MAX_TREE_NODES,
    ensures
        leaf_paths_upto(ch, n).len() == leaves_upto(ch, n).len(),
        forall|k: int|
            0 <= k < leaf_paths_upto(ch, n).len() ==> {
                let p = #[trigger] leaf_paths_upto(ch, n)[k];
                &&& p.len() > 0
                &&& p[0] < n
                &&& node_at(ch[p[0] as int], p.skip(1)) == Some(Tree::Leaf(leaves_upto(ch, n)[k]))
            },
    decreases ch, n,
{
    if n > 0 {
        lemma_size_upto_bounds(ch, ch.len() as int);
        lemma_leaf_paths_upto_valid(ch, n - 1);
        lemma_leaf_paths_valid(ch[n - 1]);
        let a = leaf_paths_upto(ch, n - 1);
        let la = leaves_upto(ch, n - 1);
        assert forall|k: int| 0 <= k < leaf_paths_upto(ch, n).len() implies {
            let p = #[trigger] leaf_paths_upto(ch, n)[k];
            &&& p.len() > 0
            &&& p[0] < n
            &&& node_at(ch[p[0] as int], p.skip(1)) == Some(Tree::Leaf(leaves_upto(ch, n)[k]))
        } by {
            if k >= a.len() {
                let q = leaf_paths(ch[n - 1])[k - a.len()];
                assert(leaf_paths_upto(ch, n)[k] == seq![(n - 1) as usize] + q);
                assert((seq![(n - 1) as usize] + q).skip(1) =~= q);
                assert(leaves_upto(ch, n)[k] == leaves(ch[n - 1])[k - la.len()]);
            } else {
                assert(leaf_paths_upto(ch, n)[k] == a[k]);
                assert(leaves_upto(ch, n)[k] == la[k]);
            }
        }
    }
}

} // verus!
