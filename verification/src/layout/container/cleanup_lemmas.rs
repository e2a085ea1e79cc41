//! Facts about container cleanup: every step keeps the tree well formed, never grows it,
//! and keeps its leaves in order.
use vstd::prelude::*;

use super::behavior::{Cleanup, cleanup, cleanup_step};
use super::lemmas::{
    lemma_split, lemma_update, lemma_remove, lemma_set_at,
    lemma_remove_child, lemma_node_at_facts, lemma_node_at_append,
    lemma_node_at_prefix, lemma_child_size,
};
use super::model::{
    Tree, node_at, set_at, leaves, size, node_wf, set_focused, remove_child, root_leaves, root_size, root_node_at, first_leaf,
    no_empty_container, kids_no_empty, no_empty_except, insert_child,
};
use super::lemmas::lemma_kids_no_empty;

verus! {

/// Replacing a node by one with the same leaves keeps the leaves of the whole tree.
pub proof fn lemma_set_at_leaves(t: Tree, p: Seq<usize>, x: Tree)
    requires
        node_at(t, p) is Some,
        leaves(x) == leaves(node_at(t, p).unwrap()),
    ensures
        leaves(set_at(t, p, x)) == leaves(t),
    decreases p.len(),
{
    if p.len() > 0 {
        match t {
            Tree::Container(l, ch, f) => {
                let i = p[0] as int;
                let y = set_at(ch[i], p.skip(1), x);
                lemma_set_at_leaves(ch[i], p.skip(1), x);
                lemma_update(ch, i, y);
                lemma_split(ch, i);
            },
            Tree::Leaf(_) => {},
        }
    }
}


/// Removing an empty child container keeps the leaves.
pub proof fn lemma_remove_empty(p: Tree, li: int)
    requires
        p is Container,
        0 <= li < p.kids().len(),
        p.kids()[li] is Container,
        p.kids()[li].kids().len() == 0,
    ensures
        leaves(remove_child(p, li)) == leaves(p),
        size(remove_child(p, li)) < size(p),
        node_wf(p) ==> node_wf(remove_child(p, li)),
{
    lemma_remove_child(p, li);
    lemma_remove(p.kids(), li);
    lemma_split(p.kids(), li);
    assert(leaves(p.kids()[li]) =~= Seq::<u64>::empty());
}

/// What cleanup keeps: well-formed containers and nonnegative focus entries.
pub open spec fn cleanup_wf(s: Cleanup) -> bool {
    &&& s.root matches Some(t) ==> node_wf(t)
    &&& forall|i: int| 0 <= i < s.focus.len() ==> #[trigger] s.focus[i] >= 0
}

pub proof fn lemma_cleanup_step(s: Cleanup, pp: Seq<usize>, li: int)
    requires
        cleanup_wf(s),
    ensures
        cleanup_wf(cleanup_step(s, pp, li)),
        root_size(cleanup_step(s, pp, li).root) <= root_size(s.root),
        root_leaves(cleanup_step(s, pp, li).root) == root_leaves(s.root),
        cleanup_step(s, pp, li).root is Some == s.root is Some,
        cleanup_step(s, pp, li).stack == s.stack || cleanup_step(s, pp, li).stack == Seq::<Seq<usize>>::empty(),
{
    match root_node_at(s.root, pp) {
        Some(Tree::Container(pl, pch, pf)) => if 0 <= li < pch.len() {
            match pch[li] {
                Tree::Container(_, cch, _) => {
                    let r = s.root.unwrap();
                    let p = Tree::Container(pl, pch, pf);
                    lemma_node_at_facts(r, pp);
                    if cch.len() == 0 {
                        let y = remove_child(p, li);
                        lemma_remove_empty(p, li);
                        lemma_set_at(r, pp, y);
                        lemma_set_at_leaves(r, pp, y);
                    }
                },
                Tree::Leaf(_) => {},
            }
        },
        _ => {},
    }
}

/// Cleanup keeps the tree well formed, never grows it and keeps its leaves; it drops the
/// root only when the root is an empty container.
pub proof fn lemma_cleanup(s: Cleanup, path: Seq<usize>)
    requires
        cleanup_wf(s),
    ensures
        cleanup_wf(cleanup(s, path)),
        root_size(cleanup(s, path).root) <= root_size(s.root),
        root_leaves(cleanup(s, path).root) == root_leaves(s.root),
        cleanup(s, path).stack == s.stack || cleanup(s, path).stack == Seq::<Seq<usize>>::empty(),
    decreases path.len(),
{
    if path.len() == 0 {
        match s.root {
            Some(Tree::Container(_, ch, _)) => {
                if ch.len() == 0 {
                    assert(root_leaves(s.root) =~= Seq::<u64>::empty());
                }
            },
            _ => {},
        }
    } else {
        let s1 = cleanup_step(s, path.drop_last(), path.last() as int);
        lemma_cleanup_step(s, path.drop_last(), path.last() as int);
        lemma_cleanup(s1, path.drop_last());
    }
}

/// The node a non-empty path leads to is a child of the container its parent path leads to.
pub proof fn lemma_node_at_last(t: Tree, p: Seq<usize>)
    requires
        node_at(t, p) is Some,
        p.len() > 0,
    ensures
        node_at(t, p.drop_last()) matches Some(Tree::Container(_, ch, _)) && p.last() < ch.len()
            && node_at(t, p) == Some(ch[p.last() as int]),
{
    let pp = p.drop_last();
    lemma_node_at_prefix(t, p, pp.len() as int);
    assert(p.subrange(0, pp.len() as int) =~= pp);
    assert(pp + seq![p.last()] =~= p);
    lemma_node_at_append(t, pp, seq![p.last()]);
    let n = node_at(t, pp).unwrap();
    assert(seq![p.last()].skip(1) =~= Seq::<usize>::empty());
    assert(node_at(t, p) == node_at(n, seq![p.last()]));
    match n {
        Tree::Container(_, ch, _) => {
            if p.last() < ch.len() {
                assert(node_at(ch[p.last() as int], Seq::<usize>::empty()) == Some(ch[p.last() as int]));
            }
        },
        Tree::Leaf(_) => {},
    }
}

/// Every index of the path to the first leaf names a child, so it is below the tree's size.
pub proof fn lemma_first_leaf_bound(t: Tree)
    ensures
        forall|i: int| 0 <= i < first_leaf(t).len() ==> #[trigger] first_leaf(t)[i] < size(t),
    decreases t,
{
    match t {
        Tree::Leaf(_) => {},
        Tree::Container(_, ch, f) => {
            if ch.len() > 0 {
                let i = if f < ch.len() {
                    f
                } else {
                    (ch.len() - 1) as usize
                };
                lemma_first_leaf_bound(ch[i as int]);
                lemma_child_size(t, i as int);
                assert forall|k: int| 0 <= k < first_leaf(t).len() implies #[trigger] first_leaf(t)[k] < size(t) by {
                    if k > 0 {
                        assert(first_leaf(t)[k] == first_leaf(ch[i as int])[k - 1]);
                    }
                }
            }
        },
    }
}

// ----------------------------------------------------------------------------
// Cleanup and empty containers
// ----------------------------------------------------------------------------
pub proof fn lemma_kids_no_empty_all(ch: Seq<Tree>, n: int)
    requires
        0 <= n <= ch.len(),
        forall|j: int| 0 <= j < n ==> no_empty_container(#[trigger] ch[j]),
    ensures
        kids_no_empty(ch, n),
    decreases n,
{
    if n > 0 {
        lemma_kids_no_empty_all(ch, n - 1);
    }
}

/// Removing a child from the container at `pp` of a tree without empty containers leaves
/// at most that container empty.
pub proof fn lemma_remove_child_no_empty(t: Tree, pp: Seq<usize>, li: int)
    requires
        no_empty_container(t),
        node_at(t, pp) matches Some(Tree::Container(_, ch, _)) && 0 <= li < ch.len(),
    ensures
        no_empty_except(set_at(t, pp, remove_child(node_at(t, pp).unwrap(), li)), pp),
    decreases pp.len(),
{
    let ch = t.kids();
    lemma_kids_no_empty(ch, ch.len() as int);
    if pp.len() == 0 {
        let rch = ch.remove(li);
        assert forall|j: int| 0 <= j < rch.len() implies no_empty_container(#[trigger] rch[j]) by {
            if j < li {
                assert(rch[j] == ch[j]);
            } else {
                assert(rch[j] == ch[j + 1]);
            }
        }
        lemma_kids_no_empty_all(rch, rch.len() as int);
    } else {
        let i = pp[0] as int;
        let x = remove_child(node_at(t, pp).unwrap(), li);
        lemma_remove_child_no_empty(ch[i], pp.skip(1), li);
        let t2 = set_at(t, pp, x);
        let ch2 = t2.kids();
        assert(ch2 == ch.update(i, set_at(ch[i], pp.skip(1), x)));
        assert forall|j: int| 0 <= j < ch2.len() && j != pp[0] implies no_empty_container(#[trigger] ch2[j]) by {
            assert(ch2[j] == ch[j]);
        }
    }
}

/// One cleanup step on child `li` of the container at `pp`, when at most the node at
/// `pp.push(li)` may be empty, leaves at most the container at `pp` empty.
pub proof fn lemma_cleanup_step_no_empty(t: Tree, pp: Seq<usize>, li: usize)
    requires
        no_empty_except(t, pp.push(li)),
        node_at(t, pp) matches Some(Tree::Container(_, ch, _)) && li < ch.len(),
    ensures
        ({
            let s = cleanup_step(Cleanup { root: Some(t), focus: Seq::empty(), stack: Seq::empty() }, pp, li as int);
            &&& s.root matches Some(t2)
            &&& no_empty_except(t2, pp)
            &&& node_at(t2, pp) is Some
        }),
    decreases pp.len(),
{
    let q = pp.push(li);
    let s0 = Cleanup { root: Some(t), focus: Seq::empty(), stack: Seq::empty() };
    let p = node_at(t, pp).unwrap();
    let pch = p.kids();
    let c = pch[li as int];
    let empty_child = c is Container && c.kids().len() == 0;
    let t2 = if empty_child {
        set_at(t, pp, remove_child(p, li as int))
    } else {
        t
    };
    assert(cleanup_step(s0, pp, li as int).root == Some(t2));
    lemma_set_at(t, pp, remove_child(p, li as int));
    if pp.len() == 0 {
        assert(q[0] == li);
        assert(q.skip(1) =~= Seq::<usize>::empty());
        if empty_child {
            let rch = pch.remove(li as int);
            assert forall|j: int| 0 <= j < rch.len() implies no_empty_container(#[trigger] rch[j]) by {
                if j < li {
                    assert(rch[j] == pch[j]);
                } else {
                    assert(rch[j] == pch[j + 1]);
                }
            }
            lemma_kids_no_empty_all(rch, rch.len() as int);
        } else {
            assert(t == p);
            assert(no_empty_except(pch[li as int], q.skip(1)));
            assert(no_empty_except(c, Seq::empty()));
            match c {
                Tree::Container(_, cch, _) => {
                    assert(kids_no_empty(cch, cch.len() as int));
                },
                Tree::Leaf(_) => {},
            }
            assert(no_empty_container(c));
            assert forall|j: int| 0 <= j < pch.len() implies no_empty_container(#[trigger] pch[j]) by {
                if j == li {
                    assert(no_empty_container(c));
                }
            }
            lemma_kids_no_empty_all(pch, pch.len() as int);
        }
    } else {
        let ch = t.kids();
        let i = pp[0] as int;
        assert(q[0] == pp[0]);
        assert(q.skip(1) =~= pp.skip(1).push(li));
        lemma_cleanup_step_no_empty(ch[i], pp.skip(1), li);
        let s1 = cleanup_step(Cleanup { root: Some(ch[i]), focus: Seq::empty(), stack: Seq::empty() }, pp.skip(1), li as int);
        let ci2 = s1.root.unwrap();
        if empty_child {
            assert(ci2 == set_at(ch[i], pp.skip(1), remove_child(p, li as int)));
            let ch2 = t2.kids();
            assert(ch2 == ch.update(i, ci2));
            assert forall|j: int| 0 <= j < ch2.len() && j != pp[0] implies no_empty_container(#[trigger] ch2[j]) by {
                assert(ch2[j] == ch[j]);
            }
        } else {
            assert(ci2 == ch[i]);
        }
    }
}

/// Cleanup along `path` of a tree where at most the node at `path` is empty leaves no
/// empty container.
pub proof fn lemma_cleanup_no_empty(s: Cleanup, path: Seq<usize>)
    requires
        s.root matches Some(t) && no_empty_except(t, path) && node_at(t, path) is Some,
    ensures
        cleanup(s, path).root matches Some(t2) ==> no_empty_container(t2),
    decreases path.len(),
{
    let t = s.root.unwrap();
    if path.len() == 0 {
        match t {
            Tree::Container(_, ch, _) => {},
            Tree::Leaf(_) => {},
        }
    } else {
        let pp = path.drop_last();
        let li = path.last();
        assert(pp.push(li) =~= path);
        lemma_node_at_last(t, path);
        lemma_cleanup_step_no_empty(t, pp, li);
        let s0 = Cleanup { root: Some(t), focus: Seq::empty(), stack: Seq::empty() };
        assert(cleanup_step(s, pp, li as int).root == cleanup_step(s0, pp, li as int).root);
        lemma_cleanup_no_empty(cleanup_step(s, pp, li as int), pp);
    }
}

/// A tree without empty containers has none except anywhere.
pub proof fn lemma_no_empty_to_except(t: Tree, q: Seq<usize>)
    requires
        no_empty_container(t),
        node_at(t, q) is Some,
    ensures
        no_empty_except(t, q),
    decreases q.len(),
{
    if q.len() > 0 {
        let ch = t.kids();
        lemma_kids_no_empty(ch, ch.len() as int);
        lemma_no_empty_to_except(ch[q[0] as int], q.skip(1));
    } else {
        match t {
            Tree::Container(_, ch, _) => {},
            Tree::Leaf(_) => {},
        }
    }
}

/// When the node at `q`, the only one that may be empty, is not empty, no container is.
pub proof fn lemma_except_to_no_empty(t: Tree, q: Seq<usize>)
    requires
        no_empty_except(t, q),
        node_at(t, q) matches Some(n) && (n is Leaf || n.kids().len() > 0),
    ensures
        no_empty_container(t),
    decreases q.len(),
{
    match t {
        Tree::Leaf(_) => {},
        Tree::Container(_, ch, _) => {
            if q.len() > 0 {
                let i = q[0] as int;
                lemma_except_to_no_empty(ch[i], q.skip(1));
                assert forall|j: int| 0 <= j < ch.len() implies no_empty_container(#[trigger] ch[j]) by {}
                lemma_kids_no_empty_all(ch, ch.len() as int);
            }
        },
    }
}

/// The exception at `gp.push(i)`, seen from the container at `gp`.
pub proof fn lemma_except_at(t: Tree, gp: Seq<usize>, i: usize)
    requires
        no_empty_except(t, gp.push(i)),
        node_at(t, gp) is Some,
    ensures
        no_empty_except(node_at(t, gp).unwrap(), seq![i]),
    decreases gp.len(),
{
    if gp.len() == 0 {
        assert(gp.push(i) =~= seq![i]);
    } else {
        let ch = t.kids();
        assert(gp.push(i)[0] == gp[0]);
        assert(gp.push(i).skip(1) =~= gp.skip(1).push(i));
        lemma_except_at(ch[gp[0] as int], gp.skip(1), i);
    }
}

/// Replacing the container at `gp` by one whose only possible empty child is `j` moves the
/// exception from `gp.push(i)` to `gp.push(j)`.
pub proof fn lemma_except_set_at(t: Tree, gp: Seq<usize>, i: usize, x: Tree, j: usize)
    requires
        no_empty_except(t, gp.push(i)),
        node_at(t, gp) is Some,
        no_empty_except(x, seq![j]),
    ensures
        no_empty_except(set_at(t, gp, x), gp.push(j)),
    decreases gp.len(),
{
    if gp.len() == 0 {
        assert(gp.push(j) =~= seq![j]);
    } else {
        let ch = t.kids();
        let k = gp[0] as int;
        assert(gp.push(i)[0] == gp[0]);
        assert(gp.push(i).skip(1) =~= gp.skip(1).push(i));
        assert(gp.push(j)[0] == gp[0]);
        assert(gp.push(j).skip(1) =~= gp.skip(1).push(j));
        lemma_except_set_at(ch[k], gp.skip(1), i, x, j);
        let t2 = set_at(t, gp, x);
        let ch2 = t2.kids();
        assert(ch2 == ch.update(k, set_at(ch[k], gp.skip(1), x)));
        assert forall|m: int| 0 <= m < ch2.len() && m != gp[0] implies no_empty_container(#[trigger] ch2[m]) by {
            assert(ch2[m] == ch[m]);
        }
    }
}

/// Inserting a leaf at `at` into a container whose only possible empty child is `pidx`
/// shifts that child to the place it ends up at.
pub proof fn lemma_except_insert_leaf(c: Tree, pidx: usize, at: int, id: u64)
    requires
        c is Container,
        no_empty_except(c, seq![pidx]),
        pidx < c.kids().len(),
        0 <= at <= c.kids().len(),
        pidx + 1 <= usize::MAX,
    ensures
        no_empty_except(
            set_focused(insert_child(c, at, Tree::Leaf(id)), at),
            seq![if at <= pidx { (pidx + 1) as usize } else { pidx }],
        ),
{
    let ch = c.kids();
    let nch = ch.insert(at, Tree::Leaf(id));
    let left: usize = if at <= pidx { (pidx + 1) as usize } else { pidx };
    let q = seq![left];
    assert(q.skip(1) =~= Seq::<usize>::empty());
    assert(seq![pidx].skip(1) =~= Seq::<usize>::empty());
    assert(nch[left as int] == ch[pidx as int]);
    assert forall|m: int| 0 <= m < nch.len() && m != left implies no_empty_container(#[trigger] nch[m]) by {
        if m < at {
            assert(nch[m] == ch[m]);
        } else if m > at {
            assert(nch[m] == ch[m - 1]);
        }
    }
}

} // verus!
