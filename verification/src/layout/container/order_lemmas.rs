//! Facts about the order of leaves: how the leaves of a tree split around a node, and
//! how they change when that node is replaced.
use vstd::prelude::*;

use super::behavior::MAX_TREE_NODES;
use super::lemmas::{
    lemma_split, lemma_update, lemma_upto_prefix, lemma_find_complete, lemma_leaves_upto_contains,
    lemma_child_size, lemma_leaf_paths_valid, lemma_leaf_paths_upto_valid, lemma_size_upto_bounds,
};
use super::model::{
    Tree, node_at, set_at, leaves, leaves_upto, leaves_before, leaves_after, size, find, find_from,
    remove_first, leaf_paths, leaf_paths_upto, size_upto,
};

verus! {

/// The leaves of a tree are those before a node, the node's own, and those after it; a
/// replacement of the node changes only the middle part.
pub proof fn lemma_leaves_around(t: Tree, p: Seq<usize>, x: Tree)
    requires
        node_at(t, p) is Some,
    ensures
        leaves(t) == leaves_before(t, p) + leaves(node_at(t, p).unwrap()) + leaves_after(t, p),
        leaves(set_at(t, p, x)) == leaves_before(t, p) + leaves(x) + leaves_after(t, p),
    decreases p.len(),
{
    if p.len() == 0 {
        assert(Seq::<u64>::empty() + leaves(t) + Seq::<u64>::empty() =~= leaves(t));
        assert(Seq::<u64>::empty() + leaves(x) + Seq::<u64>::empty() =~= leaves(x));
    } else {
        match t {
            Tree::Container(l, ch, f) => {
                let i = p[0] as int;
                let q = p.skip(1);
                let y = ch[i];
                lemma_leaves_around(y, q, x);
                lemma_split(ch, i);
                lemma_update(ch, i, set_at(y, q, x));
                assert(ch.subrange(0, i).subrange(0, i) =~= ch.subrange(0, i));
                lemma_upto_prefix(ch.subrange(0, i), ch, i);
                let a = leaves_upto(ch, i);
                let b = leaves_upto(ch.subrange(i + 1, ch.len() as int), ch.len() - i - 1);
                assert(a + (leaves_before(y, q) + leaves(node_at(y, q).unwrap()) + leaves_after(y, q)) + b
                    =~= (a + leaves_before(y, q)) + leaves(node_at(y, q).unwrap()) + (leaves_after(y, q) + b));
                assert(a + (leaves_before(y, q) + leaves(x) + leaves_after(y, q)) + b =~= (a + leaves_before(y, q))
                    + leaves(x) + (leaves_after(y, q) + b));
            },
            Tree::Leaf(_) => {},
        }
    }
}

/// Going one level down, into child `li`.
pub proof fn lemma_leaves_before_child(t: Tree, pp: Seq<usize>, li: usize)
    requires
        node_at(t, pp) matches Some(Tree::Container(_, ch, _)) && li < ch.len(),
    ensures
        ({
            let ch = node_at(t, pp).unwrap().kids();
            &&& leaves_before(t, pp.push(li)) == leaves_before(t, pp) + leaves_upto(ch, li as int)
            &&& leaves_after(t, pp.push(li)) == leaves_upto(
                ch.subrange(li + 1, ch.len() as int),
                ch.len() - li - 1,
            ) + leaves_after(t, pp)
        }),
    decreases pp.len(),
{
    if pp.len() == 0 {
        let q = pp.push(li);
        assert(q =~= seq![li]);
        assert(q.skip(1) =~= Seq::<usize>::empty());
        let ch = t.kids();
        assert(q[0] == li);
        assert(node_at(t, pp) == Some(t));
        assert(leaves_before(t, pp) =~= Seq::<u64>::empty());
        assert(leaves_after(t, pp) =~= Seq::<u64>::empty());
        assert(leaves_before(ch[li as int], q.skip(1)) =~= Seq::<u64>::empty());
        assert(leaves_after(ch[li as int], q.skip(1)) =~= Seq::<u64>::empty());
        assert(leaves_before(t, q) == leaves_upto(ch, li as int) + leaves_before(ch[li as int], q.skip(1)));
        assert(Seq::<u64>::empty() + leaves_upto(ch, li as int) =~= leaves_upto(ch, li as int) + Seq::<u64>::empty());
        let b = leaves_upto(ch.subrange(li + 1, ch.len() as int), ch.len() - li - 1);
        assert(leaves_after(t, q) == leaves_after(ch[li as int], q.skip(1)) + b);
        assert(Seq::<u64>::empty() + b =~= b + Seq::<u64>::empty());
    } else {
        match t {
            Tree::Container(l, ch, f) => {
                let i = pp[0] as int;
                assert(pp.push(li).skip(1) =~= pp.skip(1).push(li));
                assert(pp.push(li)[0] == pp[0]);
                lemma_leaves_before_child(ch[i], pp.skip(1), li);
                assert(node_at(t, pp) == node_at(ch[i], pp.skip(1)));
                let c = node_at(t, pp).unwrap().kids();
                assert(leaves_before(t, pp.push(li)) == leaves_upto(ch, i) + leaves_before(ch[i], pp.skip(1).push(li)));
                assert(leaves_after(t, pp.push(li)) == leaves_after(ch[i], pp.skip(1).push(li)) + leaves_upto(
                    ch.subrange(i + 1, ch.len() as int),
                    ch.len() - i - 1,
                ));
                let a = leaves_upto(ch, i);
                let b = leaves_upto(ch.subrange(i + 1, ch.len() as int), ch.len() - i - 1);
                assert(a + (leaves_before(ch[i], pp.skip(1)) + leaves_upto(c, li as int)) =~= (a + leaves_before(
                    ch[i],
                    pp.skip(1),
                )) + leaves_upto(c, li as int));
                let cb = leaves_upto(c.subrange(li + 1, c.len() as int), c.len() - li - 1);
                assert((cb + leaves_after(ch[i], pp.skip(1))) + b =~= cb + (leaves_after(ch[i], pp.skip(1)) + b));
            },
            Tree::Leaf(_) => {},
        }
    }
}

/// No child before `n` holds `id`, so neither do their leaves together.
pub proof fn lemma_leaves_upto_lacks(ch: Seq<Tree>, n: int, id: u64)
    requires
        0 <= n <= ch.len(),
        forall|m: int| 0 <= m < n ==> !(#[trigger] leaves(ch[m])).contains(id),
    ensures
        !leaves_upto(ch, n).contains(id),
{
    if leaves_upto(ch, n).contains(id) {
        lemma_leaves_upto_contains(ch, n, id);
    }
}

/// `find_from` returns the first child holding `id`, and the path into it.
pub proof fn lemma_find_from_first(ch: Seq<Tree>, id: u64, j: int)
    requires
        0 <= j,
        find_from(ch, id, j) is Some,
        ch.len() < MAX_TREE_NODES,
    ensures
        ({
            let p = find_from(ch, id, j).unwrap();
            &&& p.len() > 0
            &&& j <= p[0] < ch.len()
            &&& find(ch[p[0] as int], id) == Some(p.skip(1))
            &&& forall|m: int| j <= m < p[0] ==> !(#[trigger] leaves(ch[m])).contains(id)
        }),
    decreases ch.len() - j,
{
    if j < ch.len() {
        match find(ch[j], id) {
            Some(q) => {
                assert((seq![j as usize] + q).skip(1) =~= q);
            },
            None => {
                lemma_find_from_first(ch, id, j + 1);
                if leaves(ch[j]).contains(id) {
                    lemma_find_complete(ch[j], id);
                }
            },
        }
    }
}

/// No leaf before the one `find` returns holds the id.
pub proof fn lemma_find_first(t: Tree, id: u64)
    requires
        find(t, id) is Some,
        size(t) <= MAX_TREE_NODES,
    ensures
        !leaves_before(t, find(t, id).unwrap()).contains(id),
    decreases t,
{
    match t {
        Tree::Leaf(_) => {},
        Tree::Container(_, ch, _) => {
            lemma_child_size(t, 0);
            lemma_find_from_first(ch, id, 0);
            let p = find_from(ch, id, 0).unwrap();
            let i = p[0] as int;
            lemma_child_size(t, i);
            lemma_find_first(ch[i], id);
            lemma_leaves_upto_lacks(ch, i, id);
        },
    }
}

/// Dropping the first `id` from `a + [id] + b`, where `a` holds no `id`, leaves `a + b`.
pub proof fn lemma_remove_first_at(a: Seq<u64>, b: Seq<u64>, id: u64)
    requires
        !a.contains(id),
    ensures
        remove_first(a + seq![id] + b, id) == a + b,
    decreases a.len(),
{
    let s = a + seq![id] + b;
    if a.len() == 0 {
        assert(s[0] == id);
        assert(s.skip(1) =~= a + b);
    } else {
        assert(s[0] == a[0]);
        assert(a[0] != id);
        lemma_remove_first_at(a.skip(1), b, id);
        assert(s.skip(1) =~= a.skip(1) + seq![id] + b);
        assert(seq![a[0]] + (a.skip(1) + b) =~= a + b);
    }
}

/// A sequence without `id` is left as it is.
pub proof fn lemma_remove_first_absent(s: Seq<u64>, id: u64)
    requires
        !s.contains(id),
    ensures
        remove_first(s, id) == s,
    decreases s.len(),
{
    if s.len() > 0 {
        assert(s[0] != id);
        lemma_remove_first_absent(s.skip(1), id);
        assert(seq![s[0]] + s.skip(1) =~= s);
    }
}

/// Within the children's leaf paths, those of child `i` start right after the leaves of
/// the children before it.
proof fn lemma_leaf_paths_upto_at(ch: Seq<Tree>, n: int, i: int, m: int)
    requires
        0 <= i < n <= ch.len(),
        0 <= m < leaf_paths(ch[i]).len(),
        size_upto(ch, ch.len() as int) < MAX_TREE_NODES,
    ensures
        leaves_upto(ch, i).len() + m < leaf_paths_upto(ch, n).len(),
        leaf_paths_upto(ch, n)[leaves_upto(ch, i).len() + m] == seq![i as usize] + leaf_paths(ch[i])[m],
    decreases n,
{
    lemma_size_upto_bounds(ch, ch.len() as int);
    lemma_leaf_paths_upto_valid(ch, n - 1);
    lemma_leaf_paths_upto_valid(ch, n);
    lemma_leaf_paths_upto_valid(ch, i);
    lemma_leaf_paths_valid(ch[n - 1]);
    if i < n - 1 {
        lemma_leaf_paths_upto_at(ch, n - 1, i, m);
        lemma_leaf_paths_valid(ch[i]);
        lemma_leaves_upto_len_mono(ch, i + 1, n - 1);
    }
}

proof fn lemma_leaves_upto_len_mono(ch: Seq<Tree>, i: int, n: int)
    requires
        0 <= i <= n <= ch.len(),
    ensures
        leaves_upto(ch, i).len() <= leaves_upto(ch, n).len(),
    decreases n - i,
{
    if i < n {
        lemma_leaves_upto_len_mono(ch, i, n - 1);
    }
}

/// The path of a leaf is the leaf path at the index given by the number of leaves before it.
pub proof fn lemma_leaf_path_index(t: Tree, p: Seq<usize>)
    requires
        node_at(t, p) matches Some(Tree::Leaf(_)),
        size(t) <= MAX_TREE_NODES,
    ensures
        leaves_before(t, p).len() < leaf_paths(t).len(),
        leaf_paths(t)[leaves_before(t, p).len() as int] == p,
    decreases p.len(),
{
    if p.len() == 0 {
        assert(leaf_paths(t) =~= seq![Seq::<usize>::empty()]);
        assert(p =~= Seq::<usize>::empty());
    } else {
        let ch = t.kids();
        let i = p[0] as int;
        let q = p.skip(1);
        lemma_size_upto_bounds(ch, ch.len() as int);
        lemma_leaf_path_index(ch[i], q);
        let m = leaves_before(ch[i], q).len() as int;
        lemma_leaf_paths_upto_at(ch, ch.len() as int, i, m);
        assert(seq![i as usize] + q =~= p);
    }
}

} // verus!
