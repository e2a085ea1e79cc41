//! Mathematical model of the container tree.
//!
//! A tree is either a leaf holding a window id or a container with a layout, an ordered
//! sequence of children and the index of its focused child. Paths are sequences of child
//! indices from the root.
use vstd::prelude::*;

use super::Layout;

verus! {

#[verifier::ext_equal]
pub enum Tree {
    Leaf(u64),
    Container(Layout, Seq<Tree>, usize),
}

impl Tree {
    pub open spec fn kids(self) -> Seq<Tree> {
        match self {
            Tree::Container(_, ch, _) => ch,
            Tree::Leaf(_) => Seq::empty(),
        }
    }

    pub open spec fn focused(self) -> usize {
        match self {
            Tree::Container(_, _, f) => f,
            Tree::Leaf(_) => 0,
        }
    }

    pub open spec fn layout(self) -> Layout {
        match self {
            Tree::Container(l, _, _) => l,
            Tree::Leaf(_) => Layout::SplitH,
        }
    }
}

/// The node reached from `t` by following `p`, if every step names an existing child.
pub open spec fn node_at(t: Tree, p: Seq<usize>) -> Option<Tree>
    decreases p.len(),
{
    if p.len() == 0 {
        Some(t)
    } else {
        match t {
            Tree::Leaf(_) => None,
            Tree::Container(_, ch, _) => if p[0] < ch.len() {
                node_at(ch[p[0] as int], p.skip(1))
            } else {
                None
            },
        }
    }
}

/// `t` with the node at `p` replaced by `x` (unchanged when `p` names no node).
pub open spec fn set_at(t: Tree, p: Seq<usize>, x: Tree) -> Tree
    decreases p.len(),
{
    if p.len() == 0 {
        x
    } else {
        match t {
            Tree::Leaf(_) => t,
            Tree::Container(l, ch, f) => if p[0] < ch.len() {
                Tree::Container(l, ch.update(p[0] as int, set_at(ch[p[0] as int], p.skip(1), x)), f)
            } else {
                t
            },
        }
    }
}

/// Window ids of the leaves, in depth-first order.
pub open spec fn leaves(t: Tree) -> Seq<u64>
    decreases t, 0int,
{
    match t {
        Tree::Leaf(id) => seq![id],
        Tree::Container(_, ch, _) => leaves_upto(ch, ch.len() as int),
    }
}

/// Leaves of the first `n` trees of `ch`, concatenated.
pub open spec fn leaves_upto(ch: Seq<Tree>, n: int) -> Seq<u64>
    decreases ch, n,
{
    if n <= 0 || n > ch.len() {
        Seq::empty()
    } else {
        leaves_upto(ch, n - 1) + leaves(ch[n - 1])
    }
}

/// Number of nodes (containers and leaves) of a tree.
pub open spec fn size(t: Tree) -> nat
    decreases t, 0int,
{
    match t {
        Tree::Leaf(_) => 1,
        Tree::Container(_, ch, _) => 1 + size_upto(ch, ch.len() as int),
    }
}

pub open spec fn size_upto(ch: Seq<Tree>, n: int) -> nat
    decreases ch, n,
{
    if n <= 0 || n > ch.len() {
        0
    } else {
        size_upto(ch, n - 1) + size(ch[n - 1])
    }
}

/// A container's focused index names a child, or is 0 when it has none.
pub open spec fn local_wf(t: Tree) -> bool {
    match t {
        Tree::Leaf(_) => true,
        Tree::Container(_, ch, f) => f < ch.len() || (ch.len() == 0 && f == 0),
    }
}

/// Every container of the tree is `local_wf`.
pub open spec fn node_wf(t: Tree) -> bool
    decreases t, 0int,
{
    match t {
        Tree::Leaf(_) => true,
        Tree::Container(_, ch, f) => {
            &&& local_wf(t)
            &&& kids_wf(ch, ch.len() as int)
        },
    }
}

pub open spec fn kids_wf(ch: Seq<Tree>, n: int) -> bool
    decreases ch, n,
{
    if n <= 0 || n > ch.len() {
        true
    } else {
        kids_wf(ch, n - 1) && node_wf(ch[n - 1])
    }
}

/// No container of the tree is empty.
pub open spec fn no_empty_container(t: Tree) -> bool
    decreases t, 0int,
{
    match t {
        Tree::Leaf(_) => true,
        Tree::Container(_, ch, _) => ch.len() > 0 && kids_no_empty(ch, ch.len() as int),
    }
}

pub open spec fn kids_no_empty(ch: Seq<Tree>, n: int) -> bool
    decreases ch, n,
{
    if n <= 0 || n > ch.len() {
        true
    } else {
        kids_no_empty(ch, n - 1) && no_empty_container(ch[n - 1])
    }
}

/// No container of the tree is empty, except possibly the one at `q` (whose descendants are
/// not empty either).
pub open spec fn no_empty_except(t: Tree, q: Seq<usize>) -> bool
    decreases q.len(),
{
    match t {
        Tree::Leaf(_) => true,
        Tree::Container(_, ch, _) => if q.len() == 0 {
            kids_no_empty(ch, ch.len() as int)
        } else {
            &&& ch.len() > 0
            &&& forall|i: int| 0 <= i < ch.len() && i != q[0] ==> no_empty_container(#[trigger] ch[i])
            &&& q[0] < ch.len() ==> no_empty_except(ch[q[0] as int], q.skip(1))
        },
    }
}

/// Path of the first leaf (depth-first) holding `id`.
pub open spec fn find(t: Tree, id: u64) -> Option<Seq<usize>>
    decreases t, 0int,
{
    match t {
        Tree::Leaf(x) => if x == id {
            Some(Seq::empty())
        } else {
            None
        },
        Tree::Container(_, ch, _) => find_from(ch, id, 0),
    }
}

/// Path (starting with the child index) of the first leaf holding `id` among `ch[i..]`.
pub open spec fn find_from(ch: Seq<Tree>, id: u64, i: int) -> Option<Seq<usize>>
    decreases ch, ch.len() - i,
{
    if i < 0 || i >= ch.len() {
        None
    } else {
        match find(ch[i], id) {
            Some(p) => Some(seq![i as usize] + p),
            None => find_from(ch, id, i + 1),
        }
    }
}

/// Relative path from `t` down to a leaf, following each container's focused index,
/// if that walk reaches a leaf.
pub open spec fn descend(t: Tree) -> Option<Seq<usize>>
    decreases t,
{
    match t {
        Tree::Leaf(_) => Some(Seq::empty()),
        Tree::Container(_, ch, f) => if f < ch.len() {
            match descend(ch[f as int]) {
                Some(s) => Some(seq![f] + s),
                None => None,
            }
        } else {
            None
        },
    }
}

/// Focus after descending from the node at `p` to a leaf through focused children;
/// `p` itself when the node is missing or the walk does not reach a leaf.
pub open spec fn focus_from(root: Option<Tree>, p: Seq<usize>) -> Seq<usize> {
    match root {
        None => p,
        Some(t) => match node_at(t, p) {
            None => p,
            Some(n) => match descend(n) {
                Some(s) => p + s,
                None => p,
            },
        },
    }
}

/// Path from `t` following each container's focused index (clamped to its last child),
/// stopping at a leaf or an empty container.
pub open spec fn first_leaf(t: Tree) -> Seq<usize>
    decreases t,
{
    match t {
        Tree::Leaf(_) => Seq::empty(),
        Tree::Container(_, ch, f) => if ch.len() == 0 {
            Seq::empty()
        } else {
            let i = if f < ch.len() {
                f
            } else {
                (ch.len() - 1) as usize
            };
            seq![i] + first_leaf(ch[i as int])
        },
    }
}

/// Paths of all leaves, depth-first.
pub open spec fn leaf_paths(t: Tree) -> Seq<Seq<usize>>
    decreases t, 0int,
{
    match t {
        Tree::Leaf(_) => seq![Seq::empty()],
        Tree::Container(_, ch, _) => leaf_paths_upto(ch, ch.len() as int),
    }
}

pub open spec fn leaf_paths_upto(ch: Seq<Tree>, n: int) -> Seq<Seq<usize>>
    decreases ch, n,
{
    if n <= 0 || n > ch.len() {
        Seq::empty()
    } else {
        leaf_paths_upto(ch, n - 1) + leaf_paths(ch[n - 1]).map_values(
            |p: Seq<usize>| seq![(n - 1) as usize] + p,
        )
    }
}

/// Leaves that come before the node at `p`, depth-first.
pub open spec fn leaves_before(t: Tree, p: Seq<usize>) -> Seq<u64>
    decreases p.len(),
{
    if p.len() == 0 {
        Seq::empty()
    } else {
        match t {
            Tree::Container(_, ch, _) => if p[0] < ch.len() {
                leaves_upto(ch, p[0] as int) + leaves_before(ch[p[0] as int], p.skip(1))
            } else {
                Seq::empty()
            },
            Tree::Leaf(_) => Seq::empty(),
        }
    }
}

/// Leaves that come after the node at `p`, depth-first.
pub open spec fn leaves_after(t: Tree, p: Seq<usize>) -> Seq<u64>
    decreases p.len(),
{
    if p.len() == 0 {
        Seq::empty()
    } else {
        match t {
            Tree::Container(_, ch, _) => if p[0] < ch.len() {
                leaves_after(ch[p[0] as int], p.skip(1)) + leaves_upto(
                    ch.subrange(p[0] + 1, ch.len() as int),
                    ch.len() - p[0] - 1,
                )
            } else {
                Seq::empty()
            },
            Tree::Leaf(_) => Seq::empty(),
        }
    }
}

/// `s` without its first occurrence of `id` (unchanged when it has none).
pub open spec fn remove_first(s: Seq<u64>, id: u64) -> Seq<u64>
    decreases s.len(),
{
    if s.len() == 0 {
        s
    } else if s[0] == id {
        s.skip(1)
    } else {
        seq![s[0]] + remove_first(s.skip(1), id)
    }
}

// ----------------------------------------------------------------------------
// Container edits, as done by `ContainerData`'s own methods.
// ----------------------------------------------------------------------------
/// Removing child `idx`: later children shift down and a focused index after `idx` follows
/// its child; a focused index past the new end moves to the new last child.
pub open spec fn remove_child(t: Tree, idx: int) -> Tree {
    match t {
        Tree::Leaf(_) => t,
        Tree::Container(l, ch, f) => if 0 <= idx < ch.len() {
            let n = ch.len() - 1;
            Tree::Container(
                l,
                ch.remove(idx),
                if idx < f {
                    (f - 1) as usize
                } else if f >= n && f > 0 {
                    (n - 1) as usize
                } else {
                    f
                },
            )
        } else {
            t
        },
    }
}

/// Inserting a child at `idx` (clamped to the end); the focused index is kept as is.
pub open spec fn insert_child(t: Tree, idx: int, x: Tree) -> Tree {
    match t {
        Tree::Leaf(_) => t,
        Tree::Container(l, ch, f) => {
            let i = if idx < ch.len() {
                idx
            } else {
                ch.len() as int
            };
            Tree::Container(l, ch.insert(i, x), f)
        },
    }
}

/// Focusing child `idx`, when it exists.
pub open spec fn set_focused(t: Tree, idx: int) -> Tree {
    match t {
        Tree::Leaf(_) => t,
        Tree::Container(l, ch, f) => if 0 <= idx < ch.len() {
            Tree::Container(l, ch, idx as usize)
        } else {
            t
        },
    }
}

pub open spec fn set_layout(t: Tree, layout: Layout) -> Tree {
    match t {
        Tree::Leaf(_) => t,
        Tree::Container(_, ch, f) => Tree::Container(layout, ch, f),
    }
}

/// A new container holding just `x`, focused on it.
pub open spec fn wrap(layout: Layout, x: Tree) -> Tree {
    Tree::Container(layout, seq![x], 0)
}

pub open spec fn root_node_at(root: Option<Tree>, p: Seq<usize>) -> Option<Tree> {
    match root {
        None => None,
        Some(t) => node_at(t, p),
    }
}

pub open spec fn root_leaves(root: Option<Tree>) -> Seq<u64> {
    match root {
        None => Seq::empty(),
        Some(t) => leaves(t),
    }
}

pub open spec fn root_size(root: Option<Tree>) -> nat {
    match root {
        None => 0,
        Some(t) => size(t),
    }
}

pub open spec fn root_find(root: Option<Tree>, id: u64) -> Option<Seq<usize>> {
    match root {
        None => None,
        Some(t) => find(t, id),
    }
}

} // verus!

verus! {

/// The whole state of a container tree: its root, the focus path, and the stack of
/// focus paths left behind by "focus parent".
pub struct TreeState {
    pub root: Option<Tree>,
    pub focus: Seq<usize>,
    pub stack: Seq<Seq<usize>>,
    /// Layout that the next root container takes while the tree is empty.
    pub pending: Option<Layout>,
}

pub proof fn lemma_node_at_step(t: Tree, p: Seq<usize>, start: int, end: int)
    requires
        0 <= start < end <= p.len(),
    ensures
        node_at(t, p.subrange(start, end)) == match t {
            Tree::Leaf(_) => None,
            Tree::Container(_, ch, _) => if p[start] < ch.len() {
                node_at(ch[p[start] as int], p.subrange(start + 1, end))
            } else {
                None
            },
        },
{
    assert(p.subrange(start, end).skip(1) =~= p.subrange(start + 1, end));
}

pub proof fn lemma_set_at_step(t: Tree, p: Seq<usize>, start: int, end: int)
    requires
        0 <= start < end <= p.len(),
    ensures
        forall|x: Tree|
            #[trigger] set_at(t, p.subrange(start, end), x) == match t {
                Tree::Leaf(_) => t,
                Tree::Container(l, ch, f) => if p[start] < ch.len() {
                    Tree::Container(
                        l,
                        ch.update(p[start] as int, set_at(ch[p[start] as int], p.subrange(start + 1, end), x)),
                        f,
                    )
                } else {
                    t
                },
            },
{
    assert(p.subrange(start, end).skip(1) =~= p.subrange(start + 1, end));
}

} // verus!
