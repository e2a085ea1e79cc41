//! What each tree command does to the abstract state.
use vstd::prelude::*;

use super::model::{
    TreeState, Tree, node_at, set_at, insert_child, set_focused, focus_from, wrap, root_size,
    node_wf, root_node_at, root_find, remove_child, first_leaf, set_layout, leaf_paths,
};
use super::{Layout, Direction};

verus! {

/// Largest number of nodes a tree may hold; keeps every index computation within `usize`.
pub const MAX_TREE_NODES: usize = 0x1000_0000;

/// The state invariant: containers are well formed, every focus index is at most the
/// number of nodes, and the tree is not larger than `MAX_TREE_NODES`.
pub open spec fn state_wf(s: TreeState) -> bool {
    &&& match s.root {
        Some(t) => node_wf(t),
        None => true,
    }
    &&& forall|i: int| 0 <= i < s.focus.len() ==> #[trigger] s.focus[i] <= root_size(s.root)
    &&& root_size(s.root) <= MAX_TREE_NODES
}

/// There is room for `k` more nodes.
pub open spec fn has_room(s: TreeState, k: nat) -> bool {
    root_size(s.root) + k <= MAX_TREE_NODES
}

pub open spec fn cleared(s: TreeState) -> TreeState {
    TreeState { stack: Seq::empty(), ..s }
}

/// Appending `x` as the last child of the root container and focusing it.
pub open spec fn append_to_root(s: TreeState, r: Tree, x: Tree) -> TreeState {
    let n = r.kids().len();
    TreeState {
        root: Some(set_focused(insert_child(r, n as int, x), n as int)),
        focus: seq![n as usize],
        ..s
    }
}

/// The layout a new root container takes: the pending one, else a horizontal split.
pub open spec fn root_layout(s: TreeState) -> Layout {
    match s.pending {
        Some(l) => l,
        None => Layout::SplitH,
    }
}

/// Making the root a container: an empty container for an empty tree (with the pending
/// layout, which is used up), a horizontal split holding (and focused on) the old root when
/// the root is a leaf.
pub open spec fn ensure_root_container_spec(s: TreeState) -> TreeState {
    match s.root {
        None => TreeState {
            root: Some(Tree::Container(root_layout(s), Seq::empty(), 0)),
            focus: Seq::empty(),
            pending: None,
            ..s
        },
        Some(r) => if r is Leaf {
            TreeState { root: Some(wrap(Layout::SplitH, r)), focus: seq![0usize], ..s }
        } else {
            s
        },
    }
}

/// `insert_window`: a new leaf becomes the next sibling of the focused node.
///
/// The first window becomes the root, or the only child of a root container with the
/// pending layout when there is one; a root leaf is first wrapped in a horizontal split.
pub open spec fn insert_window_spec(s: TreeState, id: u64) -> TreeState {
    let s0 = cleared(s);
    match s.root {
        None => match s.pending {
            None => TreeState { root: Some(Tree::Leaf(id)), focus: Seq::empty(), ..s0 },
            Some(l) => TreeState { root: Some(wrap(l, Tree::Leaf(id))), focus: seq![0usize], pending: None, ..s0 },
        },
        Some(_) => {
            let s1 = ensure_root_container_spec(s0);
            let r1 = s1.root.unwrap();
            let f1 = s1.focus;
            if f1.len() == 0 {
                append_to_root(s1, r1, Tree::Leaf(id))
            } else {
                let pp = f1.drop_last();
                let cur = f1.last();
                match node_at(r1, pp) {
                    Some(p) => if p is Container {
                        let p2 = set_focused(insert_child(p, cur + 1, Tree::Leaf(id)), cur + 1);
                        let r2 = set_at(r1, pp, p2);
                        let f2 = pp.push((cur + 1) as usize);
                        TreeState { root: Some(r2), focus: focus_from(Some(r2), f2), ..s1 }
                    } else {
                        append_to_root(s1, r1, Tree::Leaf(id))
                    },
                    None => append_to_root(s1, r1, Tree::Leaf(id)),
                }
            }
        },
    }
}

} // verus!

verus! {

pub open spec fn focused_window_spec(s: TreeState) -> Option<u64> {
    match root_node_at(s.root, s.focus) {
        Some(Tree::Leaf(x)) => Some(x),
        _ => None,
    }
}

/// `focus_window_by_id`: focus the first leaf holding `id`, if any.
pub open spec fn focus_window_by_id_spec(s: TreeState, id: u64) -> (TreeState, bool) {
    let s0 = cleared(s);
    match root_find(s.root, id) {
        Some(p) => (TreeState { focus: focus_from(s.root, p), ..s0 }, true),
        None => (s0, false),
    }
}

/// `focus_parent`: remember the focus, step up one level and descend again through the
/// focused children.
pub open spec fn focus_parent_spec(s: TreeState) -> (TreeState, bool) {
    if s.focus.len() == 0 {
        (s, false)
    } else {
        (
            TreeState {
                focus: focus_from(s.root, s.focus.drop_last()),
                stack: s.stack.push(s.focus),
                ..s
            },
            true,
        )
    }
}

/// `focus_child`: return to the last remembered focus, if it still names a node.
pub open spec fn focus_child_spec(s: TreeState) -> (TreeState, bool) {
    if s.stack.len() == 0 {
        (s, false)
    } else {
        let path = s.stack.last();
        if root_node_at(s.root, path) is None {
            (TreeState { stack: Seq::empty(), ..s }, false)
        } else {
            (TreeState { focus: focus_from(s.root, path), stack: s.stack.drop_last(), ..s }, true)
        }
    }
}

/// Whether the focus moves among the children of a container with this layout in this
/// direction: splits along their axis, tabbed and stacked containers in every direction.
pub open spec fn focus_matches(l: Layout, d: Direction) -> bool {
    match l {
        Layout::SplitH => d == Direction::Left || d == Direction::Right,
        Layout::SplitV => d == Direction::Up || d == Direction::Down,
        Layout::Tabbed | Layout::Stacked => true,
    }
}

/// Whether a container with this layout moves windows in this direction: splits along
/// their axis, tabs left and right, stacks up and down.
pub open spec fn dir_matches(l: Layout, d: Direction) -> bool {
    match (l, d) {
        (Layout::SplitH, Direction::Left) | (Layout::SplitH, Direction::Right) => true,
        (Layout::SplitV, Direction::Up) | (Layout::SplitV, Direction::Down) => true,
        (Layout::Tabbed, Direction::Left) | (Layout::Tabbed, Direction::Right) => true,
        (Layout::Stacked, Direction::Up) | (Layout::Stacked, Direction::Down) => true,
        _ => false,
    }
}

/// The sibling index one step from `cur` in direction `d`, among `len` children.
pub open spec fn dir_target(cur: usize, len: nat, d: Direction) -> Option<usize> {
    match d {
        Direction::Left | Direction::Up => if cur > 0 {
            Some((cur - 1) as usize)
        } else {
            None
        },
        Direction::Right | Direction::Down => if cur + 1 < len {
            Some((cur + 1) as usize)
        } else {
            None
        },
    }
}

/// The deepest level `k < depth` of the focus path whose container moves in direction `d`
/// and has a sibling there, with that sibling's index.
pub open spec fn focus_dir_search(r: Tree, fp: Seq<usize>, d: Direction, depth: int) -> Option<(int, usize)>
    decreases depth,
{
    if depth <= 0 {
        None
    } else {
        let k = depth - 1;
        match node_at(r, fp.subrange(0, k)) {
            Some(Tree::Container(l, ch, _)) => if focus_matches(l, d) && dir_target(fp[k], ch.len(), d) is Some {
                Some((k, dir_target(fp[k], ch.len(), d).unwrap()))
            } else {
                focus_dir_search(r, fp, d, k)
            },
            _ => focus_dir_search(r, fp, d, k),
        }
    }
}

/// `focus_in_direction`: at the deepest level of the focus path whose container moves in
/// direction `d` and has a neighbour there, focus that neighbour and descend into it.
pub open spec fn focus_in_direction_spec(s: TreeState, d: Direction) -> (TreeState, bool) {
    let s0 = cleared(s);
    match s.root {
        None => (s0, false),
        Some(r) => match focus_dir_search(r, s.focus, d, s.focus.len() as int) {
            None => (s0, false),
            Some((k, t)) => {
                let pp = s.focus.subrange(0, k);
                let p = node_at(r, pp).unwrap();
                let r2 = set_at(r, pp, set_focused(p, t as int));
                (TreeState { root: Some(r2), focus: focus_from(Some(r2), pp.push(t)), ..s0 }, true)
            },
        },
    }
}

} // verus!

verus! {

/// State threaded through container cleanup (the focus is carried as integers; cleanup
/// itself leaves it as it is).
pub struct Cleanup {
    pub root: Option<Tree>,
    pub focus: Seq<int>,
    pub stack: Seq<Seq<usize>>,
}

/// One cleanup step on child `li` of the container at `pp`: an empty container is removed;
/// every other container, a single-child wrapper included, stays as it is.
pub open spec fn cleanup_step(s: Cleanup, pp: Seq<usize>, li: int) -> Cleanup {
    match root_node_at(s.root, pp) {
        Some(Tree::Container(pl, pch, pf)) => if 0 <= li < pch.len() {
            match pch[li] {
                Tree::Container(_, cch, _) => if cch.len() == 0 {
                    Cleanup { root: Some(set_at(s.root.unwrap(), pp, remove_child(Tree::Container(pl, pch, pf), li))), ..s }
                } else {
                    s
                },
                Tree::Leaf(_) => s,
            }
        } else {
            s
        },
        _ => s,
    }
}

/// Cleanup from the container at `path` up to the root: one step per level, deepest first,
/// then an empty root container is dropped.
pub open spec fn cleanup(s: Cleanup, path: Seq<usize>) -> Cleanup
    decreases path.len(),
{
    if path.len() == 0 {
        match s.root {
            Some(Tree::Container(_, ch, _)) => if ch.len() == 0 {
                Cleanup { root: None, ..s }
            } else {
                s
            },
            _ => s,
        }
    } else {
        cleanup(cleanup_step(s, path.drop_last(), path.last() as int), path.drop_last())
    }
}

pub open spec fn int_path(f: Seq<usize>) -> Seq<int> {
    f.map_values(|x: usize| x as int)
}

/// A root container left with a single child gives way to that child.
pub open spec fn unwrap_root(root: Option<Tree>) -> Option<Tree> {
    match root {
        Some(Tree::Container(_, ch, _)) => if ch.len() == 1 {
            Some(ch[0])
        } else {
            root
        },
        _ => root,
    }
}

/// `remove_window`: the first leaf holding `id` is removed, emptied containers on its path
/// are removed, and a root container left with one child gives way to it. The focused window
/// keeps the focus when it stays; otherwise the focus moves to the first leaf reached through
/// focused children. When the tree becomes empty, the layout of its last root container is
/// kept for the next one.
pub open spec fn remove_window_spec(s: TreeState, id: u64) -> (TreeState, Option<u64>) {
    match root_find(s.root, id) {
        None => (s, None),
        Some(p) => {
            let t = s.root.unwrap();
            let pp = if p.len() == 0 {
                Seq::empty()
            } else {
                p.drop_last()
            };
            let start = if p.len() == 0 {
                None
            } else {
                Some(set_at(t, pp, remove_child(node_at(t, pp).unwrap(), p.last() as int)))
            };
            let c = cleanup(Cleanup { root: start, focus: int_path(s.focus), stack: s.stack }, pp);
            let root = unwrap_root(c.root);
            let kept = match focused_window_spec(s) {
                Some(w) => if w != id {
                    root_find(root, w)
                } else {
                    None
                },
                None => None,
            };
            (
                TreeState {
                    root,
                    focus: match kept {
                        Some(q) => q,
                        None => match root {
                            Some(r) => first_leaf(r),
                            None => Seq::empty(),
                        },
                    },
                    stack: if root == c.root {
                        c.stack
                    } else {
                        Seq::empty()
                    },
                    pending: match (root, t) {
                        (None, Tree::Container(l, _, _)) => Some(l),
                        _ => s.pending,
                    },
                },
                Some(id),
            )
        },
    }
}

} // verus!

verus! {

/// A focus index as stored: saturated at `usize::MAX`.
pub open spec fn clamp_index(x: int) -> usize {
    if x < usize::MAX {
        x as usize
    } else {
        usize::MAX
    }
}

pub open spec fn clamp_path(f: Seq<int>) -> Seq<usize> {
    Seq::new(f.len(), |i: int| clamp_index(f[i]))
}

/// What `move_in_direction` does with the focused node.
pub enum MovePlan {
    /// Nothing moves.
    Fail,
    /// The focused node swaps places with its sibling at this index.
    Swap(usize),
    /// The focused leaf moves into the sibling container at this index.
    IntoContainer(usize),
    /// The focused leaf moves out of its container, next to it in the grandparent.
    Reparent,
    /// The focused child of the root moves across the root's axis: out of the root, to the
    /// edge of the tree it moves toward (see `wrap_root_spec`).
    WrapRoot,
}

pub open spec fn move_plan(s: TreeState, d: Direction) -> MovePlan {
    match s.root {
        None => MovePlan::Fail,
        Some(r) => if s.focus.len() == 0 {
            MovePlan::Fail
        } else {
            let pp = s.focus.drop_last();
            let li = s.focus.last();
            match node_at(r, pp) {
                Some(Tree::Container(pl, pch, _)) => if dir_matches(pl, d) {
                    match dir_target(li, pch.len(), d) {
                        Some(t) => if t < pch.len() {
                            if (pl == Layout::SplitH || pl == Layout::SplitV) && pch[t as int] is Container
                                && pch[t as int].layout() != pl {
                                MovePlan::IntoContainer(t)
                            } else {
                                MovePlan::Swap(t)
                            }
                        } else {
                            MovePlan::Fail
                        },
                        None => MovePlan::Fail,
                    }
                } else if pp.len() == 0 {
                    if li < pch.len() && pch.len() >= 2 && root_size(s.root) < MAX_TREE_NODES {
                        MovePlan::WrapRoot
                    } else {
                        MovePlan::Fail
                    }
                } else {
                    MovePlan::Reparent
                },
                _ => MovePlan::Fail,
            }
        },
    }
}

/// The focused index is past the last child of its container (a stale focus path).
pub open spec fn focus_past_end(s: TreeState) -> bool {
    &&& s.root matches Some(r)
    &&& s.focus.len() > 0
    &&& node_at(r, s.focus.drop_last()) matches Some(Tree::Container(_, ch, _))
    &&& s.focus.last() >= ch.len()
}

/// A swap from a focused index past the last child: swapping there would index out of
/// bounds.
pub open spec fn move_would_panic(s: TreeState, d: Direction) -> bool {
    move_plan(s, d) is Swap && focus_past_end(s)
}

pub open spec fn swap_kids(ch: Seq<Tree>, i: int, j: int) -> Seq<Tree> {
    ch.update(i, ch[j]).update(j, ch[i])
}

/// Focus after moving leaf `id`: the path to it, if the tree still holds it.
pub open spec fn moved_leaf_focus(c: Cleanup, id: u64) -> Seq<usize> {
    match root_find(c.root, id) {
        Some(p) => p,
        None => clamp_path(c.focus),
    }
}

/// Where a leaf entering container `target` in direction `d` goes: next to the focused
/// child, on the side it comes from in a split container (after it when moving left or up,
/// before it when moving right or down), after it (right/down) or before it (left/up) in a
/// tabbed or stacked container.
pub open spec fn move_into_index(target: Tree, d: Direction) -> int {
    let f = target.focused() as int;
    if is_split(target.layout()) {
        match d {
            Direction::Left | Direction::Up => f + 1,
            Direction::Right | Direction::Down => f,
        }
    } else {
        match d {
            Direction::Left | Direction::Up => f,
            Direction::Right | Direction::Down => f + 1,
        }
    }
}

/// Moving the focused leaf into the sibling container at `t`, next to that container's
/// focused child (see `move_into_index`).
pub open spec fn move_into_spec(s: TreeState, t: usize, d: Direction) -> (TreeState, bool) {
    let r = s.root.unwrap();
    let pp = s.focus.drop_last();
    let li = s.focus.last();
    match node_at(r, s.focus) {
        Some(Tree::Leaf(id)) => {
            let p = node_at(r, pp).unwrap();
            let r1 = set_at(r, pp, remove_child(p, li as int));
            let t2 = if t > li {
                (t - 1) as usize
            } else {
                t
            };
            let q = pp.push(t2);
            let target = node_at(r1, q).unwrap();
            let ins = move_into_index(target, d);
            let idx = if ins < target.kids().len() {
                ins
            } else {
                target.kids().len() as int
            };
            let r2 = set_at(r1, q, set_focused(insert_child(target, idx, Tree::Leaf(id)), idx));
            let c = cleanup(Cleanup { root: Some(r2), focus: int_path(s.focus), stack: s.stack }, pp);
            (TreeState { root: c.root, focus: moved_leaf_focus(c, id), stack: c.stack, pending: s.pending }, true)
        },
        _ => (s, false),
    }
}

/// The layout of a container whose children line up in direction `d`.
pub open spec fn axis_layout(d: Direction) -> Layout {
    match d {
        Direction::Left | Direction::Right => Layout::SplitH,
        Direction::Up | Direction::Down => Layout::SplitV,
    }
}

pub open spec fn toward_start(d: Direction) -> bool {
    d == Direction::Left || d == Direction::Up
}

/// What the root container becomes once its child `li` has left: its only other child, when
/// there is just one, else itself.
pub open spec fn root_without(r: Tree, li: int) -> Tree {
    unwrap_root(Some(remove_child(r, li))).unwrap()
}

/// The node that takes in a child moved out of the root in direction `d`: the rest of the
/// tree when it is a container along `d`'s axis, else a new container along that axis
/// holding it.
pub open spec fn wrap_host(rest: Tree, d: Direction) -> Tree {
    if rest is Container && rest.layout() == axis_layout(d) {
        rest
    } else {
        wrap(axis_layout(d), rest)
    }
}

/// Moving the focused child of the root across the root's axis: it leaves the root and
/// becomes the first (left, up) or last (right, down) child of `wrap_host`, which is the new
/// root; the moved child keeps the focus.
pub open spec fn wrap_root_spec(s: TreeState, d: Direction) -> (TreeState, bool) {
    let r = s.root.unwrap();
    let li = s.focus.last() as int;
    let host = wrap_host(root_without(r, li), d);
    let k = if toward_start(d) {
        0
    } else {
        host.kids().len() as int
    };
    let root = set_focused(insert_child(host, k, r.kids()[li]), k);
    (TreeState { root: Some(root), focus: seq![k as usize], ..s }, true)
}

/// Where the leaf moved out of the container at `pidx` goes in the grandparent: just before
/// (left/up) or after (right/down) that container; when the leaf was the container's only
/// child, one place further, so that it changes places with the neighbour once the emptied
/// container is gone.
pub open spec fn reparent_index(single: bool, pidx: usize, d: Direction) -> int {
    match d {
        Direction::Left | Direction::Up => if single && pidx > 0 {
            pidx - 1
        } else {
            pidx as int
        },
        Direction::Right | Direction::Down => if single {
            pidx + 2
        } else {
            pidx + 1
        },
    }
}

/// Where the container left at `pidx` stands after a leaf was inserted at `ins` beside it.
pub open spec fn left_behind(pidx: usize, ins: int) -> usize {
    if ins <= pidx {
        (pidx + 1) as usize
    } else {
        pidx
    }
}

/// Moving the focused leaf out of its container into the grandparent, next to that
/// container (see `reparent_index`); the container is removed if it was left empty.
pub open spec fn reparent_spec(s: TreeState, d: Direction) -> (TreeState, bool) {
    let r = s.root.unwrap();
    let pp = s.focus.drop_last();
    let li = s.focus.last();
    match node_at(r, s.focus) {
        Some(Tree::Leaf(id)) => {
            let p = node_at(r, pp).unwrap();
            let r1 = set_at(r, pp, remove_child(p, li as int));
            let gp = pp.drop_last();
            let pidx = pp.last();
            let g = node_at(r1, gp).unwrap();
            let ins = reparent_index(p.kids().len() == 1, pidx, d);
            let at = if ins < g.kids().len() {
                ins
            } else {
                g.kids().len() as int
            };
            let r2 = set_at(r1, gp, set_focused(insert_child(g, at, Tree::Leaf(id)), at));
            let c = cleanup(Cleanup { root: Some(r2), focus: int_path(s.focus), stack: s.stack }, gp.push(left_behind(pidx, at)));
            (TreeState { root: c.root, focus: moved_leaf_focus(c, id), stack: c.stack, pending: s.pending }, true)
        },
        _ => (s, false),
    }
}

/// `move_in_direction`: swap the focused node with its neighbour in a container that moves
/// in direction `d`; move it into a neighbouring split container of the other orientation;
/// or, when its container does not move in `d`, move it out next to that container.
pub open spec fn move_in_direction_spec(s: TreeState, d: Direction) -> (TreeState, bool) {
    let s0 = cleared(s);
    match move_plan(s, d) {
        MovePlan::Fail => (s0, false),
        MovePlan::Swap(t) => {
            let r = s.root.unwrap();
            let pp = s.focus.drop_last();
            let li = s.focus.last();
            let p = node_at(r, pp).unwrap();
            let p2 = set_focused(Tree::Container(p.layout(), swap_kids(p.kids(), li as int, t as int), p.focused()), t as int);
            let r2 = set_at(r, pp, p2);
            (TreeState { root: Some(r2), focus: focus_from(Some(r2), pp.push(t)), ..s0 }, true)
        },
        MovePlan::IntoContainer(t) => move_into_spec(s0, t, d),
        MovePlan::Reparent => reparent_spec(s0, d),
        MovePlan::WrapRoot => wrap_root_spec(s0, d),
    }
}

} // verus!

verus! {

/// `split_focused`: on an empty tree, remember `layout` for the next root container; a root
/// leaf is wrapped whole; otherwise see `split_kind`.
pub open spec fn split_focused_spec(s: TreeState, layout: Layout) -> (TreeState, bool) {
    let s0 = cleared(s);
    match s.root {
        None => (TreeState { pending: Some(layout), ..s0 }, true),
        Some(r) => if s.focus.len() == 0 {
            if r is Leaf {
                (TreeState { root: Some(wrap(layout, r)), focus: seq![0usize], ..s0 }, true)
            } else {
                (s0, false)
            }
        } else {
            let pp = s.focus.drop_last();
            let ci = s.focus.last() as int;
            match node_at(r, pp) {
                Some(Tree::Container(pl, pch, pf)) => if ci < pch.len() {
                    match pch[ci] {
                        Tree::Leaf(_) => match split_kind(pl, pch.len(), pp.len() == 0, layout) {
                            SplitKind::Relayout => (
                                TreeState { root: Some(set_at(r, pp, Tree::Container(layout, pch, pf))), ..s0 },
                                true,
                            ),
                            SplitKind::Keep => (s0, true),
                            SplitKind::Wrap => {
                                let p2 = Tree::Container(pl, pch.update(ci, wrap(layout, pch[ci])), pf);
                                (TreeState { root: Some(set_at(r, pp, p2)), focus: s.focus.push(0usize), ..s0 }, true)
                            },
                        },
                        Tree::Container(..) => (s0, false),
                    }
                } else {
                    (s0, false)
                },
                _ => (s0, false),
            }
        },
    }
}

pub open spec fn is_split(l: Layout) -> bool {
    l == Layout::SplitH || l == Layout::SplitV
}

/// What splitting a leaf does, given its container's layout `pl`, its number of children
/// `n`, whether it is the root, and the requested layout.
pub enum SplitKind {
    /// The container changes its split orientation.
    Relayout,
    /// Nothing changes.
    Keep,
    /// The leaf is wrapped in a new container.
    Wrap,
}

/// A split container holding only the leaf turns to the requested split orientation; a
/// container that already has the requested layout stays as it is, except a root container
/// with several children, where the leaf is wrapped; otherwise the leaf is wrapped.
pub open spec fn split_kind(pl: Layout, n: nat, at_root: bool, layout: Layout) -> SplitKind {
    if n == 1 && is_split(pl) && is_split(layout) {
        SplitKind::Relayout
    } else if pl == layout && (!at_root || n == 1) {
        SplitKind::Keep
    } else {
        SplitKind::Wrap
    }
}

/// `set_focused_layout`: set the layout of the focused container, or of the container
/// holding the focused leaf (a root leaf is first wrapped in a container).
pub open spec fn set_focused_layout_spec(s: TreeState, layout: Layout) -> (TreeState, bool) {
    match s.root {
        None => (s, false),
        Some(r) => if s.focus.len() == 0 && r is Leaf {
            (TreeState { root: Some(wrap(layout, r)), focus: seq![0usize], ..s }, true)
        } else {
            match node_at(r, s.focus) {
                Some(Tree::Leaf(_)) => if s.focus.len() == 0 {
                    (s, false)
                } else {
                    let pp = s.focus.drop_last();
                    match node_at(r, pp) {
                        Some(Tree::Container(..)) => (
                            TreeState { root: Some(set_at(r, pp, set_layout(node_at(r, pp).unwrap(), layout))), ..s },
                            true,
                        ),
                        _ => (s, false),
                    }
                },
                Some(Tree::Container(..)) => (
                    TreeState { root: Some(set_at(r, s.focus, set_layout(node_at(r, s.focus).unwrap(), layout))), ..s },
                    true,
                ),
                None => (s, false),
            }
        },
    }
}

/// Layout of the container holding the focused node (the root container when the focus
/// path is empty).
pub open spec fn focused_layout_spec(s: TreeState) -> Option<Layout> {
    let p = if s.focus.len() == 0 {
        s.focus
    } else {
        s.focus.drop_last()
    };
    match root_node_at(s.root, p) {
        Some(Tree::Container(l, _, _)) => Some(l),
        _ => None,
    }
}

/// Layout and child count of the container at `path`.
pub open spec fn container_info_spec(s: TreeState, path: Seq<usize>) -> Option<(Layout, nat)> {
    match root_node_at(s.root, path) {
        Some(Tree::Container(l, ch, _)) => Some((l, ch.len())),
        _ => None,
    }
}

/// Walking up from `path`: the deepest container with `layout` that holds the path, with
/// the index of the child the path goes through. The walk stops at a missing node.
pub open spec fn find_parent_with_layout_spec(root: Option<Tree>, path: Seq<usize>, layout: Layout) -> Option<
    (Seq<usize>, usize),
>
    decreases path.len(),
{
    if path.len() == 0 {
        None
    } else {
        match root_node_at(root, path.drop_last()) {
            None => None,
            Some(Tree::Container(l, _, _)) => if l == layout {
                Some((path.drop_last(), path.last()))
            } else {
                find_parent_with_layout_spec(root, path.drop_last(), layout)
            },
            Some(Tree::Leaf(_)) => find_parent_with_layout_spec(root, path.drop_last(), layout),
        }
    }
}

/// Number of root-level children: a root leaf counts as one.
pub open spec fn root_children_len_spec(s: TreeState) -> nat {
    match s.root {
        None => 0,
        Some(Tree::Leaf(_)) => 1,
        Some(Tree::Container(_, ch, _)) => ch.len(),
    }
}

/// Index of the focused root child: the first index of the focus path, or the root's
/// focused index (clamped to its last child) when the focus path is empty.
pub open spec fn focused_root_index_spec(s: TreeState) -> Option<usize> {
    match s.root {
        None => None,
        Some(Tree::Leaf(_)) => Some(0usize),
        Some(Tree::Container(_, ch, f)) => if s.focus.len() == 0 {
            Some(
                if ch.len() == 0 {
                    0usize
                } else if f < ch.len() {
                    f
                } else {
                    (ch.len() - 1) as usize
                },
            )
        } else {
            Some(s.focus[0])
        },
    }
}

/// `focus_root_child`: focus root child `idx` and descend through focused children.
pub open spec fn focus_root_child_spec(s: TreeState, idx: usize) -> (TreeState, bool) {
    let s0 = cleared(s);
    match s.root {
        None => (s0, false),
        Some(Tree::Leaf(_)) => if idx == 0 {
            (TreeState { focus: Seq::empty(), ..s0 }, true)
        } else {
            (s0, false)
        },
        Some(Tree::Container(_, ch, _)) => if idx >= ch.len() {
            (s0, false)
        } else {
            (TreeState { focus: focus_from(s.root, seq![idx]), ..s0 }, true)
        },
    }
}

/// Where the first focus index goes when root child `from` moves to `to`.
pub open spec fn shifted_index(cur: usize, from: usize, to: usize) -> usize {
    if cur == from {
        to
    } else if from < cur && to >= cur {
        (cur - 1) as usize
    } else if from > cur && to <= cur {
        (cur + 1) as usize
    } else {
        cur
    }
}

/// `move_root_child`: move root child `from` to position `to`; the focus follows the
/// focused column.
pub open spec fn move_root_child_spec(s: TreeState, from: usize, to: usize) -> (TreeState, bool) {
    let s0 = cleared(s);
    match s.root {
        Some(Tree::Container(l, ch, f)) => if from >= ch.len() || to >= ch.len() {
            (s0, false)
        } else {
            let ch2 = ch.remove(from as int).insert(to as int, ch[from as int]);
            let f1 = if s.focus.len() > 0 {
                s.focus.update(0, shifted_index(s.focus[0], from, to))
            } else {
                seq![if f < ch.len() { f } else { (ch.len() - 1) as usize }]
            };
            let r2 = set_focused(Tree::Container(l, ch2, f), f1[0] as int);
            (TreeState { root: Some(r2), focus: focus_from(Some(r2), f1), ..s0 }, true)
        },
        _ => (s0, false),
    }
}

} // verus!

verus! {

/// `insert_key_at_root`: make the root a container and insert `x` among its children at
/// `index` (clamped). With `focus` the new child is focused; otherwise the root keeps
/// focusing the child it focused, and a focus path through a shifted child follows it.
pub open spec fn insert_at_root_spec(s: TreeState, index: usize, x: Tree, focus: bool) -> TreeState {
    let s1 = ensure_root_container_spec(s);
    let r1 = s1.root.unwrap();
    let len = r1.kids().len();
    let pf = r1.focused();
    let idx: usize = if index < len {
        index
    } else {
        len as usize
    };
    let c1 = insert_child(r1, idx as int, x);
    let shift = !focus && idx <= pf && c1.kids().len() > 1;
    let c2 = if focus {
        set_focused(c1, idx as int)
    } else if shift {
        set_focused(c1, pf + 1)
    } else {
        c1
    };
    let f = if focus {
        focus_from(Some(c2), seq![idx])
    } else if shift {
        if s1.focus.len() > 0 && idx <= s1.focus[0] {
            s1.focus.update(0, (s1.focus[0] + 1) as usize)
        } else {
            s1.focus
        }
    } else if s1.focus.len() == 0 {
        focus_from(Some(c2), seq![focused_root_index_spec(TreeState { root: Some(c2), ..s1 }).unwrap()])
    } else {
        s1.focus
    };
    TreeState { root: Some(c2), focus: f, stack: s1.stack, pending: s1.pending }
}

/// A vertical split holding the given windows, focused on the first.
pub open spec fn column_of(ids: Seq<u64>) -> Tree {
    Tree::Container(Layout::SplitV, Seq::new(ids.len(), |i: int| Tree::Leaf(ids[i])), 0)
}

/// `insert_leaf_after`: a new leaf right after the first leaf holding `after` (appended at
/// the root when there is none); with `focus` it is focused, otherwise its container keeps
/// focusing the same child.
pub open spec fn insert_leaf_after_spec(s: TreeState, after: u64, id: u64, focus: bool) -> (TreeState, bool) {
    match root_find(s.root, after) {
        None => (insert_at_root_spec(s, root_children_len_spec(s) as usize, Tree::Leaf(id), focus), true),
        Some(path) => if path.len() == 0 {
            (insert_at_root_spec(s, root_children_len_spec(s) as usize, Tree::Leaf(id), focus), true)
        } else {
            let r = s.root.unwrap();
            let pp = path.drop_last();
            let ins = path.last() + 1;
            let p = node_at(r, pp).unwrap();
            let prev = p.focused();
            let p1 = insert_child(p, ins, Tree::Leaf(id));
            if focus {
                let r2 = set_at(r, pp, set_focused(p1, ins));
                (TreeState { root: Some(r2), focus: focus_from(Some(r2), pp.push(ins as usize)), ..s }, true)
            } else if prev >= ins {
                let r2 = set_at(r, pp, set_focused(p1, prev + 1));
                let d = pp.len() as int;
                let f = if s.focus.len() > d && ins <= s.focus[d] {
                    s.focus.update(d, (s.focus[d] + 1) as usize)
                } else {
                    s.focus
                };
                (TreeState { root: Some(r2), focus: f, ..s }, true)
            } else {
                (TreeState { root: Some(set_at(r, pp, p1)), ..s }, true)
            }
        },
    }
}

/// `insert_leaf_in_column`: insert a new leaf into root child `column` (a leaf there is
/// first wrapped in a vertical split) at `tile_idx` (clamped; the end when absent). The root
/// then focuses that column.
pub open spec fn insert_leaf_in_column_spec(
    s: TreeState,
    column: usize,
    tile_idx: Option<usize>,
    id: u64,
    focus: bool,
) -> (TreeState, bool) {
    let s1 = ensure_root_container_spec(s);
    let r1 = s1.root.unwrap();
    let ch = r1.kids();
    if column >= ch.len() {
        (s1, false)
    } else {
        let col0 = ch[column as int];
        let col = if col0 is Leaf {
            wrap(Layout::SplitV, col0)
        } else {
            col0
        };
        let n = col.kids().len();
        let want = match tile_idx {
            Some(t) => t as int,
            None => n as int,
        };
        let at = if want < n {
            want
        } else {
            n as int
        };
        let col1 = insert_child(col, at, Tree::Leaf(id));
        let col2 = if focus {
            set_focused(col1, at)
        } else {
            col1
        };
        let r2 = set_focused(Tree::Container(r1.layout(), ch.update(column as int, col2), r1.focused()), column as int);
        let f0 = s1.focus;
        let f = if focus {
            focus_from(Some(r2), seq![column, at as usize])
        } else if f0.len() > 0 && f0[0] == column {
            if f0.len() > 1 && at <= f0[1] {
                f0.update(1, (f0[1] + 1) as usize)
            } else {
                f0
            }
        } else if f0.len() == 0 {
            focus_from(Some(r2), seq![column])
        } else {
            f0
        };
        (TreeState { root: Some(r2), focus: f, stack: s1.stack, pending: s1.pending }, true)
    }
}

} // verus!

verus! {

/// Paths of the leaves under the node at `prefix`, depth-first.
pub open spec fn leaf_paths_under_spec(root: Option<Tree>, prefix: Seq<usize>) -> Seq<Seq<usize>> {
    match root_node_at(root, prefix) {
        Some(n) => leaf_paths(n).map_values(|p: Seq<usize>| prefix + p),
        None => Seq::empty(),
    }
}

/// `focus_leaf_in_root_child`: focus the `leaf_idx`-th (1-based) leaf of root child
/// `child_idx`.
pub open spec fn focus_leaf_in_root_child_spec(s: TreeState, child_idx: usize, leaf_idx: usize) -> (TreeState, bool) {
    let s0 = cleared(s);
    let paths = leaf_paths_under_spec(s.root, seq![child_idx]);
    if leaf_idx == 0 || paths.len() == 0 || leaf_idx > paths.len() {
        (s0, false)
    } else {
        (TreeState { focus: paths[leaf_idx - 1], ..s0 }, true)
    }
}

/// `focus_top_in_current_column`: focus the first leaf of the focused root child.
pub open spec fn focus_top_spec(s: TreeState) -> (TreeState, bool) {
    match focused_root_index_spec(s) {
        None => (s, false),
        Some(i) => focus_leaf_in_root_child_spec(s, i, 1),
    }
}

/// `focus_bottom_in_current_column`: focus the last leaf of the focused root child.
pub open spec fn focus_bottom_spec(s: TreeState) -> (TreeState, bool) {
    match focused_root_index_spec(s) {
        None => (s, false),
        Some(i) => {
            let paths = leaf_paths_under_spec(s.root, seq![i]);
            if paths.len() > 0 {
                (TreeState { focus: paths.last(), ..s }, true)
            } else {
                (s, false)
            }
        },
    }
}

} // verus!

verus! {

/// `take_root_child_subtree`: detach root child `idx` (the whole tree when the root is a
/// leaf and `idx` is 0). The root then focuses the child now at `idx` (or the last one), and
/// an emptied root is dropped.
pub open spec fn take_root_child_spec(s: TreeState, idx: usize) -> (TreeState, Option<Tree>) {
    match s.root {
        None => (s, None),
        Some(Tree::Leaf(x)) => if idx == 0 {
            (TreeState { root: None, focus: Seq::empty(), ..s }, Some(Tree::Leaf(x)))
        } else {
            (s, None)
        },
        Some(Tree::Container(l, ch, f)) => if idx >= ch.len() {
            (s, None)
        } else {
            let r1 = remove_child(Tree::Container(l, ch, f), idx as int);
            let n = ch.len() - 1;
            if n == 0 {
                (TreeState { root: None, focus: Seq::empty(), ..s }, Some(ch[idx as int]))
            } else {
                let ni: usize = if idx < n - 1 {
                    idx
                } else {
                    (n - 1) as usize
                };
                let r2 = set_focused(r1, ni as int);
                (TreeState { root: Some(r2), focus: focus_from(Some(r2), seq![ni]), ..s }, Some(ch[idx as int]))
            }
        },
    }
}

} // verus!

verus! {

/// Whether child `i` of a container is shown: all children of a split are, only the focused
/// child (clamped to the last) of a tabbed or stacked container is.
pub open spec fn child_visible(l: Layout, f: usize, len: nat, i: int) -> bool {
    match l {
        Layout::Tabbed | Layout::Stacked => i == (if f < len {
            f as int
        } else {
            len - 1
        }),
        _ => true,
    }
}

/// Each leaf under `t` (at `path`), depth-first, with whether it is shown.
pub open spec fn leaf_visibility(t: Tree, path: Seq<usize>, visible: bool) -> Seq<(Seq<usize>, bool)>
    decreases t, 0int,
{
    match t {
        Tree::Leaf(_) => seq![(path, visible)],
        Tree::Container(l, ch, f) => visibility_upto(ch, ch.len() as int, path, visible, l, f),
    }
}

pub open spec fn visibility_upto(
    ch: Seq<Tree>,
    n: int,
    path: Seq<usize>,
    visible: bool,
    l: Layout,
    f: usize,
) -> Seq<(Seq<usize>, bool)>
    decreases ch, n,
{
    if n <= 0 || n > ch.len() {
        Seq::empty()
    } else {
        visibility_upto(ch, n - 1, path, visible, l, f) + leaf_visibility(
            ch[n - 1],
            path.push((n - 1) as usize),
            visible && child_visible(l, f, ch.len(), n - 1),
        )
    }
}

/// A tab bar to draw: a shown tabbed or stacked container with children, its path, layout,
/// focused index and number of tabs.
pub struct TabBarGroupView {
    pub path: Seq<usize>,
    pub layout: Layout,
    pub focused_idx: usize,
    pub tab_count: nat,
}

/// The tab bars under `t`, depth-first (a container before its children). Below a tabbed or
/// stacked container only the child at its focused index is shown.
pub open spec fn tab_bar_groups(t: Tree, path: Seq<usize>, visible: bool) -> Seq<TabBarGroupView>
    decreases t, 0int,
{
    match t {
        Tree::Leaf(_) => Seq::empty(),
        Tree::Container(l, ch, f) => {
            let own = if visible && (l == Layout::Tabbed || l == Layout::Stacked) && ch.len() > 0 {
                seq![TabBarGroupView { path, layout: l, focused_idx: f, tab_count: ch.len() }]
            } else {
                Seq::empty()
            };
            own + tab_groups_upto(ch, ch.len() as int, path, visible, l, f)
        },
    }
}

pub open spec fn tab_groups_upto(
    ch: Seq<Tree>,
    n: int,
    path: Seq<usize>,
    visible: bool,
    l: Layout,
    f: usize,
) -> Seq<TabBarGroupView>
    decreases ch, n,
{
    if n <= 0 || n > ch.len() {
        Seq::empty()
    } else {
        let shown = match l {
            Layout::Tabbed | Layout::Stacked => n - 1 == f,
            _ => true,
        };
        tab_groups_upto(ch, n - 1, path, visible, l, f) + tab_bar_groups(
            ch[n - 1],
            path.push((n - 1) as usize),
            visible && shown,
        )
    }
}

} // verus!
