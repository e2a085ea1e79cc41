//! Laws of the container tree: what its commands promise about the windows it holds and
//! about the focus, over one or several calls.
use vstd::prelude::*;
use vstd::multiset::Multiset;

use super::behavior::{
    MAX_TREE_NODES, state_wf, has_room, cleared, insert_window_spec, remove_window_spec,
    ensure_root_container_spec, Cleanup, int_path, focus_window_by_id_spec,
    focused_window_spec, focus_parent_spec, focus_child_spec, focus_in_direction_spec,
    focus_dir_search, focus_root_child_spec, focus_leaf_in_root_child_spec, focus_top_spec,
    focus_bottom_spec, split_focused_spec, set_focused_layout_spec, insert_at_root_spec, column_of,
    take_root_child_spec, move_root_child_spec, MovePlan, move_plan, move_would_panic,
    move_in_direction_spec, swap_kids, insert_leaf_after_spec, insert_leaf_in_column_spec, root_children_len_spec,
    focus_past_end, dir_target, reparent_index, left_behind, unwrap_root, move_into_index,
    leaf_paths_under_spec, root_without, wrap_host, toward_start, axis_layout,
};
use super::cleanup_lemmas::{
    cleanup_wf, lemma_cleanup, lemma_node_at_last, lemma_remove_child_no_empty, lemma_cleanup_no_empty,
    lemma_except_to_no_empty, lemma_except_at, lemma_except_set_at, lemma_except_insert_leaf,
    lemma_no_empty_to_except, lemma_kids_no_empty_all,
};
use super::lemmas::{
    lemma_find_valid, lemma_find_complete, lemma_remove, lemma_upto_prefix, lemma_single, lemma_insert,
    lemma_insert_child, lemma_set_focused, lemma_set_at, lemma_node_at_facts, lemma_remove_child,
    lemma_child_size_any, lemma_set_layout, lemma_split, lemma_update, lemma_node_at_child,
    lemma_set_at_parent, lemma_size_upto_bounds, lemma_no_empty_walks, lemma_no_empty_at,
    lemma_descend_leaf, lemma_node_at_append, lemma_node_at_prefix, lemma_no_empty_set_at,
    lemma_leaf_paths_valid, lemma_kids_no_empty,
};
use super::cleanup_lemmas::lemma_set_at_leaves;
use super::model::{
    Tree, TreeState, node_at, set_at, leaves, leaves_upto, leaves_before, leaves_after, size, size_upto, node_wf,
    no_empty_container, root_leaves, root_find, root_node_at, remove_child, insert_child, set_focused,
    remove_first, wrap, descend, set_layout, focus_from, root_size, leaf_paths, kids_no_empty,
    no_empty_except,
};
use super::order_lemmas::{
    lemma_leaves_around, lemma_leaves_before_child, lemma_find_first, lemma_remove_first_at,
    lemma_leaf_path_index,
    lemma_remove_first_absent,
};

verus! {

/// The root's containers are well formed and the tree fits the node limit.
pub open spec fn root_ok(root: Option<Tree>) -> bool {
    root matches Some(t) ==> node_wf(t) && size(t) <= MAX_TREE_NODES
}

/// Inserting a leaf into a container puts its id among the container's leaves, at the
/// position given by the children before it.
pub proof fn lemma_insert_leaf_order(p: Tree, i: int, id: u64)
    requires
        p is Container,
        0 <= i,
    ensures
        ({
            let n = p.kids().len() as int;
            let j = if i < n {
                i
            } else {
                n
            };
            &&& leaves_upto(p.kids(), j).len() <= leaves(p).len()
            &&& leaves(insert_child(p, i, Tree::Leaf(id))) == leaves(p).insert(leaves_upto(p.kids(), j).len() as int, id)
        }),
{
    let ch = p.kids();
    let n = ch.len() as int;
    let j = if i < n {
        i
    } else {
        n
    };
    lemma_insert(ch, j, Tree::Leaf(id));
    assert(ch.subrange(0, j).subrange(0, j) =~= ch.subrange(0, j));
    assert(ch.subrange(0, j) =~= ch.subrange(0, j));
    lemma_upto_prefix(ch.subrange(0, j), ch, j);
    let a = leaves_upto(ch, j);
    let b = leaves_upto(ch.subrange(j, n), n - j);
    assert(leaves(Tree::Leaf(id)) =~= seq![id]);
    assert(leaves(p) == a + b);
    assert(a + seq![id] + b =~= (a + b).insert(a.len() as int, id));
}

/// A root container with a single child giving way to it keeps the leaves.
proof fn lemma_unwrap_root(root: Option<Tree>)
    ensures
        root_leaves(unwrap_root(root)) == root_leaves(root),
        root_ok(root) ==> root_ok(unwrap_root(root)),
        root_size(unwrap_root(root)) <= root_size(root),
{
    match root {
        Some(Tree::Container(l, ch, f)) => {
            if ch.len() == 1 {
                assert(ch =~= seq![ch[0]]);
                lemma_single(ch[0]);
            }
        },
        _ => {},
    }
}

/// Inserting a window adds one leaf holding it; the other leaves keep their order.
pub proof fn lemma_insert_window_leaves(s: TreeState, id: u64) -> (k: int)
    requires
        state_wf(s),
        has_room(s, 2),
    ensures
        0 <= k <= root_leaves(s.root).len(),
        root_leaves(insert_window_spec(s, id).root) == root_leaves(s.root).insert(k, id),
        root_ok(insert_window_spec(s, id).root),
{
    let s0 = cleared(s);
    match s.root {
        None => {
            assert(seq![id] =~= Seq::<u64>::empty().insert(0, id));
            lemma_single(Tree::Leaf(id));
            assert(size_upto(seq![Tree::Leaf(id)], 0) == 0);
            0
        },
        Some(t0) => {
            let s1 = ensure_root_container_spec(s0);
            let r1 = s1.root.unwrap();
            if t0 is Leaf {
                lemma_single(t0);
                assert(seq![t0] =~= r1.kids());
            }
            assert(leaves(r1) == leaves(t0));
            assert(node_wf(r1) && size(r1) <= size(t0) + 1);
            let f1 = s1.focus;
            let n = r1.kids().len() as int;
            lemma_child_size_any(r1);
            if f1.len() > 0 {
                let pp = f1.drop_last();
                let cur = f1.last();
                match node_at(r1, pp) {
                    Some(p) => if p is Container {
                        let i = cur + 1;
                        let x = insert_child(p, i, Tree::Leaf(id));
                        let y = set_focused(x, i);
                        lemma_insert_leaf_order(p, i, id);
                        lemma_set_focused(x, i);
                        lemma_insert_child(p, i, Tree::Leaf(id));
                        lemma_node_at_facts(r1, pp);
                        lemma_set_at(r1, pp, y);
                        lemma_leaves_around(r1, pp, y);
                        let bf = leaves_before(r1, pp);
                        let af = leaves_after(r1, pp);
                        let j = if i < p.kids().len() {
                            i
                        } else {
                            p.kids().len() as int
                        };
                        let kk = leaves_upto(p.kids(), j).len() as int;
                        assert(bf + leaves(p).insert(kk, id) + af =~= (bf + leaves(p) + af).insert(bf.len() + kk, id));
                        return bf.len() + kk;
                    },
                    None => {},
                }
            }
            let x = insert_child(r1, n, Tree::Leaf(id));
            lemma_insert_leaf_order(r1, n, id);
            lemma_set_focused(x, n);
            lemma_insert_child(r1, n, Tree::Leaf(id));
            leaves_upto(r1.kids(), n).len() as int
        },
    }
}

/// Removing a window drops exactly the first leaf holding it and keeps the order of the
/// others; the window is returned exactly when the tree held it.
#[verifier::spinoff_prover]
pub proof fn law_remove_window_leaves(s: TreeState, id: u64)
    requires
        root_ok(s.root),
    ensures
        root_leaves(remove_window_spec(s, id).0.root) == remove_first(root_leaves(s.root), id),
        remove_window_spec(s, id).1 == (if root_leaves(s.root).contains(id) {
            Some(id)
        } else {
            None::<u64>
        }),
{
    match root_find(s.root, id) {
        None => {
            if root_leaves(s.root).contains(id) {
                lemma_find_complete(s.root.unwrap(), id);
            }
            lemma_remove_first_absent(root_leaves(s.root), id);
        },
        Some(p) => {
            let t = s.root.unwrap();
            lemma_find_valid(t, id);
            lemma_find_first(t, id);
            lemma_leaves_around(t, p, Tree::Leaf(id));
            let bf = leaves_before(t, p);
            let af = leaves_after(t, p);
            assert(leaves(Tree::Leaf(id)) =~= seq![id]);
            lemma_remove_first_at(bf, af, id);
            assert(leaves(t)[bf.len() as int] == id);
            if p.len() > 0 {
                let pp = p.drop_last();
                let li = p.last();
                lemma_node_at_last(t, p);
                let parent = node_at(t, pp).unwrap();
                let ch = parent.kids();
                let n = ch.len() as int;
                assert(pp.push(li) =~= p);
                lemma_leaves_before_child(t, pp, li);
                let y = remove_child(parent, li as int);
                lemma_leaves_around(t, pp, y);
                lemma_remove(ch, li as int);
                assert(ch.subrange(0, li as int).subrange(0, li as int) =~= ch.subrange(0, li as int));
                lemma_upto_prefix(ch.subrange(0, li as int), ch, li as int);
                let a = leaves_upto(ch, li as int);
                let b = leaves_upto(ch.subrange(li + 1, n), n - li - 1);
                assert(leaves_before(t, pp) + (a + b) + leaves_after(t, pp) =~= bf + af);
                lemma_node_at_facts(t, pp);
                lemma_remove_child(parent, li as int);
                lemma_set_at(t, pp, y);
                let g = Cleanup { root: Some(set_at(t, pp, y)), focus: int_path(s.focus), stack: s.stack };
                assert(cleanup_wf(g));
                lemma_cleanup(g, pp);
                lemma_unwrap_root(super::behavior::cleanup(g, pp).root);
            } else {
                assert(bf =~= Seq::<u64>::empty());
                assert(af =~= Seq::<u64>::empty());
                assert(Seq::<u64>::empty() + Seq::<u64>::empty() =~= Seq::<u64>::empty());
            }
        },
    }
}

/// After a window is removed, the focus rests on a window whenever the remaining tree has
/// windows and none of its containers is empty.
pub proof fn law_removal_focuses_a_window(s: TreeState, id: u64)
    requires
        root_ok(s.root),
    ensures
        ({
            let r = remove_window_spec(s, id);
            (r.1 is Some && (r.0.root matches Some(t) && no_empty_container(t))) ==> focused_window_spec(
                r.0,
            ) is Some
        }),
{
    match root_find(s.root, id) {
        None => {},
        Some(p) => {
            let t = s.root.unwrap();
            lemma_find_valid(t, id);
            let r = remove_window_spec(s, id).0;
            if p.len() > 0 {
                let pp = p.drop_last();
                let li = p.last();
                lemma_node_at_last(t, p);
                let parent = node_at(t, pp).unwrap();
                let y = remove_child(parent, li as int);
                lemma_node_at_facts(t, pp);
                lemma_remove_child(parent, li as int);
                lemma_set_at(t, pp, y);
                let g = Cleanup { root: Some(set_at(t, pp, y)), focus: int_path(s.focus), stack: s.stack };
                assert(cleanup_wf(g));
                lemma_cleanup(g, pp);
                lemma_unwrap_root(super::behavior::cleanup(g, pp).root);
            }
            match r.root {
                Some(t2) => {
                    if no_empty_container(t2) {
                        lemma_no_empty_walks(t2);
                    }
                    match focused_window_spec(s) {
                        Some(w) => {
                            if w != id && root_find(r.root, w) is Some {
                                lemma_find_valid(t2, w);
                            }
                        },
                        None => {},
                    }
                },
                None => {},
            }
        },
    }
}

/// Cleaning up the containers along `path` (what `remove_window` and the moves do after
/// taking a window out) keeps the windows in their order and never grows the tree; it only
/// removes containers that are empty when visited, deepest first, and never leaves an empty
/// root container. When at most the node at `path` was empty, no empty container remains.
pub proof fn law_cleanup_containers(s: Cleanup, path: Seq<usize>)
    requires
        cleanup_wf(s),
    ensures
        root_leaves(super::behavior::cleanup(s, path).root) == root_leaves(s.root),
        root_size(super::behavior::cleanup(s, path).root) <= root_size(s.root),
        !(super::behavior::cleanup(s, path).root matches Some(Tree::Container(_, ch, _)) && ch.len() == 0),
        (s.root matches Some(t) && no_empty_except(t, path) && node_at(t, path) is Some) ==> (super::behavior::cleanup(
            s,
            path,
        ).root matches Some(t2) ==> no_empty_container(t2)),
    decreases path.len(),
{
    lemma_cleanup(s, path);
    if s.root matches Some(t) && no_empty_except(t, path) && node_at(t, path) is Some {
        lemma_cleanup_no_empty(s, path);
    }
    if path.len() > 0 {
        let s1 = super::behavior::cleanup_step(s, path.drop_last(), path.last() as int);
        super::cleanup_lemmas::lemma_cleanup_step(s, path.drop_last(), path.last() as int);
        law_cleanup_containers(s1, path.drop_last());
    }
}

/// A removal leaves no empty container behind: a tree without empty containers keeps none,
/// and a window then stays focused whenever windows remain.
pub proof fn law_removal_keeps_containers_non_empty(s: TreeState, id: u64)
    requires
        root_ok(s.root),
        s.root matches Some(t) && no_empty_container(t),
    ensures
        remove_window_spec(s, id).0.root matches Some(t2) ==> no_empty_container(t2),
        remove_window_spec(s, id).1 is Some && remove_window_spec(s, id).0.root is Some
            ==> focused_window_spec(remove_window_spec(s, id).0) is Some,
{
    let t = s.root.unwrap();
    match root_find(s.root, id) {
        None => {},
        Some(p) => {
            lemma_find_valid(t, id);
            if p.len() > 0 {
                let pp = p.drop_last();
                let li = p.last();
                lemma_node_at_last(t, p);
                let parent = node_at(t, pp).unwrap();
                let y = remove_child(parent, li as int);
                lemma_node_at_facts(t, pp);
                lemma_remove_child(parent, li as int);
                lemma_set_at(t, pp, y);
                lemma_remove_child_no_empty(t, pp, li as int);
                let g = Cleanup { root: Some(set_at(t, pp, y)), focus: int_path(s.focus), stack: s.stack };
                lemma_cleanup_no_empty(g, pp);
                let c = super::behavior::cleanup(g, pp);
                match c.root {
                    Some(Tree::Container(_, ch, _)) => {
                        if ch.len() == 1 {
                            lemma_kids_no_empty(ch, 1);
                        }
                    },
                    _ => {},
                }
            }
            law_removal_focuses_a_window(s, id);
        },
    }
}

/// Descending from the node at `p` through focused children ends on a window, when no
/// container is empty.
proof fn lemma_focus_from_lands(t: Tree, p: Seq<usize>)
    requires
        node_wf(t),
        no_empty_container(t),
        node_at(t, p) is Some,
    ensures
        node_at(t, focus_from(Some(t), p)) matches Some(Tree::Leaf(_)),
{
    let n = node_at(t, p).unwrap();
    lemma_node_at_facts(t, p);
    lemma_no_empty_at(t, p);
    lemma_no_empty_walks(n);
    lemma_descend_leaf(n);
    lemma_node_at_append(t, p, descend(n).unwrap());
}

/// Focusing the parent, or returning to a remembered child, ends on a window when no
/// container is empty (for the parent, when the focus names a node to begin with).
pub proof fn law_focus_parent_and_child_land_on_windows(s: TreeState)
    requires
        root_ok(s.root),
        s.root matches Some(t) && no_empty_container(t),
    ensures
        s.focus.len() > 0 && root_node_at(s.root, s.focus) is Some ==> focused_window_spec(
            focus_parent_spec(s).0,
        ) is Some,
        focus_child_spec(s).1 ==> focused_window_spec(focus_child_spec(s).0) is Some,
{
    let t = s.root.unwrap();
    if s.focus.len() > 0 && root_node_at(s.root, s.focus) is Some {
        lemma_node_at_prefix(t, s.focus, s.focus.len() - 1);
        assert(s.focus.subrange(0, s.focus.len() - 1) =~= s.focus.drop_last());
        lemma_focus_from_lands(t, s.focus.drop_last());
    }
    if focus_child_spec(s).1 {
        lemma_focus_from_lands(t, s.stack.last());
    }
}

/// A successful move of the focus in a direction ends on a window when no container is
/// empty and the focus names a node to begin with.
pub proof fn law_focus_in_direction_lands_on_window(s: TreeState, d: super::Direction)
    requires
        root_ok(s.root),
        s.root matches Some(t) && no_empty_container(t),
    ensures
        root_node_at(s.root, s.focus) is Some && focus_in_direction_spec(s, d).1 ==> focused_window_spec(
            focus_in_direction_spec(s, d).0,
        ) is Some,
{
    let r = s.root.unwrap();
    let fp = s.focus;
    if root_node_at(s.root, s.focus) is Some && focus_in_direction_spec(s, d).1 {
        lemma_focus_dir_search(r, fp, d, fp.len() as int);
        let (k, t) = focus_dir_search(r, fp, d, fp.len() as int).unwrap();
        let pp = fp.subrange(0, k);
        let p = node_at(r, pp).unwrap();
        lemma_node_at_prefix(r, fp, k + 1);
        assert(fp.subrange(0, k + 1) =~= pp.push(fp[k]));
        lemma_node_at_append(r, pp, seq![fp[k]]);
        assert(pp + seq![fp[k]] =~= pp.push(fp[k]));
        lemma_node_at_facts(r, pp);
        lemma_no_empty_at(r, pp);
        let p2 = set_focused(p, t as int);
        lemma_set_focused(p, t as int);
        assert(no_empty_container(p2));
        lemma_set_at(r, pp, p2);
        lemma_no_empty_set_at(r, pp, p2);
        let r2 = set_at(r, pp, p2);
        lemma_node_at_child(r2, pp, t);
        lemma_focus_from_lands(r2, pp.push(t));
    }
}

/// Splitting the focused window, or changing the layout around it, keeps the same window
/// focused.
pub proof fn law_layout_changes_keep_focused_window(s: TreeState, layout: super::Layout)
    ensures
        focused_window_spec(split_focused_spec(s, layout).0) == focused_window_spec(s),
        focused_window_spec(set_focused_layout_spec(s, layout).0) == focused_window_spec(s),
{
    match s.root {
        None => {},
        Some(r) => {
            if s.focus.len() == 0 && r is Leaf {
                lemma_node_at_child(wrap(layout, r), Seq::empty(), 0);
                assert(Seq::<usize>::empty().push(0) =~= seq![0usize]);
            }
            if s.focus.len() > 0 {
                let pp = s.focus.drop_last();
                let ci = s.focus.last();
                assert(pp.push(ci) =~= s.focus);
                if node_at(r, s.focus) is Some {
                    lemma_node_at_last(r, s.focus);
                }
                match node_at(r, pp) {
                    Some(Tree::Container(pl, pch, pf)) => {
                        if ci < pch.len() {
                            lemma_node_at_child(r, pp, ci);
                            // Splitting wraps the focused leaf and follows it into the wrapper.
                            let p = Tree::Container(pl, pch, pf);
                            let w = wrap(layout, pch[ci as int]);
                            let p2 = Tree::Container(pl, pch.update(ci as int, w), pf);
                            lemma_set_at(r, pp, p2);
                            let r2 = set_at(r, pp, p2);
                            lemma_node_at_child(r2, pp, ci);
                            lemma_node_at_child(r2, s.focus, 0);
                            // A split container with the leaf alone may change orientation instead.
                            let p3 = Tree::Container(layout, pch, pf);
                            lemma_set_at(r, pp, p3);
                            lemma_node_at_child(set_at(r, pp, p3), pp, ci);
                            // Changing the layout of the parent keeps its children.
                            let q = set_layout(p, layout);
                            lemma_set_at(r, pp, q);
                            lemma_node_at_child(set_at(r, pp, q), pp, ci);
                        }
                    },
                    _ => {},
                }
            }
            match node_at(r, s.focus) {
                Some(n) => {
                    lemma_set_at(r, s.focus, set_layout(n, layout));
                },
                None => {},
            }
        },
    }
}

/// Focusing window `leaf_idx` (counting from one) of root child `child_idx` succeeds exactly
/// when that child exists and holds at least `leaf_idx` windows, and then focuses that window
/// of the child, in depth-first order.
pub proof fn law_focus_leaf_in_root_child(s: TreeState, child_idx: usize, leaf_idx: usize)
    requires
        root_ok(s.root),
    ensures
        focus_leaf_in_root_child_spec(s, child_idx, leaf_idx).1 == (root_node_at(s.root, seq![child_idx]) matches Some(n)
            && 1 <= leaf_idx <= leaves(n).len()),
        focus_leaf_in_root_child_spec(s, child_idx, leaf_idx).1 ==> focused_window_spec(
            focus_leaf_in_root_child_spec(s, child_idx, leaf_idx).0,
        ) == Some(leaves(root_node_at(s.root, seq![child_idx]).unwrap())[leaf_idx - 1]),
{
    match root_node_at(s.root, seq![child_idx]) {
        Some(n) => {
            let t = s.root.unwrap();
            lemma_node_at_facts(t, seq![child_idx]);
            lemma_leaf_paths_valid(n);
            if 1 <= leaf_idx <= leaves(n).len() {
                let q = leaf_paths(n)[leaf_idx - 1];
                lemma_node_at_append(t, seq![child_idx], q);
            }
        },
        None => {},
    }
}

/// Inserting a window that the tree does not hold and removing it again gives back the
/// same windows in the same order.
pub proof fn law_insert_then_remove(s: TreeState, id: u64)
    requires
        state_wf(s),
        has_room(s, 2),
        !root_leaves(s.root).contains(id),
    ensures
        remove_window_spec(insert_window_spec(s, id), id).1 == Some(id),
        root_leaves(remove_window_spec(insert_window_spec(s, id), id).0.root) == root_leaves(s.root),
{
    let k = lemma_insert_window_leaves(s, id);
    let s1 = insert_window_spec(s, id);
    law_remove_window_leaves(s1, id);
    let old = root_leaves(s.root);
    assert(old.insert(k, id)[k] == id);
    assert(old.insert(k, id) =~= old.subrange(0, k) + seq![id] + old.subrange(k, old.len() as int));
    lemma_remove_first_at(old.subrange(0, k), old.subrange(k, old.len() as int), id);
    assert(old.subrange(0, k) + old.subrange(k, old.len() as int) =~= old);
}

/// Focusing a window by id succeeds exactly when the tree holds it, and that window is then
/// the focused one. The tree itself does not change.
pub proof fn law_focus_window_by_id(s: TreeState, id: u64)
    requires
        root_ok(s.root),
    ensures
        focus_window_by_id_spec(s, id).1 == root_leaves(s.root).contains(id),
        focus_window_by_id_spec(s, id).0.root == s.root,
        root_leaves(s.root).contains(id) ==> focused_window_spec(focus_window_by_id_spec(s, id).0) == Some(id),
{
    match root_find(s.root, id) {
        None => {
            if root_leaves(s.root).contains(id) {
                lemma_find_complete(s.root.unwrap(), id);
            }
        },
        Some(p) => {
            let t = s.root.unwrap();
            lemma_find_valid(t, id);
            lemma_leaves_around(t, p, Tree::Leaf(id));
            assert(leaves(Tree::Leaf(id)) =~= seq![id]);
            let bf = leaves_before(t, p);
            assert(leaves(t)[bf.len() as int] == id);
            assert(descend(Tree::Leaf(id)) == Some(Seq::<usize>::empty()));
            assert(p + Seq::<usize>::empty() =~= p);
        },
    }
}

/// Stepping to the parent of a focused leaf and back to the child restores the focus and
/// the focus history.
pub proof fn law_focus_parent_then_child(s: TreeState)
    requires
        s.focus.len() > 0,
        root_node_at(s.root, s.focus) matches Some(Tree::Leaf(_)),
    ensures
        focus_parent_spec(s).1,
        focus_child_spec(focus_parent_spec(s).0).1,
        focus_child_spec(focus_parent_spec(s).0).0 == s,
{
    let s1 = focus_parent_spec(s).0;
    assert(s1.stack.last() == s.focus);
    assert(s1.stack.drop_last() =~= s.stack);
    assert(descend(root_node_at(s.root, s.focus).unwrap()) == Some(Seq::<usize>::empty()));
    assert(s.focus + Seq::<usize>::empty() =~= s.focus);
}

/// A newly inserted window takes the focus, unless the focused index was already past the
/// last child of its container: the new window then goes to the end of that container and
/// the focus stays past it.
pub proof fn law_inserted_window_is_focused(s: TreeState, id: u64)
    requires
        state_wf(s),
        !focus_past_end(s),
    ensures
        focused_window_spec(insert_window_spec(s, id)) == Some(id),
{
    let s0 = cleared(s);
    match s.root {
        None => {
            match s.pending {
                Some(l) => {
                    lemma_node_at_child(wrap(l, Tree::Leaf(id)), Seq::empty(), 0);
                    assert(Seq::<usize>::empty().push(0) =~= seq![0usize]);
                },
                None => {},
            }
        },
        Some(r) => {
            let s1 = ensure_root_container_spec(s0);
            let r1 = s1.root.unwrap();
            let f1 = s1.focus;
            if r is Leaf {
                assert(r1.kids() =~= seq![r]);
                assert(size_upto(r1.kids(), 0) == 0);
                assert(size(r1) == 1 + size(r));
            }
            assert(size(r1) <= MAX_TREE_NODES + 1);
            lemma_size_upto_bounds(r1.kids(), r1.kids().len() as int);
            if f1.len() == 0 {
                let n = r1.kids().len();
                let r2 = set_focused(insert_child(r1, n as int, Tree::Leaf(id)), n as int);
                lemma_insert_child(r1, n as int, Tree::Leaf(id));
                lemma_node_at_child(r2, Seq::empty(), n as usize);
                assert(Seq::<usize>::empty().push(n as usize) =~= seq![n as usize]);
            } else {
                let pp = f1.drop_last();
                let cur = f1.last();
                match node_at(r1, pp) {
                    Some(p) => {
                        if p is Container {
                            if r is Leaf {
                                assert(pp =~= Seq::<usize>::empty());
                            }
                            lemma_node_at_facts(r1, pp);
                            lemma_size_upto_bounds(p.kids(), p.kids().len() as int);
                            let i = cur + 1;
                            let p2 = set_focused(insert_child(p, i, Tree::Leaf(id)), i);
                            let r2 = set_at(r1, pp, p2);
                            let f2 = pp.push(i as usize);
                            lemma_insert_child(p, i, Tree::Leaf(id));
                            assert(insert_child(p, i, Tree::Leaf(id)).kids()[i] == Tree::Leaf(id));
                            lemma_set_at(r1, pp, p2);
                            lemma_node_at_child(r2, pp, i as usize);
                            assert(f2 + Seq::<usize>::empty() =~= f2);
                        } else {
                            let n = r1.kids().len();
                            let r2 = set_focused(insert_child(r1, n as int, Tree::Leaf(id)), n as int);
                            lemma_insert_child(r1, n as int, Tree::Leaf(id));
                            lemma_node_at_child(r2, Seq::empty(), n as usize);
                            assert(Seq::<usize>::empty().push(n as usize) =~= seq![n as usize]);
                        }
                    },
                    None => {
                        let n = r1.kids().len();
                        let r2 = set_focused(insert_child(r1, n as int, Tree::Leaf(id)), n as int);
                        lemma_insert_child(r1, n as int, Tree::Leaf(id));
                        lemma_node_at_child(r2, Seq::empty(), n as usize);
                        assert(Seq::<usize>::empty().push(n as usize) =~= seq![n as usize]);
                    },
                }
            }
        },
    }
}

/// Inserting a window adds exactly one leaf holding it; the other leaves keep their order.
pub proof fn law_insert_window_leaves(s: TreeState, id: u64)
    requires
        state_wf(s),
        has_room(s, 2),
    ensures
        exists|k: int|
            0 <= k <= root_leaves(s.root).len() && root_leaves(insert_window_spec(s, id).root) == root_leaves(
                s.root,
            ).insert(k, id),
{
    let k = lemma_insert_window_leaves(s, id);
}

/// `find_window` finds exactly the windows the tree holds; the path it returns leads to the
/// leaf holding the window, and it is the first leaf path (depth-first, as `leaf_paths_under`
/// lists them) whose leaf holds it.
pub proof fn law_find_window(s: TreeState, id: u64)
    requires
        root_ok(s.root),
    ensures
        root_find(s.root, id) is Some <==> root_leaves(s.root).contains(id),
        root_find(s.root, id) matches Some(p) ==> root_node_at(s.root, p) == Some(Tree::Leaf(id)),
        root_find(s.root, id) matches Some(p) ==> ({
            let k = leaves_before(s.root.unwrap(), p).len() as int;
            &&& root_leaves(s.root)[k] == id
            &&& !root_leaves(s.root).subrange(0, k).contains(id)
        }),
        root_find(s.root, id) matches Some(p) ==> ({
            let k = leaves_before(s.root.unwrap(), p).len() as int;
            let paths = leaf_paths_under_spec(s.root, Seq::empty());
            &&& k < paths.len()
            &&& paths[k] == p
            &&& forall|j: int| 0 <= j < k ==> root_node_at(s.root, #[trigger] paths[j]) != Some(Tree::Leaf(id))
        }),
{
    match root_find(s.root, id) {
        None => {
            if root_leaves(s.root).contains(id) {
                lemma_find_complete(s.root.unwrap(), id);
            }
        },
        Some(p) => {
            let t = s.root.unwrap();
            lemma_find_valid(t, id);
            lemma_find_first(t, id);
            lemma_leaves_around(t, p, Tree::Leaf(id));
            assert(leaves(Tree::Leaf(id)) =~= seq![id]);
            let bf = leaves_before(t, p);
            assert(leaves(t)[bf.len() as int] == id);
            assert(leaves(t).subrange(0, bf.len() as int) =~= bf);
            law_window_counts(s);
            lemma_leaf_path_index(t, p);
            let k = bf.len() as int;
            let paths = leaf_paths_under_spec(s.root, Seq::empty());
            assert(Seq::<usize>::empty() + leaf_paths(t)[k] =~= p);
            assert forall|j: int| 0 <= j < k implies root_node_at(s.root, #[trigger] paths[j]) != Some(
                Tree::Leaf(id),
            ) by {
                assert(leaves(t).subrange(0, k)[j] == leaves(t)[j]);
            }
        },
    }
}

/// There are as many leaf paths as windows: `window_count`, `all_windows`, `all_tiles` and
/// `leaf_paths_under` of the root agree, and the k-th leaf path leads to the k-th window.
pub proof fn law_window_counts(s: TreeState)
    requires
        root_ok(s.root),
    ensures
        leaf_paths_under_spec(s.root, Seq::empty()).len() == root_leaves(s.root).len(),
        forall|k: int|
            0 <= k < root_leaves(s.root).len() ==> root_node_at(
                s.root,
                #[trigger] leaf_paths_under_spec(s.root, Seq::empty())[k],
            ) == Some(Tree::Leaf(root_leaves(s.root)[k])),
{
    match s.root {
        Some(t) => {
            lemma_leaf_paths_valid(t);
            assert forall|k: int| 0 <= k < root_leaves(s.root).len() implies root_node_at(
                s.root,
                #[trigger] leaf_paths_under_spec(s.root, Seq::empty())[k],
            ) == Some(Tree::Leaf(root_leaves(s.root)[k])) by {
                assert(Seq::<usize>::empty() + leaf_paths(t)[k] =~= leaf_paths(t)[k]);
            }
        },
        None => {},
    }
}

/// The level `focus_dir_search` picks is a container on the focus path.
proof fn lemma_focus_dir_search(r: Tree, fp: Seq<usize>, d: super::Direction, depth: int)
    requires
        depth <= fp.len(),
    ensures
        focus_dir_search(r, fp, d, depth) matches Some((k, t)) ==> (0 <= k < depth && (node_at(
            r,
            fp.subrange(0, k),
        ) matches Some(Tree::Container(_, ch, _)) && dir_target(fp[k], ch.len(), d) == Some(t))),
    decreases depth,
{
    if depth > 0 {
        lemma_focus_dir_search(r, fp, d, depth - 1);
    }
}

/// Moving the focus never moves a window: the leaves stay as they are.
pub proof fn law_focus_keeps_leaves(s: TreeState, d: super::Direction, idx: usize, leaf_idx: usize)
    ensures
        root_leaves(focus_in_direction_spec(s, d).0.root) == root_leaves(s.root),
        focus_parent_spec(s).0.root == s.root,
        focus_child_spec(s).0.root == s.root,
        focus_root_child_spec(s, idx).0.root == s.root,
        focus_leaf_in_root_child_spec(s, idx, leaf_idx).0.root == s.root,
        focus_top_spec(s).0.root == s.root,
        focus_bottom_spec(s).0.root == s.root,
{
    match s.root {
        Some(r) => {
            lemma_focus_dir_search(r, s.focus, d, s.focus.len() as int);
            match focus_dir_search(r, s.focus, d, s.focus.len() as int) {
                Some((k, t)) => {
                    let pp = s.focus.subrange(0, k);
                    let p = node_at(r, pp).unwrap();
                    lemma_set_focused(p, t as int);
                    lemma_set_at_leaves(r, pp, set_focused(p, t as int));
                },
                None => {},
            }
        },
        None => {},
    }
}

/// Splitting and changing layouts never reorder, add or drop windows.
pub proof fn law_layout_changes_keep_leaves(s: TreeState, layout: super::Layout)
    ensures
        root_leaves(split_focused_spec(s, layout).0.root) == root_leaves(s.root),
        root_leaves(set_focused_layout_spec(s, layout).0.root) == root_leaves(s.root),
{
    match s.root {
        Some(r) => {
            if r is Leaf {
                lemma_single(r);
            }
            if s.focus.len() > 0 {
                let pp = s.focus.drop_last();
                let ci = s.focus.last() as int;
                match node_at(r, pp) {
                    Some(Tree::Container(pl, pch, pf)) => {
                        if ci < pch.len() {
                            let p = Tree::Container(pl, pch, pf);
                            let w = wrap(layout, pch[ci]);
                            lemma_single(pch[ci]);
                            lemma_update(pch, ci, w);
                            lemma_split(pch, ci);
                            lemma_set_at_leaves(r, pp, Tree::Container(pl, pch.update(ci, w), pf));
                        }
                        lemma_set_layout(node_at(r, pp).unwrap(), layout);
                        lemma_set_at_leaves(r, pp, set_layout(node_at(r, pp).unwrap(), layout));
                    },
                    _ => {},
                }
            }
            match node_at(r, s.focus) {
                Some(n) => {
                    lemma_set_layout(n, layout);
                    lemma_set_at_leaves(r, s.focus, set_layout(n, layout));
                },
                None => {},
            }
        },
        None => {},
    }
}

/// The windows of a column made of `ids` are `ids`, in order.
proof fn lemma_column_leaves(ids: Seq<u64>)
    ensures
        leaves(column_of(ids)) == ids,
{
    lemma_column_prefix(ids, ids.len() as int);
    assert(ids.subrange(0, ids.len() as int) =~= ids);
}

/// `insert_tiles_at_root` puts the given windows among the others as one consecutive
/// block, in the order given, and keeps the order of the others.
pub proof fn law_insert_tiles_at_root(s: TreeState, index: usize, ids: Seq<u64>, focus: bool)
    ensures
        ({
            let new = if ids.len() == 0 {
                s
            } else if ids.len() == 1 {
                insert_at_root_spec(s, index, Tree::Leaf(ids[0]), focus)
            } else {
                insert_at_root_spec(s, index, column_of(ids), focus)
            };
            let old = root_leaves(s.root);
            exists|k: int|
                0 <= k <= old.len() && root_leaves(new.root) == old.subrange(0, k) + ids
                    + old.subrange(k, old.len() as int)
        }),
{
    let old = root_leaves(s.root);
    if ids.len() == 0 {
        assert(old =~= old.subrange(0, 0) + ids + old.subrange(0, old.len() as int));
    } else if ids.len() == 1 {
        law_insert_at_root_leaves(s, index, Tree::Leaf(ids[0]), focus);
        assert(leaves(Tree::Leaf(ids[0])) =~= ids);
    } else {
        law_insert_at_root_leaves(s, index, column_of(ids), focus);
        lemma_column_leaves(ids);
    }
}

proof fn lemma_column_prefix(ids: Seq<u64>, n: int)
    requires
        0 <= n <= ids.len(),
    ensures
        leaves_upto(column_of(ids).kids(), n) == ids.subrange(0, n),
    decreases n,
{
    if n == 0 {
        assert(ids.subrange(0, 0) =~= Seq::<u64>::empty());
    } else {
        lemma_column_prefix(ids, n - 1);
        assert(leaves(Tree::Leaf(ids[n - 1])) =~= seq![ids[n - 1]]);
        assert(ids.subrange(0, n - 1) + seq![ids[n - 1]] =~= ids.subrange(0, n));
    }
}

/// Every insertion at the root (`insert_leaf_at`, `append_leaf`, `insert_tiles_at_root`,
/// `insert_subtree_at_root`) puts the new node's windows together among the others, which
/// keep their order.
pub proof fn law_insert_at_root_leaves(s: TreeState, index: usize, x: Tree, focus: bool)
    ensures
        exists|k: int|
            0 <= k <= root_leaves(s.root).len() && root_leaves(insert_at_root_spec(s, index, x, focus).root)
                == root_leaves(s.root).subrange(0, k) + leaves(x) + root_leaves(s.root).subrange(
                k,
                root_leaves(s.root).len() as int,
            ),
{
    let s1 = ensure_root_container_spec(s);
    let r1 = s1.root.unwrap();
    match s.root {
        Some(t0) => {
            if t0 is Leaf {
                lemma_single(t0);
                assert(seq![t0] =~= r1.kids());
            }
        },
        None => {
            assert(r1.kids() =~= Seq::<Tree>::empty());
        },
    }
    let old = root_leaves(s.root);
    assert(leaves(r1) == old);
    let ch = r1.kids();
    let n = ch.len() as int;
    let idx: int = if index < n {
        index as int
    } else {
        n
    };
    lemma_insert(ch, idx, x);
    assert(ch.subrange(0, idx).subrange(0, idx) =~= ch.subrange(0, idx));
    lemma_upto_prefix(ch.subrange(0, idx), ch, idx);
    let a = leaves_upto(ch, idx);
    let b = leaves_upto(ch.subrange(idx, n), n - idx);
    let c1 = insert_child(r1, idx, x);
    lemma_set_focused(c1, idx);
    lemma_set_focused(c1, r1.focused() + 1);
    assert(old == a + b);
    assert(old.subrange(0, a.len() as int) =~= a);
    assert(old.subrange(a.len() as int, old.len() as int) =~= b);
}

/// Taking a root child splits the windows into those of the child taken out and the rest,
/// which keep their order: the windows before it and after it are returned.
pub proof fn law_take_root_child(s: TreeState, idx: usize) -> (parts: (Seq<u64>, Seq<u64>))
    ensures
        match take_root_child_spec(s, idx).1 {
            Some(t) => root_leaves(s.root) == parts.0 + leaves(t) + parts.1 && root_leaves(
                take_root_child_spec(s, idx).0.root,
            ) == parts.0 + parts.1,
            None => take_root_child_spec(s, idx).0 == s,
        },
{
    let e = Seq::<u64>::empty();
    match s.root {
        Some(Tree::Leaf(x)) => {
            assert(root_leaves(s.root) =~= e + leaves(Tree::Leaf(x)) + e);
            assert(e + e =~= e);
            (e, e)
        },
        Some(Tree::Container(l, ch, f)) => {
            if idx < ch.len() {
                let n = ch.len() as int;
                let i = idx as int;
                lemma_remove(ch, i);
                lemma_split(ch, i);
                let a = leaves_upto(ch.subrange(0, i), i);
                let b = leaves_upto(ch.subrange(i + 1, n), n - i - 1);
                let r1 = remove_child(Tree::Container(l, ch, f), i);
                lemma_set_focused(r1, if i < n - 2 { i } else { n - 2 });
                if n == 1 {
                    assert(a + b =~= Seq::<u64>::empty());
                }
                (a, b)
            } else {
                (e, e)
            }
        },
        None => (e, e),
    }
}

/// Taking a root child out and inserting it back at the same index gives back the same
/// windows in the same order, and the subtree, layouts included, is root child `idx` again.
pub proof fn law_take_then_reinsert(s: TreeState, idx: usize, focus: bool)
    ensures
        take_root_child_spec(s, idx).1 matches Some(t) ==> root_leaves(
            insert_at_root_spec(take_root_child_spec(s, idx).0, idx, t, focus).root,
        ) == root_leaves(s.root),
        take_root_child_spec(s, idx).1 matches Some(t) ==> (insert_at_root_spec(
            take_root_child_spec(s, idx).0,
            idx,
            t,
            focus,
        ).root matches Some(Tree::Container(_, ch, _)) && idx < ch.len() && ch[idx as int] == t),
{
    match take_root_child_spec(s, idx).1 {
        None => {},
        Some(t) => {
            let s1 = take_root_child_spec(s, idx).0;
            let r1 = ensure_root_container_spec(s1).root.unwrap();
            let c1 = insert_child(r1, idx as int, t);
            match s.root {
                Some(Tree::Leaf(x)) => {
                    assert(c1.kids() =~= seq![t]);
                    lemma_single(t);
                },
                Some(Tree::Container(l, ch, f)) => {
                    let n = ch.len();
                    if n == 1 {
                        assert(c1.kids() =~= seq![t]);
                        lemma_single(t);
                        assert(ch =~= seq![t]);
                    } else {
                        assert(c1.kids() =~= ch);
                    }
                    lemma_set_focused(c1, idx as int);
                    lemma_set_focused(c1, r1.focused() + 1);
                },
                None => {},
            }
        },
    }
}

/// Moving a root child from `from` to `to` and back gives back the same root children,
/// hence the same windows in the same order.
pub proof fn law_move_root_child_round_trip(s: TreeState, from: usize, to: usize)
    ensures
        move_root_child_spec(s, from, to).1 ==> ({
            let back = move_root_child_spec(move_root_child_spec(s, from, to).0, to, from);
            &&& back.1
            &&& back.0.root.unwrap().kids() == s.root.unwrap().kids()
            &&& root_leaves(back.0.root) == root_leaves(s.root)
        }),
{
    if move_root_child_spec(s, from, to).1 {
        let ch = s.root.unwrap().kids();
        let ch2 = ch.remove(from as int).insert(to as int, ch[from as int]);
        assert(ch2[to as int] == ch[from as int]);
        assert(ch2.remove(to as int) =~= ch.remove(from as int));
        assert(ch2.remove(to as int).insert(from as int, ch2[to as int]) =~= ch);
    }
}

/// Moving a root child to another position keeps the same windows.
pub proof fn law_move_root_child_windows(s: TreeState, from: usize, to: usize)
    ensures
        root_leaves(move_root_child_spec(s, from, to).0.root).to_multiset() == root_leaves(s.root).to_multiset(),
{
    broadcast use vstd::seq_lib::group_to_multiset_ensures;
    broadcast use vstd::seq_lib::lemma_multiset_commutative;

    match s.root {
        Some(Tree::Container(l, ch, f)) => {
            if from < ch.len() && to < ch.len() {
                let n = ch.len() as int;
                let i = from as int;
                let x = ch[i];
                let rem = ch.remove(i);
                lemma_remove(ch, i);
                lemma_split(ch, i);
                lemma_insert(rem, to as int, x);
                let a = leaves_upto(ch.subrange(0, i), i);
                let b = leaves_upto(ch.subrange(i + 1, n), n - i - 1);
                let c = leaves_upto(rem.subrange(0, to as int), to as int);
                let d = leaves_upto(rem.subrange(to as int, n - 1), n - 1 - to);
                let ch2 = rem.insert(to as int, x);
                let y = Tree::Container(l, ch2, f);
                let f1 = if s.focus.len() > 0 {
                    s.focus.update(0, super::behavior::shifted_index(s.focus[0], from, to))
                } else {
                    seq![if f < ch.len() { f } else { (ch.len() - 1) as usize }]
                };
                lemma_set_focused(y, f1[0] as int);
                assert(leaves(y) == c + leaves(x) + d);
                assert(c + d == a + b);
                assert((c + leaves(x) + d).to_multiset() =~= (c + d).to_multiset().add(leaves(x).to_multiset()));
                assert((a + leaves(x) + b).to_multiset() =~= (a + b).to_multiset().add(leaves(x).to_multiset()));
            }
        },
        _ => {},
    }
}

/// Removing the leaf at `p` from its container leaves the other leaves in order.
pub proof fn lemma_remove_leaf_leaves(t: Tree, p: Seq<usize>, id: u64)
    requires
        node_at(t, p) == Some(Tree::Leaf(id)),
        p.len() > 0,
        node_wf(t),
        size(t) <= MAX_TREE_NODES,
    ensures
        ({
            let pp = p.drop_last();
            let r1 = set_at(t, pp, remove_child(node_at(t, pp).unwrap(), p.last() as int));
            &&& leaves(t) == leaves_before(t, p) + seq![id] + leaves_after(t, p)
            &&& leaves(r1) == leaves_before(t, p) + leaves_after(t, p)
            &&& node_wf(r1)
            &&& size(r1) < size(t)
        }),
{
    let pp = p.drop_last();
    let li = p.last();
    lemma_leaves_around(t, p, Tree::Leaf(id));
    assert(leaves(Tree::Leaf(id)) =~= seq![id]);
    lemma_node_at_last(t, p);
    let parent = node_at(t, pp).unwrap();
    let ch = parent.kids();
    let n = ch.len() as int;
    assert(pp.push(li) =~= p);
    lemma_leaves_before_child(t, pp, li);
    let y = remove_child(parent, li as int);
    lemma_leaves_around(t, pp, y);
    lemma_remove(ch, li as int);
    assert(ch.subrange(0, li as int).subrange(0, li as int) =~= ch.subrange(0, li as int));
    lemma_upto_prefix(ch.subrange(0, li as int), ch, li as int);
    let a = leaves_upto(ch, li as int);
    let b = leaves_upto(ch.subrange(li + 1, n), n - li - 1);
    assert(leaves_before(t, pp) + (a + b) + leaves_after(t, pp) =~= leaves_before(t, p) + leaves_after(t, p));
    lemma_node_at_facts(t, pp);
    lemma_remove_child(parent, li as int);
    lemma_set_at(t, pp, y);
}

/// Inserting a leaf into the container at `q` inserts its id among the tree's leaves.
pub proof fn lemma_insert_leaf_into(r1: Tree, q: Seq<usize>, target: Tree, idx: int, id: u64) -> (k: int)
    requires
        node_at(r1, q) == Some(target),
        target is Container,
        0 <= idx,
        node_wf(r1),
    ensures
        0 <= k <= leaves(r1).len(),
        leaves(set_at(r1, q, set_focused(insert_child(target, idx, Tree::Leaf(id)), idx))) == leaves(r1).insert(
            k,
            id,
        ),
        node_wf(set_at(r1, q, set_focused(insert_child(target, idx, Tree::Leaf(id)), idx))),
        size(set_at(r1, q, set_focused(insert_child(target, idx, Tree::Leaf(id)), idx))) == size(r1) + 1,
{
    let x = insert_child(target, idx, Tree::Leaf(id));
    let y = set_focused(x, idx);
    lemma_insert_leaf_order(target, idx, id);
    lemma_set_focused(x, idx);
    lemma_insert_child(target, idx, Tree::Leaf(id));
    lemma_node_at_facts(r1, q);
    lemma_set_at(r1, q, y);
    lemma_leaves_around(r1, q, y);
    let bf = leaves_before(r1, q);
    let af = leaves_after(r1, q);
    let n = target.kids().len() as int;
    let j = if idx < n {
        idx
    } else {
        n
    };
    let kk = leaves_upto(target.kids(), j).len() as int;
    assert(bf + leaves(target).insert(kk, id) + af =~= (bf + leaves(target) + af).insert(bf.len() + kk, id));
    bf.len() + kk
}

/// Replacing child `i` changes the windows of the children by the windows of the two nodes.
proof fn lemma_update_windows(ch: Seq<Tree>, i: int, x: Tree)
    requires
        0 <= i < ch.len(),
    ensures
        leaves_upto(ch.update(i, x), ch.len() as int).to_multiset().add(leaves(ch[i]).to_multiset())
            =~= leaves_upto(ch, ch.len() as int).to_multiset().add(leaves(x).to_multiset()),
{
    broadcast use vstd::seq_lib::lemma_multiset_commutative;
    broadcast use vstd::multiset::group_multiset_axioms;

    lemma_update(ch, i, x);
    lemma_split(ch, i);
}

proof fn lemma_multiset_cancel(a: Multiset<u64>, b: Multiset<u64>, c: Multiset<u64>)
    requires
        a.add(c) =~= b.add(c),
    ensures
        a =~= b,
{
    broadcast use vstd::multiset::group_multiset_axioms;

    assert forall|v: u64| a.count(v) == b.count(v) by {
        assert(a.add(c).count(v) == b.add(c).count(v));
    }
}

/// Swapping two children keeps the windows of the children.
proof fn lemma_swap_windows(ch: Seq<Tree>, i: int, j: int)
    requires
        0 <= i < ch.len(),
        0 <= j < ch.len(),
        i != j,
    ensures
        leaves_upto(swap_kids(ch, i, j), ch.len() as int).to_multiset() =~= leaves_upto(ch, ch.len() as int).to_multiset(),
{
    broadcast use vstd::multiset::group_multiset_axioms;

    let u = ch.update(i, ch[j]);
    lemma_update_windows(ch, i, ch[j]);
    lemma_update_windows(u, j, ch[i]);
    assert(u[j] == ch[j]);
    let mw = leaves_upto(swap_kids(ch, i, j), ch.len() as int).to_multiset();
    let mu = leaves_upto(u, ch.len() as int).to_multiset();
    let mc = leaves_upto(ch, ch.len() as int).to_multiset();
    let li = leaves(ch[i]).to_multiset();
    let lj = leaves(ch[j]).to_multiset();
    assert(mw.add(lj) =~= mu.add(li));
    assert(mu.add(li) =~= mc.add(lj));
    lemma_multiset_cancel(mw, mc, lj);
}

/// A leaf taken out and put back elsewhere: the same windows.
proof fn lemma_reinsert_windows(bf: Seq<u64>, af: Seq<u64>, k: int, id: u64)
    requires
        0 <= k <= (bf + af).len(),
    ensures
        (bf + af).insert(k, id).to_multiset() =~= (bf + seq![id] + af).to_multiset(),
{
    broadcast use vstd::seq_lib::group_to_multiset_ensures;

    assert(bf + seq![id] + af =~= (bf + af).insert(bf.len() as int, id));
}

/// Moving the leaf at the focus into `target_path`'s container and cleaning up keeps the
/// windows.
proof fn lemma_move_leaf_windows(s: TreeState, r1: Tree, q: Seq<usize>, target: Tree, idx: int, id: u64, cp: Seq<usize>)
    requires
        state_wf(s),
        s.root matches Some(r) && node_at(r, s.focus) == Some(Tree::Leaf(id)) && s.focus.len() > 0 && r1
            == set_at(r, s.focus.drop_last(), remove_child(node_at(r, s.focus.drop_last()).unwrap(), s.focus.last() as int)),
        node_at(r1, q) == Some(target),
        target is Container,
        0 <= idx,
    ensures
        ({
            let r2 = set_at(r1, q, set_focused(insert_child(target, idx, Tree::Leaf(id)), idx));
            let c = super::behavior::cleanup(
                Cleanup { root: Some(r2), focus: int_path(s.focus), stack: Seq::empty() },
                cp,
            );
            &&& root_leaves(c.root).to_multiset() == root_leaves(s.root).to_multiset()
            &&& root_size(c.root) <= root_size(s.root)
        }),
{
    let r = s.root.unwrap();
    let pp = s.focus.drop_last();
    let p = node_at(r, pp).unwrap();
    lemma_node_at_last(r, s.focus);
    lemma_remove_child(p, s.focus.last() as int);
    lemma_set_at(r, pp, remove_child(p, s.focus.last() as int));
    lemma_remove_leaf_leaves(r, s.focus, id);
    let k = lemma_insert_leaf_into(r1, q, target, idx, id);
    let r2 = set_at(r1, q, set_focused(insert_child(target, idx, Tree::Leaf(id)), idx));
    let g = Cleanup { root: Some(r2), focus: int_path(s.focus), stack: Seq::empty() };
    assert(cleanup_wf(g));
    lemma_cleanup(g, cp);
    lemma_reinsert_windows(leaves_before(r, s.focus), leaves_after(r, s.focus), k, id);
}

/// What moving root child `li` out across the root's axis builds: a well-formed tree at most
/// one node larger, holding the moved child at its new index and the other windows in their
/// order, before (left, up) or after (right, down) it.
#[verifier::rlimit(30)]
pub(crate) proof fn lemma_wrap_root(r: Tree, li: int, d: super::Direction)
    requires
        r is Container,
        node_wf(r),
        0 <= li < r.kids().len(),
        r.kids().len() >= 2,
        size(r) < MAX_TREE_NODES,
    ensures
        ({
            let x = r.kids()[li];
            let host = wrap_host(root_without(r, li), d);
            let k = if toward_start(d) { 0 } else { host.kids().len() as int };
            let root = set_focused(insert_child(host, k, x), k);
            let rest = leaves_upto(r.kids().subrange(0, li), li) + leaves_upto(
                r.kids().subrange(li + 1, r.kids().len() as int),
                r.kids().len() - li - 1,
            );
            &&& node_wf(root)
            &&& size(root) <= size(r) + 1
            &&& 0 <= k < root.kids().len()
            &&& k < size(root)
            &&& root.kids()[k] == x
            &&& root.focused() == k
            &&& root is Container
            &&& leaves(r) == leaves_upto(r.kids().subrange(0, li), li) + leaves(x) + leaves_upto(
                r.kids().subrange(li + 1, r.kids().len() as int),
                r.kids().len() - li - 1,
            )
            &&& leaves(root) == if toward_start(d) { leaves(x) + rest } else { rest + leaves(x) }
            &&& no_empty_container(r) ==> no_empty_container(root)
        }),
{
    let ch = r.kids();
    let x = ch[li];
    let rm = remove_child(r, li);
    lemma_remove_child(r, li);
    lemma_remove(ch, li);
    lemma_split(ch, li);
    let rest_t = root_without(r, li);
    let rest = leaves_upto(ch.subrange(0, li), li) + leaves_upto(ch.subrange(li + 1, ch.len() as int), ch.len() - li - 1);
    assert(leaves(rm) == rest);
    if no_empty_container(r) {
        lemma_kids_no_empty(ch, ch.len() as int);
        assert forall|m: int| 0 <= m < rm.kids().len() implies no_empty_container(#[trigger] rm.kids()[m]) by {
            if m < li {
                assert(rm.kids()[m] == ch[m]);
            } else {
                assert(rm.kids()[m] == ch[m + 1]);
            }
        }
        lemma_kids_no_empty_all(rm.kids(), rm.kids().len() as int);
    }
    if rm.kids().len() == 1 {
        assert(rest_t == rm.kids()[0]);
        lemma_child_size_any(rm);
        lemma_single(rm.kids()[0]);
        assert(rm.kids() =~= seq![rm.kids()[0]]);
        if no_empty_container(r) {
            lemma_kids_no_empty(rm.kids(), 1);
        }
    } else {
        assert(rest_t == rm);
    }
    assert(leaves(rest_t) == rest);
    assert(node_wf(rest_t));
    assert(size(rest_t) <= size(rm));
    let host = wrap_host(rest_t, d);
    if !(rest_t is Container && rest_t.layout() == axis_layout(d)) {
        lemma_single(rest_t);
        assert(host.kids() =~= seq![rest_t]);
        if no_empty_container(r) {
            lemma_kids_no_empty_all(host.kids(), 1);
        }
    }
    assert(node_wf(host));
    assert(size(host) <= size(rest_t) + 1);
    assert(leaves(host) == rest);
    assert(no_empty_container(r) ==> no_empty_container(host));
    let k = if toward_start(d) { 0 } else { host.kids().len() as int };
    lemma_insert_child(host, k, x);
    lemma_insert(host.kids(), k, x);
    let ins = insert_child(host, k, x);
    assert(host is Container);
    assert(ins is Container);
    assert(ins.kids() == host.kids().insert(k, x));
    lemma_set_focused(ins, k);
    let root = set_focused(ins, k);
    lemma_child_size_any(r);
    lemma_child_size_any(ins);
    assert(k < size(ins));
    assert(root == Tree::Container(ins.layout(), ins.kids(), k as usize));
    if toward_start(d) {
        assert(host.kids().subrange(0, 0) =~= Seq::<Tree>::empty());
        assert(host.kids().subrange(0, host.kids().len() as int) =~= host.kids());
        assert(leaves_upto(host.kids().subrange(0, 0), 0) =~= Seq::<u64>::empty());
        assert(leaves(root) =~= leaves(x) + rest);
    } else {
        assert(host.kids().subrange(0, k) =~= host.kids());
        assert(host.kids().subrange(k, host.kids().len() as int) =~= Seq::<Tree>::empty());
        assert(leaves(root) =~= rest + leaves(x));
    }
    assert(root.kids() == host.kids().insert(k, x));
    assert(root.kids()[k] == x);
    if no_empty_container(r) {
        assert(no_empty_container(x));
        lemma_kids_no_empty(host.kids(), host.kids().len() as int);
        lemma_no_empty_kids_edit(host.kids(), 0, 0, k, x);
        assert(no_empty_container(root));
    }
    assert(node_wf(root));
    assert(size(root) <= size(r) + 1);
    assert(0 <= k < root.kids().len());
    assert(root.focused() == k);
    assert(leaves(r) == leaves_upto(ch.subrange(0, li), li) + leaves(x) + leaves_upto(ch.subrange(li + 1, ch.len() as int), ch.len() - li - 1));
}

/// Moving a window in any direction keeps the same windows in the tree and never makes the
/// tree larger, but for the one container that a move out of the root may add.
#[verifier::spinoff_prover]
pub proof fn law_move_in_direction_windows(s: TreeState, d: super::Direction)
    requires
        state_wf(s),
        !move_would_panic(s, d),
    ensures
        root_leaves(move_in_direction_spec(s, d).0.root).to_multiset() == root_leaves(s.root).to_multiset(),
        move_plan(s, d) !is WrapRoot ==> root_size(move_in_direction_spec(s, d).0.root) <= root_size(s.root),
        root_size(move_in_direction_spec(s, d).0.root) <= root_size(s.root) + 1,
{
    broadcast use vstd::seq_lib::lemma_multiset_commutative;
    broadcast use vstd::multiset::group_multiset_axioms;

    let s0 = cleared(s);
    match move_plan(s, d) {
        MovePlan::Fail => {},
        MovePlan::Swap(t) => {
            let r = s.root.unwrap();
            let pp = s.focus.drop_last();
            let li = s.focus.last();
            let p = node_at(r, pp).unwrap();
            let pch = p.kids();
            assert(t != li);
            lemma_swap_windows(pch, li as int, t as int);
            let y = Tree::Container(p.layout(), swap_kids(pch, li as int, t as int), p.focused());
            lemma_set_focused(y, t as int);
            let x = set_focused(y, t as int);
            lemma_leaves_around(r, pp, x);
            let bf = leaves_before(r, pp);
            let af = leaves_after(r, pp);
            assert((bf + leaves(x) + af).to_multiset() =~= bf.to_multiset().add(leaves(x).to_multiset()).add(af.to_multiset()));
            assert((bf + leaves(p) + af).to_multiset() =~= bf.to_multiset().add(leaves(p).to_multiset()).add(af.to_multiset()));
            let u = pch.update(li as int, pch[t as int]);
            lemma_update(pch, li as int, pch[t as int]);
            lemma_update(u, t as int, pch[li as int]);
            lemma_set_at(r, pp, x);
        },
        MovePlan::IntoContainer(t) => {
            let r = s.root.unwrap();
            let pp = s.focus.drop_last();
            let li = s.focus.last();
            match node_at(r, s.focus) {
                Some(Tree::Leaf(id)) => {
                    let p = node_at(r, pp).unwrap();
                    lemma_node_at_last(r, s.focus);
                    let r1 = set_at(r, pp, remove_child(p, li as int));
                    lemma_node_at_facts(r, pp);
                    lemma_remove_child(p, li as int);
                    lemma_set_at(r, pp, remove_child(p, li as int));
                    let t2 = if t > li {
                        (t - 1) as usize
                    } else {
                        t
                    };
                    lemma_node_at_child(r1, pp, t2);
                    assert(remove_child(p, li as int).kids()[t2 as int] == p.kids()[t as int]);
                    let q = pp.push(t2);
                    let target = node_at(r1, q).unwrap();
                    let ins = move_into_index(target, d);
                    let idx = if ins < target.kids().len() {
                        ins
                    } else {
                        target.kids().len() as int
                    };
                    lemma_move_leaf_windows(s, r1, q, target, idx, id, s.focus.drop_last());
                },
                _ => {},
            }
        },
        MovePlan::Reparent => {
            let r = s.root.unwrap();
            let pp = s.focus.drop_last();
            let li = s.focus.last();
            match node_at(r, s.focus) {
                Some(Tree::Leaf(id)) => {
                    let p = node_at(r, pp).unwrap();
                    lemma_node_at_last(r, s.focus);
                    let y = remove_child(p, li as int);
                    let r1 = set_at(r, pp, y);
                    lemma_set_at_parent(r, pp, y);
                    let gp = pp.drop_last();
                    let pidx = pp.last();
                    let g = node_at(r1, gp).unwrap();
                    let ins = reparent_index(p.kids().len() == 1, pidx, d);
                    let at = if ins < g.kids().len() {
                        ins
                    } else {
                        g.kids().len() as int
                    };
                    lemma_move_leaf_windows(s, r1, gp, g, at, id, gp.push(left_behind(pidx, at)));
                },
                _ => {},
            }
        },
        MovePlan::WrapRoot => {
            let r = s.root.unwrap();
            let li = s.focus.last() as int;
            lemma_wrap_root(r, li, d);
            let ch = r.kids();
            let a = leaves_upto(ch.subrange(0, li), li);
            let b = leaves_upto(ch.subrange(li + 1, ch.len() as int), ch.len() - li - 1);
            let xl = leaves(ch[li]);
            assert((a + xl + b).to_multiset() =~= a.to_multiset().add(xl.to_multiset()).add(b.to_multiset()));
            assert((xl + (a + b)).to_multiset() =~= a.to_multiset().add(xl.to_multiset()).add(b.to_multiset()));
            assert(((a + b) + xl).to_multiset() =~= a.to_multiset().add(xl.to_multiset()).add(b.to_multiset()));
        },
    }
}

/// Children of a container after adding one, or swapping two, stay free of empty containers.
proof fn lemma_no_empty_kids_edit(ch: Seq<Tree>, i: int, j: int, at: int, x: Tree)
    requires
        kids_no_empty(ch, ch.len() as int),
        0 <= i < ch.len(),
        0 <= j < ch.len(),
        0 <= at <= ch.len(),
        no_empty_container(x),
    ensures
        kids_no_empty(swap_kids(ch, i, j), ch.len() as int),
        kids_no_empty(ch.insert(at, x), ch.len() + 1int),
{
    lemma_kids_no_empty(ch, ch.len() as int);
    let sw = swap_kids(ch, i, j);
    assert forall|m: int| 0 <= m < sw.len() implies no_empty_container(#[trigger] sw[m]) by {
        if m == j {
            assert(sw[m] == ch[i]);
        } else if m == i {
            assert(sw[m] == ch[j]);
        } else {
            assert(sw[m] == ch[m]);
        }
    }
    lemma_kids_no_empty_all(sw, sw.len() as int);
    let ins = ch.insert(at, x);
    assert forall|m: int| 0 <= m < ins.len() implies no_empty_container(#[trigger] ins[m]) by {
        if m < at {
            assert(ins[m] == ch[m]);
        } else if m > at {
            assert(ins[m] == ch[m - 1]);
        }
    }
    lemma_kids_no_empty_all(ins, ins.len() as int);
}

/// A move leaves no empty container behind: a tree without empty containers keeps none.
#[verifier::spinoff_prover]
#[verifier::rlimit(40)]
pub proof fn law_move_keeps_containers_non_empty(s: TreeState, d: super::Direction)
    requires
        state_wf(s),
        !move_would_panic(s, d),
        s.root matches Some(t) && no_empty_container(t),
    ensures
        move_in_direction_spec(s, d).0.root matches Some(t2) ==> no_empty_container(t2),
{
    let r = s.root.unwrap();
    let pp = s.focus.drop_last();
    let li = s.focus.last();
    match move_plan(s, d) {
        MovePlan::Fail => {},
        MovePlan::Swap(t) => {
            let p = node_at(r, pp).unwrap();
            let pch = p.kids();
            lemma_no_empty_at(r, pp);
            lemma_no_empty_kids_edit(pch, li as int, t as int, 0, Tree::Leaf(0));
            let y = Tree::Container(p.layout(), swap_kids(pch, li as int, t as int), p.focused());
            lemma_set_focused(y, t as int);
            lemma_no_empty_set_at(r, pp, set_focused(y, t as int));
        },
        MovePlan::IntoContainer(t) => {
            match node_at(r, s.focus) {
                Some(Tree::Leaf(id)) => {
                    let p = node_at(r, pp).unwrap();
                    lemma_node_at_last(r, s.focus);
                    let y0 = remove_child(p, li as int);
                    let r1 = set_at(r, pp, y0);
                    lemma_node_at_facts(r, pp);
                    lemma_remove_child(p, li as int);
                    lemma_set_at(r, pp, y0);
                    lemma_remove_child_no_empty(r, pp, li as int);
                    lemma_except_to_no_empty(r1, pp);
                    let t2 = if t > li {
                        (t - 1) as usize
                    } else {
                        t
                    };
                    lemma_node_at_child(r1, pp, t2);
                    assert(y0.kids()[t2 as int] == p.kids()[t as int]);
                    let q = pp.push(t2);
                    let target = node_at(r1, q).unwrap();
                    lemma_no_empty_at(r1, q);
                    let ins = move_into_index(target, d);
                    let idx = if ins < target.kids().len() {
                        ins
                    } else {
                        target.kids().len() as int
                    };
                    lemma_no_empty_kids_edit(target.kids(), 0, 0, idx, Tree::Leaf(id));
                    let x = insert_child(target, idx, Tree::Leaf(id));
                    lemma_set_focused(x, idx);
                    let yt = set_focused(x, idx);
                    lemma_no_empty_set_at(r1, q, yt);
                    let r2 = set_at(r1, q, yt);
                    assert(q.drop_last() =~= pp);
                    lemma_set_at_parent(r1, q, yt);
                    lemma_no_empty_to_except(r2, pp);
                    let g = Cleanup { root: Some(r2), focus: int_path(s.focus), stack: Seq::empty() };
                    lemma_cleanup_no_empty(g, pp);
                },
                _ => {},
            }
        },
        MovePlan::Reparent => {
            match node_at(r, s.focus) {
                Some(Tree::Leaf(id)) => {
                    let p = node_at(r, pp).unwrap();
                    lemma_node_at_last(r, s.focus);
                    let y0 = remove_child(p, li as int);
                    let r1 = set_at(r, pp, y0);
                    lemma_node_at_facts(r, pp);
                    lemma_node_at_facts(r, s.focus);
                    lemma_remove_child(p, li as int);
                    lemma_set_at(r, pp, y0);
                    lemma_remove_child_no_empty(r, pp, li as int);
                    let gp = pp.drop_last();
                    let pidx = pp.last();
                    assert(gp.push(pidx) =~= pp);
                    lemma_set_at_parent(r, pp, y0);
                    let g = node_at(r1, gp).unwrap();
                    lemma_except_at(r1, gp, pidx);
                    let ins = reparent_index(p.kids().len() == 1, pidx, d);
                    let at = if ins < g.kids().len() {
                        ins
                    } else {
                        g.kids().len() as int
                    };
                    lemma_except_insert_leaf(g, pidx, at, id);
                    let left = left_behind(pidx, at);
                    let x = set_focused(insert_child(g, at, Tree::Leaf(id)), at);
                    lemma_except_set_at(r1, gp, pidx, x, left);
                    let r2 = set_at(r1, gp, x);
                    lemma_set_at(r1, gp, x);
                    lemma_insert_child(g, at, Tree::Leaf(id));
                    lemma_node_at_child(r2, gp, left);
                    let cg = Cleanup { root: Some(r2), focus: int_path(s.focus), stack: Seq::empty() };
                    lemma_cleanup_no_empty(cg, gp.push(left));
                },
                _ => {},
            }
        },
        MovePlan::WrapRoot => {
            lemma_wrap_root(r, li as int, d);
        },
    }
}

/// A focused window that is moved stays focused.
pub proof fn law_moved_window_keeps_focus(s: TreeState, d: super::Direction, id: u64)
    requires
        state_wf(s),
        !move_would_panic(s, d),
        focused_window_spec(s) == Some(id),
    ensures
        move_in_direction_spec(s, d).1 ==> focused_window_spec(move_in_direction_spec(s, d).0) == Some(id),
{
    broadcast use vstd::seq_lib::group_to_multiset_ensures;

    law_move_in_direction_windows(s, d);
    law_focused_window_is_held(s);
    let r = s.root.unwrap();
    let res = move_in_direction_spec(s, d).0;
    match move_plan(s, d) {
        MovePlan::Fail => {},
        MovePlan::WrapRoot => {
            let li = s.focus.last() as int;
            lemma_wrap_root(r, li, d);
            assert(node_at(r, s.focus) == node_at(r.kids()[li], s.focus.skip(1)));
            assert(s.focus.skip(1) =~= Seq::<usize>::empty());
            let k = res.focus[0];
            assert(res.focus.skip(1) =~= Seq::<usize>::empty());
        },
        MovePlan::Swap(t) => {
            let pp = s.focus.drop_last();
            let li = s.focus.last();
            lemma_node_at_last(r, s.focus);
            let p = node_at(r, pp).unwrap();
            let y = Tree::Container(p.layout(), swap_kids(p.kids(), li as int, t as int), p.focused());
            let x = set_focused(y, t as int);
            assert(x.kids()[t as int] == Tree::Leaf(id));
            lemma_set_at(r, pp, x);
            let r2 = set_at(r, pp, x);
            lemma_node_at_child(r2, pp, t);
            assert(pp.push(t) + Seq::<usize>::empty() =~= pp.push(t));
        },
        _ => {
            if move_in_direction_spec(s, d).1 {
                let old = root_leaves(s.root);
                let new = root_leaves(res.root);
                assert(old.to_multiset().count(id) > 0);
                assert(new.to_multiset().count(id) > 0);
                assert(new.contains(id));
                let t2 = res.root.unwrap();
                lemma_find_complete(t2, id);
                lemma_find_valid(t2, id);
            }
        },
    }
}

/// `insert_leaf_after` when `after` is held by a leaf inside a container.
#[verifier::spinoff_prover]
#[verifier::rlimit(40)]
proof fn lemma_insert_after_found(s: TreeState, after: u64, id: u64, focus: bool) -> (k: int)
    requires
        root_ok(s.root),
        root_find(s.root, after) matches Some(path) && path.len() > 0,
    ensures
        0 < k <= root_leaves(s.root).len(),
        root_leaves(insert_leaf_after_spec(s, after, id, focus).0.root) == root_leaves(s.root).insert(k, id),
        root_leaves(s.root)[k - 1] == after,
        !root_leaves(s.root).subrange(0, k - 1).contains(after),
{
    let old = root_leaves(s.root);
    let path = root_find(s.root, after).unwrap();
    let r = s.root.unwrap();
    let pp = path.drop_last();
    let last = path.last();
    lemma_find_valid(r, after);
    lemma_find_first(r, after);
    lemma_node_at_last(r, path);
    let p = node_at(r, pp).unwrap();
    let pch = p.kids();
    let ins = last + 1;
    lemma_insert_leaf_order(p, ins, id);
    let x = insert_child(p, ins, Tree::Leaf(id));
    lemma_set_focused(x, ins);
    lemma_set_focused(x, p.focused() + 1);
    lemma_leaves_around(r, pp, x);
    lemma_leaves_around(r, pp, set_focused(x, ins));
    lemma_leaves_around(r, pp, set_focused(x, p.focused() + 1));
    assert(pp.push(last) =~= path);
    lemma_leaves_before_child(r, pp, last);
    lemma_leaves_around(r, path, Tree::Leaf(after));
    assert(leaves(Tree::Leaf(after)) =~= seq![after]);
    assert(leaves_upto(pch, ins) == leaves_upto(pch, last as int) + leaves(pch[last as int]));
    let bf = leaves_before(r, pp);
    let af = leaves_after(r, pp);
    let kk = leaves_upto(pch, ins).len() as int;
    assert(bf + leaves(p).insert(kk, id) + af =~= (bf + leaves(p) + af).insert(bf.len() + kk, id));
    let k = bf.len() + kk;
    let bp = leaves_before(r, path);
    assert(bp.len() + 1 == k);
    assert(old.subrange(0, k - 1) =~= bp);
    k
}

/// A window inserted after another lands right after the first leaf holding that window
/// (at the end of the root when there is none); the other leaves keep their order. The
/// position of the new window is returned.
pub proof fn law_insert_leaf_after(s: TreeState, after: u64, id: u64, focus: bool) -> (k: int)
    requires
        root_ok(s.root),
    ensures
        insert_leaf_after_spec(s, after, id, focus).1,
        0 <= k <= root_leaves(s.root).len(),
        root_leaves(insert_leaf_after_spec(s, after, id, focus).0.root) == root_leaves(s.root).insert(k, id),
        root_leaves(s.root).contains(after) ==> k > 0 && root_leaves(s.root)[k - 1] == after && !root_leaves(
            s.root,
        ).subrange(0, k - 1).contains(after),
{
    let old = root_leaves(s.root);
    law_find_window(s, after);
    match root_find(s.root, after) {
        Some(path) => {
            if path.len() > 0 {
                return lemma_insert_after_found(s, after, id, focus);
            }
            let r = s.root.unwrap();
            lemma_find_valid(r, after);
            assert(r == Tree::Leaf(after));
            let r1 = wrap(super::Layout::SplitH, r);
            lemma_single(r);
            lemma_insert_leaf_order(r1, 1, id);
            assert(leaves_upto(r1.kids(), 1) == leaves(r));
            let c1 = insert_child(r1, 1, Tree::Leaf(id));
            lemma_set_focused(c1, 1);
            lemma_set_focused(c1, 1);
            assert(old =~= seq![after]);
            assert(old.subrange(0, 0) =~= Seq::<u64>::empty());
            1
        },
        None => {
            law_insert_at_root_leaves(s, root_children_len_spec(s) as usize, Tree::Leaf(id), focus);
            let new = root_leaves(insert_leaf_after_spec(s, after, id, focus).0.root);
            let k = choose|k: int|
                0 <= k <= old.len() && new == old.subrange(0, k) + leaves(Tree::Leaf(id)) + old.subrange(
                    k,
                    old.len() as int,
                );
            assert(leaves(Tree::Leaf(id)) =~= seq![id]);
            assert(old.subrange(0, k) + seq![id] + old.subrange(k, old.len() as int) =~= old.insert(k, id));
            k
        },
    }
}

/// Inserting a window into a root column adds exactly that window (when the column exists)
/// and keeps the order of the others. The position of the new window is returned.
#[verifier::spinoff_prover]
#[verifier::rlimit(40)]
pub proof fn law_insert_leaf_in_column(s: TreeState, column: usize, tile_idx: Option<usize>, id: u64, focus: bool) -> (k: int)
    ensures
        0 <= k <= root_leaves(s.root).len(),
        insert_leaf_in_column_spec(s, column, tile_idx, id, focus).1 ==> root_leaves(
            insert_leaf_in_column_spec(s, column, tile_idx, id, focus).0.root,
        ) == root_leaves(s.root).insert(k, id),
        !insert_leaf_in_column_spec(s, column, tile_idx, id, focus).1 ==> root_leaves(
            insert_leaf_in_column_spec(s, column, tile_idx, id, focus).0.root,
        ) == root_leaves(s.root),
{
    let s1 = ensure_root_container_spec(s);
    let r1 = s1.root.unwrap();
    match s.root {
        Some(t0) => {
            if t0 is Leaf {
                lemma_single(t0);
                assert(seq![t0] =~= r1.kids());
            }
        },
        None => {
            assert(r1.kids() =~= Seq::<Tree>::empty());
        },
    }
    let old = root_leaves(s.root);
    assert(leaves(r1) == old);
    let ch = r1.kids();
    if column >= ch.len() {
        return 0;
    }
    let c = column as int;
    let col0 = ch[c];
    let col = if col0 is Leaf {
        wrap(super::Layout::SplitV, col0)
    } else {
        col0
    };
    if col0 is Leaf {
        lemma_single(col0);
    }
    assert(leaves(col) == leaves(col0));
    let n = col.kids().len();
    let want = match tile_idx {
        Some(t) => t as int,
        None => n as int,
    };
    let at = if want < n {
        want
    } else {
        n as int
    };
    lemma_insert_leaf_order(col, at, id);
    let col1 = insert_child(col, at, Tree::Leaf(id));
    lemma_set_focused(col1, at);
    let col2 = if focus {
        set_focused(col1, at)
    } else {
        col1
    };
    lemma_update(ch, c, col2);
    lemma_split(ch, c);
    let y = Tree::Container(r1.layout(), ch.update(c, col2), r1.focused());
    lemma_set_focused(y, c);
    let a = leaves_upto(ch.subrange(0, c), c);
    let b = leaves_upto(ch.subrange(c + 1, ch.len() as int), ch.len() - c - 1);
    let kk = leaves_upto(col.kids(), at).len() as int;
    assert(a + leaves(col).insert(kk, id) + b =~= (a + leaves(col) + b).insert(a.len() + kk, id));
    a.len() + kk
}

/// An insertion at the root adds the node, plus at most one container for the root.
pub proof fn lemma_insert_at_root_size(s: TreeState, index: usize, x: Tree, focus: bool)
    ensures
        super::model::root_size(insert_at_root_spec(s, index, x, focus).root) <= super::model::root_size(s.root)
            + size(x) + 1,
{
    let s1 = ensure_root_container_spec(s);
    let r1 = s1.root.unwrap();
    match s.root {
        Some(t0) => {
            if t0 is Leaf {
                lemma_single(t0);
                assert(seq![t0] =~= r1.kids());
            }
        },
        None => {
            assert(r1.kids() =~= Seq::<Tree>::empty());
        },
    }
    let n = r1.kids().len() as int;
    let idx: int = if index < n {
        index as int
    } else {
        n
    };
    lemma_insert_child(r1, idx, x);
    let c1 = insert_child(r1, idx, x);
    lemma_set_focused(c1, idx);
    lemma_set_focused(c1, r1.focused() + 1);
}

/// Inserting an id a sequence lacks keeps it free of duplicates.
proof fn lemma_insert_distinct(s: Seq<u64>, k: int, id: u64)
    requires
        s.no_duplicates(),
        !s.contains(id),
        0 <= k <= s.len(),
    ensures
        s.insert(k, id).no_duplicates(),
{
    let t = s.insert(k, id);
    assert forall|i: int, j: int| 0 <= i < t.len() && 0 <= j < t.len() && i != j implies t[i] != t[j] by {
        if i == k {
            assert(t[j] == s[if j < k { j } else { j - 1 }]);
        } else if j == k {
            assert(t[i] == s[if i < k { i } else { i - 1 }]);
        } else {
            assert(t[i] == s[if i < k { i } else { i - 1 }]);
            assert(t[j] == s[if j < k { j } else { j - 1 }]);
        }
    }
}

/// What `remove_first` keeps was in the sequence.
proof fn lemma_remove_first_subset(s: Seq<u64>, id: u64, x: u64)
    requires
        remove_first(s, id).contains(x),
    ensures
        s.contains(x),
    decreases s.len(),
{
    if s.len() > 0 {
        let r = remove_first(s, id);
        let k = choose|k: int| 0 <= k < r.len() && r[k] == x;
        if s[0] == id {
            assert(s[k + 1] == x);
        } else if k == 0 {
            assert(s[0] == x);
        } else {
            assert(remove_first(s.skip(1), id)[k - 1] == x);
            lemma_remove_first_subset(s.skip(1), id, x);
            let m = choose|m: int| 0 <= m < s.skip(1).len() && s.skip(1)[m] == x;
            assert(s[m + 1] == x);
        }
    }
}

/// Dropping the first occurrence of an id keeps a sequence free of duplicates.
proof fn lemma_remove_first_distinct(s: Seq<u64>, id: u64)
    requires
        s.no_duplicates(),
    ensures
        remove_first(s, id).no_duplicates(),
    decreases s.len(),
{
    if s.len() > 0 {
        let t = s.skip(1);
        assert(t.no_duplicates());
        if s[0] != id {
            lemma_remove_first_distinct(t, id);
            let r = remove_first(t, id);
            if r.contains(s[0]) {
                lemma_remove_first_subset(t, id, s[0]);
                let m = choose|m: int| 0 <= m < t.len() && t[m] == s[0];
                assert(s[m + 1] == s[0]);
            }
            let u = seq![s[0]] + r;
            assert forall|i: int, j: int| 0 <= i < u.len() && 0 <= j < u.len() && i != j implies u[i] != u[j] by {
                if i == 0 {
                    assert(r[j - 1] == u[j]);
                } else if j == 0 {
                    assert(r[i - 1] == u[i]);
                } else {
                    assert(r[i - 1] == u[i]);
                    assert(r[j - 1] == u[j]);
                }
            }
        }
    }
}

/// Sequences with the same elements, counted, agree on being free of duplicates.
proof fn lemma_same_windows_distinct(a: Seq<u64>, b: Seq<u64>)
    requires
        a.no_duplicates(),
        a.to_multiset() == b.to_multiset(),
    ensures
        b.no_duplicates(),
{
    a.lemma_multiset_has_no_duplicates();
    b.lemma_multiset_has_no_duplicates_conv();
}

/// The focused window, when there is one, is one of the tree's windows; in particular a
/// tree without windows has no focused window. At most one window is focused, since the
/// focus is a single path.
pub proof fn law_focused_window_is_held(s: TreeState)
    ensures
        focused_window_spec(s) matches Some(id) ==> root_leaves(s.root).contains(id),
        root_leaves(s.root).len() == 0 ==> focused_window_spec(s) is None,
{
    match focused_window_spec(s) {
        Some(id) => {
            let t = s.root.unwrap();
            lemma_leaves_around(t, s.focus, Tree::Leaf(id));
            let a = leaves_before(t, s.focus);
            assert(leaves(Tree::Leaf(id)) =~= seq![id]);
            assert((a + seq![id] + leaves_after(t, s.focus))[a.len() as int] == id);
        },
        None => {},
    }
}

/// No command makes a window appear twice: when the windows are distinct, they stay
/// distinct through moves, focus and layout changes, removals, and the insertion of a
/// window the tree does not hold.
pub proof fn law_commands_keep_windows_distinct(s: TreeState, id: u64, d: super::Direction, layout: super::Layout)
    requires
        state_wf(s),
        root_leaves(s.root).no_duplicates(),
    ensures
        !root_leaves(s.root).contains(id) && has_room(s, 2) ==> root_leaves(insert_window_spec(s, id).root).no_duplicates(),
        root_leaves(remove_window_spec(s, id).0.root).no_duplicates(),
        !move_would_panic(s, d) ==> root_leaves(move_in_direction_spec(s, d).0.root).no_duplicates(),
        root_leaves(focus_in_direction_spec(s, d).0.root).no_duplicates(),
        root_leaves(split_focused_spec(s, layout).0.root).no_duplicates(),
        root_leaves(set_focused_layout_spec(s, layout).0.root).no_duplicates(),
{
    let old = root_leaves(s.root);
    if !old.contains(id) && has_room(s, 2) {
        let k = lemma_insert_window_leaves(s, id);
        lemma_insert_distinct(old, k, id);
    }
    law_remove_window_leaves(s, id);
    lemma_remove_first_distinct(old, id);
    if !move_would_panic(s, d) {
        law_move_in_direction_windows(s, d);
        lemma_same_windows_distinct(old, root_leaves(move_in_direction_spec(s, d).0.root));
    }
    law_focus_keeps_leaves(s, d, 0, 0);
    law_layout_changes_keep_leaves(s, layout);
}

} // verus!
