//! Laws of position: where a window moved into a container lands, and which window keeps
//! the focus when root children are inserted or reordered.
use vstd::prelude::*;

use super::behavior::{
    state_wf, Cleanup, cleanup, cleanup_step, int_path, focused_window_spec, MovePlan, move_plan,
    move_in_direction_spec, insert_at_root_spec, move_root_child_spec, shifted_index, is_split,
    toward_start, cleared,
};
use super::cleanup_lemmas::lemma_node_at_last;
use super::lemmas::{lemma_set_at, lemma_node_at_child, lemma_node_at_facts, lemma_child_size_any};
use super::model::{Tree, TreeState, node_at, set_at, remove_child, insert_child, set_focused, root_node_at};
use super::{Layout, Direction};

verus! {

/// Cleanup from `path` changes nothing when the node at `path` has a child: no container on
/// the way is empty.
proof fn lemma_cleanup_keeps(c: Cleanup, path: Seq<usize>, j: usize)
    requires
        c.root matches Some(r) && node_at(r, path.push(j)) is Some,
    ensures
        cleanup(c, path) == c,
    decreases path.len(),
{
    let r = c.root.unwrap();
    lemma_node_at_last(r, path.push(j));
    assert(path.push(j).drop_last() =~= path);
    if path.len() > 0 {
        let pp = path.drop_last();
        let li = path.last();
        lemma_node_at_last(r, path);
        assert(pp.push(li) =~= path);
        assert(cleanup_step(c, pp, li as int) == c);
        lemma_cleanup_keeps(c, pp, li);
    }
}

/// Moving the focused window into a neighbouring container puts it next to that container's
/// focused child: moving left or up into a tabbed or stacked container, before it (at the
/// focused index); right or down, after it. Into a split it comes in on the side it moves
/// from: after the focused child when moving left or up, before it when moving right or down.
/// The container keeps its layout and its other children in order, and focuses the window.
pub proof fn law_move_into_container_position(s: TreeState, d: Direction, t: usize, id: u64)
    requires
        state_wf(s),
        move_plan(s, d) == MovePlan::IntoContainer(t),
        focused_window_spec(s) == Some(id),
        node_at(s.root.unwrap(), s.focus.drop_last().push(t)) matches Some(Tree::Container(_, ch, _))
            && ch.len() > 0,
    ensures
        ({
            let r = s.root.unwrap();
            let pp = s.focus.drop_last();
            let li = s.focus.last();
            let target = node_at(r, pp.push(t)).unwrap();
            let f = target.focused() as int;
            let at = if is_split(target.layout()) {
                if toward_start(d) { f + 1 } else { f }
            } else {
                if toward_start(d) { f } else { f + 1 }
            };
            let q = pp.push(if t > li { (t - 1) as usize } else { t });
            &&& move_in_direction_spec(s, d).1
            &&& 0 <= at <= target.kids().len()
            &&& root_node_at(move_in_direction_spec(s, d).0.root, q) == Some(
                Tree::Container(target.layout(), target.kids().insert(at, Tree::Leaf(id)), at as usize),
            )
        }),
{
    let r = s.root.unwrap();
    let pp = s.focus.drop_last();
    let li = s.focus.last();
    let s0 = cleared(s);
    lemma_node_at_last(r, s.focus);
    let p = node_at(r, pp).unwrap();
    let target = node_at(r, pp.push(t)).unwrap();
    lemma_node_at_child(r, pp, t);
    let y = remove_child(p, li as int);
    let r1 = set_at(r, pp, y);
    lemma_set_at(r, pp, y);
    let t2 = if t > li { (t - 1) as usize } else { t };
    assert(y.kids()[t2 as int] == p.kids()[t as int]);
    lemma_node_at_child(r1, pp, t2);
    let q = pp.push(t2);
    assert(node_at(r1, q) == Some(target));
    let x = set_focused(insert_child(target, super::behavior::move_into_index(target, d), Tree::Leaf(id)),
        super::behavior::move_into_index(target, d));
    let r2 = set_at(r1, q, x);
    lemma_set_at(r1, q, x);
    let c = Cleanup { root: Some(r2), focus: int_path(s.focus), stack: s0.stack };
    lemma_node_at_last(r2, q);
    assert(q.drop_last() =~= pp);
    lemma_cleanup_keeps(c, pp, t2);
    lemma_node_at_facts(r, pp.push(t));
    lemma_child_size_any(target);
    let ins = super::behavior::move_into_index(target, d);
    assert(0 <= ins <= target.kids().len());
    assert(x == Tree::Container(target.layout(), target.kids().insert(ins, Tree::Leaf(id)), ins as usize));
    assert(move_in_direction_spec(s, d) == super::behavior::move_into_spec(s0, t, d));
    assert(move_in_direction_spec(s, d).0.root == Some(r2));
    assert(root_node_at(Some(r2), q) == Some(x));
}

/// Inserting a root child without focusing it keeps the focused window focused, when the
/// focus path goes through the child the root focuses.
pub proof fn law_insert_at_root_keeps_focus(s: TreeState, index: usize, x: Tree)
    requires
        state_wf(s),
        focused_window_spec(s) is Some,
        s.root matches Some(Tree::Container(_, ch, f)) ==> s.focus[0] == f,
    ensures
        focused_window_spec(insert_at_root_spec(s, index, x, false)) == focused_window_spec(s),
{
    let r = s.root.unwrap();
    let res = insert_at_root_spec(s, index, x, false);
    match r {
        Tree::Leaf(w) => {
            assert(s.focus.len() == 0);
            let wr = Tree::Container(Layout::SplitH, seq![r], 0);
            let idx: int = if index < 1 { index as int } else { 1 };
            let c1 = insert_child(wr, idx, x);
            if idx == 0 {
                assert(c1.kids() =~= seq![x, r]);
                assert(res.focus =~= seq![1usize]);
                assert(res.root == Some(set_focused(c1, 1)));
                assert(node_at(set_focused(c1, 1), seq![1usize]) == node_at(r, seq![1usize].skip(1)));
                assert(seq![1usize].skip(1) =~= Seq::<usize>::empty());
            } else {
                assert(c1.kids() =~= seq![r, x]);
                assert(res.focus =~= seq![0usize]);
                assert(res.root == Some(c1));
                assert(node_at(c1, seq![0usize]) == node_at(r, seq![0usize].skip(1)));
                assert(seq![0usize].skip(1) =~= Seq::<usize>::empty());
            }
        },
        Tree::Container(l, ch, f) => {
            assert(s.focus.len() > 0);
            let cur = s.focus[0];
            assert(cur < ch.len());
            assert(res.focus.skip(1) =~= s.focus.skip(1));
        },
    }
}

/// Moving a root child to another position keeps the focused window focused: the focus
/// follows the child it was in.
pub proof fn law_move_root_child_keeps_focus(s: TreeState, from: usize, to: usize)
    requires
        state_wf(s),
        focused_window_spec(s) is Some,
    ensures
        move_root_child_spec(s, from, to).1 ==> focused_window_spec(move_root_child_spec(s, from, to).0)
            == focused_window_spec(s),
{
    if move_root_child_spec(s, from, to).1 {
        let r = s.root.unwrap();
        let ch = r.kids();
        assert(s.focus.len() > 0);
        let cur = s.focus[0];
        assert(cur < ch.len());
        let ch2 = ch.remove(from as int).insert(to as int, ch[from as int]);
        let sh = shifted_index(cur, from, to);
        assert(ch2[sh as int] == ch[cur as int]);
        let f1 = s.focus.update(0, sh);
        assert(f1.skip(1) =~= s.focus.skip(1));
        let res = move_root_child_spec(s, from, to).0;
        let r2 = res.root.unwrap();
        assert(node_at(r2, f1) == node_at(r, s.focus));
        assert(f1 + Seq::<usize>::empty() =~= f1);
        assert(res.focus == f1);
    }
}

} // verus!
