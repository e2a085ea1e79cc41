//! Laws of what is shown: which windows the tree reports as visible, and which tab bars it
//! reports to draw, stated over the paths that lead to them.
use vstd::prelude::*;

use super::behavior::{
    MAX_TREE_NODES, leaf_visibility, visibility_upto, child_visible, tab_bar_groups, tab_groups_upto, TabBarGroupView,
};
use super::lemmas::lemma_size_upto_bounds;
use super::model::{Tree, node_at, node_wf, kids_wf, size, size_upto, leaves, leaves_upto};
use super::Layout;

verus! {

/// Whether node `n` shows its child `i`: a tabbed or stacked container shows only its
/// focused child, any other node shows every child.
pub open spec fn shows_child(n: Option<Tree>, i: usize) -> bool {
    match n {
        Some(Tree::Container(l, _, f)) => (l == Layout::Tabbed || l == Layout::Stacked) ==> i == f,
        _ => true,
    }
}

/// Every container on path `p` from `t` shows the child the path goes on to.
pub open spec fn shown_along(t: Tree, p: Seq<usize>) -> bool {
    forall|k: int| 0 <= k < p.len() ==> #[trigger] shows_child(node_at(t, p.subrange(0, k)), p[k])
}

/// A path that starts with child `p[0]` of `t` is shown from `t` when `t` shows that child
/// and the rest of the path is shown from it.
pub proof fn lemma_shown_along_step(t: Tree, p: Seq<usize>)
    requires
        t is Container,
        p.len() > 0,
        p[0] < t.kids().len(),
    ensures
        node_at(t, p) == node_at(t.kids()[p[0] as int], p.skip(1)),
        shown_along(t, p) == (shows_child(Some(t), p[0]) && shown_along(t.kids()[p[0] as int], p.skip(1))),
{
    let c = t.kids()[p[0] as int];
    let q = p.skip(1);
    assert forall|k: int| 1 <= k <= p.len() implies node_at(t, p.subrange(0, k)) == node_at(c, q.subrange(0, k - 1)) by {
        assert(p.subrange(0, k).skip(1) =~= q.subrange(0, k - 1));
        assert(p.subrange(0, k)[0] == p[0]);
    }
    assert(p.subrange(0, p.len() as int) =~= p);
    assert(p.subrange(0, 0) =~= Seq::<usize>::empty());
    if shown_along(t, p) {
        assert forall|k: int| 0 <= k < q.len() implies #[trigger] shows_child(node_at(c, q.subrange(0, k)), q[k]) by {
            assert(shows_child(node_at(t, p.subrange(0, k + 1)), p[k + 1]));
        }
        assert(shows_child(node_at(t, p.subrange(0, 0)), p[0]));
    }
    if shows_child(Some(t), p[0]) && shown_along(c, q) {
        assert forall|k: int| 0 <= k < p.len() implies #[trigger] shows_child(node_at(t, p.subrange(0, k)), p[k]) by {
            if k > 0 {
                assert(shows_child(node_at(c, q.subrange(0, k - 1)), q[k - 1]));
            }
        }
    }
}

/// An entry `e` reported under `t` placed at `path`: its path extends `path` to a window of
/// `t`, and it is shown exactly when `visible` holds and every container on the way shows
/// the child the path goes on to.
pub open spec fn visibility_entry_ok(t: Tree, path: Seq<usize>, visible: bool, e: (Seq<usize>, bool), w: u64) -> bool {
    &&& e.0.len() >= path.len()
    &&& e.0.subrange(0, path.len() as int) == path
    &&& node_at(t, e.0.skip(path.len() as int)) == Some(Tree::Leaf(w))
    &&& e.1 == (visible && shown_along(t, e.0.skip(path.len() as int)))
}

/// The same for an entry reported under children `ch` of a container (`l`, focused `f`).
pub open spec fn visibility_child_entry_ok(
    ch: Seq<Tree>,
    n: int,
    path: Seq<usize>,
    visible: bool,
    l: Layout,
    f: usize,
    e: (Seq<usize>, bool),
    w: u64,
) -> bool {
    &&& e.0.len() > path.len()
    &&& e.0.subrange(0, path.len() as int) == path
    &&& e.0[path.len() as int] < n
    &&& node_at(ch[e.0[path.len() as int] as int], e.0.skip(path.len() + 1int)) == Some(Tree::Leaf(w))
    &&& e.1 == (visible && shows_child(Some(Tree::Container(l, ch, f)), e.0[path.len() as int])
        && shown_along(ch[e.0[path.len() as int] as int], e.0.skip(path.len() + 1int)))
}

proof fn lemma_visibility(t: Tree, path: Seq<usize>, visible: bool)
    requires
        node_wf(t),
        size(t) <= MAX_TREE_NODES,
    ensures
        leaf_visibility(t, path, visible).len() == leaves(t).len(),
        forall|j: int|
            0 <= j < leaf_visibility(t, path, visible).len() ==> visibility_entry_ok(
                t,
                path,
                visible,
                #[trigger] leaf_visibility(t, path, visible)[j],
                leaves(t)[j],
            ),
    decreases t, 0int,
{
    match t {
        Tree::Leaf(_) => {
            let e = (path, visible);
            assert(leaf_visibility(t, path, visible) =~= seq![e]);
            assert(e.0.subrange(0, path.len() as int) =~= path);
            assert(e.0.skip(path.len() as int) =~= Seq::<usize>::empty());
        },
        Tree::Container(l, ch, f) => {
            lemma_visibility_upto(ch, ch.len() as int, path, visible, l, f);
            let v = leaf_visibility(t, path, visible);
            let u = visibility_upto(ch, ch.len() as int, path, visible, l, f);
            assert(v == u);
            assert forall|j: int| 0 <= j < v.len() implies visibility_entry_ok(t, path, visible, #[trigger] v[j], leaves(t)[j]) by {
                let e = u[j];
                assert(visibility_child_entry_ok(ch, ch.len() as int, path, visible, l, f, e, leaves_upto(ch, ch.len() as int)[j]));
                let rel = e.0.skip(path.len() as int);
                assert(rel.skip(1) =~= e.0.skip(path.len() + 1int));
                assert(rel[0] == e.0[path.len() as int]);
                lemma_shown_along_step(t, rel);
            }
        },
    }
}

proof fn lemma_visibility_upto(ch: Seq<Tree>, n: int, path: Seq<usize>, visible: bool, l: Layout, f: usize)
    requires
        0 <= n <= ch.len(),
        kids_wf(ch, ch.len() as int),
        f < ch.len() || ch.len() == 0,
        size_upto(ch, ch.len() as int) < MAX_TREE_NODES,
    ensures
        visibility_upto(ch, n, path, visible, l, f).len() == leaves_upto(ch, n).len(),
        forall|j: int|
            0 <= j < visibility_upto(ch, n, path, visible, l, f).len() ==> visibility_child_entry_ok(
                ch,
                n,
                path,
                visible,
                l,
                f,
                #[trigger] visibility_upto(ch, n, path, visible, l, f)[j],
                leaves_upto(ch, n)[j],
            ),
    decreases ch, n,
{
    if n > 0 {
        lemma_visibility_upto(ch, n - 1, path, visible, l, f);
        lemma_size_upto_bounds(ch, ch.len() as int);
        let i = (n - 1) as usize;
        let p2 = path.push(i);
        let b2 = visible && child_visible(l, f, ch.len(), n - 1);
        lemma_visibility(ch[n - 1], p2, b2);
        let a = visibility_upto(ch, n - 1, path, visible, l, f);
        let lv = leaf_visibility(ch[n - 1], p2, b2);
        let v = visibility_upto(ch, n, path, visible, l, f);
        assert(v == a + lv);
        assert(b2 == (visible && shows_child(Some(Tree::Container(l, ch, f)), i)));
        let lu = leaves_upto(ch, n);
        assert(lu == leaves_upto(ch, n - 1) + leaves(ch[n - 1]));
        assert forall|j: int| 0 <= j < v.len() implies visibility_child_entry_ok(ch, n, path, visible, l, f, #[trigger] v[j], lu[j]) by {
            if j < a.len() {
                assert(v[j] == a[j]);
                assert(lu[j] == leaves_upto(ch, n - 1)[j]);
                assert(visibility_child_entry_ok(ch, n - 1, path, visible, l, f, a[j], leaves_upto(ch, n - 1)[j]));
            } else {
                let e = lv[j - a.len()];
                assert(v[j] == e);
                assert(lu[j] == leaves(ch[n - 1])[j - a.len()]);
                assert(visibility_entry_ok(ch[n - 1], p2, b2, e, leaves(ch[n - 1])[j - a.len()]));
                assert(e.0.subrange(0, p2.len() as int).subrange(0, path.len() as int) =~= e.0.subrange(0, path.len() as int));
                assert(p2.subrange(0, path.len() as int) =~= path);
                assert(e.0[path.len() as int] == p2[path.len() as int]);
                assert(e.0.skip(p2.len() as int) =~= e.0.skip(path.len() + 1int));
            }
        }
    }
}

/// Leaf visibility: the reported paths lead to the tree's windows, one each, in depth-first
/// order, and a window is reported shown exactly when every tabbed or stacked container on
/// its path has the path's child as its focused child.
pub proof fn law_leaf_visibility(t: Tree)
    requires
        node_wf(t),
        size(t) <= MAX_TREE_NODES,
    ensures
        leaf_visibility(t, Seq::empty(), true).len() == leaves(t).len(),
        forall|j: int|
            0 <= j < leaf_visibility(t, Seq::empty(), true).len() ==> {
                &&& node_at(t, (#[trigger] leaf_visibility(t, Seq::empty(), true)[j]).0) == Some(Tree::Leaf(leaves(t)[j]))
                &&& leaf_visibility(t, Seq::empty(), true)[j].1 == shown_along(
                    t,
                    leaf_visibility(t, Seq::empty(), true)[j].0,
                )
            },
{
    lemma_visibility(t, Seq::empty(), true);
    let v = leaf_visibility(t, Seq::empty(), true);
    assert forall|j: int| 0 <= j < v.len() implies v[j].0.skip(0) == v[j].0 by {
        assert(v[j].0.skip(0) =~= v[j].0);
    }
}

/// A group `g` reported under `t` placed at `path`: its path extends `path` to a tabbed or
/// stacked container of `t` with as many tabs as children, and every container on the way
/// shows the child the path goes on to.
pub open spec fn group_ok(t: Tree, path: Seq<usize>, visible: bool, g: TabBarGroupView) -> bool {
    &&& g.path.len() >= path.len()
    &&& g.path.subrange(0, path.len() as int) == path
    &&& node_at(t, g.path.skip(path.len() as int)) matches Some(Tree::Container(l, ch, f)) && l == g.layout
        && f == g.focused_idx && ch.len() == g.tab_count
    &&& g.tab_count > 0
    &&& (g.layout == Layout::Tabbed || g.layout == Layout::Stacked)
    &&& visible
    &&& shown_along(t, g.path.skip(path.len() as int))
}

/// The same for a group reported under children `ch` of a container (`l`, focused `f`).
pub open spec fn child_group_ok(
    ch: Seq<Tree>,
    n: int,
    path: Seq<usize>,
    visible: bool,
    l: Layout,
    f: usize,
    g: TabBarGroupView,
) -> bool {
    &&& g.path.len() > path.len()
    &&& g.path.subrange(0, path.len() as int) == path
    &&& g.path[path.len() as int] < n
    &&& node_at(ch[g.path[path.len() as int] as int], g.path.skip(path.len() + 1int)) matches Some(
        Tree::Container(l2, ch2, f2),
    ) && l2 == g.layout && f2 == g.focused_idx && ch2.len() == g.tab_count
    &&& g.tab_count > 0
    &&& (g.layout == Layout::Tabbed || g.layout == Layout::Stacked)
    &&& visible
    &&& shows_child(Some(Tree::Container(l, ch, f)), g.path[path.len() as int])
    &&& shown_along(ch[g.path[path.len() as int] as int], g.path.skip(path.len() + 1int))
}

proof fn lemma_groups(t: Tree, path: Seq<usize>, visible: bool)
    requires
        size(t) <= MAX_TREE_NODES,
    ensures
        forall|j: int|
            0 <= j < tab_bar_groups(t, path, visible).len() ==> group_ok(
                t,
                path,
                visible,
                #[trigger] tab_bar_groups(t, path, visible)[j],
            ),
    decreases t, 0int,
{
    match t {
        Tree::Leaf(_) => {},
        Tree::Container(l, ch, f) => {
            lemma_groups_upto(ch, ch.len() as int, path, visible, l, f);
            let v = tab_bar_groups(t, path, visible);
            let own = if visible && (l == Layout::Tabbed || l == Layout::Stacked) && ch.len() > 0 {
                seq![TabBarGroupView { path, layout: l, focused_idx: f, tab_count: ch.len() }]
            } else {
                Seq::empty()
            };
            let rest = tab_groups_upto(ch, ch.len() as int, path, visible, l, f);
            assert(v == own + rest);
            assert forall|j: int| 0 <= j < v.len() implies group_ok(t, path, visible, #[trigger] v[j]) by {
                if j < own.len() {
                    assert(v[j] == own[j]);
                    assert(path.subrange(0, path.len() as int) =~= path);
                    assert(path.skip(path.len() as int) =~= Seq::<usize>::empty());
                } else {
                    let g = rest[j - own.len()];
                    assert(v[j] == g);
                    assert(child_group_ok(ch, ch.len() as int, path, visible, l, f, g));
                    let rel = g.path.skip(path.len() as int);
                    assert(rel.skip(1) =~= g.path.skip(path.len() + 1int));
                    assert(rel[0] == g.path[path.len() as int]);
                    lemma_shown_along_step(t, rel);
                }
            }
        },
    }
}

proof fn lemma_groups_upto(ch: Seq<Tree>, n: int, path: Seq<usize>, visible: bool, l: Layout, f: usize)
    requires
        0 <= n <= ch.len(),
        size_upto(ch, ch.len() as int) < MAX_TREE_NODES,
    ensures
        forall|j: int|
            0 <= j < tab_groups_upto(ch, n, path, visible, l, f).len() ==> child_group_ok(
                ch,
                n,
                path,
                visible,
                l,
                f,
                #[trigger] tab_groups_upto(ch, n, path, visible, l, f)[j],
            ),
    decreases ch, n,
{
    if n > 0 {
        lemma_groups_upto(ch, n - 1, path, visible, l, f);
        lemma_size_upto_bounds(ch, ch.len() as int);
        let i = (n - 1) as usize;
        let p2 = path.push(i);
        let shown = match l {
            Layout::Tabbed | Layout::Stacked => n - 1 == f,
            _ => true,
        };
        let b2 = visible && shown;
        lemma_groups(ch[n - 1], p2, b2);
        let a = tab_groups_upto(ch, n - 1, path, visible, l, f);
        let gv = tab_bar_groups(ch[n - 1], p2, b2);
        let v = tab_groups_upto(ch, n, path, visible, l, f);
        assert(v == a + gv);
        assert(shown == shows_child(Some(Tree::Container(l, ch, f)), i));
        assert forall|j: int| 0 <= j < v.len() implies child_group_ok(ch, n, path, visible, l, f, #[trigger] v[j]) by {
            if j < a.len() {
                assert(v[j] == a[j]);
                assert(child_group_ok(ch, n - 1, path, visible, l, f, a[j]));
            } else {
                let g = gv[j - a.len()];
                assert(v[j] == g);
                assert(group_ok(ch[n - 1], p2, b2, g));
                assert(g.path.subrange(0, p2.len() as int).subrange(0, path.len() as int) =~= g.path.subrange(0, path.len() as int));
                assert(p2.subrange(0, path.len() as int) =~= path);
                assert(g.path[path.len() as int] == p2[path.len() as int]);
                assert(g.path.skip(p2.len() as int) =~= g.path.skip(path.len() + 1int));
            }
        }
    }
}

/// The groups reported under child `i` of a container are among those reported under its
/// first `n` children, `i < n`.
proof fn lemma_groups_upto_includes(
    ch: Seq<Tree>,
    n: int,
    path: Seq<usize>,
    visible: bool,
    l: Layout,
    f: usize,
    i: int,
    k: int,
)
    requires
        0 <= i < n <= ch.len(),
        ch.len() < MAX_TREE_NODES,
        0 <= k < tab_bar_groups(
            ch[i],
            path.push(i as usize),
            visible && shows_child(Some(Tree::Container(l, ch, f)), i as usize),
        ).len(),
    ensures
        exists|j: int|
            0 <= j < tab_groups_upto(ch, n, path, visible, l, f).len() && #[trigger] tab_groups_upto(
                ch,
                n,
                path,
                visible,
                l,
                f,
            )[j] == tab_bar_groups(
                ch[i],
                path.push(i as usize),
                visible && shows_child(Some(Tree::Container(l, ch, f)), i as usize),
            )[k],
    decreases n,
{
    let a = tab_groups_upto(ch, n - 1, path, visible, l, f);
    let shown = match l {
        Layout::Tabbed | Layout::Stacked => n - 1 == f,
        _ => true,
    };
    let gv = tab_bar_groups(ch[n - 1], path.push((n - 1) as usize), visible && shown);
    let v = tab_groups_upto(ch, n, path, visible, l, f);
    assert(v == a + gv);
    if i == n - 1 {
        assert(shown == shows_child(Some(Tree::Container(l, ch, f)), i as usize));
        assert(v[a.len() + k] == gv[k]);
    } else {
        lemma_groups_upto_includes(ch, n - 1, path, visible, l, f, i, k);
        let j = choose|j: int| 0 <= j < a.len() && #[trigger] a[j] == tab_bar_groups(
            ch[i],
            path.push(i as usize),
            visible && shows_child(Some(Tree::Container(l, ch, f)), i as usize),
        )[k];
        assert(v[j] == a[j]);
    }
}

/// Every shown tabbed or stacked container with children, at `p` under `t` placed at
/// `path`, has a group.
proof fn lemma_groups_complete(t: Tree, path: Seq<usize>, visible: bool, p: Seq<usize>)
    requires
        visible,
        node_at(t, p) matches Some(Tree::Container(l, ch, _)) && (l == Layout::Tabbed || l == Layout::Stacked)
            && ch.len() > 0,
        shown_along(t, p),
        size(t) <= MAX_TREE_NODES,
    ensures
        exists|j: int|
            0 <= j < tab_bar_groups(t, path, visible).len() && (#[trigger] tab_bar_groups(t, path, visible)[j]).path
                == path + p,
    decreases p.len(),
{
    let v = tab_bar_groups(t, path, visible);
    match t {
        Tree::Leaf(_) => {},
        Tree::Container(l, ch, f) => {
            let own = if visible && (l == Layout::Tabbed || l == Layout::Stacked) && ch.len() > 0 {
                seq![TabBarGroupView { path, layout: l, focused_idx: f, tab_count: ch.len() }]
            } else {
                Seq::empty()
            };
            let rest = tab_groups_upto(ch, ch.len() as int, path, visible, l, f);
            assert(v == own + rest);
            if p.len() == 0 {
                assert(path + p =~= path);
                assert(v[0] == own[0]);
            } else {
                let i = p[0];
                lemma_shown_along_step(t, p);
                lemma_size_upto_bounds(ch, ch.len() as int);
                let c = ch[i as int];
                let b = visible && shows_child(Some(t), i);
                lemma_groups_complete(c, path.push(i), b, p.skip(1));
                let sub = tab_bar_groups(c, path.push(i), b);
                let k = choose|k: int| 0 <= k < sub.len() && (#[trigger] sub[k]).path == path.push(i) + p.skip(1);
                lemma_groups_upto_includes(ch, ch.len() as int, path, visible, l, f, i as int, k);
                let j = choose|j: int| 0 <= j < rest.len() && #[trigger] rest[j] == sub[k];
                assert(v[own.len() + j] == rest[j]);
                assert(path.push(i) + p.skip(1) =~= path + p);
            }
        },
    }
}

/// Tab bar groups: every reported group is a tabbed or stacked container with children at
/// the group's path, with the group's layout, focused index and number of tabs, and it is
/// shown: every tabbed or stacked container above it has the path's child as its focused
/// child. Conversely, every shown tabbed or stacked container with children is reported.
pub proof fn law_tab_bar_groups_are_shown(t: Tree)
    requires
        size(t) <= MAX_TREE_NODES,
    ensures
        forall|j: int|
            0 <= j < tab_bar_groups(t, Seq::empty(), true).len() ==> {
                let g = #[trigger] tab_bar_groups(t, Seq::empty(), true)[j];
                &&& node_at(t, g.path) matches Some(Tree::Container(l, ch, f)) && l == g.layout
                    && f == g.focused_idx && ch.len() == g.tab_count
                &&& g.tab_count > 0
                &&& (g.layout == Layout::Tabbed || g.layout == Layout::Stacked)
                &&& shown_along(t, g.path)
            },
        forall|p: Seq<usize>|
            #![trigger node_at(t, p)]
            node_at(t, p) matches Some(Tree::Container(l, ch, _)) && (l == Layout::Tabbed || l == Layout::Stacked)
                && ch.len() > 0 && shown_along(t, p) ==> exists|j: int|
                0 <= j < tab_bar_groups(t, Seq::empty(), true).len() && (#[trigger] tab_bar_groups(
                    t,
                    Seq::empty(),
                    true,
                )[j]).path == p,
{
    lemma_groups(t, Seq::empty(), true);
    assert forall|p: Seq<usize>|
        #![trigger node_at(t, p)]
        node_at(t, p) matches Some(Tree::Container(l, ch, _)) && (l == Layout::Tabbed || l == Layout::Stacked)
            && ch.len() > 0 && shown_along(t, p) implies exists|j: int|
            0 <= j < tab_bar_groups(t, Seq::empty(), true).len() && (#[trigger] tab_bar_groups(
                t,
                Seq::empty(),
                true,
            )[j]).path == p by {
        lemma_groups_complete(t, Seq::empty(), true, p);
        assert(Seq::<usize>::empty() + p =~= p);
    }
    let v = tab_bar_groups(t, Seq::empty(), true);
    assert forall|j: int| 0 <= j < v.len() implies v[j].path.skip(0) == v[j].path by {
        assert(v[j].path.skip(0) =~= v[j].path);
    }
}

} // verus!
