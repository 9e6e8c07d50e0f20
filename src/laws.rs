//! Properties of every well-formed widget tree, proved from the definitions
//! that the tree's operations are specified by.
use vstd::prelude::*;
use crate::widget::{Vec2, WidgetId, WidgetNode, box_contains};
use crate::tree::{
    WidgetTree, rooted, depth_in, on_path, vis_in, draw_node, draw_children, lemma_fuel,
    lemma_same_links,
};

verus! {

/// An ancestor is no deeper than its descendant.
proof fn lemma_path_depth(s: Seq<WidgetNode>, a: WidgetId, m: WidgetId, f: nat)
    requires
        rooted(s, m, f),
        on_path(s, a, m, f),
    ensures
        rooted(s, a, f),
        depth_in(s, a, f) <= depth_in(s, m, f),
    decreases f,
{
    if m != a {
        let p = s[m as int].parent->0;
        lemma_path_depth(s, a, p, (f - 1) as nat);
        lemma_fuel(s, a, (f - 1) as nat, f);
    }
}

/// Each node's parent lists it exactly once, no other node lists it, and the
/// node is not an ancestor of its parent: chains of parents never return.
pub proof fn lemma_tree_invariant(t: &WidgetTree, n: WidgetId)
    requires
        t.wf(),
        t.has(n),
    ensures
        t.parent_of(n) is Some ==> {
            let p = t.parent_of(n)->0;
            &&& t.has(p)
            &&& exists|i: int|
                0 <= i < t.children_of(p).len() && t.children_of(p)[i] == n && forall|j: int|
                    0 <= j < t.children_of(p).len() && #[trigger] t.children_of(p)[j] == n ==> j == i
            &&& !t.is_ancestor_or_self(n, p)
        },
        forall|m: WidgetId|
            t.has(m) && #[trigger] t.children_of(m).contains(n) ==> t.parent_of(n) == Some(m),
{
    let s = t@;
    let b = t.depth_bound();
    assert forall|m: WidgetId| t.has(m) && #[trigger] t.children_of(m).contains(n) implies t.parent_of(n) == Some(m) by {
        let k = choose|k: int| 0 <= k < t.children_of(m).len() && t.children_of(m)[k] == n;
        assert(t.parent_of(t.children_of(m)[k]) == Some(m));
    }
    if t.parent_of(n) is Some {
        let p = t.parent_of(n)->0;
        assert(s[n as int].parent == Some(p));
        assert(t.has(p));
        assert(t.children_of(p).contains(n));
        let i = choose|i: int| 0 <= i < t.children_of(p).len() && t.children_of(p)[i] == n;
        assert forall|j: int| 0 <= j < t.children_of(p).len() && #[trigger] t.children_of(p)[j] == n implies j == i by {
            if j < i {
                assert(t.children_of(p)[j] != t.children_of(p)[i]);
            } else if i < j {
                assert(t.children_of(p)[i] != t.children_of(p)[j]);
            }
        }
        assert(rooted(s, n, b));
        assert(rooted(s, p, (b - 1) as nat));
        lemma_fuel(s, p, (b - 1) as nat, b);
        if on_path(s, n, p, b) {
            lemma_path_depth(s, n, p, b);
        }
    }
}

/// The upward queries are functions of the nodes alone: two well-formed trees
/// with the same nodes answer them alike, so asking again without a change in
/// between gives the same answer.
pub proof fn lemma_queries_depend_on_nodes_only(t1: &WidgetTree, t2: &WidgetTree, n: WidgetId)
    requires
        t1.wf(),
        t2.wf(),
        t1@ == t2@,
        t1.has(n),
    ensures
        t1.absolute_position_of(n) == t2.absolute_position_of(n),
        t1.visible_recursive_of(n) == t2.visible_recursive_of(n),
        t1.resolved_theme(n) == t2.resolved_theme(n),
        t1.font_size_of(n) == t2.font_size_of(n),
        forall|a: WidgetId| t1.is_ancestor_or_self(a, n) == #[trigger] t2.is_ancestor_or_self(a, n),
{
    let b1 = t1.depth_bound();
    let b2 = t2.depth_bound();
    assert(rooted(t1@, n, b1));
    assert(t2.has(n));
    assert(rooted(t2@, n, b2));
    if b1 <= b2 {
        lemma_fuel(t1@, n, b1, b2);
    } else {
        lemma_fuel(t2@, n, b2, b1);
    }
    assert forall|a: WidgetId| t1.is_ancestor_or_self(a, n) == #[trigger] t2.is_ancestor_or_self(a, n) by {
        assert(on_path(t1@, a, n, b1) == on_path(t1@, a, n, b2));
    }
}

/// A node's parent is among its ancestors.
pub proof fn lemma_parent_is_ancestor(t: &WidgetTree, n: WidgetId)
    requires
        t.wf(),
        t.has(n),
        t.parent_of(n) is Some,
    ensures
        t.is_ancestor_or_self(t.parent_of(n)->0, n),
{
    let b = t.depth_bound();
    let p = t.parent_of(n)->0;
    assert(rooted(t@, n, b));
    assert(b > 0);
    assert(on_path(t@, p, p, (b - 1) as nat));
}

/// A node's absolute position is its parent's absolute position plus its own
/// position, and its own position at a root.
pub proof fn lemma_absolute_position_composition(t: &WidgetTree, n: WidgetId)
    requires
        t.wf(),
        t.has(n),
    ensures
        match t.parent_of(n) {
            Some(p) => t.absolute_position_of(n) == (
                t.absolute_position_of(p).0 + t@[n as int].pos.0,
                t.absolute_position_of(p).1 + t@[n as int].pos.1,
            ),
            None => t.absolute_position_of(n) == (t@[n as int].pos.0 as int, t@[n as int].pos.1 as int),
        },
{
    let b = t.depth_bound();
    if t.parent_of(n) is Some {
        let p = t.parent_of(n)->0;
        assert(rooted(t@, n, b));
        lemma_fuel(t@, p, (b - 1) as nat, b);
    }
}

proof fn lemma_vis_path(s: Seq<WidgetNode>, n: WidgetId, f: nat)
    requires
        rooted(s, n, f),
    ensures
        vis_in(s, n, f) <==> forall|a: WidgetId| #[trigger] on_path(s, a, n, f) ==> s[a as int].visible,
    decreases f,
{
    match s[n as int].parent {
        None => {
            if vis_in(s, n, f) {
                assert forall|a: WidgetId| #[trigger] on_path(s, a, n, f) implies s[a as int].visible by {}
            } else {
                assert(on_path(s, n, n, f));
            }
        },
        Some(p) => {
            lemma_vis_path(s, p, (f - 1) as nat);
            if vis_in(s, n, f) {
                assert forall|a: WidgetId| #[trigger] on_path(s, a, n, f) implies s[a as int].visible by {
                    if a != n {
                        assert(on_path(s, a, p, (f - 1) as nat));
                    }
                }
            } else if s[n as int].visible {
                let a = choose|a: WidgetId| #[trigger] on_path(s, a, p, (f - 1) as nat) && !s[a as int].visible;
                assert(on_path(s, a, n, f));
            } else {
                assert(on_path(s, n, n, f));
            }
        },
    }
}

/// A node is visible in effect exactly when it and every ancestor of it are
/// visible.
pub proof fn lemma_visibility_conjunction(t: &WidgetTree, n: WidgetId)
    requires
        t.wf(),
        t.has(n),
    ensures
        t.visible_recursive_of(n) <==> forall|a: WidgetId|
            #[trigger] t.is_ancestor_or_self(a, n) ==> t@[a as int].visible,
{
    lemma_vis_path(t@, n, t.depth_bound());
    if t.visible_recursive_of(n) {
        assert forall|a: WidgetId| #[trigger] t.is_ancestor_or_self(a, n) implies t@[a as int].visible by {
            assert(on_path(t@, a, n, t.depth_bound()));
        }
    } else {
        let a = choose|a: WidgetId| #[trigger] on_path(t@, a, n, t.depth_bound()) && !t@[a as int].visible;
        assert(t.is_ancestor_or_self(a, n));
    }
}

/// Hiding a node hides every node below it in effect, and leaves their own
/// flags as they were.
pub proof fn lemma_hiding_ancestor(t1: &WidgetTree, t2: &WidgetTree, a: WidgetId, n: WidgetId)
    requires
        t1.wf(),
        t2.wf(),
        t1.has(a),
        t1.has(n),
        t2@ == t1@.update(a as int, WidgetNode { visible: false, ..t1@[a as int] }),
        t2.depth_bound() == t1.depth_bound(),
        t1.is_ancestor_or_self(a, n),
    ensures
        !t2.visible_recursive_of(n),
        n != a ==> t2@[n as int].visible == t1@[n as int].visible,
{
    assert forall|m: int| 0 <= m < t1@.len() implies #[trigger] t2@[m].parent == t1@[m].parent by {}
    lemma_same_links(t1@, t2@, n, t1.depth_bound());
    assert(t2.is_ancestor_or_self(a, n));
    lemma_visibility_conjunction(t2, n);
}

/// A node of non-zero size contains its own corner `pos`, and not the corner
/// `pos + size`.
pub proof fn lemma_contains_boundary(w: WidgetNode)
    requires
        w.size.0 > 0,
        w.size.1 > 0,
        w.pos.0 + w.size.0 <= u32::MAX,
        w.pos.1 + w.size.1 <= u32::MAX,
    ensures
        box_contains(w.pos, w.size, w.pos),
        !box_contains(w.pos, w.size, ((w.pos.0 + w.size.0) as u32, (w.pos.1 + w.size.1) as u32)),
{
}

proof fn lemma_leaves_drawn(t: &WidgetTree, cs: Seq<WidgetId>, f: nat)
    requires
        forall|i: int| 0 <= i < cs.len() ==> (#[trigger] t@[cs[i] as int]).children@.len() == 0,
    ensures
        draw_children(t@, cs, f) == cs,
    decreases cs.len(),
{
    if cs.len() > 0 {
        lemma_leaves_drawn(t, cs.drop_last(), f);
        let c = cs.last();
        assert(t@[cs[cs.len() - 1] as int].children@.len() == 0);
        if f > 0 {
            assert(draw_children(t@, t@[c as int].children@, (f - 1) as nat) == Seq::<WidgetId>::empty());
        }
        assert(draw_node(t@, c, f) == Seq::<WidgetId>::empty());
        assert(cs.drop_last().push(c) =~= cs);
    }
}

/// Where no child of `n` has children, drawing `n` draws each child once, in
/// the order of the child list.
pub proof fn lemma_draw_order_of_leaves(t: &WidgetTree, n: WidgetId)
    requires
        t.wf(),
        t.has(n),
        forall|i: int|
            0 <= i < t.children_of(n).len() ==> (#[trigger] t@[t.children_of(n)[i] as int]).children@.len() == 0,
    ensures
        t.draw_order_of(n) == t.children_of(n),
{
    lemma_leaves_drawn(t, t.children_of(n), t.depth_bound());
}

} // verus!
