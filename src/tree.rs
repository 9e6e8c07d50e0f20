//! The widget tree: nodes in an index arena, each child owned by exactly one
//! parent, parents reached through plain index back-references.
use vstd::prelude::*;
use crate::widget::{
    Vec2, WidgetId, WidgetNode, WidgetKind, Theme, LayoutHandle, DEFAULT_FONT_SIZE, box_contains,
};

verus! {

/// Every parent link of `s` names a node of `s`.
pub open spec fn links_closed(s: Seq<WidgetNode>) -> bool {
    forall|m: int|
        0 <= m < s.len() && (#[trigger] s[m].parent) is Some ==> (s[m].parent->0 as int) < s.len()
}

/// Following parent links from `n` reaches a root within `fuel` steps.
pub open spec fn rooted(s: Seq<WidgetNode>, n: WidgetId, fuel: nat) -> bool
    decreases fuel,
{
    match s[n as int].parent {
        None => true,
        Some(p) => if fuel == 0 {
            false
        } else {
            rooted(s, p, (fuel - 1) as nat)
        },
    }
}

/// Number of parent links from `n` to its root, following at most `fuel`.
pub open spec fn depth_in(s: Seq<WidgetNode>, n: WidgetId, fuel: nat) -> nat
    decreases fuel,
{
    match s[n as int].parent {
        None => 0,
        Some(p) => if fuel == 0 {
            0
        } else {
            1 + depth_in(s, p, (fuel - 1) as nat)
        },
    }
}

/// `a` is `n` or one of its ancestors within `fuel` steps.
pub open spec fn on_path(s: Seq<WidgetNode>, a: WidgetId, n: WidgetId, fuel: nat) -> bool
    decreases fuel,
{
    n == a || match s[n as int].parent {
        None => false,
        Some(p) => if fuel == 0 {
            false
        } else {
            on_path(s, a, p, (fuel - 1) as nat)
        },
    }
}

/// Position of `n` in root coordinates: its own position plus its parent's.
pub open spec fn abs_in(s: Seq<WidgetNode>, n: WidgetId, fuel: nat) -> (int, int)
    decreases fuel,
{
    let w = s[n as int];
    match w.parent {
        None => (w.pos.0 as int, w.pos.1 as int),
        Some(p) => if fuel == 0 {
            (w.pos.0 as int, w.pos.1 as int)
        } else {
            let q = abs_in(s, p, (fuel - 1) as nat);
            (q.0 + w.pos.0, q.1 + w.pos.1)
        },
    }
}

/// `n` and every ancestor of it are visible.
pub open spec fn vis_in(s: Seq<WidgetNode>, n: WidgetId, fuel: nat) -> bool
    decreases fuel,
{
    s[n as int].visible && match s[n as int].parent {
        None => true,
        Some(p) => if fuel == 0 {
            false
        } else {
            vis_in(s, p, (fuel - 1) as nat)
        },
    }
}

/// The theme of the nearest node, from `n` upwards, that has one.
pub open spec fn theme_in(s: Seq<WidgetNode>, n: WidgetId, fuel: nat) -> Option<Theme>
    decreases fuel,
{
    if s[n as int].theme is Some {
        s[n as int].theme
    } else {
        match s[n as int].parent {
            None => None,
            Some(p) => if fuel == 0 {
                None
            } else {
                theme_in(s, p, (fuel - 1) as nat)
            },
        }
    }
}

/// The nodes whose `draw` runs when `n` is drawn, in call order: for each child
/// in sequence, the child and then what drawing the child draws.
pub open spec fn draw_node(s: Seq<WidgetNode>, n: WidgetId, fuel: nat) -> Seq<WidgetId>
    decreases fuel, 0nat,
{
    if fuel == 0 {
        Seq::empty()
    } else {
        draw_children(s, s[n as int].children@, (fuel - 1) as nat)
    }
}

/// The draw calls that drawing each of `cs` in sequence makes.
pub open spec fn draw_children(s: Seq<WidgetNode>, cs: Seq<WidgetId>, fuel: nat) -> Seq<WidgetId>
    decreases fuel, cs.len(),
{
    if cs.len() == 0 {
        Seq::empty()
    } else {
        draw_children(s, cs.drop_last(), fuel) + seq![cs.last()] + draw_node(s, cs.last(), fuel)
    }
}

/// With enough fuel to reach the root, more fuel changes nothing.
pub proof fn lemma_fuel(s: Seq<WidgetNode>, n: WidgetId, f1: nat, f2: nat)
    requires
        rooted(s, n, f1),
        f1 <= f2,
    ensures
        rooted(s, n, f2),
        depth_in(s, n, f1) == depth_in(s, n, f2),
        depth_in(s, n, f1) <= f1,
        abs_in(s, n, f1) == abs_in(s, n, f2),
        vis_in(s, n, f1) == vis_in(s, n, f2),
        theme_in(s, n, f1) == theme_in(s, n, f2),
        forall|a: WidgetId| on_path(s, a, n, f1) == #[trigger] on_path(s, a, n, f2),
    decreases f1,
{
    match s[n as int].parent {
        None => {},
        Some(p) => {
            lemma_fuel(s, p, (f1 - 1) as nat, (f2 - 1) as nat);
            assert forall|a: WidgetId| on_path(s, a, n, f1) == #[trigger] on_path(s, a, n, f2) by {
                assert(on_path(s, a, p, (f1 - 1) as nat) == on_path(s, a, p, (f2 - 1) as nat));
            }
        },
    }
}

/// Chains of parent links only read the links of the nodes on them.
pub(crate) proof fn lemma_same_links(s1: Seq<WidgetNode>, s2: Seq<WidgetNode>, n: WidgetId, f: nat)
    requires
        links_closed(s1),
        (n as int) < s1.len(),
        s1.len() <= s2.len(),
        forall|m: int| 0 <= m < s1.len() ==> #[trigger] s2[m].parent == s1[m].parent,
    ensures
        rooted(s2, n, f) == rooted(s1, n, f),
        depth_in(s2, n, f) == depth_in(s1, n, f),
        forall|a: WidgetId| on_path(s2, a, n, f) == #[trigger] on_path(s1, a, n, f),
    decreases f,
{
    assert(s2[n as int].parent == s1[n as int].parent);
    match s1[n as int].parent {
        None => {},
        Some(p) => {
            if f > 0 {
                lemma_same_links(s1, s2, p, (f - 1) as nat);
                assert forall|a: WidgetId| on_path(s2, a, n, f) == #[trigger] on_path(s1, a, n, f) by {
                    assert(on_path(s2, a, p, (f - 1) as nat) == on_path(s1, a, p, (f - 1) as nat));
                }
            }
        },
    }
}

/// Changing the link of `c` leaves every chain that does not pass `c` as it was.
proof fn lemma_off_path(s1: Seq<WidgetNode>, s2: Seq<WidgetNode>, c: WidgetId, n: WidgetId, f: nat)
    requires
        links_closed(s1),
        (n as int) < s1.len(),
        s1.len() == s2.len(),
        forall|m: int| 0 <= m < s1.len() && m != c ==> #[trigger] s2[m].parent == s1[m].parent,
        !on_path(s1, c, n, f),
    ensures
        rooted(s2, n, f) == rooted(s1, n, f),
        !on_path(s2, c, n, f),
    decreases f,
{
    assert(s2[n as int].parent == s1[n as int].parent);
    match s1[n as int].parent {
        None => {},
        Some(p) => {
            if f > 0 {
                lemma_off_path(s1, s2, c, p, (f - 1) as nat);
            }
        },
    }
}

/// Hanging `c` below a node `p` that reaches a root within `b` steps lengthens
/// every chain by at most `b + 1`.
proof fn lemma_graft(
    s1: Seq<WidgetNode>,
    s2: Seq<WidgetNode>,
    c: WidgetId,
    p: WidgetId,
    b: nat,
    n: WidgetId,
    f: nat,
)
    requires
        links_closed(s1),
        (n as int) < s1.len(),
        s1.len() == s2.len(),
        forall|m: int| 0 <= m < s1.len() && m != c ==> #[trigger] s2[m].parent == s1[m].parent,
        s2[c as int].parent == Some(p),
        rooted(s2, p, b),
        rooted(s1, n, f),
    ensures
        rooted(s2, n, f + 1 + b),
    decreases f,
{
    if n == c {
        lemma_fuel(s2, p, b, f + b);
    } else {
        assert(s2[n as int].parent == s1[n as int].parent);
        match s1[n as int].parent {
            None => {},
            Some(q) => {
                lemma_graft(s1, s2, c, p, b, q, (f - 1) as nat);
            },
        }
    }
}

/// Making `c` a root keeps every chain within its old length.
proof fn lemma_cut(s1: Seq<WidgetNode>, s2: Seq<WidgetNode>, c: WidgetId, n: WidgetId, f: nat)
    requires
        links_closed(s1),
        (n as int) < s1.len(),
        s1.len() == s2.len(),
        forall|m: int| 0 <= m < s1.len() && m != c ==> #[trigger] s2[m].parent == s1[m].parent,
        s2[c as int].parent is None,
        rooted(s1, n, f),
    ensures
        rooted(s2, n, f),
    decreases f,
{
    if n != c {
        assert(s2[n as int].parent == s1[n as int].parent);
        match s1[n as int].parent {
            None => {},
            Some(q) => {
                lemma_cut(s1, s2, c, q, (f - 1) as nat);
            },
        }
    }
}

/// `cs` with the occurrence of `c` taken out, if there is one.
pub open spec fn without(cs: Seq<WidgetId>, c: WidgetId) -> Seq<WidgetId> {
    if cs.contains(c) {
        cs.remove(cs.index_of(c))
    } else {
        cs
    }
}

/// `a` and `b` agree on everything but their parent and child links.
pub open spec fn same_attrs(a: WidgetNode, b: WidgetNode) -> bool {
    &&& a.id == b.id
    &&& a.kind == b.kind
    &&& a.pos == b.pos
    &&& a.size == b.size
    &&& a.fixed_size == b.fixed_size
    &&& a.font_size == b.font_size
    &&& a.theme == b.theme
    &&& a.layout == b.layout
    &&& a.enabled == b.enabled
    &&& a.visible == b.visible
    &&& a.focused == b.focused
    &&& a.tooltip == b.tooltip
}

/// `s2` is `s1` with `c` taken out of its parent's child list and, where
/// `p` names a new parent, appended to that parent's child list.
pub open spec fn relinked(s1: Seq<WidgetNode>, s2: Seq<WidgetNode>, c: WidgetId, p: Option<WidgetId>) -> bool {
    &&& s2.len() == s1.len()
    &&& forall|m: int| 0 <= m < s1.len() ==> same_attrs(#[trigger] s2[m], s1[m])
    &&& s2[c as int].parent == p
    &&& forall|m: int| 0 <= m < s1.len() && m != c ==> (#[trigger] s2[m]).parent == s1[m].parent
    &&& forall|m: int|
        0 <= m < s1.len() ==> (#[trigger] s2[m]).children@ == if p == Some(m as WidgetId) {
            without(s1[m].children@, c).push(c)
        } else {
            without(s1[m].children@, c)
        }
}

/// `q`, given in the coordinates of `w`'s parent, in `w`'s own coordinates.
pub open spec fn local_to(w: WidgetNode, q: Vec2) -> Vec2 {
    ((q.0 - w.pos.0) as u32, (q.1 - w.pos.1) as u32)
}

/// The topmost visible node among `cs` and their descendants under `q`, given
/// in the coordinates of the nodes of `cs`'s parent: later nodes of `cs` lie
/// on top, and within a node its deepest hit wins over the node itself.
pub open spec fn hit_children(s: Seq<WidgetNode>, cs: Seq<WidgetId>, q: Vec2, fuel: nat) -> Option<WidgetId>
    decreases fuel, cs.len(),
{
    if cs.len() == 0 {
        None
    } else {
        let c = cs.last();
        let w = s[c as int];
        if w.visible && box_contains(w.pos, w.size, q) {
            if fuel == 0 {
                Some(c)
            } else {
                match hit_children(s, w.children@, local_to(w, q), (fuel - 1) as nat) {
                    Some(d) => Some(d),
                    None => Some(c),
                }
            }
        } else {
            hit_children(s, cs.drop_last(), q, fuel)
        }
    }
}

/// Why a structural edit was refused; the tree is then left as it was.
#[derive(Clone, Copy, Debug, PartialEq, Eq, Structural)]
pub enum TreeError {
    /// A handle names no node of the tree.
    UnknownWidget,
    /// The child is the parent or one of its ancestors.
    WouldCreateCycle,
    /// A screen is always a root.
    ScreenIsRoot,
}

/// The arena of nodes. A handle stays valid for the life of the tree.
pub struct WidgetTree {
    nodes: Vec<WidgetNode>,
    bound: Ghost<nat>,
}

impl View for WidgetTree {
    type V = Seq<WidgetNode>;

    closed spec fn view(&self) -> Seq<WidgetNode> {
        self.nodes@
    }
}

impl WidgetTree {
    /// A number of steps within which every chain of parent links ends.
    pub closed spec fn depth_bound(&self) -> nat {
        self.bound@
    }

    pub open spec fn has(&self, n: WidgetId) -> bool {
        (n as int) < self@.len()
    }

    pub open spec fn parent_of(&self, n: WidgetId) -> Option<WidgetId> {
        self@[n as int].parent
    }

    pub open spec fn children_of(&self, n: WidgetId) -> Seq<WidgetId> {
        self@[n as int].children@
    }

    /// Parent and child links agree, each child list holds a node once, and no
    /// node is its own ancestor.
    pub open spec fn wf(&self) -> bool {
        &&& self@.len() <= usize::MAX
        &&& links_closed(self@)
        &&& forall|n: WidgetId|
            #[trigger] self.has(n) && self.parent_of(n) is Some ==> self.children_of(
                self.parent_of(n)->0,
            ).contains(n)
        &&& forall|p: WidgetId, i: int|
            self.has(p) && 0 <= i < self.children_of(p).len() ==> self.has(
                #[trigger] self.children_of(p)[i],
            ) && self.parent_of(self.children_of(p)[i]) == Some(p)
        &&& forall|p: WidgetId, i: int, j: int|
            self.has(p) && 0 <= i < j < self.children_of(p).len() ==> #[trigger] self.children_of(
                p,
            )[i] != #[trigger] self.children_of(p)[j]
        &&& forall|n: WidgetId| #[trigger] self.has(n) ==> rooted(self@, n, self.depth_bound())
    }

    /// Number of parent links from `n` up to its root.
    pub open spec fn depth(&self, n: WidgetId) -> nat {
        depth_in(self@, n, self.depth_bound())
    }

    /// `a` is `n` or an ancestor of `n`.
    pub open spec fn is_ancestor_or_self(&self, a: WidgetId, n: WidgetId) -> bool {
        on_path(self@, a, n, self.depth_bound())
    }

    pub open spec fn absolute_position_of(&self, n: WidgetId) -> (int, int) {
        abs_in(self@, n, self.depth_bound())
    }

    pub open spec fn visible_recursive_of(&self, n: WidgetId) -> bool {
        vis_in(self@, n, self.depth_bound())
    }

    pub open spec fn resolved_theme(&self, n: WidgetId) -> Option<Theme> {
        theme_in(self@, n, self.depth_bound())
    }

    /// The node's own font size, else its resolved theme's, else the default.
    pub open spec fn font_size_of(&self, n: WidgetId) -> u32 {
        match self@[n as int].font_size {
            Some(f) => f,
            None => match self.resolved_theme(n) {
                Some(t) => t.standard_font_size,
                None => DEFAULT_FONT_SIZE,
            },
        }
    }

    /// The topmost visible descendant of `n` under `q`, given in `n`'s own
    /// coordinates.
    pub open spec fn widget_at_of(&self, n: WidgetId, q: Vec2) -> Option<WidgetId> {
        hit_children(self@, self.children_of(n), q, self.depth_bound() + 1)
    }

    /// The nodes drawn, in order, when `n` is drawn.
    pub open spec fn draw_order_of(&self, n: WidgetId) -> Seq<WidgetId> {
        draw_node(self@, n, self.depth_bound() + 1)
    }

    /// A tree whose links are those of a well-formed one, with nodes possibly
    /// added at the end as roots, is well formed under the same bound.
    proof fn lemma_links_frame(t1: &WidgetTree, t2: &WidgetTree)
        requires
            t1.wf(),
            t1@.len() <= t2@.len(),
            t2@.len() <= usize::MAX,
            t2.depth_bound() == t1.depth_bound(),
            forall|m: int|
                0 <= m < t1@.len() ==> (#[trigger] t2@[m]).parent == t1@[m].parent
                    && t2@[m].children@ == t1@[m].children@,
            forall|m: int|
                t1@.len() <= m < t2@.len() ==> (#[trigger] t2@[m]).parent is None
                    && t2@[m].children@.len() == 0,
        ensures
            t2.wf(),
    {
        assert forall|n: WidgetId| #[trigger] t2.has(n) implies rooted(t2@, n, t2.depth_bound()) by {
            if t1.has(n) {
                lemma_same_links(t1@, t2@, n, t1.depth_bound());
            }
        }
        assert forall|n: WidgetId|
            #[trigger] t2.has(n) && t2.parent_of(n) is Some implies t2.children_of(
                t2.parent_of(n)->0,
            ).contains(n) by {
            assert(t1.has(n));
            let q = t1.parent_of(n)->0;
            assert(t1@[n as int].parent == Some(q));
            assert(t1.has(q));
            assert(t2.children_of(q) == t1.children_of(q));
        }
        assert forall|p: WidgetId, i: int|
            t2.has(p) && 0 <= i < t2.children_of(p).len() implies t2.has(
                #[trigger] t2.children_of(p)[i],
            ) && t2.parent_of(t2.children_of(p)[i]) == Some(p) by {
            assert(t1.has(p));
            assert(t1.children_of(p)[i] == t2.children_of(p)[i]);
        }
        assert forall|p: WidgetId, i: int, j: int|
            t2.has(p) && 0 <= i < j < t2.children_of(p).len() implies #[trigger] t2.children_of(
                p,
            )[i] != #[trigger] t2.children_of(p)[j] by {
            assert(t1.has(p));
            assert(t1.children_of(p)[i] == t2.children_of(p)[i]);
            assert(t1.children_of(p)[j] == t2.children_of(p)[j]);
        }
    }

    /// Adds a detached node with neutral state and returns its handle.
    pub fn add_widget(&mut self, id: String, kind: WidgetKind) -> (r: WidgetId)
        requires
            old(self).wf(),
            old(self)@.len() < usize::MAX,
        ensures
            final(self).wf(),
            r == old(self)@.len(),
            final(self)@.len() == old(self)@.len() + 1,
            forall|i: int| 0 <= i < old(self)@.len() ==> #[trigger] final(self)@[i] == old(self)@[i],
            WidgetNode::fresh(id@, kind, final(self)@[r as int]),
            final(self).depth_bound() == old(self).depth_bound(),
    {
        let r = self.nodes.len();
        let w = WidgetNode::new(id, kind);
        self.nodes.push(w);
        proof {
            Self::lemma_links_frame(old(self), self);
        }
        r
    }

    pub fn set_pos(&mut self, n: WidgetId, p: Vec2)
        requires
            old(self).wf(),
            old(self).has(n),
        ensures
            final(self).wf(),
            final(self)@ == old(self)@.update(n as int, WidgetNode { pos: p, ..old(self)@[n as int] }),
            final(self).depth_bound() == old(self).depth_bound(),
    {
        self.nodes[n].pos = p;
        proof {
            Self::lemma_links_frame(old(self), self);
        }
    }

    pub fn set_size(&mut self, n: WidgetId, s: Vec2)
        requires
            old(self).wf(),
            old(self).has(n),
        ensures
            final(self).wf(),
            final(self)@ == old(self)@.update(n as int, WidgetNode { size: s, ..old(self)@[n as int] }),
            final(self).depth_bound() == old(self).depth_bound(),
    {
        self.nodes[n].size = s;
        proof {
            Self::lemma_links_frame(old(self), self);
        }
    }

    pub fn set_fixed_size(&mut self, n: WidgetId, s: Vec2)
        requires
            old(self).wf(),
            old(self).has(n),
        ensures
            final(self).wf(),
            final(self)@ == old(self)@.update(n as int, WidgetNode { fixed_size: s, ..old(self)@[n as int] }),
            final(self).depth_bound() == old(self).depth_bound(),
    {
        self.nodes[n].fixed_size = s;
        proof {
            Self::lemma_links_frame(old(self), self);
        }
    }

    pub fn set_font_size(&mut self, n: WidgetId, f: Option<u32>)
        requires
            old(self).wf(),
            old(self).has(n),
        ensures
            final(self).wf(),
            final(self)@ == old(self)@.update(n as int, WidgetNode { font_size: f, ..old(self)@[n as int] }),
            final(self).depth_bound() == old(self).depth_bound(),
    {
        self.nodes[n].font_size = f;
        proof {
            Self::lemma_links_frame(old(self), self);
        }
    }

    pub fn set_theme(&mut self, n: WidgetId, theme: Option<Theme>)
        requires
            old(self).wf(),
            old(self).has(n),
        ensures
            final(self).wf(),
            final(self)@ == old(self)@.update(n as int, WidgetNode { theme: theme, ..old(self)@[n as int] }),
            final(self).depth_bound() == old(self).depth_bound(),
    {
        self.nodes[n].theme = theme;
        proof {
            Self::lemma_links_frame(old(self), self);
        }
    }

    pub fn set_layout(&mut self, n: WidgetId, layout: Option<LayoutHandle>)
        requires
            old(self).wf(),
            old(self).has(n),
        ensures
            final(self).wf(),
            final(self)@ == old(self)@.update(n as int, WidgetNode { layout: layout, ..old(self)@[n as int] }),
            final(self).depth_bound() == old(self).depth_bound(),
    {
        self.nodes[n].layout = layout;
        proof {
            Self::lemma_links_frame(old(self), self);
        }
    }

    pub fn set_enabled(&mut self, n: WidgetId, enabled: bool)
        requires
            old(self).wf(),
            old(self).has(n),
        ensures
            final(self).wf(),
            final(self)@ == old(self)@.update(n as int, WidgetNode { enabled: enabled, ..old(self)@[n as int] }),
            final(self).depth_bound() == old(self).depth_bound(),
    {
        self.nodes[n].enabled = enabled;
        proof {
            Self::lemma_links_frame(old(self), self);
        }
    }

    pub fn set_visible(&mut self, n: WidgetId, visible: bool)
        requires
            old(self).wf(),
            old(self).has(n),
        ensures
            final(self).wf(),
            final(self)@ == old(self)@.update(n as int, WidgetNode { visible: visible, ..old(self)@[n as int] }),
            final(self).depth_bound() == old(self).depth_bound(),
    {
        self.nodes[n].visible = visible;
        proof {
            Self::lemma_links_frame(old(self), self);
        }
    }

    pub fn set_focused(&mut self, n: WidgetId, focused: bool)
        requires
            old(self).wf(),
            old(self).has(n),
        ensures
            final(self).wf(),
            final(self)@ == old(self)@.update(n as int, WidgetNode { focused: focused, ..old(self)@[n as int] }),
            final(self).depth_bound() == old(self).depth_bound(),
    {
        self.nodes[n].focused = focused;
        proof {
            Self::lemma_links_frame(old(self), self);
        }
    }

    pub fn set_tooltip(&mut self, n: WidgetId, tooltip: String)
        requires
            old(self).wf(),
            old(self).has(n),
        ensures
            final(self).wf(),
            final(self)@ == old(self)@.update(n as int, WidgetNode { tooltip: tooltip, ..old(self)@[n as int] }),
            final(self).depth_bound() == old(self).depth_bound(),
    {
        self.nodes[n].tooltip = tooltip;
        proof {
            Self::lemma_links_frame(old(self), self);
        }
    }

    /// A copy of the child list of `n`, in order.
    pub fn children(&self, n: WidgetId) -> (r: Vec<WidgetId>)
        requires
            self.has(n),
        ensures
            r@ == self.children_of(n),
    {
        self.nodes[n].children.clone()
    }

    pub fn parent(&self, n: WidgetId) -> (r: Option<WidgetId>)
        requires
            self.has(n),
        ensures
            r == self.parent_of(n),
    {
        self.nodes[n].parent
    }

    fn abs_rec(&self, n: WidgetId, Ghost(f): Ghost<nat>) -> (r: Vec2)
        requires
            self.wf(),
            self.has(n),
            rooted(self@, n, f),
            abs_in(self@, n, f).0 <= u32::MAX,
            abs_in(self@, n, f).1 <= u32::MAX,
        ensures
            r.0 == abs_in(self@, n, f).0,
            r.1 == abs_in(self@, n, f).1,
        decreases f,
    {
        let w = &self.nodes[n];
        match w.parent {
            None => w.pos,
            Some(p) => {
                proof {
                    assert(self@[n as int].parent == Some(p));
                }
                let q = self.abs_rec(p, Ghost((f - 1) as nat));
                (q.0 + w.pos.0, q.1 + w.pos.1)
            },
        }
    }

    /// Position of `n` in the root's coordinates: its own position added to its
    /// parent's absolute position, or its own position at a root.
    pub fn absolute_position(&self, n: WidgetId) -> (r: Vec2)
        requires
            self.wf(),
            self.has(n),
            self.absolute_position_of(n).0 <= u32::MAX,
            self.absolute_position_of(n).1 <= u32::MAX,
        ensures
            r.0 == self.absolute_position_of(n).0,
            r.1 == self.absolute_position_of(n).1,
    {
        self.abs_rec(n, Ghost(self.depth_bound()))
    }

    fn vis_rec(&self, n: WidgetId, Ghost(f): Ghost<nat>) -> (r: bool)
        requires
            self.wf(),
            self.has(n),
            rooted(self@, n, f),
        ensures
            r == vis_in(self@, n, f),
        decreases f,
    {
        let w = &self.nodes[n];
        if !w.visible {
            return false;
        }
        match w.parent {
            None => true,
            Some(p) => {
                proof {
                    assert(self@[n as int].parent == Some(p));
                }
                self.vis_rec(p, Ghost((f - 1) as nat))
            },
        }
    }

    /// Whether `n` and all of its ancestors are visible.
    pub fn visible_recursive(&self, n: WidgetId) -> (r: bool)
        requires
            self.wf(),
            self.has(n),
        ensures
            r == self.visible_recursive_of(n),
    {
        self.vis_rec(n, Ghost(self.depth_bound()))
    }

    fn theme_rec(&self, n: WidgetId, Ghost(f): Ghost<nat>) -> (r: Option<Theme>)
        requires
            self.wf(),
            self.has(n),
            rooted(self@, n, f),
        ensures
            r == theme_in(self@, n, f),
        decreases f,
    {
        let w = &self.nodes[n];
        match w.theme {
            Some(t) => Some(t),
            None => match w.parent {
                None => None,
                Some(p) => {
                    proof {
                        assert(self@[n as int].parent == Some(p));
                    }
                    self.theme_rec(p, Ghost((f - 1) as nat))
                },
            },
        }
    }

    /// The theme that `n` uses: its own, else that of its nearest ancestor
    /// that has one.
    pub fn theme(&self, n: WidgetId) -> (r: Option<Theme>)
        requires
            self.wf(),
            self.has(n),
        ensures
            r == self.resolved_theme(n),
    {
        self.theme_rec(n, Ghost(self.depth_bound()))
    }

    /// The font size of `n`, resolved through its theme, else the default.
    pub fn font_size(&self, n: WidgetId) -> (r: u32)
        requires
            self.wf(),
            self.has(n),
        ensures
            r == self.font_size_of(n),
    {
        match self.nodes[n].font_size {
            Some(f) => f,
            None => match self.theme(n) {
                Some(t) => t.standard_font_size,
                None => DEFAULT_FONT_SIZE,
            },
        }
    }

    fn path_rec(&self, a: WidgetId, n: WidgetId, Ghost(f): Ghost<nat>) -> (r: bool)
        requires
            self.wf(),
            self.has(n),
            rooted(self@, n, f),
        ensures
            r == on_path(self@, a, n, f),
        decreases f,
    {
        if n == a {
            return true;
        }
        match self.nodes[n].parent {
            None => false,
            Some(p) => {
                proof {
                    assert(self@[n as int].parent == Some(p));
                }
                self.path_rec(a, p, Ghost((f - 1) as nat))
            },
        }
    }

    /// Whether `a` is `n` or one of its ancestors.
    pub fn ancestor_or_self(&self, a: WidgetId, n: WidgetId) -> (r: bool)
        requires
            self.wf(),
            self.has(n),
        ensures
            r == self.is_ancestor_or_self(a, n),
    {
        self.path_rec(a, n, Ghost(self.depth_bound()))
    }

    /// A node that has no parent is in no child list.
    proof fn lemma_orphan_unlisted(&self, c: WidgetId)
        requires
            self.wf(),
            self.has(c),
            self.parent_of(c) is None,
        ensures
            forall|m: WidgetId| self.has(m) ==> !(#[trigger] self.children_of(m)).contains(c),
    {
        assert forall|m: WidgetId| self.has(m) implies !(#[trigger] self.children_of(m)).contains(c) by {
            if self.children_of(m).contains(c) {
                let k = choose|k: int| 0 <= k < self.children_of(m).len() && self.children_of(m)[k] == c;
                assert(self.parent_of(self.children_of(m)[k]) == Some(m));
            }
        }
    }

    fn unlink(&mut self, c: WidgetId)
        requires
            old(self).wf(),
            old(self).has(c),
        ensures
            final(self).wf(),
            relinked(old(self)@, final(self)@, c, None),
            final(self).depth_bound() == old(self).depth_bound(),
    {
        let ghost s1 = self@;
        match self.nodes[c].parent {
            None => {
                proof {
                    self.lemma_orphan_unlisted(c);
                    assert forall|m: int| 0 <= m < s1.len() implies (#[trigger] s1[m]).children@ == without(s1[m].children@, c) by {
                        let mu = m as WidgetId;
                        assert(self.has(mu));
                        assert(!self.children_of(mu).contains(c));
                    }
                }
            },
            Some(q) => {
                proof {
                    assert(s1[c as int].parent == Some(q));
                    assert(self.has(q));
                    assert(self.children_of(q).contains(c));
                }
                let ghost cs = self.children_of(q);
                let ghost idx = cs.index_of(c);
                let clen: usize = self.nodes[q].children.len();
                let mut i: usize = 0;
                while self.nodes[q].children[i] != c
                    invariant
                        cs.len() == clen,
                        self@ == s1,
                        self.wf(),
                        self.has(q),
                        cs == self.children_of(q),
                        0 <= idx < cs.len(),
                        cs[idx] == c,
                        i <= idx,
                    decreases idx - i,
                {
                    proof {
                        assert(i != idx);
                    }
                    i = i + 1;
                }
                proof {
                    if i != idx {
                        if i < idx {
                            assert(cs[i as int] != cs[idx]);
                        } else {
                            assert(cs[idx] != cs[i as int]);
                        }
                    }
                    assert(i == idx);
                }
                self.nodes[q].children.remove(i);
                self.nodes[c].parent = None;
                proof {
                    let s2 = self@;
                    let rs = cs.remove(i as int);
                    assert(s2[q as int].children@ == rs);
                    assert forall|m: int| 0 <= m < s1.len() implies (#[trigger] s2[m]).children@ == without(s1[m].children@, c) by {
                        let mu = m as WidgetId;
                        if mu != q {
                            if s1[m].children@.contains(c) {
                                assert(old(self).has(mu));
                                let k = choose|k: int| 0 <= k < s1[m].children@.len() && s1[m].children@[k] == c;
                                assert(old(self).parent_of(old(self).children_of(mu)[k]) == Some(mu));
                            }
                        }
                    }
                    assert forall|n: WidgetId| #[trigger] self.has(n) implies rooted(s2, n, self.depth_bound()) by {
                        assert(old(self).has(n));
                        lemma_cut(s1, s2, c, n, self.depth_bound());
                    }
                    assert forall|n: WidgetId|
                        #[trigger] self.has(n) && self.parent_of(n) is Some implies self.children_of(
                            self.parent_of(n)->0,
                        ).contains(n) by {
                        let r = self.parent_of(n)->0;
                        assert(s1[n as int].parent == Some(r));
                        assert(old(self).has(n));
                        assert(old(self).children_of(r).contains(n));
                        if r == q {
                            let j = choose|j: int| 0 <= j < cs.len() && cs[j] == n;
                            if j < i {
                                assert(rs[j] == n);
                            } else {
                                assert(rs[j - 1] == n);
                            }
                        }
                    }
                    assert forall|p: WidgetId, k: int|
                        self.has(p) && 0 <= k < self.children_of(p).len() implies self.has(
                            #[trigger] self.children_of(p)[k],
                        ) && self.parent_of(self.children_of(p)[k]) == Some(p) by {
                        if p == q {
                            if k < i {
                                assert(rs[k] == cs[k]);
                                assert(old(self).children_of(p)[k] != c);
                            } else {
                                assert(rs[k] == cs[k + 1]);
                                assert(old(self).children_of(p)[k + 1] != c);
                            }
                        } else {
                            let e = old(self).children_of(p)[k];
                            assert(old(self).parent_of(e) == Some(p));
                        }
                    }
                    assert forall|p: WidgetId, k: int, j: int|
                        self.has(p) && 0 <= k < j < self.children_of(p).len() implies #[trigger] self.children_of(
                            p,
                        )[k] != #[trigger] self.children_of(p)[j] by {
                        if p == q {
                            let k2 = if k < i { k } else { k + 1 };
                            let j2 = if j < i { j } else { j + 1 };
                            assert(rs[k] == cs[k2]);
                            assert(rs[j] == cs[j2]);
                            assert(old(self).children_of(p)[k2] != old(self).children_of(p)[j2]);
                        } else {
                            assert(old(self).children_of(p)[k] != old(self).children_of(p)[j]);
                        }
                    }
                }
            },
        }
    }

    /// Takes `c` out of its parent's child list and makes it a root. A root is
    /// left as it is.
    pub fn detach(&mut self, c: WidgetId) -> (r: Result<(), TreeError>)
        requires
            old(self).wf(),
        ensures
            final(self).wf(),
            r is Ok <==> old(self).has(c),
            r is Ok ==> relinked(old(self)@, final(self)@, c, None),
            r is Err ==> r == Err::<(), TreeError>(TreeError::UnknownWidget) && *final(self) == *old(self),
            final(self).depth_bound() == old(self).depth_bound(),
    {
        if c >= self.nodes.len() {
            return Err(TreeError::UnknownWidget);
        }
        self.unlink(c);
        Ok(())
    }

    /// Moves `c` to the end of `p`'s child list, taking it out of its former
    /// parent's list in the same step. Refused, with the tree unchanged, where
    /// a handle is unknown, `c` is a screen, or `c` is `p` or an ancestor of it.
    pub fn attach(&mut self, c: WidgetId, p: WidgetId) -> (r: Result<(), TreeError>)
        requires
            old(self).wf(),
        ensures
            final(self).wf(),
            r == Err::<(), TreeError>(TreeError::UnknownWidget) <==> !old(self).has(c) || !old(self).has(p),
            r == Err::<(), TreeError>(TreeError::ScreenIsRoot) <==> old(self).has(c) && old(self).has(p)
                && old(self)@[c as int].kind == WidgetKind::Screen,
            r == Err::<(), TreeError>(TreeError::WouldCreateCycle) <==> old(self).has(c) && old(self).has(p)
                && old(self)@[c as int].kind != WidgetKind::Screen && old(self).is_ancestor_or_self(c, p),
            r is Ok <==> old(self).has(c) && old(self).has(p) && old(self)@[c as int].kind
                != WidgetKind::Screen && !old(self).is_ancestor_or_self(c, p),
            r is Ok ==> relinked(old(self)@, final(self)@, c, Some(p)),
            r is Err ==> *final(self) == *old(self),
    {
        if c >= self.nodes.len() || p >= self.nodes.len() {
            return Err(TreeError::UnknownWidget);
        }
        match self.nodes[c].kind {
            WidgetKind::Screen => {
                return Err(TreeError::ScreenIsRoot);
            },
            _ => {},
        }
        proof {
            assert(self.has(p));
        }
        if self.path_rec(c, p, Ghost(self.depth_bound())) {
            return Err(TreeError::WouldCreateCycle);
        }
        let ghost s0 = self@;
        let ghost b = self.depth_bound();
        self.unlink(c);
        let ghost s1 = self@;
        proof {
            self.lemma_orphan_unlisted(c);
        }
        let ghost mid = *self;
        self.nodes[p].children.push(c);
        self.nodes[c].parent = Some(p);
        self.bound = Ghost(2 * b + 1);
        proof {
            let s2 = self@;
            assert(old(self).has(p));
            assert(rooted(s0, p, b));
            lemma_off_path(s0, s1, c, p, b);
            lemma_off_path(s1, s2, c, p, b);
            assert forall|n: WidgetId| #[trigger] self.has(n) implies rooted(s2, n, self.depth_bound()) by {
                assert(mid.has(n));
                lemma_graft(s1, s2, c, p, b, n, b);
            }
            assert(s2[p as int].children@ == s1[p as int].children@.push(c));
            assert forall|n: WidgetId|
                #[trigger] self.has(n) && self.parent_of(n) is Some implies self.children_of(
                    self.parent_of(n)->0,
                ).contains(n) by {
                if n == c {
                    assert(self.children_of(p)[self.children_of(p).len() - 1] == c);
                } else {
                    let r = self.parent_of(n)->0;
                    assert(mid.has(n));
                    assert(mid.children_of(r).contains(n));
                    let j = choose|j: int| 0 <= j < mid.children_of(r).len() && mid.children_of(r)[j] == n;
                    assert(self.children_of(r)[j] == n);
                }
            }
            assert forall|q: WidgetId, k: int|
                self.has(q) && 0 <= k < self.children_of(q).len() implies self.has(
                    #[trigger] self.children_of(q)[k],
                ) && self.parent_of(self.children_of(q)[k]) == Some(q) by {
                assert(mid.has(q));
                if q != p || k < mid.children_of(q).len() {
                    let e = mid.children_of(q)[k];
                    assert(mid.parent_of(e) == Some(q));
                    assert(!mid.children_of(q).contains(c));
                    assert(e != c);
                }
            }
            assert forall|q: WidgetId, k: int, j: int|
                self.has(q) && 0 <= k < j < self.children_of(q).len() implies #[trigger] self.children_of(
                    q,
                )[k] != #[trigger] self.children_of(q)[j] by {
                assert(mid.has(q));
                if q != p || j < mid.children_of(q).len() {
                    assert(mid.children_of(q)[k] != mid.children_of(q)[j]);
                } else {
                    assert(!mid.children_of(q).contains(c));
                    assert(mid.children_of(q)[k] != c);
                }
            }
            assert forall|m: int| 0 <= m < s0.len() implies (#[trigger] s2[m]).children@ == if Some(p) == Some(m as WidgetId) {
                without(s0[m].children@, c).push(c)
            } else {
                without(s0[m].children@, c)
            } by {
                assert(s1[m].children@ == without(s0[m].children@, c));
            }
        }
        Ok(())
    }

    fn draw_rec(&self, n: WidgetId, out: &mut Vec<WidgetId>, Ghost(f): Ghost<nat>)
        requires
            self.wf(),
            self.has(n),
            self.depth(n) + f > self.depth_bound(),
        ensures
            final(out)@ == old(out)@ + draw_node(self@, n, f),
        decreases f,
    {
        proof {
            lemma_fuel(self@, n, self.depth_bound(), self.depth_bound());
        }
        let ghost start = out@;
        let ghost cs = self.children_of(n);
        let len: usize = self.nodes[n].children.len();
        let mut i: usize = 0;
        while i < len
            invariant
                self.wf(),
                self.has(n),
                0 < f,
                cs == self.children_of(n),
                len == cs.len(),
                0 <= i <= len,
                self.depth(n) + f > self.depth_bound(),
                out@ == start + draw_children(self@, cs.subrange(0, i as int), (f - 1) as nat),
            decreases len - i,
        {
            let c = self.nodes[n].children[i];
            proof {
                let b = self.depth_bound();
                assert(self.has(c) && self.parent_of(c) == Some(n));
                assert(rooted(self@, c, b));
                assert(rooted(self@, n, (b - 1) as nat));
                lemma_fuel(self@, n, (b - 1) as nat, b);
                assert(self.depth(c) == self.depth(n) + 1);
            }
            out.push(c);
            self.draw_rec(c, out, Ghost((f - 1) as nat));
            proof {
                let sub = cs.subrange(0, i + 1);
                assert(sub.drop_last() =~= cs.subrange(0, i as int));
                assert(sub.last() == c);
                assert(out@ =~= start + draw_children(self@, sub, (f - 1) as nat));
            }
            i = i + 1;
        }
        proof {
            assert(cs.subrange(0, len as int) =~= cs);
        }
    }

    /// The nodes whose `draw` runs when `n` is drawn, in call order: each child
    /// in sequence, followed by what drawing that child draws.
    pub fn draw_order(&self, n: WidgetId) -> (r: Vec<WidgetId>)
        requires
            self.wf(),
            self.has(n),
        ensures
            r@ == self.draw_order_of(n),
    {
        let mut out: Vec<WidgetId> = Vec::new();
        self.draw_rec(n, &mut out, Ghost(self.depth_bound() + 1));
        proof {
            assert(out@ =~= self.draw_order_of(n));
        }
        out
    }

    fn hit_rec(&self, n: WidgetId, q: Vec2, Ghost(f): Ghost<nat>) -> (r: Option<WidgetId>)
        requires
            self.wf(),
            self.has(n),
            self.depth(n) + 1 + f > self.depth_bound(),
        ensures
            r == hit_children(self@, self.children_of(n), q, f),
        decreases f,
    {
        let ghost cs = self.children_of(n);
        let mut i: usize = self.nodes[n].children.len();
        proof {
            assert(cs.subrange(0, i as int) =~= cs);
        }
        while i > 0
            invariant
                self.wf(),
                self.has(n),
                cs == self.children_of(n),
                i <= cs.len(),
                self.depth(n) + 1 + f > self.depth_bound(),
                hit_children(self@, cs, q, f) == hit_children(self@, cs.subrange(0, i as int), q, f),
            decreases i,
        {
            let c = self.nodes[n].children[i - 1];
            proof {
                let b = self.depth_bound();
                let sub = cs.subrange(0, i as int);
                assert(sub.drop_last() =~= cs.subrange(0, i - 1));
                assert(sub.last() == c);
                assert(self.has(c) && self.parent_of(c) == Some(n));
                assert(rooted(self@, c, b));
                assert(rooted(self@, n, (b - 1) as nat));
                lemma_fuel(self@, n, (b - 1) as nat, b);
                lemma_fuel(self@, c, b, b);
                assert(self.depth(c) == self.depth(n) + 1);
            }
            let w = &self.nodes[c];
            if w.visible && w.contains(q) {
                let local: Vec2 = (q.0 - w.pos.0, q.1 - w.pos.1);
                return match self.hit_rec(c, local, Ghost((f - 1) as nat)) {
                    Some(d) => Some(d),
                    None => Some(c),
                };
            }
            i = i - 1;
        }
        None
    }

    /// The topmost visible descendant of `n` under `q`, given in `n`'s own
    /// coordinates: later children lie on top of earlier ones, hidden nodes and
    /// what they hold are passed over, and a hit child yields its own deepest
    /// hit, else itself. `None` where no child is hit.
    pub fn widget_at(&self, n: WidgetId, q: Vec2) -> (r: Option<WidgetId>)
        requires
            self.wf(),
            self.has(n),
        ensures
            r == self.widget_at_of(n, q),
    {
        self.hit_rec(n, q, Ghost(self.depth_bound() + 1))
    }

    pub fn new() -> (r: WidgetTree)
        ensures
            r.wf(),
            r@ == Seq::<WidgetNode>::empty(),
    {
        WidgetTree { nodes: Vec::new(), bound: Ghost(0) }
    }

    pub fn len(&self) -> (r: usize)
        ensures
            r == self@.len(),
    {
        self.nodes.len()
    }

    pub fn node(&self, n: WidgetId) -> (r: &WidgetNode)
        requires
            self.has(n),
        ensures
            *r == self@[n as int],
    {
        &self.nodes[n]
    }
}

} // verus!
