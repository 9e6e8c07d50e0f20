//! The state that every node of the widget tree carries.
use vstd::prelude::*;

verus! {

/// A point or an extent in logical pixels: `(x, y)` or `(width, height)`.
pub type Vec2 = (u32, u32);

/// The handle of a node: its index in the tree's arena.
pub type WidgetId = usize;

/// Font size used when neither the node nor any theme it inherits sets one.
pub const DEFAULT_FONT_SIZE: u32 = 16;

/// Style values shared by the nodes that use them.
#[derive(Clone, Copy, Debug, PartialEq, Eq, Structural)]
pub struct Theme {
    pub standard_font_size: u32,
}

/// Identifies a layout strategy owned by the host; the strategy itself arranges
/// the children of the nodes that refer to it.
#[derive(Clone, Copy, Debug, PartialEq, Eq, Structural)]
pub struct LayoutHandle {
    pub key: u32,
}

/// The variants of node that the core tells apart.
#[derive(Clone, Copy, Debug, PartialEq, Eq, Structural)]
pub enum WidgetKind {
    /// The root of a tree; never attached below another node.
    Screen,
    /// A floating, movable top-level window inside a screen.
    Window,
    /// Any other widget.
    Plain,
}

/// One node of the tree. Positions are relative to the parent's origin.
///
/// Only the tree hands out nodes, and only by shared reference, so the links
/// `parent` and `children` change through the tree's attach and detach alone.
#[derive(Debug)]
pub struct WidgetNode {
    pub id: String,
    pub kind: WidgetKind,
    pub pos: Vec2,
    pub size: Vec2,
    pub fixed_size: Vec2,
    pub font_size: Option<u32>,
    pub theme: Option<Theme>,
    pub layout: Option<LayoutHandle>,
    pub enabled: bool,
    pub visible: bool,
    pub focused: bool,
    pub tooltip: String,
    pub parent: Option<WidgetId>,
    pub children: Vec<WidgetId>,
}

/// `p` lies in the half-open box `[pos, pos + size)`.
pub open spec fn box_contains(pos: Vec2, size: Vec2, p: Vec2) -> bool {
    &&& pos.0 <= p.0
    &&& pos.1 <= p.1
    &&& (p.0 as int) < pos.0 + size.0
    &&& (p.1 as int) < pos.1 + size.1
}

impl WidgetNode {
    /// A detached node with neutral state: visible, enabled, unfocused, at the
    /// origin, of zero size, with no overrides.
    pub open spec fn fresh(id: Seq<char>, kind: WidgetKind, n: WidgetNode) -> bool {
        &&& n.id@ == id
        &&& n.kind == kind
        &&& n.pos == (0u32, 0u32)
        &&& n.size == (0u32, 0u32)
        &&& n.fixed_size == (0u32, 0u32)
        &&& n.font_size is None
        &&& n.theme is None
        &&& n.layout is None
        &&& n.enabled
        &&& n.visible
        &&& !n.focused
        &&& n.tooltip@ == Seq::<char>::empty()
        &&& n.parent is None
        &&& n.children@ == Seq::<WidgetId>::empty()
    }

    pub fn new(id: String, kind: WidgetKind) -> (r: WidgetNode)
        ensures
            WidgetNode::fresh(id@, kind, r),
    {
        WidgetNode {
            id,
            kind,
            pos: (0, 0),
            size: (0, 0),
            fixed_size: (0, 0),
            font_size: None,
            theme: None,
            layout: None,
            enabled: true,
            visible: true,
            focused: false,
            tooltip: String::new(),
            parent: None,
            children: Vec::new(),
        }
    }

    /// Whether `p`, given in the parent's coordinates, lies inside this node.
    pub fn contains(&self, p: Vec2) -> (r: bool)
        ensures
            r == box_contains(self.pos, self.size, p),
    {
        p.0 >= self.pos.0 && p.1 >= self.pos.1 && (p.0 as u64) < self.pos.0 as u64
            + self.size.0 as u64 && (p.1 as u64) < self.pos.1 as u64 + self.size.1 as u64
    }

    /// The size this node asks for; the base answer defers to the explicit
    /// size or the layout.
    pub fn preferred_size(&self) -> (r: Vec2)
        ensures
            r == (0u32, 0u32),
    {
        (0, 0)
    }

    /// Whether this node is a floating window inside a screen.
    pub fn as_window(&self) -> (r: bool)
        ensures
            r == (self.kind == WidgetKind::Window),
    {
        match self.kind {
            WidgetKind::Window => true,
            _ => false,
        }
    }
}

} // verus!
