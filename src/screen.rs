//! The screen: root of a widget tree, holder of per-frame and pointer state,
//! and driver of the draw traversal.
use vstd::prelude::*;
use crate::widget::{Vec2, WidgetId, WidgetKind, WidgetNode};
use crate::tree::WidgetTree;

verus! {

/// The handle of the screen's own node in its tree.
pub const SCREEN_ROOT: WidgetId = 0;

/// Grey level of each channel of the default background.
pub const DEFAULT_BACKGROUND_LEVEL: u8 = 77;

/// A background colour, one byte per channel.
#[derive(Clone, Copy, Debug, PartialEq, Eq, Structural)]
pub struct Color {
    pub r: u8,
    pub g: u8,
    pub b: u8,
}

/// One step of a frame for the rendering backend to carry out.
#[derive(Clone, Copy, Debug, PartialEq, Eq, Structural)]
pub enum FrameCommand {
    /// Open a frame of this size, at a content scale of one.
    BeginFrame { width: u32, height: u32 },
    /// Run the given node's own drawing.
    Draw(WidgetId),
    /// Close the frame.
    EndFrame,
}

pub open spec fn draw_command(w: WidgetId) -> FrameCommand {
    FrameCommand::Draw(w)
}

/// The commands of one frame of a screen of the given size whose traversal
/// draws `order`.
pub open spec fn frame_of(size: Vec2, order: Seq<WidgetId>) -> Seq<FrameCommand> {
    seq![FrameCommand::BeginFrame { width: size.0, height: size.1 }] + order.map_values(
        |w: WidgetId| draw_command(w),
    ) + seq![FrameCommand::EndFrame]
}

/// The pointer-button mask after `button` went down or up.
pub open spec fn buttons_after(mask: u32, button: u32, down: bool) -> u32 {
    if down {
        mask | (1u32 << button)
    } else {
        mask & !(1u32 << button)
    }
}

/// One pointer-button event on the interaction state `st`, where `hit` is the
/// topmost widget under the pointer: the new state and the widget that is to
/// receive the event. A press on a widget while idle starts a drag of that
/// widget; while dragging, every event goes to the dragged widget, and a
/// release ends the drag.
pub open spec fn button_step(
    st: Interaction,
    hit: Option<WidgetId>,
    button: u32,
    down: bool,
    modifiers: u32,
    now: u32,
) -> (Interaction, Option<WidgetId>) {
    let base = Interaction {
        mouse_state: buttons_after(st.mouse_state, button, down),
        modifiers: modifiers,
        last_interaction: now,
        ..st
    };
    if st.drag_active {
        if down {
            (base, st.drag_widget)
        } else {
            (Interaction { drag_active: false, drag_widget: None, ..base }, st.drag_widget)
        }
    } else if down && hit is Some {
        (Interaction { drag_active: true, drag_widget: hit, ..base }, hit)
    } else {
        (base, hit)
    }
}

/// One pointer move to `p` on the interaction state `st`, where `hit` is the
/// topmost widget under `p`: while dragging the move goes to the dragged
/// widget, else to `hit`.
pub open spec fn move_step(st: Interaction, hit: Option<WidgetId>, p: Vec2, now: u32) -> (Interaction, Option<WidgetId>) {
    (
        Interaction { mouse_pos: p, last_interaction: now, ..st },
        if st.drag_active {
            st.drag_widget
        } else {
            hit
        },
    )
}

/// The root of a widget tree. Its own node is `SCREEN_ROOT`, of kind
/// `WidgetKind::Screen`, which no edit attaches below another node.
pub struct Screen {
    widgets: WidgetTree,
    caption: String,
    framebuffer_size: Vec2,
    pixel_ratio_milli: u32,
    mouse_state: u32,
    modifiers: u32,
    mouse_pos: Vec2,
    drag_active: bool,
    drag_widget: Option<WidgetId>,
    last_interaction: u32,
    process_events: bool,
    background: Color,
}

/// A snapshot of the pointer and keyboard state that a screen tracks.
#[derive(Debug)]
pub struct Interaction {
    pub mouse_pos: Vec2,
    /// One bit per pressed pointer button.
    pub mouse_state: u32,
    /// One bit per held modifier key.
    pub modifiers: u32,
    pub drag_active: bool,
    pub drag_widget: Option<WidgetId>,
    /// Tick count of the last registered interaction, in milliseconds.
    pub last_interaction: u32,
}

impl Screen {
    pub closed spec fn tree(&self) -> WidgetTree {
        self.widgets
    }

    pub closed spec fn caption_view(&self) -> Seq<char> {
        self.caption@
    }

    pub closed spec fn framebuffer_size_view(&self) -> Vec2 {
        self.framebuffer_size
    }

    /// Device pixels per logical pixel, in thousandths; zero until measured.
    pub closed spec fn pixel_ratio_view(&self) -> u32 {
        self.pixel_ratio_milli
    }

    pub closed spec fn interaction_view(&self) -> Interaction {
        Interaction {
            mouse_pos: self.mouse_pos,
            mouse_state: self.mouse_state,
            modifiers: self.modifiers,
            drag_active: self.drag_active,
            drag_widget: self.drag_widget,
            last_interaction: self.last_interaction,
        }
    }

    pub closed spec fn process_events_view(&self) -> bool {
        self.process_events
    }

    pub closed spec fn background_view(&self) -> Color {
        self.background
    }

    /// The tree is well formed and holds the screen's node.
    pub open spec fn wf(&self) -> bool {
        &&& self.tree().wf()
        &&& self.tree()@.len() >= 1
        &&& self.interaction_view().drag_active <==> self.interaction_view().drag_widget is Some
    }

    /// The screen's own node.
    pub open spec fn root_node(&self) -> WidgetNode {
        self.tree()@[SCREEN_ROOT as int]
    }

    /// A screen named `id` whose window shows `caption` and has a framebuffer of
    /// `framebuffer_size`; `now` is the current tick count. The screen adopts
    /// the framebuffer size, is a root with no children, and starts with no
    /// buttons or modifiers held, no drag, the pointer at the origin, the pixel
    /// ratio unmeasured, events enabled and a grey background.
    pub fn new(id: String, caption: String, framebuffer_size: Vec2, now: u32) -> (r: Screen)
        ensures
            r.wf(),
            r.tree()@.len() == 1,
            WidgetNode::fresh(
                id@,
                WidgetKind::Screen,
                WidgetNode { size: (0u32, 0u32), ..r.root_node() },
            ),
            r.root_node().size == framebuffer_size,
            r.caption_view() == caption@,
            r.framebuffer_size_view() == framebuffer_size,
            r.pixel_ratio_view() == 0,
            r.interaction_view() == (Interaction {
                mouse_pos: (0u32, 0u32),
                mouse_state: 0,
                modifiers: 0,
                drag_active: false,
                drag_widget: None,
                last_interaction: now,
            }),
            r.process_events_view(),
            r.background_view() == (Color {
                r: DEFAULT_BACKGROUND_LEVEL,
                g: DEFAULT_BACKGROUND_LEVEL,
                b: DEFAULT_BACKGROUND_LEVEL,
            }),
    {
        let mut widgets = WidgetTree::new();
        let root = widgets.add_widget(id, WidgetKind::Screen);
        widgets.set_size(root, framebuffer_size);
        Screen {
            widgets,
            caption,
            framebuffer_size,
            pixel_ratio_milli: 0,
            mouse_state: 0,
            modifiers: 0,
            mouse_pos: (0, 0),
            drag_active: false,
            drag_widget: None,
            last_interaction: now,
            process_events: true,
            background: Color {
                r: DEFAULT_BACKGROUND_LEVEL,
                g: DEFAULT_BACKGROUND_LEVEL,
                b: DEFAULT_BACKGROUND_LEVEL,
            },
        }
    }

    /// The screen's widget tree; the screen's own node is `SCREEN_ROOT`.
    pub fn widgets(&self) -> (r: &WidgetTree)
        ensures
            *r == self.tree(),
    {
        &self.widgets
    }

    /// The screen's widget tree, for edits through the tree's own operations.
    pub fn widgets_mut(&mut self) -> (r: &mut WidgetTree)
        ensures
            *r == old(self).tree(),
            final(self).tree() == *final(r),
            final(self).caption_view() == old(self).caption_view(),
            final(self).framebuffer_size_view() == old(self).framebuffer_size_view(),
            final(self).pixel_ratio_view() == old(self).pixel_ratio_view(),
            final(self).interaction_view() == old(self).interaction_view(),
            final(self).process_events_view() == old(self).process_events_view(),
            final(self).background_view() == old(self).background_view(),
    {
        &mut self.widgets
    }

    pub fn size(&self) -> (r: Vec2)
        requires
            self.wf(),
        ensures
            r == self.root_node().size,
    {
        self.widgets.node(SCREEN_ROOT).size
    }

    pub fn caption(&self) -> (r: &str)
        ensures
            r@ == self.caption_view(),
    {
        self.caption.as_str()
    }

    pub fn framebuffer_size(&self) -> (r: Vec2)
        ensures
            r == self.framebuffer_size_view(),
    {
        self.framebuffer_size
    }

    pub fn background(&self) -> (r: Color)
        ensures
            r == self.background_view(),
    {
        self.background
    }

    /// Replaces the colour that the host clears each frame to.
    pub fn set_background(&mut self, background: Color)
        ensures
            final(self).background_view() == background,
            final(self).tree() == old(self).tree(),
            final(self).interaction_view() == old(self).interaction_view(),
            final(self).process_events_view() == old(self).process_events_view(),
    {
        self.background = background;
    }

    pub fn process_events(&self) -> (r: bool)
        ensures
            r == self.process_events_view(),
    {
        self.process_events
    }

    /// Suspends or resumes all input handling; the tracked state is kept.
    pub fn set_process_events(&mut self, on: bool)
        ensures
            final(self).process_events_view() == on,
            final(self).tree() == old(self).tree(),
            final(self).interaction_view() == old(self).interaction_view(),
            final(self).background_view() == old(self).background_view(),
    {
        self.process_events = on;
    }

    pub fn interaction(&self) -> (r: Interaction)
        ensures
            r == self.interaction_view(),
    {
        Interaction {
            mouse_pos: self.mouse_pos,
            mouse_state: self.mouse_state,
            modifiers: self.modifiers,
            drag_active: self.drag_active,
            drag_widget: self.drag_widget,
            last_interaction: self.last_interaction,
        }
    }

    /// The pointer moved to `p`, in screen coordinates, at tick `now`. Returns
    /// the widget that is to receive the move. Ignored while event handling is
    /// switched off.
    pub fn cursor_pos_event(&mut self, p: Vec2, now: u32) -> (r: Option<WidgetId>)
        requires
            old(self).wf(),
        ensures
            final(self).wf(),
            final(self).tree() == old(self).tree(),
            final(self).process_events_view() == old(self).process_events_view(),
            final(self).background_view() == old(self).background_view(),
            !old(self).process_events_view() ==> r is None && final(self).interaction_view()
                == old(self).interaction_view(),
            old(self).process_events_view() ==> (final(self).interaction_view(), r) == move_step(
                old(self).interaction_view(),
                old(self).tree().widget_at_of(SCREEN_ROOT, p),
                p,
                now,
            ),
    {
        if !self.process_events {
            return None;
        }
        self.mouse_pos = p;
        self.last_interaction = now;
        if self.drag_active {
            self.drag_widget
        } else {
            self.widgets.widget_at(SCREEN_ROOT, p)
        }
    }

    /// Pointer button `button` went down or up at tick `now`, with the
    /// modifier keys `modifiers` held. Returns the widget that is to receive
    /// the event. Ignored while event handling is switched off.
    pub fn mouse_button_event(&mut self, button: u32, down: bool, modifiers: u32, now: u32) -> (r: Option<WidgetId>)
        requires
            old(self).wf(),
            button < 32,
        ensures
            final(self).wf(),
            final(self).tree() == old(self).tree(),
            final(self).process_events_view() == old(self).process_events_view(),
            final(self).background_view() == old(self).background_view(),
            !old(self).process_events_view() ==> r is None && final(self).interaction_view()
                == old(self).interaction_view(),
            old(self).process_events_view() ==> (final(self).interaction_view(), r) == button_step(
                old(self).interaction_view(),
                old(self).tree().widget_at_of(SCREEN_ROOT, old(self).interaction_view().mouse_pos),
                button,
                down,
                modifiers,
                now,
            ),
    {
        if !self.process_events {
            return None;
        }
        let bit: u32 = 1u32 << button;
        self.mouse_state = if down {
            self.mouse_state | bit
        } else {
            self.mouse_state & !bit
        };
        self.modifiers = modifiers;
        self.last_interaction = now;
        if self.drag_active {
            let target = self.drag_widget;
            if !down {
                self.drag_active = false;
                self.drag_widget = None;
            }
            target
        } else {
            let hit = self.widgets.widget_at(SCREEN_ROOT, self.mouse_pos);
            if down {
                match hit {
                    Some(w) => {
                        self.drag_active = true;
                        self.drag_widget = Some(w);
                    },
                    None => {},
                }
            }
            hit
        }
    }

    /// The commands of one frame: nothing where the screen itself is hidden;
    /// else a frame of the screen's size around the draw calls of its tree, in
    /// traversal order.
    pub fn draw_widgets(&self) -> (r: Vec<FrameCommand>)
        requires
            self.wf(),
        ensures
            !self.root_node().visible ==> r@ == Seq::<FrameCommand>::empty(),
            self.root_node().visible ==> r@ == frame_of(
                self.root_node().size,
                self.tree().draw_order_of(SCREEN_ROOT),
            ),
    {
        let mut out: Vec<FrameCommand> = Vec::new();
        let root = self.widgets.node(SCREEN_ROOT);
        if !root.visible {
            return out;
        }
        out.push(FrameCommand::BeginFrame { width: root.size.0, height: root.size.1 });
        let order = self.widgets.draw_order(SCREEN_ROOT);
        let mut i: usize = 0;
        while i < order.len()
            invariant
                0 <= i <= order@.len(),
                out@ == seq![FrameCommand::BeginFrame { width: root.size.0, height: root.size.1 }]
                    + order@.subrange(0, i as int).map_values(|w: WidgetId| draw_command(w)),
            decreases order.len() - i,
        {
            out.push(FrameCommand::Draw(order[i]));
            proof {
                assert(order@.subrange(0, i + 1).map_values(|w: WidgetId| draw_command(w))
                    =~= order@.subrange(0, i as int).map_values(|w: WidgetId| draw_command(w)).push(
                    draw_command(order@[i as int]),
                ));
            }
            i = i + 1;
        }
        out.push(FrameCommand::EndFrame);
        proof {
            assert(order@.subrange(0, order@.len() as int) =~= order@);
            assert(out@ =~= frame_of(root.size, order@));
        }
        out
    }
}

} // verus!
