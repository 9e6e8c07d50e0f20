use nanogui::screen::{Color, FrameCommand, Screen, DEFAULT_BACKGROUND_LEVEL, SCREEN_ROOT};
use nanogui::tree::{TreeError, WidgetTree};
use nanogui::widget::{Theme, WidgetKind, DEFAULT_FONT_SIZE};

fn screen_800_600() -> Screen {
    Screen::new("screen".to_string(), "Demo".to_string(), (800, 600), 42)
}

#[test]
fn screen_scenario() {
    let mut screen = screen_800_600();
    assert_eq!(screen.size(), (800, 600));
    assert!(screen.widgets().visible_recursive(SCREEN_ROOT));
    let tree = screen.widgets_mut();
    let child = tree.add_widget("child".to_string(), WidgetKind::Plain);
    tree.set_pos(child, (10, 10));
    assert_eq!(tree.attach(child, SCREEN_ROOT), Ok(()));
    assert_eq!(tree.absolute_position(child), (10, 10));
    tree.set_visible(SCREEN_ROOT, false);
    assert!(!tree.visible_recursive(child));
    assert!(tree.node(child).visible);
}

#[test]
fn new_screen_starts_neutral() {
    let screen = screen_800_600();
    assert_eq!(screen.caption(), "Demo");
    assert_eq!(screen.framebuffer_size(), (800, 600));
    assert!(screen.process_events());
    assert_eq!(
        screen.background(),
        Color { r: DEFAULT_BACKGROUND_LEVEL, g: DEFAULT_BACKGROUND_LEVEL, b: DEFAULT_BACKGROUND_LEVEL }
    );
    let state = screen.interaction();
    assert_eq!(state.mouse_pos, (0, 0));
    assert_eq!(state.mouse_state, 0);
    assert_eq!(state.modifiers, 0);
    assert!(!state.drag_active);
    assert_eq!(state.drag_widget, None);
    assert_eq!(state.last_interaction, 42);
    let root = screen.widgets().node(SCREEN_ROOT);
    assert_eq!(root.id, "screen");
    assert_eq!(root.kind, WidgetKind::Screen);
    assert_eq!(root.parent, None);
    assert!(root.children.is_empty());
    assert_eq!(screen.widgets().len(), 1);
}

#[test]
fn background_and_event_switch() {
    let mut screen = screen_800_600();
    screen.set_background(Color { r: 1, g: 2, b: 3 });
    assert_eq!(screen.background(), Color { r: 1, g: 2, b: 3 });
    screen.set_process_events(false);
    assert!(!screen.process_events());
}

#[test]
fn absolute_position_composes() {
    let mut t = WidgetTree::new();
    let root = t.add_widget("root".to_string(), WidgetKind::Plain);
    let a = t.add_widget("a".to_string(), WidgetKind::Plain);
    let b = t.add_widget("b".to_string(), WidgetKind::Plain);
    t.set_pos(root, (100, 200));
    t.set_pos(a, (5, 5));
    t.set_pos(b, (3, 4));
    assert_eq!(t.absolute_position(b), (3, 4));
    t.attach(a, root).unwrap();
    t.attach(b, a).unwrap();
    assert_eq!(t.absolute_position(a), (105, 205));
    assert_eq!(t.absolute_position(b), (108, 209));
    t.detach(a).unwrap();
    assert_eq!(t.absolute_position(a), (5, 5));
    assert_eq!(t.absolute_position(b), (8, 9));
}

#[test]
fn queries_are_repeatable() {
    let mut screen = screen_800_600();
    let t = screen.widgets_mut();
    let c = t.add_widget("c".to_string(), WidgetKind::Plain);
    t.set_pos(c, (7, 9));
    t.attach(c, SCREEN_ROOT).unwrap();
    let first = (t.absolute_position(c), t.visible_recursive(c));
    let second = (t.absolute_position(c), t.visible_recursive(c));
    assert_eq!(first, second);
    assert_eq!(first, ((7, 9), true));
}

#[test]
fn hidden_ancestor_hides_descendants() {
    let mut t = WidgetTree::new();
    let r = t.add_widget("r".to_string(), WidgetKind::Plain);
    let m = t.add_widget("m".to_string(), WidgetKind::Plain);
    let l = t.add_widget("l".to_string(), WidgetKind::Plain);
    t.attach(m, r).unwrap();
    t.attach(l, m).unwrap();
    assert!(t.visible_recursive(l));
    t.set_visible(m, false);
    assert!(!t.visible_recursive(l));
    assert!(!t.visible_recursive(m));
    assert!(t.visible_recursive(r));
    assert!(t.node(l).visible);
    t.set_visible(m, true);
    t.set_visible(r, false);
    assert!(!t.visible_recursive(l));
    t.set_visible(r, true);
    t.set_visible(l, false);
    assert!(!t.visible_recursive(l));
    assert!(t.visible_recursive(m));
}

#[test]
fn contains_is_half_open() {
    let mut t = WidgetTree::new();
    let w = t.add_widget("w".to_string(), WidgetKind::Plain);
    t.set_pos(w, (10, 20));
    t.set_size(w, (30, 40));
    let n = t.node(w);
    assert!(n.contains((10, 20)));
    assert!(n.contains((39, 59)));
    assert!(!n.contains((40, 60)));
    assert!(!n.contains((40, 20)));
    assert!(!n.contains((10, 60)));
    assert!(!n.contains((9, 20)));
    t.set_size(w, (0, 0));
    assert!(!t.node(w).contains((10, 20)));
}

#[test]
fn contains_at_the_largest_coordinates() {
    let mut t = WidgetTree::new();
    let w = t.add_widget("w".to_string(), WidgetKind::Plain);
    t.set_pos(w, (u32::MAX - 1, u32::MAX - 1));
    t.set_size(w, (u32::MAX, u32::MAX));
    assert!(t.node(w).contains((u32::MAX, u32::MAX)));
    assert!(!t.node(w).contains((0, 0)));
}

#[test]
fn draw_visits_children_in_order() {
    let mut screen = screen_800_600();
    let t = screen.widgets_mut();
    let a = t.add_widget("A".to_string(), WidgetKind::Plain);
    let b = t.add_widget("B".to_string(), WidgetKind::Plain);
    let c = t.add_widget("C".to_string(), WidgetKind::Plain);
    t.attach(a, SCREEN_ROOT).unwrap();
    t.attach(b, SCREEN_ROOT).unwrap();
    t.attach(c, SCREEN_ROOT).unwrap();
    assert_eq!(
        screen.draw_widgets(),
        vec![
            FrameCommand::BeginFrame { width: 800, height: 600 },
            FrameCommand::Draw(a),
            FrameCommand::Draw(b),
            FrameCommand::Draw(c),
            FrameCommand::EndFrame,
        ]
    );
}

#[test]
fn draw_is_depth_first() {
    let mut screen = screen_800_600();
    let t = screen.widgets_mut();
    let a = t.add_widget("A".to_string(), WidgetKind::Plain);
    let b = t.add_widget("B".to_string(), WidgetKind::Plain);
    let d = t.add_widget("D".to_string(), WidgetKind::Plain);
    t.attach(a, SCREEN_ROOT).unwrap();
    t.attach(b, SCREEN_ROOT).unwrap();
    t.attach(d, a).unwrap();
    t.set_visible(b, false);
    assert_eq!(t.draw_order(SCREEN_ROOT), vec![a, d, b]);
    assert_eq!(t.draw_order(a), vec![d]);
    assert_eq!(screen.draw_widgets().len(), 5);
}

#[test]
fn hidden_screen_draws_nothing() {
    let mut screen = screen_800_600();
    let t = screen.widgets_mut();
    let a = t.add_widget("A".to_string(), WidgetKind::Plain);
    t.attach(a, SCREEN_ROOT).unwrap();
    t.set_visible(SCREEN_ROOT, false);
    assert!(screen.draw_widgets().is_empty());
}

#[test]
fn empty_screen_draws_an_empty_frame() {
    let screen = Screen::new("s".to_string(), "".to_string(), (0, 0), 0);
    assert_eq!(
        screen.draw_widgets(),
        vec![FrameCommand::BeginFrame { width: 0, height: 0 }, FrameCommand::EndFrame]
    );
}

#[test]
fn attach_refuses_cycles() {
    let mut t = WidgetTree::new();
    let a = t.add_widget("a".to_string(), WidgetKind::Plain);
    let b = t.add_widget("b".to_string(), WidgetKind::Plain);
    let c = t.add_widget("c".to_string(), WidgetKind::Plain);
    t.attach(b, a).unwrap();
    t.attach(c, b).unwrap();
    assert_eq!(t.attach(a, c), Err(TreeError::WouldCreateCycle));
    assert_eq!(t.attach(a, a), Err(TreeError::WouldCreateCycle));
    assert_eq!(t.parent(a), None);
    assert_eq!(t.children(c), Vec::<usize>::new());
    assert!(t.ancestor_or_self(a, c));
    assert!(!t.ancestor_or_self(c, a));
}

#[test]
fn attach_refuses_screens_and_unknown_handles() {
    let mut screen = screen_800_600();
    let t = screen.widgets_mut();
    let w = t.add_widget("w".to_string(), WidgetKind::Plain);
    assert_eq!(t.attach(SCREEN_ROOT, w), Err(TreeError::ScreenIsRoot));
    assert_eq!(t.attach(w, 99), Err(TreeError::UnknownWidget));
    assert_eq!(t.attach(99, w), Err(TreeError::UnknownWidget));
    assert_eq!(t.detach(99), Err(TreeError::UnknownWidget));
    assert_eq!(t.parent(SCREEN_ROOT), None);
}

#[test]
fn attach_moves_a_child_between_parents() {
    let mut t = WidgetTree::new();
    let p1 = t.add_widget("p1".to_string(), WidgetKind::Plain);
    let p2 = t.add_widget("p2".to_string(), WidgetKind::Plain);
    let x = t.add_widget("x".to_string(), WidgetKind::Plain);
    let y = t.add_widget("y".to_string(), WidgetKind::Plain);
    t.attach(x, p1).unwrap();
    t.attach(y, p1).unwrap();
    assert_eq!(t.children(p1), vec![x, y]);
    t.attach(x, p2).unwrap();
    assert_eq!(t.children(p1), vec![y]);
    assert_eq!(t.children(p2), vec![x]);
    assert_eq!(t.parent(x), Some(p2));
    t.attach(y, p2).unwrap();
    t.attach(x, p2).unwrap();
    assert_eq!(t.children(p2), vec![y, x]);
    t.detach(y).unwrap();
    assert_eq!(t.children(p2), vec![x]);
    assert_eq!(t.parent(y), None);
    assert_eq!(t.detach(y), Ok(()));
    assert_eq!(t.parent(y), None);
}

#[test]
fn font_size_resolves_through_themes() {
    let mut t = WidgetTree::new();
    let r = t.add_widget("r".to_string(), WidgetKind::Plain);
    let c = t.add_widget("c".to_string(), WidgetKind::Plain);
    t.attach(c, r).unwrap();
    assert_eq!(t.font_size(c), DEFAULT_FONT_SIZE);
    assert_eq!(t.font_size(c), 16);
    t.set_theme(r, Some(Theme { standard_font_size: 20 }));
    assert_eq!(t.font_size(c), 20);
    assert_eq!(t.theme(c), Some(Theme { standard_font_size: 20 }));
    t.set_theme(c, Some(Theme { standard_font_size: 18 }));
    assert_eq!(t.font_size(c), 18);
    t.set_font_size(c, Some(12));
    assert_eq!(t.font_size(c), 12);
    assert_eq!(t.font_size(r), 20);
}

#[test]
fn node_flags_and_defaults() {
    let mut t = WidgetTree::new();
    let w = t.add_widget("w".to_string(), WidgetKind::Window);
    let p = t.add_widget("p".to_string(), WidgetKind::Plain);
    assert!(t.node(w).as_window());
    assert!(!t.node(p).as_window());
    assert_eq!(t.node(p).preferred_size(), (0, 0));
    assert!(t.node(p).enabled && t.node(p).visible && !t.node(p).focused);
    t.set_enabled(p, false);
    t.set_focused(p, true);
    t.set_tooltip(p, "tip".to_string());
    t.set_fixed_size(p, (4, 5));
    assert!(!t.node(p).enabled);
    assert!(t.node(p).focused);
    assert_eq!(t.node(p).tooltip, "tip");
    assert_eq!(t.node(p).fixed_size, (4, 5));
    assert_eq!(t.node(p).id, "p");
}
