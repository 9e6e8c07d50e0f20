use nanogui::screen::{Screen, SCREEN_ROOT};
use nanogui::widget::WidgetKind;

/// A screen with two overlapping children, `a` below `b`, and `d` inside `a`.
fn layered() -> (Screen, usize, usize, usize) {
    let mut screen = Screen::new("s".to_string(), "c".to_string(), (800, 600), 0);
    let t = screen.widgets_mut();
    let a = t.add_widget("a".to_string(), WidgetKind::Plain);
    let b = t.add_widget("b".to_string(), WidgetKind::Plain);
    let d = t.add_widget("d".to_string(), WidgetKind::Plain);
    t.set_size(a, (100, 100));
    t.set_pos(b, (50, 50));
    t.set_size(b, (100, 100));
    t.set_pos(d, (5, 5));
    t.set_size(d, (10, 10));
    t.attach(a, SCREEN_ROOT).unwrap();
    t.attach(b, SCREEN_ROOT).unwrap();
    t.attach(d, a).unwrap();
    (screen, a, b, d)
}

#[test]
fn widget_at_prefers_later_and_deeper() {
    let (mut screen, a, b, d) = layered();
    let t = screen.widgets();
    assert_eq!(t.widget_at(SCREEN_ROOT, (60, 60)), Some(b));
    assert_eq!(t.widget_at(SCREEN_ROOT, (20, 20)), Some(a));
    assert_eq!(t.widget_at(SCREEN_ROOT, (7, 7)), Some(d));
    assert_eq!(t.widget_at(SCREEN_ROOT, (15, 15)), Some(a));
    assert_eq!(t.widget_at(SCREEN_ROOT, (500, 500)), None);
    assert_eq!(t.widget_at(a, (6, 6)), Some(d));
    screen.widgets_mut().set_visible(b, false);
    assert_eq!(screen.widgets().widget_at(SCREEN_ROOT, (60, 60)), Some(a));
}

#[test]
fn drag_follows_the_pressed_widget() {
    let (mut screen, a, b, _d) = layered();
    assert_eq!(screen.cursor_pos_event((60, 60), 10), Some(b));
    assert_eq!(screen.mouse_button_event(0, true, 0, 11), Some(b));
    assert!(screen.interaction().drag_active);
    assert_eq!(screen.interaction().drag_widget, Some(b));
    assert_eq!(screen.cursor_pos_event((20, 20), 12), Some(b));
    assert_eq!(screen.interaction().mouse_pos, (20, 20));
    assert_eq!(screen.mouse_button_event(0, false, 0, 13), Some(b));
    assert!(!screen.interaction().drag_active);
    assert_eq!(screen.interaction().drag_widget, None);
    assert_eq!(screen.cursor_pos_event((20, 20), 14), Some(a));
    assert_eq!(screen.interaction().last_interaction, 14);
}

#[test]
fn press_on_empty_space_starts_no_drag() {
    let (mut screen, _a, _b, _d) = layered();
    screen.cursor_pos_event((700, 500), 1);
    assert_eq!(screen.mouse_button_event(1, true, 0, 2), None);
    assert!(!screen.interaction().drag_active);
    assert_eq!(screen.interaction().mouse_state, 2);
}

#[test]
fn buttons_and_modifiers_are_tracked() {
    let (mut screen, _a, _b, _d) = layered();
    screen.cursor_pos_event((700, 500), 1);
    screen.mouse_button_event(0, true, 4, 2);
    screen.mouse_button_event(2, true, 4, 3);
    assert_eq!(screen.interaction().mouse_state, 5);
    assert_eq!(screen.interaction().modifiers, 4);
    screen.mouse_button_event(0, false, 0, 4);
    assert_eq!(screen.interaction().mouse_state, 4);
    assert_eq!(screen.interaction().modifiers, 0);
    assert_eq!(screen.interaction().last_interaction, 4);
}

#[test]
fn switched_off_events_are_ignored() {
    let (mut screen, _a, _b, _d) = layered();
    screen.set_process_events(false);
    assert_eq!(screen.cursor_pos_event((60, 60), 5), None);
    assert_eq!(screen.mouse_button_event(0, true, 1, 6), None);
    let state = screen.interaction();
    assert_eq!(state.mouse_pos, (0, 0));
    assert_eq!(state.mouse_state, 0);
    assert_eq!(state.modifiers, 0);
    assert!(!state.drag_active);
    assert_eq!(state.last_interaction, 0);
}
