use shame_gui::gui::{
    BoolWidgetData, EditingField, EventKind, EventResponse, NumberWidgetData, RoutingMode, SelectorData,
    StringWidgetData, Vec2WidgetData,
};
use shame_gui::shader::ViewportParams;
use shame_gui::math::Vec2u;

#[test]
fn routing_follows_the_event_kind() {
    assert_eq!(RoutingMode::for_event(EventKind::MouseDown), RoutingMode::Positional);
    assert_eq!(RoutingMode::for_event(EventKind::MouseUp), RoutingMode::Positional);
    assert_eq!(RoutingMode::for_event(EventKind::Scroll), RoutingMode::Positional);
    assert_eq!(RoutingMode::for_event(EventKind::MouseMove), RoutingMode::Broadcast);
    assert_eq!(RoutingMode::for_event(EventKind::KeyDown), RoutingMode::Focused);
    assert_eq!(RoutingMode::for_event(EventKind::KeyUp), RoutingMode::Focused);
    assert_eq!(RoutingMode::for_event(EventKind::Char), RoutingMode::Focused);
    assert_ne!(EventResponse::Consumed, EventResponse::Ignored);
}

#[test]
fn widget_state_starts_idle() {
    assert!(!BoolWidgetData::default().hovered);
    let n = NumberWidgetData::default();
    assert!(n.buffer.is_empty() && n.cursor == 0 && !n.editing && n.error.is_none());
    let s = StringWidgetData::default();
    assert!(s.buffer.is_empty() && s.cursor == 0 && !s.editing);
    let sel = SelectorData::default();
    assert!(!sel.open && sel.hover.is_none());
    let e = EditingField::default();
    assert!(e.buffer.is_empty() && e.cursor == 0 && !e.editing);
    let v = Vec2WidgetData::default();
    assert!(!v.x.editing && !v.y.editing);
}

#[test]
fn viewport_params_hold_the_framebuffer_size() {
    let p = ViewportParams::new(Vec2u::new(800, 600));
    assert_eq!(p.fb_size, Vec2u::new(800, 600));
    assert_eq!(ViewportParams::default().fb_size, Vec2u::new(0, 0));
}

use shame_gui::gui::{clamp_active_tab, focus_after, stops_walk, widget_receives};

#[test]
fn focused_events_reach_only_the_focused_widget() {
    assert!(widget_receives(RoutingMode::Focused, Some(4), 4, false));
    assert!(!widget_receives(RoutingMode::Focused, Some(4), 5, true));
    assert!(!widget_receives(RoutingMode::Focused, None, 5, true));
    assert!(widget_receives(RoutingMode::Broadcast, None, 5, false));
    assert!(widget_receives(RoutingMode::Positional, None, 5, true));
    assert!(!widget_receives(RoutingMode::Positional, Some(5), 5, false));
}

#[test]
fn presses_on_selectable_widgets_claim_focus() {
    assert_eq!(focus_after(EventKind::MouseDown, true, None, 7), Some(7));
    assert_eq!(focus_after(EventKind::MouseDown, false, Some(1), 7), Some(1));
    assert_eq!(focus_after(EventKind::KeyDown, true, Some(1), 7), Some(1));
}

#[test]
fn broadcasts_never_stop_the_walk() {
    assert!(stops_walk(EventResponse::Consumed, RoutingMode::Positional));
    assert!(stops_walk(EventResponse::Consumed, RoutingMode::Focused));
    assert!(!stops_walk(EventResponse::Consumed, RoutingMode::Broadcast));
    assert!(!stops_walk(EventResponse::Ignored, RoutingMode::Positional));
}

#[test]
fn active_tab_is_clamped() {
    assert_eq!(clamp_active_tab(0, 3), 0);
    assert_eq!(clamp_active_tab(2, 3), 2);
    assert_eq!(clamp_active_tab(9, 3), 2);
}

use shame_gui::gui::{gui_step, ContextMenuOutcome, GuiStep, MouseButton};

#[test]
fn gui_phases_pick_menu_then_drag_then_walk() {
    let left = Some(MouseButton::Left);
    let right = Some(MouseButton::Right);
    // The open menu consumed the event; a left click outside dismisses it.
    assert_eq!(
        gui_step(Some(ContextMenuOutcome::Consumed), true, EventKind::MouseDown, left, false, false),
        GuiStep::MenuHandled { close: true }
    );
    assert_eq!(
        gui_step(Some(ContextMenuOutcome::Consumed), false, EventKind::MouseDown, left, false, false),
        GuiStep::MenuHandled { close: false }
    );
    assert_eq!(
        gui_step(Some(ContextMenuOutcome::Consumed), true, EventKind::MouseMove, None, false, false),
        GuiStep::MenuHandled { close: false }
    );
    // A right click opens a menu.
    assert_eq!(gui_step(None, false, EventKind::MouseDown, right, false, true), GuiStep::OpenMenu);
    assert_eq!(
        gui_step(Some(ContextMenuOutcome::Ignored), false, EventKind::MouseDown, right, false, false),
        GuiStep::OpenMenu
    );
    // Divider drags.
    assert_eq!(gui_step(None, false, EventKind::MouseDown, left, false, true), GuiStep::StartDrag);
    assert_eq!(gui_step(None, false, EventKind::MouseMove, None, true, false), GuiStep::Drag);
    assert_eq!(gui_step(None, false, EventKind::MouseUp, left, true, false), GuiStep::EndDrag);
    // Everything else walks the tree.
    assert_eq!(gui_step(None, false, EventKind::MouseDown, left, false, false), GuiStep::Walk);
    assert_eq!(gui_step(None, false, EventKind::MouseMove, None, false, false), GuiStep::Walk);
    assert_eq!(gui_step(None, false, EventKind::KeyDown, None, true, false), GuiStep::Walk);
}

use shame_gui::gui::stale_selection;

#[test]
fn selector_list_and_highlight() {
    let mut s = SelectorData::default();
    s.hover_row(Some(0), 3);
    assert_eq!(s.hover, None);
    s.open_list();
    assert!(s.open);
    s.hover_row(Some(1), 3);
    assert_eq!(s.hover, Some(1));
    s.hover_row(Some(3), 3);
    assert_eq!(s.hover, None);
    s.hover_row(Some(2), 3);
    s.hover_row(None, 3);
    assert_eq!(s.hover, None);
    s.hover_row(Some(0), 3);
    s.close_list();
    assert!(!s.open);
    assert_eq!(s.hover, None);
}

#[test]
fn selector_values_are_empty_or_keys() {
    assert!(!stale_selection(&String::new(), false));
    assert!(!stale_selection(&"a".to_string(), true));
    assert!(stale_selection(&"a".to_string(), false));
}
