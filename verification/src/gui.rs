//! The platform-independent vocabulary of the GUI layer: input keys and
//! buttons, how events are routed through the viewport tree and what
//! widgets answer, the viewport's split directions, and the cached
//! interaction state that each primitive widget keeps between frames.

use vstd::prelude::*;

verus! {

/// Mouse buttons.
#[derive(Clone, Copy, Debug, PartialEq, Eq, Structural)]
pub enum MouseButton {
    /// The primary (left) button.
    Left,
    /// The secondary (right) button — also opens the context menu.
    Right,
    /// The middle button.
    Middle,
}

/// Platform-independent key codes.
#[derive(Clone, Copy, Debug, PartialEq, Eq, Structural)]
pub enum Key {
    /// Delete the previous character.
    Backspace,
    /// Commit the current edit.
    Enter,
    /// Cancel the current edit.
    Escape,
    /// Move focus to the next widget.
    Tab,
    /// Move the cursor left.
    ArrowLeft,
    /// Move the cursor right.
    ArrowRight,
    /// Move the cursor up.
    ArrowUp,
    /// Move the cursor down.
    ArrowDown,
}

/// How an event is routed through the viewport tree.
#[derive(Clone, Copy, Debug, PartialEq, Eq, Structural)]
pub enum RoutingMode {
    /// Routed to the widget under the cursor position.
    Positional,
    /// Routed to the currently focused widget.
    Focused,
    /// Sent to every widget (e.g. for hover-state clearing).
    Broadcast,
}

/// The kinds of low-level input event that flow through the viewport tree.
#[derive(Clone, Copy, Debug, PartialEq, Eq, Structural)]
pub enum EventKind {
    /// A mouse button was pressed.
    MouseDown,
    /// A mouse button was released.
    MouseUp,
    /// The cursor moved.
    MouseMove,
    /// The scroll wheel moved.
    Scroll,
    /// A named key was pressed.
    KeyDown,
    /// A named key was released.
    KeyUp,
    /// Printable text was input.
    Char,
}

/// The routing of an event of kind `kind`: button and wheel events go to
/// the widget under the cursor, moves go to every widget, and key and text
/// events go to the focused widget.
pub open spec fn routing_of(kind: EventKind) -> RoutingMode {
    match kind {
        EventKind::MouseDown | EventKind::MouseUp | EventKind::Scroll => RoutingMode::Positional,
        EventKind::MouseMove => RoutingMode::Broadcast,
        EventKind::KeyDown | EventKind::KeyUp | EventKind::Char => RoutingMode::Focused,
    }
}

impl RoutingMode {
    /// The routing of an event of kind `kind` (see [`routing_of`]).
    pub fn for_event(kind: EventKind) -> (r: RoutingMode)
        ensures
            r == routing_of(kind),
    {
        match kind {
            EventKind::MouseDown | EventKind::MouseUp | EventKind::Scroll => RoutingMode::Positional,
            EventKind::MouseMove => RoutingMode::Broadcast,
            EventKind::KeyDown | EventKind::KeyUp | EventKind::Char => RoutingMode::Focused,
        }
    }
}

/// Whether a widget node takes part in an event routed by `routing`: a
/// focused (keyboard or text) event reaches only the focused node and skips
/// the hit test, a broadcast reaches every node, and a positional event
/// reaches the node under the cursor (`hit`).
pub fn widget_receives(routing: RoutingMode, focus: Option<u64>, id: u64, hit: bool) -> (r: bool)
    ensures
        r == match routing {
            RoutingMode::Focused => focus == Some(id),
            RoutingMode::Broadcast => true,
            RoutingMode::Positional => hit,
        },
{
    match routing {
        RoutingMode::Focused => match focus {
            Some(f) => f == id,
            None => false,
        },
        RoutingMode::Broadcast => true,
        RoutingMode::Positional => hit,
    }
}

/// The keyboard focus after a widget node receives an event: a mouse press
/// on a selectable node claims focus; anything else leaves it.
pub fn focus_after(kind: EventKind, selectable: bool, focus: Option<u64>, id: u64) -> (r: Option<u64>)
    ensures
        r == if kind == EventKind::MouseDown && selectable {
            Some(id)
        } else {
            focus
        },
{
    match kind {
        EventKind::MouseDown => {
            if selectable {
                Some(id)
            } else {
                focus
            }
        },
        _ => focus,
    }
}

/// Whether the walk through the viewport tree stops after a response: a
/// consumed event stops it, except a broadcast, which visits every node.
pub fn stops_walk(response: EventResponse, routing: RoutingMode) -> (r: bool)
    ensures
        r == (response == EventResponse::Consumed && routing != RoutingMode::Broadcast),
{
    match response {
        EventResponse::Consumed => match routing {
            RoutingMode::Broadcast => false,
            _ => true,
        },
        EventResponse::Ignored => false,
    }
}

/// The tab that is shown: the active index, clamped to the last tab.
pub fn clamp_active_tab(active: usize, count: usize) -> (r: usize)
    requires
        count > 0,
    ensures
        r == if active < count { active } else { (count - 1) as usize },
{
    if active < count {
        active
    } else {
        count - 1
    }
}

/// A widget's verdict on an event: `Consumed` stops routing, `Ignored` lets
/// it keep walking.
#[derive(Clone, Copy, Debug, PartialEq, Eq, Structural)]
pub enum EventResponse {
    /// Stop routing the event to deeper widgets.
    Consumed,
    /// Keep walking the tree with this event.
    Ignored,
}

/// Outcome of handling an event while the context menu is open.
#[derive(Clone, Copy, Debug, PartialEq, Eq, Structural)]
pub enum ContextMenuOutcome {
    /// Event was handled by the menu (hover change, item click).
    Consumed,
    /// Event was ignored; let it pass through to normal routing.
    Ignored,
}

/// Split direction. `Horizontal` stacks children left/right (vertical
/// divider), `Vertical` stacks them top/bottom (horizontal divider).
#[derive(Clone, Copy, Debug, PartialEq, Eq, Structural)]
pub enum SplitDir {
    /// Children side by side (vertical divider).
    Horizontal,
    /// Children stacked (horizontal divider).
    Vertical,
}

/// Marker for the cached-state struct paired with a widget.
pub trait WidgetData {}

/// Cached state for a checkbox.
pub struct BoolWidgetData {
    /// Whether the cursor is currently over the box.
    pub hovered: bool,
}

impl WidgetData for BoolWidgetData {}

impl Default for BoolWidgetData {
    fn default() -> (r: Self)
        ensures
            !r.hovered,
    {
        BoolWidgetData { hovered: false }
    }
}

/// Cached state for a numeric input: buffer, cursor, error, and editing flag.
pub struct NumberWidgetData {
    /// The raw text being edited (empty when not editing).
    pub buffer: String,
    /// Cursor position (a byte offset) within `buffer`.
    pub cursor: usize,
    /// Whether the user is currently typing a value.
    pub editing: bool,
    /// Parse error message from the last Enter press, if any.
    pub error: Option<String>,
}

impl WidgetData for NumberWidgetData {}

impl Default for NumberWidgetData {
    fn default() -> (r: Self)
        ensures
            r.buffer@ == Seq::<char>::empty(),
            r.cursor == 0,
            !r.editing,
            r.error is None,
    {
        NumberWidgetData { buffer: String::new(), cursor: 0, editing: false, error: None }
    }
}

/// Cached state for a text input.
pub struct StringWidgetData {
    /// The raw text being edited (empty when not editing).
    pub buffer: String,
    /// Cursor position (a byte offset) within `buffer`.
    pub cursor: usize,
    /// Whether the user is currently typing.
    pub editing: bool,
}

impl WidgetData for StringWidgetData {}

impl Default for StringWidgetData {
    fn default() -> (r: Self)
        ensures
            r.buffer@ == Seq::<char>::empty(),
            r.cursor == 0,
            !r.editing,
    {
        StringWidgetData { buffer: String::new(), cursor: 0, editing: false }
    }
}

/// Cached interaction state for a key selector.
pub struct SelectorData {
    /// Whether the key list is expanded.
    pub open: bool,
    /// The option row under the mouse (`None` when closed or outside the
    /// list) — drawn highlighted like a context-menu item.
    pub hover: Option<usize>,
}

impl WidgetData for SelectorData {}

impl Default for SelectorData {
    fn default() -> (r: Self)
        ensures
            !r.open,
            r.hover is None,
    {
        SelectorData { open: false, hover: None }
    }
}

impl SelectorData {
    /// Opens the key list (a click on the header).
    pub fn open_list(&mut self)
        ensures
            final(self).open,
            final(self).hover == old(self).hover,
    {
        self.open = true;
    }

    /// Closes the key list and drops the highlight (a selection, or a click
    /// elsewhere inside the widget).
    pub fn close_list(&mut self)
        ensures
            !final(self).open,
            final(self).hover is None,
    {
        self.open = false;
        self.hover = None;
    }

    /// Highlights the option row under the cursor. `row` is the row the
    /// cursor is over (`None` outside the list); a closed list, or a row
    /// past the last of `count` options, highlights nothing.
    pub fn hover_row(&mut self, row: Option<usize>, count: usize)
        ensures
            final(self).open == old(self).open,
            final(self).hover == match row {
                Some(i) => if old(self).open && i < count {
                    Some(i)
                } else {
                    None
                },
                None => None,
            },
    {
        self.hover = match row {
            Some(i) => {
                if self.open && i < count {
                    Some(i)
                } else {
                    None
                }
            },
            None => None,
        };
    }
}

/// Whether a selector's value is stale and must be reset to empty: it is
/// neither empty (the valid "unset" state) nor a key of the map.
pub fn stale_selection(value: &String, is_key: bool) -> (r: bool)
    ensures
        r == (value@.len() > 0 && !is_key),
{
    !value.as_str().is_empty() && !is_key
}

/// Cached state for a single numeric field editor.
pub struct EditingField {
    /// The raw text being edited.
    pub buffer: String,
    /// Cursor position (a byte offset) within `buffer`.
    pub cursor: usize,
    /// Whether the user is currently typing.
    pub editing: bool,
}

impl Default for EditingField {
    fn default() -> (r: Self)
        ensures
            r.buffer@ == Seq::<char>::empty(),
            r.cursor == 0,
            !r.editing,
    {
        EditingField { buffer: String::new(), cursor: 0, editing: false }
    }
}

/// Cached state for a two-component editor (x and y sub-editors).
pub struct Vec2WidgetData {
    /// The x component editor.
    pub x: EditingField,
    /// The y component editor.
    pub y: EditingField,
}

impl WidgetData for Vec2WidgetData {}

impl Default for Vec2WidgetData {
    fn default() -> (r: Self)
        ensures
            r.x.buffer@ == Seq::<char>::empty() && r.x.cursor == 0 && !r.x.editing,
            r.y.buffer@ == Seq::<char>::empty() && r.y.cursor == 0 && !r.y.editing,
    {
        Vec2WidgetData { x: EditingField::default(), y: EditingField::default() }
    }
}

/// Cached state for a viewport-rect capture — no interaction state is
/// needed.
pub struct ViewportRectData;

impl WidgetData for ViewportRectData {}

impl Default for ViewportRectData {
    fn default() -> (r: Self) {
        ViewportRectData
    }
}

/// What the GUI does with an input event, phase by phase: the open context
/// menu sees it first, a right click opens a menu, a divider drag takes
/// mouse events, and anything left walks the viewport tree.
#[derive(Clone, Copy, Debug, PartialEq, Eq, Structural)]
pub enum GuiStep {
    /// The open menu handled the event; `close` dismisses it (a left click
    /// outside the menu).
    MenuHandled {
        /// Dismiss the menu.
        close: bool,
    },
    /// Try to open a context menu at the cursor (replacing any open one).
    OpenMenu,
    /// Start dragging the divider under the cursor.
    StartDrag,
    /// Move the dragged divider.
    Drag,
    /// Release the dragged divider.
    EndDrag,
    /// Route the event through the viewport tree.
    Walk,
}

/// The GUI's step for an event of kind `kind` (with `button` for mouse
/// presses and releases): `menu` is the open menu's outcome for it (`None`
/// when no menu is open), `outside_menu` whether the cursor is outside the
/// menu, `dragging` whether a divider drag is in progress, `on_divider`
/// whether a press hits a split divider.
pub fn gui_step(
    menu: Option<ContextMenuOutcome>,
    outside_menu: bool,
    kind: EventKind,
    button: Option<MouseButton>,
    dragging: bool,
    on_divider: bool,
) -> (r: GuiStep)
    ensures
        menu == Some(ContextMenuOutcome::Consumed) ==> r == (GuiStep::MenuHandled {
            close: kind == EventKind::MouseDown && button == Some(MouseButton::Left) && outside_menu,
        }),
        menu != Some(ContextMenuOutcome::Consumed) ==> r == if kind == EventKind::MouseDown && button == Some(
            MouseButton::Right,
        ) {
            GuiStep::OpenMenu
        } else if kind == EventKind::MouseDown && on_divider {
            GuiStep::StartDrag
        } else if kind == EventKind::MouseMove && dragging {
            GuiStep::Drag
        } else if kind == EventKind::MouseUp && dragging {
            GuiStep::EndDrag
        } else {
            GuiStep::Walk
        },
{
    let left = match button {
        Some(MouseButton::Left) => true,
        _ => false,
    };
    let right = match button {
        Some(MouseButton::Right) => true,
        _ => false,
    };
    let press = match kind {
        EventKind::MouseDown => true,
        _ => false,
    };
    match menu {
        Some(ContextMenuOutcome::Consumed) => {
            return GuiStep::MenuHandled { close: press && left && outside_menu };
        },
        _ => {},
    }
    if press && right {
        return GuiStep::OpenMenu;
    }
    match kind {
        EventKind::MouseDown => {
            if on_divider {
                GuiStep::StartDrag
            } else {
                GuiStep::Walk
            }
        },
        EventKind::MouseMove => {
            if dragging {
                GuiStep::Drag
            } else {
                GuiStep::Walk
            }
        },
        EventKind::MouseUp => {
            if dragging {
                GuiStep::EndDrag
            } else {
                GuiStep::Walk
            }
        },
        _ => GuiStep::Walk,
    }
}

} // verus!
