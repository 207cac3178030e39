//! Event routing through the viewport tree.
//!
//! The tree of splits, tabs, containers and widgets is a list of nodes whose
//! children are named by index, the root first. An event walks it depth
//! first: a split tries its first child and then its second, a tab its
//! active child (unless a press on its header switches tabs), and a
//! container its rows as the event's routing says. A consumed event stops
//! the walk, except a broadcast, which reaches every widget.
//!
//! The walk is a state machine. Each step either asks a widget to handle the
//! event (the caller does so and passes the widget's answer to the next
//! step), moves on, or ends with the walk's response. What needs the
//! floating-point layout comes from the caller: which nodes' rectangles hold
//! the cursor, and which tab header a press lands on.

use crate::gui::{
    clamp_active_tab, focus_after, routing_of, stops_walk, widget_receives, EventKind, EventResponse, RoutingMode,
};
use vstd::prelude::*;

verus! {

/// One node of the viewport tree, as the event walk sees it.
#[derive(Debug)]
pub enum WalkNode {
    /// A widget with its id; a press on a selectable widget focuses it.
    Widget { id: u64, selectable: bool },
    /// Two children side by side or stacked.
    Split { first: usize, second: usize },
    /// The children behind the tab headers, in header order.
    Tab { tabs: Vec<usize> },
    /// The editors of a container's rows, top to bottom (none when the
    /// rows could not be laid out).
    Container { rows: Vec<usize> },
}

/// A pending piece of the walk.
#[derive(Clone, Copy, Debug, PartialEq, Eq, Structural)]
pub enum Frame {
    /// Walk node `n`.
    Visit(usize),
    /// The widget at node `n` was asked; its answer is handed back.
    WidgetDone(usize),
    /// Split `n` walked its first child; the second comes next unless the
    /// first consumed the event.
    SplitSecond(usize),
    /// Container `n` walked row `i` for a focused event.
    RowsFocused(usize, usize),
    /// Container `n` broadcasts to its widget rows from row `i` on.
    RowsBroadcast(usize, usize),
    /// Container `n` looks for the row under the cursor from row `i` on.
    RowsPositional(usize, usize),
}

/// What the caller does next.
#[derive(Clone, Copy, Debug, PartialEq, Eq, Structural)]
pub enum WalkAction {
    /// Call the widget at this node and pass its answer to the next step.
    Ask(usize),
    /// Take the next step.
    Continue,
    /// The walk is over, with this response.
    Done(EventResponse),
}

/// The state of a walk as the contracts see it: the pending frames (the
/// last one on top), the response handed back to the top frame, the
/// keyboard focus and each tab node's active tab.
pub ghost struct WalkView {
    pub stack: Seq<Frame>,
    pub ret: Option<EventResponse>,
    pub focus: Option<u64>,
    pub active: Seq<usize>,
}

/// The state of a walk in progress.
pub struct WalkState {
    stack: Vec<Frame>,
    ret: Option<EventResponse>,
    focus: Option<u64>,
    active: Vec<usize>,
}

impl View for WalkState {
    type V = WalkView;

    closed spec fn view(&self) -> WalkView {
        WalkView { stack: self.stack@, ret: self.ret, focus: self.focus, active: self.active@ }
    }
}

// ── The rules ───────────────────────────────────────────────────────────

/// A missing response counts as ignored.
pub open spec fn response_or_ignored(r: Option<EventResponse>) -> EventResponse {
    match r {
        Some(x) => x,
        None => EventResponse::Ignored,
    }
}

/// The tab shown out of `count`: `active`, clamped to the last tab.
pub open spec fn shown_tab(active: usize, count: nat) -> usize {
    if active < count {
        active
    } else {
        (count - 1) as usize
    }
}

/// Hands `r` back to the frame below, leaving `stack`.
pub open spec fn give_back(s: WalkView, stack: Seq<Frame>, r: EventResponse) -> (WalkView, WalkAction) {
    (WalkView { stack, ret: Some(r), ..s }, WalkAction::Continue)
}

/// Goes on with `stack`, nothing handed back yet.
pub open spec fn go_on(s: WalkView, stack: Seq<Frame>) -> (WalkView, WalkAction) {
    (WalkView { stack, ret: None, ..s }, WalkAction::Continue)
}

/// Whether a widget node with id `id` takes the event: a focused event
/// only if it has the focus, a broadcast always, a positional event only
/// if its rectangle holds the cursor.
pub open spec fn receives(kind: EventKind, focus: Option<u64>, id: u64, hit: bool) -> bool {
    match routing_of(kind) {
        RoutingMode::Focused => focus == Some(id),
        RoutingMode::Broadcast => true,
        RoutingMode::Positional => hit,
    }
}

/// The step that starts walking node `n`, with `rest` below it.
pub open spec fn visit_step(
    nodes: Seq<WalkNode>,
    hits: Seq<bool>,
    header: Seq<Option<usize>>,
    kind: EventKind,
    s: WalkView,
    rest: Seq<Frame>,
    n: usize,
) -> (WalkView, WalkAction) {
    match nodes[n as int] {
        WalkNode::Widget { id, selectable } => if !receives(kind, s.focus, id, hits[n as int]) {
            give_back(s, rest, EventResponse::Ignored)
        } else {
            (
                WalkView {
                    stack: rest.push(Frame::WidgetDone(n)),
                    ret: None,
                    focus: if kind == EventKind::MouseDown && selectable { Some(id) } else { s.focus },
                    active: s.active,
                },
                WalkAction::Ask(n),
            )
        },
        WalkNode::Split { first, second } => go_on(s, rest.push(Frame::SplitSecond(n)).push(Frame::Visit(first))),
        WalkNode::Tab { tabs } => if tabs@.len() == 0 {
            give_back(s, rest, EventResponse::Ignored)
        } else if kind == EventKind::MouseDown && header[n as int] is Some {
            give_back(
                WalkView { active: s.active.update(n as int, shown_tab(header[n as int]->0, tabs@.len())), ..s },
                rest,
                EventResponse::Consumed,
            )
        } else {
            go_on(s, rest.push(Frame::Visit(tabs@[shown_tab(s.active[n as int], tabs@.len()) as int])))
        },
        WalkNode::Container { rows } => if rows@.len() == 0 {
            give_back(s, rest, EventResponse::Ignored)
        } else {
            match routing_of(kind) {
                RoutingMode::Focused => go_on(s, rest.push(Frame::RowsFocused(n, 0)).push(Frame::Visit(rows@[0]))),
                RoutingMode::Broadcast => go_on(s, rest.push(Frame::RowsBroadcast(n, 0))),
                RoutingMode::Positional => go_on(s, rest.push(Frame::RowsPositional(n, 0))),
            }
        },
    }
}

/// The step that resumes `frame`, with `rest` below it, given the
/// response `r` handed back to it.
pub open spec fn resume_step(
    nodes: Seq<WalkNode>,
    hits: Seq<bool>,
    kind: EventKind,
    s: WalkView,
    rest: Seq<Frame>,
    frame: Frame,
    r: EventResponse,
) -> (WalkView, WalkAction) {
    let stop = r == EventResponse::Consumed && routing_of(kind) != RoutingMode::Broadcast;
    match frame {
        Frame::WidgetDone(n) => give_back(s, rest, if stop { EventResponse::Consumed } else { EventResponse::Ignored }),
        Frame::SplitSecond(n) => if stop {
            give_back(s, rest, EventResponse::Consumed)
        } else {
            go_on(s, rest.push(Frame::Visit(nodes[n as int]->second)))
        },
        Frame::RowsFocused(n, i) => {
            let rows = nodes[n as int]->rows@;
            if r == EventResponse::Consumed {
                give_back(s, rest, EventResponse::Consumed)
            } else if i + 1 < rows.len() {
                go_on(s, rest.push(Frame::RowsFocused(n, (i + 1) as usize)).push(Frame::Visit(rows[i + 1])))
            } else {
                give_back(s, rest, EventResponse::Ignored)
            }
        },
        Frame::RowsBroadcast(n, i) => {
            let rows = nodes[n as int]->rows@;
            if i >= rows.len() {
                give_back(s, rest, EventResponse::Consumed)
            } else if nodes[rows[i as int] as int] is Widget {
                (
                    WalkView { stack: rest.push(Frame::RowsBroadcast(n, (i + 1) as usize)), ret: None, ..s },
                    WalkAction::Ask(rows[i as int]),
                )
            } else {
                go_on(s, rest.push(Frame::RowsBroadcast(n, (i + 1) as usize)))
            }
        },
        Frame::RowsPositional(n, i) => {
            let rows = nodes[n as int]->rows@;
            if i >= rows.len() {
                give_back(s, rest, EventResponse::Ignored)
            } else if hits[rows[i as int] as int] {
                go_on(s, rest.push(Frame::Visit(rows[i as int])))
            } else {
                go_on(s, rest.push(Frame::RowsPositional(n, (i + 1) as usize)))
            }
        },
        Frame::Visit(n) => go_on(s, rest.push(Frame::Visit(n))),
    }
}

/// One step of the walk: a widget's answer (`answer`, after an
/// [`WalkAction::Ask`]) is handed back to the top frame, which is then
/// popped and carried out; with no frame left, the walk is done.
pub open spec fn walk_step_spec(
    nodes: Seq<WalkNode>,
    hits: Seq<bool>,
    header: Seq<Option<usize>>,
    kind: EventKind,
    s0: WalkView,
    answer: Option<EventResponse>,
) -> (WalkView, WalkAction) {
    let s = match answer {
        Some(a) => WalkView { ret: Some(a), ..s0 },
        None => s0,
    };
    if s.stack.len() == 0 {
        (s, WalkAction::Done(response_or_ignored(s.ret)))
    } else {
        let rest = s.stack.drop_last();
        match s.stack.last() {
            Frame::Visit(n) => visit_step(nodes, hits, header, kind, s, rest, n),
            frame => resume_step(nodes, hits, kind, s, rest, frame, response_or_ignored(s.ret)),
        }
    }
}

/// Every child index names a node.
pub open spec fn node_wf(nodes: Seq<WalkNode>, node: WalkNode) -> bool {
    match node {
        WalkNode::Widget { .. } => true,
        WalkNode::Split { first, second } => first < nodes.len() && second < nodes.len(),
        WalkNode::Tab { tabs } => forall|i: int| 0 <= i < tabs@.len() ==> #[trigger] tabs@[i] < nodes.len(),
        WalkNode::Container { rows } => forall|i: int| 0 <= i < rows@.len() ==> #[trigger] rows@[i] < nodes.len(),
    }
}

/// A frame names a node of the right kind, and a row within it.
pub open spec fn frame_wf(nodes: Seq<WalkNode>, f: Frame) -> bool {
    match f {
        Frame::Visit(n) => n < nodes.len(),
        Frame::WidgetDone(n) => n < nodes.len(),
        Frame::SplitSecond(n) => n < nodes.len() && nodes[n as int] is Split,
        Frame::RowsFocused(n, i) => n < nodes.len() && nodes[n as int] is Container && i < nodes[n as int]->rows@.len(),
        Frame::RowsBroadcast(n, i) => n < nodes.len() && nodes[n as int] is Container && i <= nodes[n as int]->rows@.len(),
        Frame::RowsPositional(n, i) => n < nodes.len() && nodes[n as int] is Container && i <= nodes[n as int]->rows@.len(),
    }
}

/// Every pending frame is well formed.
pub open spec fn frames_wf(nodes: Seq<WalkNode>, stack: Seq<Frame>) -> bool {
    forall|i: int| 0 <= i < stack.len() ==> frame_wf(nodes, #[trigger] stack[i])
}

/// The tree's child indices name nodes, the caller's flags and the active
/// tabs cover every node, and every pending frame is well formed.
pub open spec fn walk_wf(nodes: Seq<WalkNode>, hits: Seq<bool>, header: Seq<Option<usize>>, s: WalkView) -> bool {
    &&& forall|n: int| 0 <= n < nodes.len() ==> node_wf(nodes, #[trigger] nodes[n])
    &&& hits.len() == nodes.len()
    &&& header.len() == nodes.len()
    &&& s.active.len() == nodes.len()
    &&& frames_wf(nodes, s.stack)
}


// ── The walk as a recursion over the tree ───────────────────────────────

/// Every child comes after its parent in the node list (as when the tree
/// is listed root first, each node before its children), every child index
/// names a node, and a container's row count fits a `usize` (as that of
/// any vector does).
pub open spec fn tree_ordered(nodes: Seq<WalkNode>) -> bool {
    forall|n: int|
        0 <= n < nodes.len() ==> node_wf(nodes, #[trigger] nodes[n]) && match nodes[n] {
            WalkNode::Widget { .. } => true,
            WalkNode::Split { first, second } => n < first && n < second,
            WalkNode::Tab { tabs } => forall|i: int| 0 <= i < tabs@.len() ==> n < #[trigger] tabs@[i],
            WalkNode::Container { rows } => rows@.len() <= usize::MAX && forall|i: int|
                0 <= i < rows@.len() ==> n < #[trigger] rows@[i],
        }
}

/// The rows of a container node (none for other nodes).
pub open spec fn rows_of(node: WalkNode) -> Seq<usize> {
    match node {
        WalkNode::Container { rows } => rows@,
        _ => Seq::empty(),
    }
}

/// What walking node `n` gives, from keyboard focus `f` and active tabs `a`,
/// when every widget `w` that is asked answers `answers(w)`: the response,
/// the focus and the active tabs afterwards. These are the rules of the
/// walk: a widget that takes the event (see [`receives`]) is focused by a
/// press if selectable and answers; a split walks its first child and then,
/// unless that consumed the event (outside a broadcast), its second; a tab
/// switches to the pressed header, consuming the press, or walks its shown
/// tab; a container offers a focused event to each row until one consumes
/// it, answers a broadcast itself (after its widget rows saw it), and walks
/// the first row under the cursor for a positional event.
pub open spec fn walk_node(
    nodes: Seq<WalkNode>,
    hits: Seq<bool>,
    header: Seq<Option<usize>>,
    kind: EventKind,
    answers: spec_fn(usize) -> EventResponse,
    n: usize,
    f: Option<u64>,
    a: Seq<usize>,
) -> (EventResponse, Option<u64>, Seq<usize>, Seq<usize>)
    decreases nodes.len() - n, rows_of(nodes[n as int]).len() + 1,
    when tree_ordered(nodes) && n < nodes.len()
{
    let bc = routing_of(kind) == RoutingMode::Broadcast;
    match nodes[n as int] {
        WalkNode::Widget { id, selectable } => if !receives(kind, f, id, hits[n as int]) {
            (EventResponse::Ignored, f, a, Seq::empty())
        } else {
            (
                if answers(n) == EventResponse::Consumed && !bc { EventResponse::Consumed } else { EventResponse::Ignored },
                if kind == EventKind::MouseDown && selectable { Some(id) } else { f },
                a,
                seq![n],
            )
        },
        WalkNode::Split { first, second } => {
            let w1 = walk_node(nodes, hits, header, kind, answers, first, f, a);
            if w1.0 == EventResponse::Consumed && !bc {
                (EventResponse::Consumed, w1.1, w1.2, w1.3)
            } else {
                let w2 = walk_node(nodes, hits, header, kind, answers, second, w1.1, w1.2);
                (w2.0, w2.1, w2.2, w1.3 + w2.3)
            }
        },
        WalkNode::Tab { tabs } => if tabs@.len() == 0 {
            (EventResponse::Ignored, f, a, Seq::empty())
        } else if kind == EventKind::MouseDown && header[n as int] is Some {
            (EventResponse::Consumed, f, a.update(n as int, shown_tab(header[n as int]->0, tabs@.len())), Seq::empty())
        } else {
            walk_node(nodes, hits, header, kind, answers, tabs@[shown_tab(a[n as int], tabs@.len()) as int], f, a)
        },
        WalkNode::Container { rows } => if rows@.len() == 0 {
            (EventResponse::Ignored, f, a, Seq::empty())
        } else {
            match routing_of(kind) {
                RoutingMode::Focused => rows_focused(nodes, hits, header, kind, answers, n, 0, f, a),
                RoutingMode::Broadcast => (EventResponse::Consumed, f, a, widget_rows(nodes, rows@, 0)),
                RoutingMode::Positional => rows_positional(nodes, hits, header, kind, answers, n, 0, f, a),
            }
        },
    }
}

/// The rows from row `i` on that are widgets, in order: the widgets a
/// container asks about a broadcast.
pub open spec fn widget_rows(nodes: Seq<WalkNode>, rows: Seq<usize>, i: int) -> Seq<usize>
    decreases rows.len() - i,
{
    if i < 0 || i >= rows.len() {
        Seq::empty()
    } else {
        (if nodes[rows[i] as int] is Widget { seq![rows[i]] } else { Seq::empty() }) + widget_rows(nodes, rows, i + 1)
    }
}

/// A focused event offered to container `n`'s rows from row `i` on, until
/// one consumes it.
pub open spec fn rows_focused(
    nodes: Seq<WalkNode>,
    hits: Seq<bool>,
    header: Seq<Option<usize>>,
    kind: EventKind,
    answers: spec_fn(usize) -> EventResponse,
    n: usize,
    i: int,
    f: Option<u64>,
    a: Seq<usize>,
) -> (EventResponse, Option<u64>, Seq<usize>, Seq<usize>)
    decreases nodes.len() - n, rows_of(nodes[n as int]).len() - i,
    when tree_ordered(nodes) && n < nodes.len() && 0 <= i <= rows_of(nodes[n as int]).len()
{
    let rows = rows_of(nodes[n as int]);
    if i >= rows.len() {
        (EventResponse::Ignored, f, a, Seq::empty())
    } else {
        let w1 = walk_node(nodes, hits, header, kind, answers, rows[i], f, a);
        if w1.0 == EventResponse::Consumed {
            (EventResponse::Consumed, w1.1, w1.2, w1.3)
        } else {
            let w2 = rows_focused(nodes, hits, header, kind, answers, n, i + 1, w1.1, w1.2);
            (w2.0, w2.1, w2.2, w1.3 + w2.3)
        }
    }
}

/// A positional event walks the first of container `n`'s rows from row `i`
/// on that holds the cursor; none holding it, the event is ignored.
pub open spec fn rows_positional(
    nodes: Seq<WalkNode>,
    hits: Seq<bool>,
    header: Seq<Option<usize>>,
    kind: EventKind,
    answers: spec_fn(usize) -> EventResponse,
    n: usize,
    i: int,
    f: Option<u64>,
    a: Seq<usize>,
) -> (EventResponse, Option<u64>, Seq<usize>, Seq<usize>)
    decreases nodes.len() - n, rows_of(nodes[n as int]).len() - i,
    when tree_ordered(nodes) && n < nodes.len() && 0 <= i <= rows_of(nodes[n as int]).len()
{
    let rows = rows_of(nodes[n as int]);
    if i >= rows.len() {
        (EventResponse::Ignored, f, a, Seq::empty())
    } else if hits[rows[i] as int] {
        walk_node(nodes, hits, header, kind, answers, rows[i], f, a)
    } else {
        rows_positional(nodes, hits, header, kind, answers, n, i + 1, f, a)
    }
}

/// `w` with `asked` asked before it.
pub open spec fn after_asking(
    asked: Seq<usize>,
    w: (EventResponse, Option<u64>, Seq<usize>, Seq<usize>),
) -> (EventResponse, Option<u64>, Seq<usize>, Seq<usize>) {
    (w.0, w.1, w.2, asked + w.3)
}

/// What the pending frames `stack` make of the response `r` handed back,
/// the focus `f` and the active tabs `a`, when every widget asked answers
/// as `answers` says: the response, focus and active tabs they end with,
/// and the widgets they ask, in order.
pub open spec fn finish(
    nodes: Seq<WalkNode>,
    hits: Seq<bool>,
    header: Seq<Option<usize>>,
    kind: EventKind,
    answers: spec_fn(usize) -> EventResponse,
    stack: Seq<Frame>,
    r: EventResponse,
    f: Option<u64>,
    a: Seq<usize>,
) -> (EventResponse, Option<u64>, Seq<usize>, Seq<usize>)
    decreases stack.len(),
{
    if stack.len() == 0 {
        (r, f, a, Seq::empty())
    } else {
        let rest = stack.drop_last();
        let stop = r == EventResponse::Consumed && routing_of(kind) != RoutingMode::Broadcast;
        match stack.last() {
            Frame::Visit(n) => {
                let w = walk_node(nodes, hits, header, kind, answers, n, f, a);
                after_asking(w.3, finish(nodes, hits, header, kind, answers, rest, w.0, w.1, w.2))
            },
            Frame::WidgetDone(_) => finish(
                nodes,
                hits,
                header,
                kind,
                answers,
                rest,
                if stop { EventResponse::Consumed } else { EventResponse::Ignored },
                f,
                a,
            ),
            Frame::SplitSecond(n) => if stop {
                finish(nodes, hits, header, kind, answers, rest, EventResponse::Consumed, f, a)
            } else {
                let w = walk_node(nodes, hits, header, kind, answers, nodes[n as int]->second, f, a);
                after_asking(w.3, finish(nodes, hits, header, kind, answers, rest, w.0, w.1, w.2))
            },
            Frame::RowsFocused(n, i) => if r == EventResponse::Consumed {
                finish(nodes, hits, header, kind, answers, rest, EventResponse::Consumed, f, a)
            } else {
                let w = rows_focused(nodes, hits, header, kind, answers, n, i + 1, f, a);
                after_asking(w.3, finish(nodes, hits, header, kind, answers, rest, w.0, w.1, w.2))
            },
            Frame::RowsBroadcast(n, i) => after_asking(
                widget_rows(nodes, nodes[n as int]->rows@, i as int),
                finish(nodes, hits, header, kind, answers, rest, EventResponse::Consumed, f, a),
            ),
            Frame::RowsPositional(n, i) => {
                let w = rows_positional(nodes, hits, header, kind, answers, n, i as int, f, a);
                after_asking(w.3, finish(nodes, hits, header, kind, answers, rest, w.0, w.1, w.2))
            },
        }
    }
}

/// Node `c` is a widget.
pub open spec fn is_widget_node(nodes: Seq<WalkNode>) -> spec_fn(usize) -> bool {
    |c: usize| nodes[c as int] is Widget
}

proof fn lemma_widget_rows_filter(nodes: Seq<WalkNode>, rows: Seq<usize>, i: int)
    requires
        0 <= i <= rows.len(),
    ensures
        widget_rows(nodes, rows, i) == rows.subrange(i, rows.len() as int).filter(is_widget_node(nodes)),
    decreases rows.len() - i,
{
    let p = is_widget_node(nodes);
    if i < rows.len() {
        lemma_widget_rows_filter(nodes, rows, i + 1);
        let x = seq![rows[i]];
        let b = rows.subrange(i + 1, rows.len() as int);
        assert(rows.subrange(i, rows.len() as int) =~= x + b);
        Seq::filter_distributes_over_add(x, b, p);
        reveal_with_fuel(Seq::filter, 2);
        assert(x.drop_last() =~= Seq::<usize>::empty());
        assert(x.last() == rows[i]);
        if p(rows[i]) {
            assert(x.filter(p) =~= x);
        } else {
            assert(x.filter(p) =~= Seq::<usize>::empty());
        }
    } else {
        assert(rows.subrange(i, rows.len() as int) =~= Seq::<usize>::empty());
    }
}

/// A broadcast asks, of a container with rows, exactly its widget rows, in
/// row order and each once, whatever the hit flags; rows that are not
/// widgets are not entered. The container consumes the broadcast and leaves
/// the focus and the active tabs as they were.
pub proof fn lemma_broadcast_asks_every_widget_row(
    nodes: Seq<WalkNode>,
    hits: Seq<bool>,
    header: Seq<Option<usize>>,
    kind: EventKind,
    answers: spec_fn(usize) -> EventResponse,
    n: usize,
    f: Option<u64>,
    a: Seq<usize>,
)
    requires
        tree_ordered(nodes),
        n < nodes.len(),
        routing_of(kind) == RoutingMode::Broadcast,
        nodes[n as int] is Container,
        nodes[n as int]->rows@.len() > 0,
    ensures
        walk_node(nodes, hits, header, kind, answers, n, f, a) == (
            EventResponse::Consumed,
            f,
            a,
            nodes[n as int]->rows@.filter(is_widget_node(nodes)),
        ),
{
    let rows = nodes[n as int]->rows@;
    lemma_widget_rows_filter(nodes, rows, 0);
    assert(rows.subrange(0, rows.len() as int) =~= rows);
}

/// Where the cursor is does not matter to a broadcast: the walk gives the
/// same response, focus and active tabs, and asks the same widgets, for any
/// two sets of hit flags.
pub proof fn lemma_broadcast_ignores_hits(
    nodes: Seq<WalkNode>,
    hits1: Seq<bool>,
    hits2: Seq<bool>,
    header: Seq<Option<usize>>,
    kind: EventKind,
    answers: spec_fn(usize) -> EventResponse,
    n: usize,
    f: Option<u64>,
    a: Seq<usize>,
)
    requires
        tree_ordered(nodes),
        n < nodes.len(),
        routing_of(kind) == RoutingMode::Broadcast,
    ensures
        walk_node(nodes, hits1, header, kind, answers, n, f, a) == walk_node(nodes, hits2, header, kind, answers, n, f, a),
    decreases nodes.len() - n,
{
    assert(node_wf(nodes, nodes[n as int]));
    match nodes[n as int] {
        WalkNode::Split { first, second } => {
            lemma_broadcast_ignores_hits(nodes, hits1, hits2, header, kind, answers, first, f, a);
            let w1 = walk_node(nodes, hits1, header, kind, answers, first, f, a);
            lemma_broadcast_ignores_hits(nodes, hits1, hits2, header, kind, answers, second, w1.1, w1.2);
        },
        WalkNode::Tab { tabs } => {
            if tabs@.len() > 0 {
                let c = tabs@[shown_tab(a[n as int], tabs@.len()) as int];
                lemma_broadcast_ignores_hits(nodes, hits1, hits2, header, kind, answers, c, f, a);
            }
        },
        _ => {},
    }
}

/// What a walk in state `s` ends with: its response, focus and active
/// tabs, and the widgets it asks from here on.
pub open spec fn outcome(
    nodes: Seq<WalkNode>,
    hits: Seq<bool>,
    header: Seq<Option<usize>>,
    kind: EventKind,
    answers: spec_fn(usize) -> EventResponse,
    s: WalkView,
) -> (EventResponse, Option<u64>, Seq<usize>, Seq<usize>) {
    finish(nodes, hits, header, kind, answers, s.stack, response_or_ignored(s.ret), s.focus, s.active)
}

/// The state with widget answer `answer` handed back, if there is one.
pub open spec fn with_answer(s: WalkView, answer: Option<EventResponse>) -> WalkView {
    match answer {
        Some(x) => WalkView { ret: Some(x), ..s },
        None => s,
    }
}

/// One step keeps what the walk ends with: a step that goes on leaves the
/// outcome as it was; one that asks widget `w` leaves it as it was once
/// `w`'s answer is handed back; one that ends the walk gives the outcome.
pub proof fn lemma_step_keeps_outcome(
    nodes: Seq<WalkNode>,
    hits: Seq<bool>,
    header: Seq<Option<usize>>,
    kind: EventKind,
    answers: spec_fn(usize) -> EventResponse,
    s0: WalkView,
    answer: Option<EventResponse>,
)
    requires
        tree_ordered(nodes),
        walk_wf(nodes, hits, header, s0),
    ensures
        ({
            let s1 = with_answer(s0, answer);
            let (s2, act) = walk_step_spec(nodes, hits, header, kind, s0, answer);
            &&& act is Continue ==> outcome(nodes, hits, header, kind, answers, s2) == outcome(
                nodes,
                hits,
                header,
                kind,
                answers,
                s1,
            )
            &&& act is Ask ==> after_asking(
                seq![act->Ask_0],
                outcome(nodes, hits, header, kind, answers, with_answer(s2, Some(answers(act->Ask_0)))),
            ) == outcome(nodes, hits, header, kind, answers, s1)
            &&& act is Done ==> s2 == s1 && (act->Done_0, s2.focus, s2.active, Seq::<usize>::empty()) == outcome(
                nodes,
                hits,
                header,
                kind,
                answers,
                s1,
            )
        }),
{
    let s1 = with_answer(s0, answer);
    if s1.stack.len() > 0 {
        let rest = s1.stack.drop_last();
        let top = s1.stack.last();
        assert(rest.push(top) =~= s1.stack);
        reveal_with_fuel(finish, 3);
        assert(frame_wf(nodes, s1.stack[s1.stack.len() - 1]));
        match top {
            Frame::RowsFocused(n, _) => {
                assert(tree_ordered(nodes) ==> rows_of(nodes[n as int]).len() <= usize::MAX);
            },
            Frame::RowsPositional(n, _) => {
                assert(tree_ordered(nodes) ==> rows_of(nodes[n as int]).len() <= usize::MAX);
            },
            _ => {},
        }
        let r = response_or_ignored(s1.ret);
        let f = s1.focus;
        let a = s1.active;
        match top {
            Frame::Visit(n) => {
                lemma_visit_keeps_outcome(nodes, hits, header, kind, answers, s1, rest, n);
            },
            Frame::WidgetDone(n) => {
            },
            Frame::SplitSecond(n) => {
                let second = nodes[n as int]->second;
                assert(rest.push(Frame::Visit(second)).drop_last() =~= rest);
            },
            Frame::RowsFocused(n, i) => {
                let rows = nodes[n as int]->rows@;
                let st = rest.push(Frame::RowsFocused(n, (i + 1) as usize));
                if r != EventResponse::Consumed && i + 1 < rows.len() {
                    assert(st.push(Frame::Visit(rows[i + 1])).drop_last() =~= st);
                    assert(st.drop_last() =~= rest);
                    assert(rows_of(nodes[n as int]) == rows);
                    assert(rows_focused(nodes, hits, header, kind, answers, n, i + 1, f, a) == {
                        let w1 = walk_node(nodes, hits, header, kind, answers, rows[i + 1], f, a);
                        if w1.0 == EventResponse::Consumed {
                            (EventResponse::Consumed, w1.1, w1.2, w1.3)
                        } else {
                            let w2 = rows_focused(nodes, hits, header, kind, answers, n, i + 2, w1.1, w1.2);
                            (w2.0, w2.1, w2.2, w1.3 + w2.3)
                        }
                    });
                } else if r != EventResponse::Consumed {
                    assert(rows_focused(nodes, hits, header, kind, answers, n, i + 1, f, a) == (
                    EventResponse::Ignored, f, a, Seq::<usize>::empty()));
                }
            },
            Frame::RowsBroadcast(n, i) => {
                assert(rest.push(Frame::RowsBroadcast(n, (i + 1) as usize)).drop_last() =~= rest);
            },
            Frame::RowsPositional(n, i) => {
                let rows = nodes[n as int]->rows@;
                assert(rows_of(nodes[n as int]) == rows);
                if i < rows.len() {
                    if hits[rows[i as int] as int] {
                        assert(rest.push(Frame::Visit(rows[i as int])).drop_last() =~= rest);
                    } else {
                        assert(rest.push(Frame::RowsPositional(n, (i + 1) as usize)).drop_last() =~= rest);
                    }
                }
            },
        }
    }
}

/// A step keeps the walk well formed.
pub proof fn lemma_step_keeps_wf(
    nodes: Seq<WalkNode>,
    hits: Seq<bool>,
    header: Seq<Option<usize>>,
    kind: EventKind,
    s0: WalkView,
    answer: Option<EventResponse>,
)
    requires
        walk_wf(nodes, hits, header, s0),
    ensures
        walk_wf(nodes, hits, header, walk_step_spec(nodes, hits, header, kind, s0, answer).0),
{
    let s1 = with_answer(s0, answer);
    if s1.stack.len() > 0 {
        let rest = s1.stack.drop_last();
        assert(frame_wf(nodes, s1.stack[s1.stack.len() - 1]));
        assert forall|i: int| 0 <= i < rest.len() implies frame_wf(nodes, #[trigger] rest[i]) by {
            assert(rest[i] == s1.stack[i]);
        }
        match s1.stack.last() {
            Frame::Visit(n) => {
                assert(node_wf(nodes, nodes[n as int]));
            },
            _ => {},
        }
    }
}

/// Only a broadcast leaves a container broadcasting to its rows.
pub open spec fn broadcasts_only_in_broadcast(kind: EventKind, stack: Seq<Frame>) -> bool {
    forall|i: int|
        0 <= i < stack.len() && #[trigger] stack[i] is RowsBroadcast ==> routing_of(kind) == RoutingMode::Broadcast
}

/// A step only asks widgets: one that takes the event (see [`receives`],
/// judged with the focus before the step), or, in a broadcast, any widget
/// row of a container. A walk started from a single frame keeps
/// [`broadcasts_only_in_broadcast`] at every step.
pub proof fn lemma_asks_only_receivers(
    nodes: Seq<WalkNode>,
    hits: Seq<bool>,
    header: Seq<Option<usize>>,
    kind: EventKind,
    s0: WalkView,
    answer: Option<EventResponse>,
)
    requires
        walk_wf(nodes, hits, header, s0),
        broadcasts_only_in_broadcast(kind, s0.stack),
    ensures
        broadcasts_only_in_broadcast(kind, walk_step_spec(nodes, hits, header, kind, s0, answer).0.stack),
        ({
            let act = walk_step_spec(nodes, hits, header, kind, s0, answer).1;
            act is Ask ==> {
                let c = act->Ask_0;
                &&& c < nodes.len()
                &&& nodes[c as int] is Widget
                &&& (routing_of(kind) == RoutingMode::Broadcast || receives(
                    kind,
                    s0.focus,
                    nodes[c as int]->id,
                    hits[c as int],
                ))
            }
        }),
{
    let s1 = with_answer(s0, answer);
    if s1.stack.len() > 0 {
        let rest = s1.stack.drop_last();
        assert(frame_wf(nodes, s1.stack[s1.stack.len() - 1]));
        assert(s1.stack[s1.stack.len() - 1] is RowsBroadcast ==> routing_of(kind) == RoutingMode::Broadcast);
        assert forall|i: int| 0 <= i < rest.len() && #[trigger] rest[i] is RowsBroadcast implies routing_of(kind)
            == RoutingMode::Broadcast by {
            assert(rest[i] == s1.stack[i]);
        }
        match s1.stack.last() {
            Frame::RowsBroadcast(n, i) => {
                assert(node_wf(nodes, nodes[n as int]));
            },
            _ => {},
        }
    }
}

/// The answer handed to step `k` of a run: that of the widget asked by
/// step `k - 1`, if it asked one.
pub open spec fn answer_for(
    actions: Seq<WalkAction>,
    answers: spec_fn(usize) -> EventResponse,
    k: int,
) -> Option<EventResponse> {
    if k > 0 && actions[k - 1] is Ask {
        Some(answers(actions[k - 1]->Ask_0))
    } else {
        None
    }
}

/// The widgets asked by `actions[k..]`, in order.
pub open spec fn asked_from(actions: Seq<WalkAction>, k: int) -> Seq<usize>
    decreases actions.len() - k,
{
    if k < 0 || k >= actions.len() {
        Seq::empty()
    } else {
        (if actions[k] is Ask { seq![actions[k]->Ask_0] } else { Seq::empty() }) + asked_from(actions, k + 1)
    }
}

/// The step-by-step walk ends as the rules over the tree say. Run from the
/// root with the focus and active tabs of `states[0]`, where `states[k + 1]`
/// and `actions[k]` are what step `k` gives and each widget asked answers
/// as `answers` says, a walk that is done ends with the response, focus and
/// active tabs of [`walk_node`] on the root, and has asked exactly the
/// widgets that [`walk_node`] asks, in that order.
pub proof fn lemma_walk_follows_rules(
    nodes: Seq<WalkNode>,
    hits: Seq<bool>,
    header: Seq<Option<usize>>,
    kind: EventKind,
    answers: spec_fn(usize) -> EventResponse,
    states: Seq<WalkView>,
    actions: Seq<WalkAction>,
)
    requires
        tree_ordered(nodes),
        nodes.len() > 0,
        hits.len() == nodes.len(),
        header.len() == nodes.len(),
        states.len() == actions.len() + 1,
        actions.len() > 0,
        states[0].stack == seq![Frame::Visit(0)],
        states[0].ret is None,
        states[0].active.len() == nodes.len(),
        forall|k: int|
            0 <= k < actions.len() ==> (states[k + 1], actions[k]) == #[trigger] walk_step_spec(
                nodes,
                hits,
                header,
                kind,
                states[k],
                answer_for(actions, answers, k),
            ),
        actions.last() is Done,
    ensures
        (actions.last()->Done_0, states.last().focus, states.last().active, asked_from(actions, 0)) == walk_node(
            nodes,
            hits,
            header,
            kind,
            answers,
            0,
            states[0].focus,
            states[0].active,
        ),
{
    let w = walk_node(nodes, hits, header, kind, answers, 0, states[0].focus, states[0].active);
    assert(node_wf(nodes, nodes[0]));
    assert(walk_wf(nodes, hits, header, states[0]));
    reveal_with_fuel(finish, 2);
    assert(seq![Frame::Visit(0)].drop_last() =~= Seq::<Frame>::empty());
    assert(Seq::<usize>::empty() + w.3 =~= w.3);
    assert(outcome(nodes, hits, header, kind, answers, with_answer(states[0], answer_for(actions, answers, 0))) == w);
    lemma_run_from(nodes, hits, header, kind, answers, states, actions, 0);
}

/// From step `k` on, the run ends with the outcome of its state at step
/// `k`, and asks the widgets that outcome lists.
proof fn lemma_run_from(
    nodes: Seq<WalkNode>,
    hits: Seq<bool>,
    header: Seq<Option<usize>>,
    kind: EventKind,
    answers: spec_fn(usize) -> EventResponse,
    states: Seq<WalkView>,
    actions: Seq<WalkAction>,
    k: int,
)
    requires
        tree_ordered(nodes),
        states.len() == actions.len() + 1,
        0 <= k < actions.len(),
        forall|j: int|
            0 <= j < actions.len() ==> (states[j + 1], actions[j]) == #[trigger] walk_step_spec(
                nodes,
                hits,
                header,
                kind,
                states[j],
                answer_for(actions, answers, j),
            ),
        actions.last() is Done,
        walk_wf(nodes, hits, header, states[k]),
    ensures
        (actions.last()->Done_0, states.last().focus, states.last().active, asked_from(actions, k)) == outcome(
            nodes,
            hits,
            header,
            kind,
            answers,
            with_answer(states[k], answer_for(actions, answers, k)),
        ),
    decreases actions.len() - k,
{
    let ans = answer_for(actions, answers, k);
    assert((states[k + 1], actions[k]) == walk_step_spec(nodes, hits, header, kind, states[k], ans));
    lemma_step_keeps_outcome(nodes, hits, header, kind, answers, states[k], ans);
    lemma_step_keeps_wf(nodes, hits, header, kind, states[k], ans);
    let o = outcome(nodes, hits, header, kind, answers, with_answer(states[k], ans));
    if k + 1 < actions.len() {
        lemma_run_from(nodes, hits, header, kind, answers, states, actions, k + 1);
        let o2 = outcome(nodes, hits, header, kind, answers, with_answer(states[k + 1], answer_for(actions, answers, k + 1)));
        assert(asked_from(actions, k) == (if actions[k] is Ask { seq![actions[k]->Ask_0] } else { Seq::<usize>::empty() }) + asked_from(actions, k + 1));
        if !(actions[k] is Ask) {
            assert(Seq::<usize>::empty() + asked_from(actions, k + 1) =~= asked_from(actions, k + 1));
        }
    } else {
        assert(asked_from(actions, k + 1) =~= Seq::<usize>::empty());
        assert(Seq::<usize>::empty() + Seq::<usize>::empty() =~= Seq::<usize>::empty());
    }
}

/// Starting to walk node `n` keeps the outcome (see
/// [`lemma_step_keeps_outcome`]).
proof fn lemma_visit_keeps_outcome(
    nodes: Seq<WalkNode>,
    hits: Seq<bool>,
    header: Seq<Option<usize>>,
    kind: EventKind,
    answers: spec_fn(usize) -> EventResponse,
    s1: WalkView,
    rest: Seq<Frame>,
    n: usize,
)
    requires
        tree_ordered(nodes),
        hits.len() == nodes.len(),
        header.len() == nodes.len(),
        s1.active.len() == nodes.len(),
        n < nodes.len(),
        s1.stack == rest.push(Frame::Visit(n)),
    ensures
        ({
            let (s2, act) = visit_step(nodes, hits, header, kind, s1, rest, n);
            &&& act is Continue ==> outcome(nodes, hits, header, kind, answers, s2) == outcome(
                nodes,
                hits,
                header,
                kind,
                answers,
                s1,
            )
            &&& act is Ask ==> after_asking(
                seq![act->Ask_0],
                outcome(nodes, hits, header, kind, answers, with_answer(s2, Some(answers(act->Ask_0)))),
            ) == outcome(nodes, hits, header, kind, answers, s1)
            &&& !(act is Done)
        }),
{
    assert(s1.stack.drop_last() =~= rest);
    reveal_with_fuel(finish, 3);
    let f = s1.focus;
    let a = s1.active;
    assert(node_wf(nodes, nodes[n as int]));
    match nodes[n as int] {
        WalkNode::Widget { id, selectable } => {
            assert(rest.push(Frame::WidgetDone(n)).drop_last() =~= rest);
        },
        WalkNode::Split { first, second } => {
            let st = rest.push(Frame::SplitSecond(n));
            assert(st.push(Frame::Visit(first)).drop_last() =~= st);
            assert(st.drop_last() =~= rest);
            assert(st.push(Frame::Visit(second)).drop_last() =~= st);
        },
        WalkNode::Tab { tabs } => {
            if tabs@.len() > 0 {
                let shown = tabs@[shown_tab(a[n as int], tabs@.len()) as int];
                assert(rest.push(Frame::Visit(shown)).drop_last() =~= rest);
            }
        },
        WalkNode::Container { rows } => {
            assert(rows_of(nodes[n as int]) == rows@);
            if rows@.len() > 0 {
                let st = rest.push(Frame::RowsFocused(n, 0));
                assert(st.push(Frame::Visit(rows@[0])).drop_last() =~= st);
                assert(st.drop_last() =~= rest);
                assert(rest.push(Frame::RowsBroadcast(n, 0)).drop_last() =~= rest);
                assert(rest.push(Frame::RowsPositional(n, 0)).drop_last() =~= rest);
                if routing_of(kind) == RoutingMode::Focused {
                    assert(rows_focused(nodes, hits, header, kind, answers, n, 0, f, a) == {
                        let w1 = walk_node(nodes, hits, header, kind, answers, rows@[0], f, a);
                        if w1.0 == EventResponse::Consumed {
                            (EventResponse::Consumed, w1.1, w1.2, w1.3)
                        } else {
                            let w2 = rows_focused(nodes, hits, header, kind, answers, n, 1, w1.1, w1.2);
                            (w2.0, w2.1, w2.2, w1.3 + w2.3)
                        }
                    });
                }
            }
        },
    }
}

// ── The machine ─────────────────────────────────────────────────────────

impl WalkState {
    /// A walk from the root (node 0), with the current focus and each tab
    /// node's active tab (any value for other nodes).
    pub fn start(focus: Option<u64>, active: Vec<usize>) -> (r: Self)
        ensures
            r@ == (WalkView { stack: seq![Frame::Visit(0)], ret: None, focus, active: active@ }),
    {
        let mut stack: Vec<Frame> = Vec::new();
        stack.push(Frame::Visit(0));
        WalkState { stack, ret: None, focus, active }
    }

    /// The keyboard focus.
    pub fn focus(&self) -> (r: Option<u64>)
        ensures
            r == self@.focus,
    {
        self.focus
    }

    /// Each tab node's active tab, by node index.
    pub fn active_tabs(&self) -> (r: &Vec<usize>)
        ensures
            r@ == self@.active,
    {
        &self.active
    }
}

/// The first step of visiting node `n`.
fn visit(
    nodes: &Vec<WalkNode>,
    hits: &Vec<bool>,
    header: &Vec<Option<usize>>,
    kind: EventKind,
    state: &mut WalkState,
    n: usize,
) -> (r: WalkAction)
    requires
        walk_wf(nodes@, hits@, header@, old(state)@),
        n < nodes@.len(),
    ensures
        walk_wf(nodes@, hits@, header@, final(state)@),
        (final(state)@, r) == visit_step(nodes@, hits@, header@, kind, old(state)@, old(state)@.stack, n),
{
    let routing = RoutingMode::for_event(kind);
    match &nodes[n] {
        WalkNode::Widget { id, selectable } => {
            if !widget_receives(routing, state.focus, *id, hits[n]) {
                state.ret = Some(EventResponse::Ignored);
                WalkAction::Continue
            } else {
                state.focus = focus_after(kind, *selectable, state.focus, *id);
                state.stack.push(Frame::WidgetDone(n));
                state.ret = None;
                WalkAction::Ask(n)
            }
        },
        WalkNode::Split { first, second } => {
            state.stack.push(Frame::SplitSecond(n));
            state.stack.push(Frame::Visit(*first));
            state.ret = None;
            WalkAction::Continue
        },
        WalkNode::Tab { tabs } => {
            if tabs.len() == 0 {
                state.ret = Some(EventResponse::Ignored);
                return WalkAction::Continue;
            }
            let press = match kind {
                EventKind::MouseDown => true,
                _ => false,
            };
            match header[n] {
                Some(index) => {
                    if press {
                        state.active.set(n, clamp_active_tab(index, tabs.len()));
                        state.ret = Some(EventResponse::Consumed);
                        return WalkAction::Continue;
                    }
                },
                None => {},
            }
            let shown = clamp_active_tab(state.active[n], tabs.len());
            state.stack.push(Frame::Visit(tabs[shown]));
            state.ret = None;
            WalkAction::Continue
        },
        WalkNode::Container { rows } => {
            if rows.len() == 0 {
                state.ret = Some(EventResponse::Ignored);
                return WalkAction::Continue;
            }
            match routing {
                RoutingMode::Focused => {
                    state.stack.push(Frame::RowsFocused(n, 0));
                    state.stack.push(Frame::Visit(rows[0]));
                },
                RoutingMode::Broadcast => {
                    state.stack.push(Frame::RowsBroadcast(n, 0));
                },
                RoutingMode::Positional => {
                    state.stack.push(Frame::RowsPositional(n, 0));
                },
            }
            state.ret = None;
            WalkAction::Continue
        },
    }
}

/// Resumes `frame` with the response `r` handed back to it.
fn resume(
    nodes: &Vec<WalkNode>,
    hits: &Vec<bool>,
    header: &Vec<Option<usize>>,
    kind: EventKind,
    state: &mut WalkState,
    frame: Frame,
    r: EventResponse,
) -> (a: WalkAction)
    requires
        walk_wf(nodes@, hits@, header@, old(state)@),
        frame_wf(nodes@, frame),
        !(frame is Visit),
    ensures
        walk_wf(nodes@, hits@, header@, final(state)@),
        (final(state)@, a) == resume_step(nodes@, hits@, kind, old(state)@, old(state)@.stack, frame, r),
{
    let routing = RoutingMode::for_event(kind);
    let stop = stops_walk(r, routing);
    match frame {
        Frame::WidgetDone(_) => {
            state.ret = Some(if stop { EventResponse::Consumed } else { EventResponse::Ignored });
            WalkAction::Continue
        },
        Frame::SplitSecond(n) => {
            if stop {
                state.ret = Some(EventResponse::Consumed);
            } else {
                match &nodes[n] {
                    WalkNode::Split { second, .. } => {
                        state.stack.push(Frame::Visit(*second));
                    },
                    _ => {},
                }
                state.ret = None;
            }
            WalkAction::Continue
        },
        Frame::RowsFocused(n, i) => {
            let consumed = match r {
                EventResponse::Consumed => true,
                EventResponse::Ignored => false,
            };
            match &nodes[n] {
                WalkNode::Container { rows } => {
                    let len = rows.len();
                    proof {
                        assert(rows@ == nodes@[n as int]->rows@);
                    }
                    if consumed {
                        state.ret = Some(EventResponse::Consumed);
                    } else if i + 1 < len {
                        state.stack.push(Frame::RowsFocused(n, i + 1));
                        state.stack.push(Frame::Visit(rows[i + 1]));
                        state.ret = None;
                    } else {
                        state.ret = Some(EventResponse::Ignored);
                    }
                },
                _ => {},
            }
            WalkAction::Continue
        },
        Frame::RowsBroadcast(n, i) => {
            match &nodes[n] {
                WalkNode::Container { rows } => {
                    if i >= rows.len() {
                        state.ret = Some(EventResponse::Consumed);
                        WalkAction::Continue
                    } else {
                        let c = rows[i];
                        state.stack.push(Frame::RowsBroadcast(n, i + 1));
                        state.ret = None;
                        match &nodes[c] {
                            WalkNode::Widget { .. } => WalkAction::Ask(c),
                            _ => WalkAction::Continue,
                        }
                    }
                },
                _ => WalkAction::Continue,
            }
        },
        Frame::RowsPositional(n, i) => {
            match &nodes[n] {
                WalkNode::Container { rows } => {
                    if i >= rows.len() {
                        state.ret = Some(EventResponse::Ignored);
                    } else if hits[rows[i]] {
                        state.stack.push(Frame::Visit(rows[i]));
                        state.ret = None;
                    } else {
                        state.stack.push(Frame::RowsPositional(n, i + 1));
                        state.ret = None;
                    }
                },
                _ => {},
            }
            WalkAction::Continue
        },
        Frame::Visit(_) => WalkAction::Continue,
    }
}

/// Takes one step of the walk (see [`walk_step_spec`]): `answer` is the
/// answer of the widget asked by the previous step, if it asked one.
/// `hits[n]` tells whether node `n`'s rectangle holds the cursor, and
/// `header[n]`, for a tab node, which header a press lands on (any index
/// past the last header means the last one), or `None` when it lands
/// below the header bar.
pub fn walk_step(
    nodes: &Vec<WalkNode>,
    hits: &Vec<bool>,
    header: &Vec<Option<usize>>,
    kind: EventKind,
    state: &mut WalkState,
    answer: Option<EventResponse>,
) -> (r: WalkAction)
    requires
        walk_wf(nodes@, hits@, header@, old(state)@),
    ensures
        walk_wf(nodes@, hits@, header@, final(state)@),
        (final(state)@, r) == walk_step_spec(nodes@, hits@, header@, kind, old(state)@, answer),
{
    match answer {
        Some(a) => {
            state.ret = Some(a);
        },
        None => {},
    }
    let ghost before = state.stack@;
    let top = state.stack.pop();
    proof {
        if before.len() > 0 {
            assert forall|i: int| 0 <= i < state.stack@.len() implies frame_wf(nodes@, #[trigger] state.stack@[i]) by {
                assert(state.stack@[i] == before[i]);
            }
            assert(frame_wf(nodes@, before[before.len() - 1]));
        }
    }
    match top {
        None => WalkAction::Done(
            match state.ret {
                Some(r) => r,
                None => EventResponse::Ignored,
            },
        ),
        Some(frame) => {
            match frame {
                Frame::Visit(n) => visit(nodes, hits, header, kind, state, n),
                _ => {
                    let r = match state.ret {
                        Some(r) => r,
                        None => EventResponse::Ignored,
                    };
                    resume(nodes, hits, header, kind, state, frame, r)
                },
            }
        },
    }
}

} // verus!
