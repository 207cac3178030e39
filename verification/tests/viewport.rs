use shame_gui::gui::{EventKind, EventResponse};
use shame_gui::viewport::{walk_step, WalkAction, WalkNode, WalkState};

struct Walked {
    response: EventResponse,
    focus: Option<u64>,
    active: Vec<usize>,
    asked: Vec<usize>,
}

fn run(
    nodes: &Vec<WalkNode>,
    hits: &Vec<bool>,
    header: &Vec<Option<usize>>,
    kind: EventKind,
    focus: Option<u64>,
    consumes: &[usize],
) -> Walked {
    let mut state = WalkState::start(focus, vec![0; nodes.len()]);
    let mut answer = None;
    let mut asked = Vec::new();
    loop {
        match walk_step(nodes, hits, header, kind, &mut state, answer) {
            WalkAction::Ask(n) => {
                asked.push(n);
                answer = Some(if consumes.contains(&n) { EventResponse::Consumed } else { EventResponse::Ignored });
            }
            WalkAction::Continue => answer = None,
            WalkAction::Done(response) => {
                return Walked { response, focus: state.focus(), active: state.active_tabs().clone(), asked };
            }
        }
    }
}

fn widget(id: u64) -> WalkNode {
    WalkNode::Widget { id, selectable: true }
}

#[test]
fn split_stops_after_a_consuming_first_child() {
    let nodes = vec![WalkNode::Split { first: 1, second: 2 }, widget(10), widget(20)];
    let w = run(&nodes, &vec![true; 3], &vec![None; 3], EventKind::MouseUp, None, &[1]);
    assert_eq!(w.response, EventResponse::Consumed);
    assert_eq!(w.asked, vec![1]);
}

#[test]
fn split_tries_the_second_child_when_the_first_ignores() {
    let nodes = vec![WalkNode::Split { first: 1, second: 2 }, widget(10), widget(20)];
    let w = run(&nodes, &vec![true, false, true], &vec![None; 3], EventKind::MouseUp, None, &[2]);
    assert_eq!(w.response, EventResponse::Consumed);
    assert_eq!(w.asked, vec![2]);
}

#[test]
fn broadcast_reaches_every_widget_and_is_not_consumed_by_widgets() {
    let nodes = vec![WalkNode::Split { first: 1, second: 2 }, widget(10), widget(20)];
    let w = run(&nodes, &vec![false; 3], &vec![None; 3], EventKind::MouseMove, None, &[1, 2]);
    assert_eq!(w.response, EventResponse::Ignored);
    assert_eq!(w.asked, vec![1, 2]);
}

#[test]
fn press_on_a_selectable_widget_takes_focus() {
    let nodes = vec![widget(7)];
    let w = run(&nodes, &vec![true], &vec![None], EventKind::MouseDown, Some(3), &[]);
    assert_eq!(w.focus, Some(7));
    assert_eq!(w.response, EventResponse::Ignored);
    let nodes = vec![WalkNode::Widget { id: 7, selectable: false }];
    let w = run(&nodes, &vec![true], &vec![None], EventKind::MouseDown, Some(3), &[0]);
    assert_eq!(w.focus, Some(3));
    assert_eq!(w.response, EventResponse::Consumed);
}

#[test]
fn walk_offers_focused_events_only_to_the_focused_widget() {
    let nodes = vec![WalkNode::Split { first: 1, second: 2 }, widget(10), widget(20)];
    let w = run(&nodes, &vec![false; 3], &vec![None; 3], EventKind::KeyDown, Some(20), &[1, 2]);
    assert_eq!(w.asked, vec![2]);
    assert_eq!(w.response, EventResponse::Consumed);
}

#[test]
fn tab_header_press_switches_tabs_and_consumes() {
    let nodes = vec![WalkNode::Tab { tabs: vec![1, 2] }, widget(10), widget(20)];
    let w = run(&nodes, &vec![true; 3], &vec![Some(5), None, None], EventKind::MouseDown, None, &[1, 2]);
    assert_eq!(w.response, EventResponse::Consumed);
    assert_eq!(w.active[0], 1);
    assert!(w.asked.is_empty());
}

#[test]
fn tab_walks_only_its_shown_tab() {
    let nodes = vec![WalkNode::Tab { tabs: vec![1, 2] }, widget(10), widget(20)];
    let w = run(&nodes, &vec![true; 3], &vec![None; 3], EventKind::MouseDown, None, &[1, 2]);
    assert_eq!(w.asked, vec![1]);
    assert_eq!(w.focus, Some(10));
    let empty = vec![WalkNode::Tab { tabs: vec![] }];
    let w = run(&empty, &vec![true], &vec![Some(0)], EventKind::MouseDown, None, &[]);
    assert_eq!(w.response, EventResponse::Ignored);
}

#[test]
fn container_offers_a_focused_event_to_each_row_in_turn() {
    let nodes = vec![
        WalkNode::Container { rows: vec![1, 2, 3] },
        widget(10),
        WalkNode::Split { first: 4, second: 5 },
        widget(30),
        widget(40),
        widget(50),
    ];
    let w = run(&nodes, &vec![false; 6], &vec![None; 6], EventKind::Char, Some(50), &[5]);
    assert_eq!(w.asked, vec![5]);
    assert_eq!(w.response, EventResponse::Consumed);
    let w = run(&nodes, &vec![false; 6], &vec![None; 6], EventKind::Char, Some(99), &[]);
    assert!(w.asked.is_empty());
    assert_eq!(w.response, EventResponse::Ignored);
}

#[test]
fn container_broadcast_calls_only_direct_widget_rows_and_consumes() {
    let nodes = vec![
        WalkNode::Container { rows: vec![1, 2, 3] },
        widget(10),
        WalkNode::Split { first: 4, second: 5 },
        widget(30),
        widget(40),
        widget(50),
    ];
    let w = run(&nodes, &vec![false; 6], &vec![None; 6], EventKind::MouseMove, None, &[]);
    assert_eq!(w.asked, vec![1, 3]);
    assert_eq!(w.response, EventResponse::Consumed);
}

#[test]
fn container_positional_walks_the_first_row_hit_only() {
    let nodes = vec![WalkNode::Container { rows: vec![1, 2, 3] }, widget(10), widget(20), widget(30)];
    let w = run(&nodes, &vec![true, false, true, true], &vec![None; 4], EventKind::MouseDown, None, &[]);
    assert_eq!(w.asked, vec![2]);
    assert_eq!(w.focus, Some(20));
    assert_eq!(w.response, EventResponse::Ignored);
    let empty = vec![WalkNode::Container { rows: vec![] }];
    let w = run(&empty, &vec![true], &vec![None], EventKind::MouseMove, None, &[]);
    assert_eq!(w.response, EventResponse::Ignored);
}
