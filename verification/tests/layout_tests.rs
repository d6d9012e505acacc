use retained_tree::events::{press_event, text_change_event, EventPayload, UserEventRecord};
use retained_tree::node::EventName;
use retained_tree::ops::EditOp;
use retained_tree::reconciler::{Renderer, DEFAULT_ROOT_ID};
use retained_tree::sched::{dispatch, LoopAction, LoopEvent};

fn create(root: u64, tag: &str) -> EditOp {
    EditOp::CreateElement { root, tag: tag.to_string() }
}

fn mounted_renderer() -> Renderer {
    let mut r = Renderer::new(DEFAULT_ROOT_ID);
    let ops = vec![
        create(1, "gtk_window"),
        create(2, "gtk_box"),
        create(3, "gtk_label"),
        EditOp::AppendChildren { many: 1 },
        EditOp::AppendChildren { many: 1 },
    ];
    r.apply(&ops).expect("mount");
    r
}

/// An unbound root id is a desynchronization and is surfaced as such; a
/// bound non-window root simply plans nothing.
#[test]
fn no_root_no_plan() {
    let r = Renderer::new(DEFAULT_ROOT_ID);
    assert_eq!(r.recalculate_layout().unwrap_err(), retained_tree::ops::Error::DanglingReference);
    let mut r2 = Renderer::new(2);
    r2.apply(&vec![create(2, "gtk_box")]).expect("create");
    assert!(r2.recalculate_layout().unwrap().is_none());
}

/// The plan starts at the window and repositions both attached widgets;
/// the container (no intrinsic size of its own) also gets explicit sizes.
#[test]
fn plan_moves_attached_widgets() {
    let r = mounted_renderer();
    let arena = r.arena_ref();
    let k1 = arena.resolve(1).unwrap();
    let k2 = arena.resolve(2).unwrap();
    let k3 = arena.resolve(3).unwrap();
    let plan = r.recalculate_layout().unwrap().expect("window is mounted");
    assert_eq!(plan.root, k1);
    assert_eq!(plan.moves.len(), 2);
    let m2 = plan.moves.iter().find(|m| m.node == k2).expect("container moves");
    assert_eq!(m2.parent, k1);
    assert!(m2.explicit_size);
    let m3 = plan.moves.iter().find(|m| m.node == k3).expect("text moves");
    assert_eq!(m3.parent, k2);
    assert!(!m3.explicit_size);
}

/// Planning twice with no mutation in between yields identical plans.
#[test]
fn planning_is_idempotent() {
    let r = mounted_renderer();
    let p1 = r.recalculate_layout().unwrap().expect("plan");
    let p2 = r.recalculate_layout().unwrap().expect("plan again");
    assert_eq!(p1.root, p2.root);
    assert_eq!(p1.moves, p2.moves);
}

/// Only the subtree reachable from the root is repositioned: a detached
/// container and everything under it get no geometry application.
#[test]
fn detached_subtrees_are_not_moved() {
    let mut r = Renderer::new(DEFAULT_ROOT_ID);
    let ops = vec![
        create(1, "gtk_window"),
        create(2, "gtk_box"),
        create(3, "gtk_label"),
        EditOp::AppendChildren { many: 1 },
    ];
    r.apply(&ops).expect("mount text under the detached container");
    let k2 = r.arena_ref().resolve(2).unwrap();
    let k3 = r.arena_ref().resolve(3).unwrap();
    assert_eq!(r.arena_ref().node_ref(k3).layout_parent, Some(k2));
    let plan = r.recalculate_layout().unwrap().expect("window is live");
    assert!(plan.moves.is_empty(), "nothing reachable from the root may move");
}

#[test]
fn event_records_carry_their_fields() {
    let e = press_event(7, 42);
    assert_eq!(e.scope, 7);
    assert_eq!(e.target, 42);
    assert_eq!(e.name, EventName::Press);
    assert!(matches!(e.payload, EventPayload::Press(_)));

    let e2 = text_change_event(1, 2, "typed".to_string());
    assert_eq!(e2.name, EventName::TextChange);
    match e2.payload {
        EventPayload::TextChange(d) => assert_eq!(d.value, "typed"),
        _ => panic!("expected a text-change payload"),
    }
}

#[test]
fn scheduler_dispatch_table() {
    assert!(matches!(dispatch(LoopEvent::Resize), LoopAction::RecomputeLayout));
    assert!(matches!(dispatch(LoopEvent::RenderReady), LoopAction::ApplyThenRecompute));
    let u = UserEventRecord {
        scope: 3,
        target: 9,
        name: EventName::Press,
        payload: EventPayload::Press(retained_tree::events::PressData {}),
    };
    match dispatch(LoopEvent::User(u)) {
        LoopAction::ForwardEvent(f) => {
            assert_eq!(f.scope, 3);
            assert_eq!(f.target, 9);
        },
        _ => panic!("user events are forwarded"),
    }
}
