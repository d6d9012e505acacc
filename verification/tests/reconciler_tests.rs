use retained_tree::codec;
use retained_tree::node::{NodeKind, WidgetFacet};
use retained_tree::ops::{EditOp, Error, NativeCommand, PropName};
use retained_tree::reconciler::{Renderer, DEFAULT_ROOT_ID};
use retained_tree::style::{Dimension, SizeSpec, Style};

fn create(root: u64, tag: &str) -> EditOp {
    EditOp::CreateElement { root, tag: tag.to_string() }
}

fn set_attr(root: u64, field: &str, value: &str) -> EditOp {
    EditOp::SetAttribute { root, field: field.to_string(), value: value.to_string() }
}

/// Window -> Container -> Text with content "Hello", mounted through
/// explicit pushes, ending in the present-root shape.
#[test]
fn scenario_present_root_tree() {
    let mut r = Renderer::new(DEFAULT_ROOT_ID);
    let ops = vec![
        create(1, "gtk_window"),
        create(2, "gtk_box"),
        create(3, "gtk_label"),
        set_attr(3, "text", "Hello"),
        EditOp::PopRoot,
        EditOp::PopRoot,
        EditOp::PopRoot,
        EditOp::PushRoot { root: 2 },
        EditOp::PushRoot { root: 3 },
        EditOp::AppendChildren { many: 1 },
        EditOp::PopRoot,
        EditOp::PushRoot { root: 1 },
        EditOp::PushRoot { root: 2 },
        EditOp::AppendChildren { many: 1 },
        EditOp::AppendChildren { many: 1 },
    ];
    let out = r.apply(&ops).expect("batch must apply");
    assert!(out.warnings.is_empty());

    let arena = r.arena_ref();
    let k1 = arena.resolve(1).expect("window bound");
    let k2 = arena.resolve(2).expect("container bound");
    let k3 = arena.resolve(3).expect("text bound");

    // widget tree shape: Window -> Container -> Text
    let n1 = arena.node_ref(k1);
    let f1 = n1.facets.as_ref().expect("window has facets");
    assert_eq!(f1.widget.kind(), NodeKind::Window);
    assert_eq!(f1.children.len(), 1);
    assert_eq!(f1.children[0], k2);
    assert!(n1.layout_parent.is_none());

    let n2 = arena.node_ref(k2);
    let f2 = n2.facets.as_ref().expect("container has facets");
    assert_eq!(f2.widget.kind(), NodeKind::Container);
    assert_eq!(f2.children.len(), 1);
    assert_eq!(f2.children[0], k3);
    assert_eq!(n2.layout_parent, Some(k1));

    let n3 = arena.node_ref(k3);
    let f3 = n3.facets.as_ref().expect("text has facets");
    match &f3.widget {
        WidgetFacet::Text { content } => assert_eq!(content.as_str(), "Hello"),
        _ => panic!("expected a text widget"),
    }
    assert_eq!(n3.layout_parent, Some(k2));

    // the mount ends by presenting the root window
    assert!(out
        .commands
        .iter()
        .any(|c| matches!(c, NativeCommand::PresentRoot { key } if *key == k1)));
    // the text widget was placed into the container's surface (at the
    // origin; the compute pass moves it afterwards)
    assert!(out.commands.iter().any(
        |c| matches!(c, NativeCommand::PutChild { parent, child } if *parent == k2 && *child == k3)
    ));
    // widget and layout attaches mirror each other
    let puts: Vec<_> = out
        .commands
        .iter()
        .filter_map(|c| match c {
            NativeCommand::PutChild { parent, child } => Some((*parent, *child)),
            _ => None,
        })
        .collect();
    let adds: Vec<_> = out
        .commands
        .iter()
        .filter_map(|c| match c {
            NativeCommand::AddLayoutChild { parent, child } => Some((*parent, *child)),
            _ => None,
        })
        .collect();
    assert_eq!(puts, adds);
}

/// Setting an attribute on an id that was never created fails with a
/// dangling reference and leaves the state untouched.
#[test]
fn dangling_set_attribute_fails() {
    let mut r = Renderer::new(DEFAULT_ROOT_ID);
    let ops = vec![set_attr(99, "label", "Go")];
    let e = r.apply(&ops).expect_err("must fail");
    assert_eq!(e, Error::DanglingReference);
    assert_eq!(r.arena_ref().slot_count(), 0);
    assert!(r.arena_ref().resolve(99).is_err());
}

/// Two successive layout blobs: the second one wins, and the planned
/// commands end with its style.
#[test]
fn second_layout_blob_wins() {
    let mut r = Renderer::new(DEFAULT_ROOT_ID);
    let mut style_a = Style::default_style();
    style_a.size = SizeSpec { width: Dimension::Points(100_000), height: Dimension::Auto };
    let mut style_b = Style::default_style();
    style_b.size = SizeSpec { width: Dimension::Percent(5_000), height: Dimension::Points(42) };
    let blob_a = codec::encode_style(&style_a);
    let blob_b = codec::encode_style(&style_b);
    let ops = vec![
        create(1, "gtk_window"),
        create(2, "gtk_box"),
        set_attr(2, "layout", &blob_a),
        set_attr(2, "layout", &blob_b),
    ];
    let out = r.apply(&ops).expect("batch must apply");
    assert!(out.warnings.is_empty());
    let k2 = r.arena_ref().resolve(2).expect("bound");
    let f2 = r.arena_ref().node_ref(k2).facets.as_ref().unwrap().style;
    assert_eq!(f2, style_b);
    let styles: Vec<_> = out
        .commands
        .iter()
        .filter_map(|c| match c {
            NativeCommand::SetStyle { key, style } if *key == k2 => Some(*style),
            _ => None,
        })
        .collect();
    assert_eq!(styles, vec![style_a, style_b]);
}

/// Replacing a leaf with nothing releases it everywhere: the binding, the
/// slot, the parent's child list, and the backlink.
#[test]
fn replace_leaf_with_nothing_releases_it() {
    let mut r = Renderer::new(DEFAULT_ROOT_ID);
    let ops = vec![
        create(1, "gtk_window"),
        create(2, "gtk_box"),
        create(3, "gtk_label"),
        EditOp::AppendChildren { many: 1 },
        EditOp::AppendChildren { many: 1 },
    ];
    r.apply(&ops).expect("mount");
    let k2 = r.arena_ref().resolve(2).unwrap();
    let k3 = r.arena_ref().resolve(3).unwrap();
    let out = r
        .apply(&vec![EditOp::ReplaceWith { root: 3, m: 0 }])
        .expect("replace");
    assert!(out.warnings.is_empty());
    assert!(r.arena_ref().resolve(3).is_err());
    assert!(!r.arena_ref().is_live(k3));
    let f2 = r.arena_ref().node_ref(k2).facets.as_ref().unwrap();
    assert!(!f2.children.contains(&k3));
    assert!(out.commands.iter().any(
        |c| matches!(c, NativeCommand::RemoveChild { parent, child } if *parent == k2 && *child == k3)
    ));
    assert!(out.commands.iter().any(
        |c| matches!(c, NativeCommand::ReleaseLayoutNode { key } if *key == k3)
    ));
}

/// An unknown tag, attribute or event is logged and skipped, not fatal.
#[test]
fn unsupported_pieces_are_warnings() {
    let mut r = Renderer::new(DEFAULT_ROOT_ID);
    let ops = vec![
        create(1, "gtk_window"),
        create(7, "gtk_canvas"),
        set_attr(1, "frobnicate", "x"),
        EditOp::NewEventListener { event_name: "press".to_string(), scope: 0, root: 1 },
    ];
    let out = r.apply(&ops).expect("recoverable failures do not abort");
    assert_eq!(
        out.warnings,
        vec![
            Error::UnsupportedElementKind,
            Error::UnsupportedAttribute,
            Error::UnsupportedEvent
        ]
    );
    assert!(r.arena_ref().resolve(7).is_err());
}

/// A malformed style blob spoils only that attribute.
#[test]
fn malformed_style_blob_is_layout_failure() {
    let mut r = Renderer::new(DEFAULT_ROOT_ID);
    let ops = vec![create(1, "gtk_window"), set_attr(1, "layout", "not a blob")];
    let out = r.apply(&ops).expect("recoverable");
    assert_eq!(out.warnings, vec![Error::LayoutEngineFailure]);
}

/// Popping more children than the stack holds is fatal.
#[test]
fn deep_append_on_empty_stack_is_malformed() {
    let mut r = Renderer::new(DEFAULT_ROOT_ID);
    let e = r
        .apply(&vec![EditOp::AppendChildren { many: 5 }])
        .expect_err("must fail");
    assert_eq!(e, Error::MalformedBatch);
}

/// Only a window can be presented as the sole root.
#[test]
fn present_root_needs_a_window() {
    let mut r = Renderer::new(DEFAULT_ROOT_ID);
    let e = r
        .apply(&vec![create(2, "gtk_box"), EditOp::AppendChildren { many: 1 }])
        .expect_err("must fail");
    assert_eq!(e, Error::MalformedBatch);
}

/// Event listeners attach per the fixed (kind, name) table.
#[test]
fn listener_attach_and_detach() {
    let mut r = Renderer::new(DEFAULT_ROOT_ID);
    let ops = vec![
        create(1, "gtk_window"),
        create(2, "gtk_button"),
        EditOp::NewEventListener { event_name: "press".to_string(), scope: 4, root: 2 },
    ];
    let out = r.apply(&ops).expect("attach");
    assert!(out.warnings.is_empty());
    let k2 = r.arena_ref().resolve(2).unwrap();
    assert!(out.commands.iter().any(|c| matches!(
        c,
        NativeCommand::AttachListener { key, kind: NodeKind::Button, scope: 4, target: 2, .. }
        if *key == k2
    )));
    let f2 = r.arena_ref().node_ref(k2).facets.as_ref().unwrap();
    assert_eq!(f2.listeners.len(), 1);
    let out2 = r
        .apply(&vec![EditOp::RemoveEventListener { root: 2, event: "press".to_string() }])
        .expect("detach");
    assert!(out2.warnings.is_empty());
    let f2 = r.arena_ref().node_ref(k2).facets.as_ref().unwrap();
    assert_eq!(f2.listeners.len(), 0);
}

/// Writing a text field's current value again plans no native write (the
/// write would re-enter the change notification).
#[test]
fn text_field_value_write_is_skipped_when_unchanged() {
    let mut r = Renderer::new(DEFAULT_ROOT_ID);
    r.apply(&vec![create(1, "gtk_window"), create(2, "gtk_text_field")])
        .expect("create");
    let out1 = r.apply(&vec![set_attr(2, "value", "abc")]).expect("set");
    assert_eq!(count_prop_writes(&out1.commands, PropName::Value), 1);
    let out2 = r.apply(&vec![set_attr(2, "value", "abc")]).expect("again");
    assert_eq!(count_prop_writes(&out2.commands, PropName::Value), 0);
    let out3 = r.apply(&vec![set_attr(2, "value", "xyz")]).expect("change");
    assert_eq!(count_prop_writes(&out3.commands, PropName::Value), 1);
}

fn count_prop_writes(cmds: &[NativeCommand], which: PropName) -> usize {
    cmds.iter()
        .filter(|c| matches!(c, NativeCommand::SetWidgetProp { prop, .. } if *prop == which))
        .count()
}

/// Siblings spliced before and after keep the parent's child order.
#[test]
fn insert_before_and_after_keep_order() {
    let mut r = Renderer::new(DEFAULT_ROOT_ID);
    let ops = vec![
        create(1, "gtk_window"),
        create(2, "gtk_box"),
        create(3, "gtk_label"),
        EditOp::AppendChildren { many: 1 },
        EditOp::AppendChildren { many: 1 },
    ];
    r.apply(&ops).expect("mount");
    let out = r
        .apply(&vec![
            create(4, "gtk_label"),
            EditOp::InsertBefore { root: 3, n: 1 },
        ])
        .expect("insert before");
    assert!(out.warnings.is_empty());
    let out2 = r
        .apply(&vec![
            create(5, "gtk_label"),
            EditOp::InsertAfter { root: 3, n: 1 },
        ])
        .expect("insert after");
    assert!(out2.warnings.is_empty());
    let arena = r.arena_ref();
    let k2 = arena.resolve(2).unwrap();
    let k3 = arena.resolve(3).unwrap();
    let k4 = arena.resolve(4).unwrap();
    let k5 = arena.resolve(5).unwrap();
    let f2 = arena.node_ref(k2).facets.as_ref().unwrap();
    assert_eq!(f2.children, vec![k4, k3, k5]);
    assert!(out2.commands.iter().any(|c| matches!(
        c,
        NativeCommand::SyncLayoutChildren { parent, children }
        if *parent == k2 && *children == vec![k4, k3, k5]
    )));
}

/// A released slot is reused under a new generation; the stale key stays
/// dead.
#[test]
fn released_slots_are_reused_generationally() {
    let mut r = Renderer::new(DEFAULT_ROOT_ID);
    r.apply(&vec![create(1, "gtk_window"), create(2, "gtk_box"), create(3, "gtk_label")])
        .expect("create");
    let k3 = r.arena_ref().resolve(3).unwrap();
    r.apply(&vec![EditOp::Remove { root: 3 }]).expect("remove");
    assert!(!r.arena_ref().is_live(k3));
    r.apply(&vec![create(9, "gtk_label")]).expect("recreate");
    let k9 = r.arena_ref().resolve(9).unwrap();
    assert_eq!(k9.index, k3.index);
    assert_ne!(k9.generation, k3.generation);
    assert!(!r.arena_ref().is_live(k3));
    assert!(r.arena_ref().is_live(k9));
}

/// A text node is created with its content in place; `SetText` updates it.
#[test]
fn text_node_create_and_set_text() {
    let mut r = Renderer::new(DEFAULT_ROOT_ID);
    let ops = vec![
        create(1, "gtk_window"),
        EditOp::CreateTextNode { root: 5, text: "first".to_string() },
    ];
    let out = r.apply(&ops).expect("create");
    assert!(out.warnings.is_empty());
    let k5 = r.arena_ref().resolve(5).unwrap();
    assert!(out.commands.iter().any(|c| matches!(
        c,
        NativeCommand::SetWidgetProp { key, prop: PropName::Text, value } if *key == k5 && value == "first"
    )));
    r.apply(&vec![EditOp::SetText { root: 5, text: "second".to_string() }])
        .expect("set text");
    let f5 = r.arena_ref().node_ref(k5).facets.as_ref().unwrap();
    match &f5.widget {
        WidgetFacet::Text { content } => assert_eq!(content.as_str(), "second"),
        _ => panic!("expected a text widget"),
    }
    assert!(f5.dirty, "a content change must invalidate the measurement");
}

/// A placeholder binds an id without facets; attaching it records only
/// the backlink, and no widget or layout command is planned for it.
#[test]
fn placeholder_attaches_without_facets() {
    let mut r = Renderer::new(DEFAULT_ROOT_ID);
    let ops = vec![
        create(1, "gtk_window"),
        create(2, "gtk_box"),
        EditOp::CreatePlaceholder { root: 9 },
        EditOp::AppendChildren { many: 1 },
    ];
    let out = r.apply(&ops).expect("mount placeholder");
    assert!(out.warnings.is_empty());
    let k2 = r.arena_ref().resolve(2).unwrap();
    let k9 = r.arena_ref().resolve(9).unwrap();
    let n9 = r.arena_ref().node_ref(k9);
    assert!(n9.facets.is_none());
    assert_eq!(n9.layout_parent, Some(k2));
    assert!(!out
        .commands
        .iter()
        .any(|c| matches!(c, NativeCommand::PutChild { child, .. } if *child == k9)));
    assert!(!out
        .commands
        .iter()
        .any(|c| matches!(c, NativeCommand::AddLayoutChild { child, .. } if *child == k9)));
}

/// Removing an attribute resets it to its default.
#[test]
fn remove_attribute_resets_to_default() {
    let mut r = Renderer::new(DEFAULT_ROOT_ID);
    r.apply(&vec![create(1, "gtk_window"), create(2, "gtk_button")])
        .expect("create");
    r.apply(&vec![set_attr(2, "label", "Go")]).expect("set");
    r.apply(&vec![EditOp::RemoveAttribute { root: 2, name: "label".to_string() }])
        .expect("remove");
    let k2 = r.arena_ref().resolve(2).unwrap();
    match &r.arena_ref().node_ref(k2).facets.as_ref().unwrap().widget {
        WidgetFacet::Button { label } => assert_eq!(label.as_str(), ""),
        _ => panic!("expected a button"),
    }
}

/// Popping an empty stack means the batch lost track of its operands.
#[test]
fn pop_on_empty_stack_is_malformed() {
    let mut r = Renderer::new(DEFAULT_ROOT_ID);
    let e = r.apply(&vec![EditOp::PopRoot]).expect_err("must fail");
    assert_eq!(e, Error::MalformedBatch);
}
