//! The reconciler: applies an ordered edit-operation stream against the
//! arena, maintaining the per-batch operand stack, and plans the native
//! commands that mirror each state change onto the toolkit and the layout
//! engine.
//!
//! Every operation is atomic: it either applies in full or reports an
//! error and leaves the state untouched. A batch skips operations that
//! fail with a recoverable error (collecting them as warnings) and stops
//! at the first fatal one.

use vstd::prelude::*;
use crate::arena::{Arena, ArenaV};
use crate::codec;
use crate::node::{
    has_layout_surface, EventName, Facets, FacetsV, Key, Listener, NodeKind, NodeV,
    WidgetFacet, WidgetFacetV,
};
use crate::ops::{cmd_views, CommandV, EditOp, Error, NativeCommand, PropName};
use crate::style::Style;

verus! {

/// The external id that the diff engine reserves for the top-level window.
pub const DEFAULT_ROOT_ID: u64 = 1;

/// The retained-tree state: the arena of nodes and the configured root id.
pub struct Renderer {
    arena: Arena,
    root_id: u64,
}

#[verifier::ext_equal]
pub struct RendV {
    pub arena: ArenaV,
    pub root_id: u64,
}

impl View for Renderer {
    type V = RendV;

    closed spec fn view(&self) -> RendV {
        RendV { arena: self.arena@, root_id: self.root_id }
    }
}

/// Result of one successfully applied operation, at spec level.
pub struct OpOk {
    pub r: RendV,
    pub stack: Seq<u64>,
    pub cmds: Seq<CommandV>,
}

impl RendV {
    pub open spec fn with_arena(self, a: ArenaV) -> RendV {
        RendV { arena: a, root_id: self.root_id }
    }

    /// The key an external id resolves to, if bound.
    pub open spec fn resolved(self, id: u64) -> Option<Key> {
        if self.arena.ids.contains_key(id) {
            Some(self.arena.ids[id])
        } else {
            None
        }
    }
}

/// The kind the reconciler constructs for a tag name, if any.
pub open spec fn kind_of_tag(tag: Seq<char>) -> Option<NodeKind> {
    if tag == "gtk_box"@ {
        Some(NodeKind::Container)
    } else if tag == "gtk_label"@ {
        Some(NodeKind::Text)
    } else if tag == "gtk_button"@ {
        Some(NodeKind::Button)
    } else if tag == "gtk_text_field"@ {
        Some(NodeKind::TextField)
    } else if tag == "gtk_window"@ {
        Some(NodeKind::Window)
    } else {
        None
    }
}

/// A freshly created widget of the given kind: all properties empty.
pub open spec fn default_widget_spec(kind: NodeKind) -> WidgetFacetV {
    match kind {
        NodeKind::Container => WidgetFacetV::Container,
        NodeKind::Text => WidgetFacetV::Text { content: Seq::empty() },
        NodeKind::Button => WidgetFacetV::Button { label: Seq::empty() },
        NodeKind::Window => WidgetFacetV::Window { title: Seq::empty() },
        NodeKind::TextField => WidgetFacetV::TextField {
            value: Seq::empty(),
            placeholder: Seq::empty(),
        },
    }
}

/// The style a node of this kind starts with: the window fills the whole
/// available area, everything else is unset.
pub open spec fn initial_style_spec(kind: NodeKind) -> Style {
    if kind == NodeKind::Window {
        Style::window_root_spec()
    } else {
        Style::default_spec()
    }
}

/// The native event source defined for `(kind, name)`, if any.
pub open spec fn event_mapping(kind: NodeKind, name: Seq<char>) -> Option<EventName> {
    if kind == NodeKind::Button && name == "press"@ {
        Some(EventName::Press)
    } else if kind == NodeKind::TextField && name == "text_change"@ {
        Some(EventName::TextChange)
    } else {
        None
    }
}

/// Validates the children about to be attached under `tk`, left to right:
/// each id must be bound to a live node, must not already have a layout
/// parent (`except` names one parent about to disappear whose orphans may
/// be re-attached), must differ from the target and from the node being
/// removed, and must not repeat.
pub open spec fn validate_children_from(
    v: RendV,
    ids: Seq<u64>,
    i: int,
    seen: Seq<Key>,
    tk: Key,
    except: Option<Key>,
    removed: Option<Key>,
) -> Result<Seq<Key>, Error>
    decreases ids.len() - i when 0 <= i <= ids.len()
{
    if i >= ids.len() {
        Ok(seen)
    } else {
        match v.resolved(ids[i]) {
            None => Err(Error::DanglingReference),
            Some(k) => {
                if !v.arena.live(k) {
                    Err(Error::DanglingReference)
                } else if k == tk || removed == Some(k) {
                    Err(Error::MalformedBatch)
                } else if v.arena.node(k).layout_parent is Some && v.arena.node(k).layout_parent
                    != except {
                    Err(Error::MalformedBatch)
                } else if seen.contains(k) {
                    Err(Error::MalformedBatch)
                } else {
                    validate_children_from(v, ids, i + 1, seen.push(k), tk, except, removed)
                }
            },
        }
    }
}

/// First position of `x` in `s`, searching from `i`.
pub open spec fn first_index_of(s: Seq<Key>, x: Key, i: int) -> Option<int>
    decreases s.len() - i when 0 <= i <= s.len()
{
    if i >= s.len() {
        None
    } else if s[i] == x {
        Some(i)
    } else {
        first_index_of(s, x, i + 1)
    }
}

/// `s` without the first occurrence of `x`.
pub open spec fn remove_first(s: Seq<Key>, x: Key) -> Seq<Key> {
    match first_index_of(s, x, 0) {
        Some(i) => s.remove(i),
        None => s,
    }
}

/// Attaches `keys[..i]` under `tk`, left to right: record the backlink,
/// add to the child list, and plan the widget/layout attach for nodes
/// that have facets (placeholders get only the backlink and the entry).
pub open spec fn attach_children_prefix(a: ArenaV, tk: Key, keys: Seq<Key>, i: int) -> (
    ArenaV,
    Seq<CommandV>,
)
    decreases i when 0 <= i <= keys.len()
{
    if i <= 0 {
        (a, Seq::empty())
    } else {
        let (a0, cs0) = attach_children_prefix(a, tk, keys, i - 1);
        let k = keys[i - 1];
        let a1 = a0.update_node(k, a0.node(k).with_parent(Some(tk)));
        let tn = a1.node(tk);
        let a2 = a1.update_node(
            tk,
            tn.with_facets(Some(tn.facets->0.with_children(tn.facets->0.children.push(k)))),
        );
        let cs = if a0.node(k).facets is Some {
            seq![
                CommandV::PutChild { parent: tk, child: k },
                CommandV::AddLayoutChild { parent: tk, child: k },
            ]
        } else {
            Seq::empty()
        };
        (a2, cs0 + cs)
    }
}

/// Clears the layout-parent backlink of each of `cs[..i]` that is live.
pub open spec fn clear_backlinks_prefix(a: ArenaV, cs: Seq<Key>, i: int) -> ArenaV
    decreases i when 0 <= i <= cs.len()
{
    if i <= 0 {
        a
    } else {
        let a0 = clear_backlinks_prefix(a, cs, i - 1);
        let k = cs[i - 1];
        if a0.live(k) {
            a0.update_node(k, a0.node(k).with_parent(None))
        } else {
            a0
        }
    }
}

/// Marks each of `cs[..i]` that is live and has facets as needing a fresh
/// measurement, planning the matching command.
pub open spec fn mark_children_dirty_prefix(a: ArenaV, cs: Seq<Key>, i: int) -> (
    ArenaV,
    Seq<CommandV>,
)
    decreases i when 0 <= i <= cs.len()
{
    if i <= 0 {
        (a, Seq::empty())
    } else {
        let (a0, cs0) = mark_children_dirty_prefix(a, cs, i - 1);
        let k = cs[i - 1];
        if a0.live(k) && a0.node(k).facets is Some {
            let n = a0.node(k);
            let a1 = a0.update_node(k, n.with_facets(Some(n.facets->0.with_dirty(true))));
            (a1, cs0 + seq![CommandV::MarkDirty { key: k }])
        } else {
            (a0, cs0)
        }
    }
}

/// The listeners kept (those of `ls[..i]` not named `ev`) after a detach.
pub open spec fn keep_listeners_prefix(ls: Seq<Listener>, ev: EventName, i: int) -> Seq<Listener>
    decreases i when 0 <= i <= ls.len()
{
    if i <= 0 {
        Seq::empty()
    } else {
        let pre = keep_listeners_prefix(ls, ev, i - 1);
        if ls[i - 1].name != ev {
            pre.push(ls[i - 1])
        } else {
            pre
        }
    }
}

/// `PushRoot`: validate the id and push it.
pub open spec fn push_root_spec(v: RendV, stack: Seq<u64>, id: u64) -> Result<OpOk, Error> {
    match v.resolved(id) {
        None => Err(Error::DanglingReference),
        Some(_) => Ok(OpOk { r: v, stack: stack.push(id), cmds: Seq::empty() }),
    }
}

/// `PopRoot`: discard the top of the stack.
pub open spec fn pop_root_spec(v: RendV, stack: Seq<u64>) -> Result<OpOk, Error> {
    if stack.len() == 0 {
        Err(Error::MalformedBatch)
    } else {
        Ok(OpOk { r: v, stack: stack.drop_last(), cmds: Seq::empty() })
    }
}

/// `AppendChildren`: pop `many` ids and attach them under the new stack
/// top. The special shape — exactly one id on the stack and a count of
/// one — presents the root window instead.
pub open spec fn append_children_spec(v: RendV, stack: Seq<u64>, many: u64) -> Result<
    OpOk,
    Error,
> {
    let n = many as int;
    if stack.len() == 1 && n == 1 {
        match v.resolved(stack[0]) {
            None => Err(Error::DanglingReference),
            Some(k) => {
                if !v.arena.live(k) {
                    Err(Error::DanglingReference)
                } else if v.arena.node(k).facets is Some && v.arena.node(k).facets->0.widget
                    is Window {
                    Ok(
                        OpOk {
                            r: v,
                            stack: Seq::empty(),
                            cmds: seq![CommandV::PresentRoot { key: k }],
                        },
                    )
                } else {
                    Err(Error::MalformedBatch)
                }
            },
        }
    } else if n < stack.len() {
        let target_id = stack[stack.len() - n - 1];
        let child_ids = stack.subrange(stack.len() - n, stack.len() as int);
        let rest_stack = stack.subrange(0, stack.len() - n);
        match v.resolved(target_id) {
            None => Err(Error::DanglingReference),
            Some(tk) => {
                if !v.arena.live(tk) {
                    Err(Error::DanglingReference)
                } else if !(v.arena.node(tk).facets is Some && has_layout_surface(
                    v.arena.node(tk).facets->0.widget.kind(),
                )) {
                    Err(Error::MalformedBatch)
                } else {
                    match validate_children_from(v, child_ids, 0, Seq::empty(), tk, None, None) {
                        Err(e) => Err(e),
                        Ok(keys) => {
                            let (a2, cmds) = attach_children_prefix(
                                v.arena,
                                tk,
                                keys,
                                keys.len() as int,
                            );
                            Ok(OpOk { r: v.with_arena(a2), stack: rest_stack, cmds })
                        },
                    }
                }
            },
        }
    } else {
        Err(Error::MalformedBatch)
    }
}

/// Shared removal core: detach `rk` from its parent (planning the widget
/// and layout detach), orphan its children, release it, and attach the
/// `m` popped ids in its former place.
pub open spec fn remove_node_spec(v: RendV, stack: Seq<u64>, root: u64, m: u64) -> Result<
    OpOk,
    Error,
> {
    let n = m as int;
    match v.resolved(root) {
        None => Err(Error::DanglingReference),
        Some(rk) => {
            if !v.arena.live(rk) {
                Err(Error::DanglingReference)
            } else if rk.generation == u64::MAX || n > stack.len() {
                Err(Error::MalformedBatch)
            } else {
                let node = v.arena.node(rk);
                let parent_ok = match node.layout_parent {
                    Some(pk) => pk != rk && v.arena.live(pk) && v.arena.node(pk).facets is Some
                        && first_index_of(v.arena.node(pk).facets->0.children, rk, 0) is Some,
                    None => true,
                };
                if !parent_ok {
                    Err(Error::MalformedBatch)
                } else {
                    let child_ids = stack.subrange(stack.len() - n, stack.len() as int);
                    let rest_stack = stack.subrange(0, stack.len() - n);
                    let tk_check = match node.layout_parent {
                        Some(pk) => pk,
                        None => rk,
                    };
                    match validate_children_from(
                        v,
                        child_ids,
                        0,
                        Seq::empty(),
                        tk_check,
                        Some(rk),
                        Some(rk),
                    ) {
                        Err(e) => Err(e),
                        Ok(keys) => {
                            let detach_cmds = match node.layout_parent {
                                Some(pk) => {
                                    if node.facets is Some && v.arena.node(pk).facets is Some {
                                        seq![
                                            CommandV::RemoveChild { parent: pk, child: rk },
                                            CommandV::RemoveLayoutChild { parent: pk, child: rk },
                                        ]
                                    } else {
                                        Seq::empty()
                                    }
                                },
                                None => Seq::empty(),
                            };
                            let release_cmds = if node.facets is Some {
                                seq![CommandV::ReleaseLayoutNode { key: rk }]
                            } else {
                                Seq::empty()
                            };
                            let a1 = match node.layout_parent {
                                Some(pk) => {
                                    let pn = v.arena.node(pk);
                                    v.arena.update_node(
                                        pk,
                                        pn.with_facets(
                                            Some(
                                                pn.facets->0.with_children(
                                                    remove_first(pn.facets->0.children, rk),
                                                ),
                                            ),
                                        ),
                                    )
                                },
                                None => v.arena,
                            };
                            let a2 = clear_backlinks_prefix(a1, node.children(), node.children().len() as int);
                            let a3 = a2.release_spec(rk);
                            let (a4, attach_cmds) = match node.layout_parent {
                                Some(pk) => attach_children_prefix(a3, pk, keys, keys.len() as int),
                                None => (a3, Seq::<CommandV>::empty()),
                            };
                            Ok(
                                OpOk {
                                    r: v.with_arena(a4),
                                    stack: rest_stack,
                                    cmds: detach_cmds + release_cmds + attach_cmds,
                                },
                            )
                        },
                    }
                }
            }
        },
    }
}

/// Creates a node of the given kind with the given initial widget state.
pub open spec fn create_node_spec(
    v: RendV,
    stack: Seq<u64>,
    id: u64,
    kind: NodeKind,
    widget: WidgetFacetV,
    extra_cmds: Seq<CommandV>,
) -> OpOk {
    let a1 = v.arena.alloc_spec();
    let k = v.arena.alloc_key();
    let a2 = a1.bind_spec(id, k);
    let style = initial_style_spec(kind);
    let facets = FacetsV {
        widget,
        style,
        dirty: false,
        children: Seq::empty(),
        listeners: Seq::empty(),
    };
    let a3 = a2.update_node(k, a2.node(k).with_facets(Some(facets)));
    OpOk {
        r: v.with_arena(a3),
        stack: stack.push(id),
        cmds: seq![
            CommandV::CreateWidget { key: k, kind },
            CommandV::CreateLayoutNode { key: k, kind, style },
        ] + extra_cmds,
    }
}

/// `CreateElement`: allocate, bind, construct both facets, push the id.
pub open spec fn create_element_spec(v: RendV, stack: Seq<u64>, id: u64, tag: Seq<char>) -> Result<
    OpOk,
    Error,
> {
    if v.arena.ids.contains_key(id) {
        Err(Error::MalformedBatch)
    } else {
        match kind_of_tag(tag) {
            None => Err(Error::UnsupportedElementKind),
            Some(kind) => Ok(
                create_node_spec(v, stack, id, kind, default_widget_spec(kind), Seq::empty()),
            ),
        }
    }
}

/// `CreateTextNode`: a text leaf created with its content already set.
pub open spec fn create_text_node_spec(v: RendV, stack: Seq<u64>, id: u64, text: Seq<char>) -> Result<
    OpOk,
    Error,
> {
    if v.arena.ids.contains_key(id) {
        Err(Error::MalformedBatch)
    } else {
        let k = v.arena.alloc_key();
        Ok(
            create_node_spec(
                v,
                stack,
                id,
                NodeKind::Text,
                WidgetFacetV::Text { content: text },
                seq![CommandV::SetWidgetProp { key: k, prop: PropName::Text, value: text }],
            ),
        )
    }
}

/// `CreatePlaceholder`: allocate and bind a node with no facets yet.
pub open spec fn create_placeholder_spec(v: RendV, stack: Seq<u64>, id: u64) -> Result<
    OpOk,
    Error,
> {
    if v.arena.ids.contains_key(id) {
        Err(Error::MalformedBatch)
    } else {
        let a1 = v.arena.alloc_spec();
        let k = v.arena.alloc_key();
        let a2 = a1.bind_spec(id, k);
        Ok(OpOk { r: v.with_arena(a2), stack: stack.push(id), cmds: Seq::empty() })
    }
}

/// `NewEventListener`: record the listener and plan the native attach.
pub open spec fn new_listener_spec(
    v: RendV,
    stack: Seq<u64>,
    id: u64,
    name: Seq<char>,
    scope: u64,
) -> Result<OpOk, Error> {
    match v.resolved(id) {
        None => Err(Error::DanglingReference),
        Some(k) => {
            if !v.arena.live(k) {
                Err(Error::DanglingReference)
            } else {
                let node = v.arena.node(k);
                match node.facets {
                    None => Err(Error::UnsupportedEvent),
                    Some(f) => match event_mapping(f.widget.kind(), name) {
                        None => Err(Error::UnsupportedEvent),
                        Some(ev) => {
                            let f2 = f.with_listeners(
                                f.listeners.push(Listener { name: ev, scope }),
                            );
                            let a2 = v.arena.update_node(k, node.with_facets(Some(f2)));
                            Ok(
                                OpOk {
                                    r: v.with_arena(a2),
                                    stack,
                                    cmds: seq![
                                        CommandV::AttachListener {
                                            key: k,
                                            kind: f.widget.kind(),
                                            name: ev,
                                            scope,
                                            target: id,
                                        },
                                    ],
                                },
                            )
                        },
                    },
                }
            }
        },
    }
}

/// `RemoveEventListener`: drop every matching listener and plan the detach.
pub open spec fn remove_listener_spec(v: RendV, stack: Seq<u64>, id: u64, name: Seq<char>) -> Result<
    OpOk,
    Error,
> {
    match v.resolved(id) {
        None => Err(Error::DanglingReference),
        Some(k) => {
            if !v.arena.live(k) {
                Err(Error::DanglingReference)
            } else {
                let node = v.arena.node(k);
                match node.facets {
                    None => Err(Error::UnsupportedEvent),
                    Some(f) => match event_mapping(f.widget.kind(), name) {
                        None => Err(Error::UnsupportedEvent),
                        Some(ev) => {
                            let f2 = f.with_listeners(
                                keep_listeners_prefix(f.listeners, ev, f.listeners.len() as int),
                            );
                            let a2 = v.arena.update_node(k, node.with_facets(Some(f2)));
                            Ok(
                                OpOk {
                                    r: v.with_arena(a2),
                                    stack,
                                    cmds: seq![CommandV::DetachListener { key: k, name: ev }],
                                },
                            )
                        },
                    },
                }
            }
        },
    }
}

/// The updated widget facet after setting `field` to `value`, if that pair
/// is in the attribute table; also whether the change can alter the
/// intrinsic size (and so must mark the measurement dirty).
pub open spec fn set_widget_field(
    w: WidgetFacetV,
    field: Seq<char>,
    value: Seq<char>,
) -> Option<(WidgetFacetV, PropName, bool)> {
    match w {
        WidgetFacetV::Text { content } => {
            if field == "text"@ {
                Some((WidgetFacetV::Text { content: value }, PropName::Text, true))
            } else {
                None
            }
        },
        WidgetFacetV::Window { title } => {
            if field == "title"@ {
                Some((WidgetFacetV::Window { title: value }, PropName::Title, false))
            } else {
                None
            }
        },
        WidgetFacetV::Button { label } => {
            if field == "label"@ {
                Some((WidgetFacetV::Button { label: value }, PropName::Label, true))
            } else {
                None
            }
        },
        WidgetFacetV::TextField { value: old_value, placeholder } => {
            if field == "value"@ {
                Some(
                    (
                        WidgetFacetV::TextField { value, placeholder },
                        PropName::Value,
                        false,
                    ),
                )
            } else if field == "place_holder"@ {
                Some(
                    (
                        WidgetFacetV::TextField { value: old_value, placeholder: value },
                        PropName::Placeholder,
                        false,
                    ),
                )
            } else {
                None
            }
        },
        WidgetFacetV::Container => None,
    }
}

/// `SetAttribute`: the `"layout"` field decodes and applies a style blob
/// (the node's own measurement becomes clean, its children are
/// re-measured); other fields update one widget property, marking the
/// node dirty when the property can change its intrinsic size. Setting a
/// text field's value to what it already holds plans no native write.
pub open spec fn set_attribute_spec(
    v: RendV,
    stack: Seq<u64>,
    id: u64,
    field: Seq<char>,
    value: Seq<char>,
) -> Result<OpOk, Error> {
    match v.resolved(id) {
        None => Err(Error::DanglingReference),
        Some(k) => {
            if !v.arena.live(k) {
                Err(Error::DanglingReference)
            } else {
                let node = v.arena.node(k);
                match node.facets {
                    None => Err(Error::UnsupportedAttribute),
                    Some(f) => {
                        if field == "layout"@ {
                            match codec::decode_style_spec(value) {
                                None => Err(Error::LayoutEngineFailure),
                                Some(style) => {
                                    let a1 = v.arena.update_node(
                                        k,
                                        node.with_facets(Some(f.with_style(style, false))),
                                    );
                                    let (a2, dirty_cmds) = mark_children_dirty_prefix(
                                        a1,
                                        f.children,
                                        f.children.len() as int,
                                    );
                                    Ok(
                                        OpOk {
                                            r: v.with_arena(a2),
                                            stack,
                                            cmds: seq![CommandV::SetStyle { key: k, style }]
                                                + dirty_cmds,
                                        },
                                    )
                                },
                            }
                        } else {
                            match set_widget_field(f.widget, field, value) {
                                None => Err(Error::UnsupportedAttribute),
                                Some((w2, prop, size_affecting)) => {
                                    if prop == PropName::Value && w2 == f.widget {
                                        Ok(OpOk { r: v, stack, cmds: Seq::empty() })
                                    } else {
                                        let f2 = if size_affecting {
                                            f.with_widget(w2).with_dirty(true)
                                        } else {
                                            f.with_widget(w2)
                                        };
                                        let a1 = v.arena.update_node(
                                            k,
                                            node.with_facets(Some(f2)),
                                        );
                                        let set_cmd = CommandV::SetWidgetProp {
                                            key: k,
                                            prop,
                                            value,
                                        };
                                        let cmds = if size_affecting {
                                            seq![set_cmd, CommandV::MarkDirty { key: k }]
                                        } else {
                                            seq![set_cmd]
                                        };
                                        Ok(OpOk { r: v.with_arena(a1), stack, cmds })
                                    }
                                },
                            }
                        }
                    },
                }
            }
        },
    }
}

/// `SetText`: update a text leaf's content.
pub open spec fn set_text_spec(v: RendV, stack: Seq<u64>, id: u64, text: Seq<char>) -> Result<
    OpOk,
    Error,
> {
    set_attribute_spec(v, stack, id, "text"@, text)
}

/// The default value `RemoveAttribute` resets a field to.
pub open spec fn remove_attribute_spec(v: RendV, stack: Seq<u64>, id: u64, name: Seq<char>) -> Result<
    OpOk,
    Error,
> {
    if name == "layout"@ {
        match v.resolved(id) {
            None => Err(Error::DanglingReference),
            Some(k) => {
                if !v.arena.live(k) {
                    Err(Error::DanglingReference)
                } else {
                    let node = v.arena.node(k);
                    match node.facets {
                        None => Err(Error::UnsupportedAttribute),
                        Some(f) => {
                            let style = initial_style_spec(f.widget.kind());
                            let a1 = v.arena.update_node(
                                k,
                                node.with_facets(Some(f.with_style(style, false))),
                            );
                            let (a2, dirty_cmds) = mark_children_dirty_prefix(
                                a1,
                                f.children,
                                f.children.len() as int,
                            );
                            Ok(
                                OpOk {
                                    r: v.with_arena(a2),
                                    stack,
                                    cmds: seq![CommandV::SetStyle { key: k, style }] + dirty_cmds,
                                },
                            )
                        },
                    }
                }
            },
        }
    } else {
        set_attribute_spec(v, stack, id, name, Seq::empty())
    }
}

/// `InsertBefore`/`InsertAfter`: pop `n` ids and splice them into the
/// sibling's parent's child list at the sibling's position (or just past
/// it), planning the widget attaches and one ordered layout re-sync.
pub open spec fn insert_siblings_spec(
    v: RendV,
    stack: Seq<u64>,
    root: u64,
    n_raw: u64,
    after: bool,
) -> Result<OpOk, Error> {
    let n = n_raw as int;
    match v.resolved(root) {
        None => Err(Error::DanglingReference),
        Some(rk) => {
            if !v.arena.live(rk) {
                Err(Error::DanglingReference)
            } else if n > stack.len() {
                Err(Error::MalformedBatch)
            } else {
                match v.arena.node(rk).layout_parent {
                    None => Err(Error::MalformedBatch),
                    Some(pk) => {
                        let pk_ok = pk != rk && v.arena.live(pk) && v.arena.node(pk).facets
                            is Some && first_index_of(
                            v.arena.node(pk).facets->0.children,
                            rk,
                            0,
                        ) is Some;
                        if !pk_ok {
                            Err(Error::MalformedBatch)
                        } else {
                            let child_ids = stack.subrange(stack.len() - n, stack.len() as int);
                            let rest_stack = stack.subrange(0, stack.len() - n);
                            match validate_children_from(
                                v,
                                child_ids,
                                0,
                                Seq::empty(),
                                pk,
                                None,
                                None,
                            ) {
                                Err(e) => Err(e),
                                Ok(keys) => {
                                    let siblings = v.arena.node(pk).facets->0.children;
                                    let pos = first_index_of(siblings, rk, 0)->0 + if after {
                                        1int
                                    } else {
                                        0int
                                    };
                                    let (a2, cmds) = insert_children_at(v.arena, pk, keys, pos);
                                    Ok(OpOk { r: v.with_arena(a2), stack: rest_stack, cmds })
                                },
                            }
                        }
                    },
                }
            }
        },
    }
}

/// The widget attaches for those of `keys[..i]` that have facets.
pub open spec fn put_cmds_prefix(a: ArenaV, pk: Key, keys: Seq<Key>, i: int) -> Seq<CommandV>
    decreases i when 0 <= i <= keys.len()
{
    if i <= 0 {
        Seq::empty()
    } else {
        let pre = put_cmds_prefix(a, pk, keys, i - 1);
        let k = keys[i - 1];
        if a.live(k) && a.node(k).facets is Some {
            pre.push(CommandV::PutChild { parent: pk, child: k })
        } else {
            pre
        }
    }
}

/// Those of `cs[..i]` that have a layout entry (are live with facets).
pub open spec fn layout_children_prefix(a: ArenaV, cs: Seq<Key>, i: int) -> Seq<Key>
    decreases i when 0 <= i <= cs.len()
{
    if i <= 0 {
        Seq::empty()
    } else {
        let pre = layout_children_prefix(a, cs, i - 1);
        let c = cs[i - 1];
        if a.live(c) && a.node(c).facets is Some {
            pre.push(c)
        } else {
            pre
        }
    }
}

/// Splices `keys` into `pk`'s child list at `pos`, sets their backlinks,
/// and plans the widget attaches plus one ordered layout re-sync.
pub open spec fn insert_children_at(a: ArenaV, pk: Key, keys: Seq<Key>, pos: int) -> (
    ArenaV,
    Seq<CommandV>,
) {
    let old_children = a.node(pk).facets->0.children;
    let new_children = old_children.subrange(0, pos) + keys + old_children.subrange(
        pos,
        old_children.len() as int,
    );
    let pn = a.node(pk);
    let a1 = a.update_node(pk, pn.with_facets(Some(pn.facets->0.with_children(new_children))));
    let a2 = set_backlinks_prefix(a1, pk, keys, keys.len() as int);
    let put_cmds = put_cmds_prefix(a2, pk, keys, keys.len() as int);
    let layout_children = layout_children_prefix(a2, new_children, new_children.len() as int);
    (
        a2,
        put_cmds + seq![CommandV::SyncLayoutChildren { parent: pk, children: layout_children }],
    )
}

/// Sets the backlink of each of `keys[..i]` to `pk`.
pub open spec fn set_backlinks_prefix(a: ArenaV, pk: Key, keys: Seq<Key>, i: int) -> ArenaV
    decreases i when 0 <= i <= keys.len()
{
    if i <= 0 {
        a
    } else {
        let a0 = set_backlinks_prefix(a, pk, keys, i - 1);
        let k = keys[i - 1];
        a0.update_node(k, a0.node(k).with_parent(Some(pk)))
    }
}

/// One operation's transition: the new state, remaining stack and planned
/// commands, or the error that left everything unchanged.
pub open spec fn apply_op_spec(v: RendV, stack: Seq<u64>, op: EditOp) -> Result<OpOk, Error> {
    match op {
        EditOp::PushRoot { root } => push_root_spec(v, stack, root),
        EditOp::PopRoot => pop_root_spec(v, stack),
        EditOp::AppendChildren { many } => append_children_spec(v, stack, many),
        EditOp::ReplaceWith { root, m } => remove_node_spec(v, stack, root, m),
        EditOp::Remove { root } => remove_node_spec(v, stack, root, 0),
        EditOp::InsertAfter { root, n } => insert_siblings_spec(v, stack, root, n, true),
        EditOp::InsertBefore { root, n } => insert_siblings_spec(v, stack, root, n, false),
        EditOp::CreateElement { root, tag } => create_element_spec(v, stack, root, tag@),
        EditOp::CreateElementNs { root, tag, ns } => Err(Error::UnsupportedElementKind),
        EditOp::CreateTextNode { root, text } => create_text_node_spec(v, stack, root, text@),
        EditOp::CreatePlaceholder { root } => create_placeholder_spec(v, stack, root),
        EditOp::NewEventListener { event_name, scope, root } => new_listener_spec(
            v,
            stack,
            root,
            event_name@,
            scope,
        ),
        EditOp::RemoveEventListener { root, event } => remove_listener_spec(v, stack, root, event@),
        EditOp::SetText { root, text } => set_text_spec(v, stack, root, text@),
        EditOp::SetAttribute { root, field, value } => set_attribute_spec(
            v,
            stack,
            root,
            field@,
            value@,
        ),
        EditOp::RemoveAttribute { root, name } => remove_attribute_spec(v, stack, root, name@),
    }
}

/// Result of a whole batch at spec level.
pub struct BatchResult {
    pub r: RendV,
    pub stack: Seq<u64>,
    pub cmds: Seq<CommandV>,
    pub warns: Seq<Error>,
    pub fatal: Option<Error>,
}

/// Applies `ops[i..]` in order: recoverable failures are skipped and
/// collected as warnings; a fatal failure stops the batch with the state
/// reached so far.
pub open spec fn apply_ops_spec(v: RendV, stack: Seq<u64>, ops: Seq<EditOp>, i: int) -> BatchResult
    decreases ops.len() - i when 0 <= i <= ops.len()
{
    if i >= ops.len() {
        BatchResult { r: v, stack, cmds: Seq::empty(), warns: Seq::empty(), fatal: None }
    } else {
        match apply_op_spec(v, stack, ops[i]) {
            Ok(ok) => {
                let rest = apply_ops_spec(ok.r, ok.stack, ops, i + 1);
                BatchResult {
                    r: rest.r,
                    stack: rest.stack,
                    cmds: ok.cmds + rest.cmds,
                    warns: rest.warns,
                    fatal: rest.fatal,
                }
            },
            Err(e) => {
                if e.is_recoverable_spec() {
                    let rest = apply_ops_spec(v, stack, ops, i + 1);
                    BatchResult {
                        r: rest.r,
                        stack: rest.stack,
                        cmds: rest.cmds,
                        warns: seq![e] + rest.warns,
                        fatal: rest.fatal,
                    }
                } else {
                    BatchResult {
                        r: v,
                        stack,
                        cmds: Seq::empty(),
                        warns: Seq::empty(),
                        fatal: Some(e),
                    }
                }
            },
        }
    }
}

/// Facts about a successful validation: the keys extend `seen` one per
/// id, are live, avoid the target and the removed node, and are distinct.
pub proof fn lemma_validate_props(
    v: RendV,
    ids: Seq<u64>,
    i: int,
    seen: Seq<Key>,
    tk: Key,
    except: Option<Key>,
    removed: Option<Key>,
    keys: Seq<Key>,
)
    requires
        0 <= i <= ids.len(),
        validate_children_from(v, ids, i, seen, tk, except, removed) == Ok::<Seq<Key>, Error>(
            keys,
        ),
        forall|j: int|
            0 <= j < seen.len() ==> v.arena.live(#[trigger] seen[j]) && seen[j] != tk && removed
                != Some(seen[j]),
        forall|j1: int, j2: int| 0 <= j1 < j2 < seen.len() ==> seen[j1] != seen[j2],
    ensures
        keys.len() == seen.len() + (ids.len() - i),
        keys.subrange(0, seen.len() as int) == seen,
        forall|j: int|
            0 <= j < keys.len() ==> v.arena.live(#[trigger] keys[j]) && keys[j] != tk && removed
                != Some(keys[j]),
        forall|j1: int, j2: int| 0 <= j1 < j2 < keys.len() ==> keys[j1] != keys[j2],
    decreases ids.len() - i,
{
    if i >= ids.len() {
        assert(keys == seen);
        assert(keys.subrange(0, seen.len() as int) =~= seen);
    } else {
        let k = v.resolved(ids[i])->0;
        let seen2 = seen.push(k);
        assert(forall|j: int| 0 <= j < seen.len() ==> seen2[j] == seen[j]);
        assert(!seen.contains(k));
        assert(forall|j: int| 0 <= j < seen.len() ==> seen[j] != k);
        lemma_validate_props(v, ids, i + 1, seen2, tk, except, removed, keys);
        assert(keys.subrange(0, seen.len() as int) =~= keys.subrange(
            0,
            seen2.len() as int,
        ).subrange(0, seen.len() as int));
    }
}

proof fn lemma_cmd_views_push(s: Seq<NativeCommand>, c: NativeCommand)
    ensures
        cmd_views(s.push(c)) =~= cmd_views(s).push(c@),
{
}

fn key_in_vec(v: &Vec<Key>, k: Key) -> (r: bool)
    ensures
        r == v@.contains(k),
{
    let n = v.len();
    let mut i: usize = 0;
    while i < n
        invariant
            0 <= i <= n,
            n == v@.len(),
            forall|j: int| 0 <= j < i ==> v@[j] != k,
        decreases n - i,
    {
        if v[i] == k {
            return true;
        }
        i = i + 1;
    }
    false
}

fn first_index_in_vec(v: &Vec<Key>, x: Key) -> (r: Option<usize>)
    ensures
        match r {
            Some(i) => first_index_of(v@, x, 0) == Some(i as int),
            None => first_index_of(v@, x, 0) is None,
        },
{
    let n = v.len();
    let mut i: usize = 0;
    while i < n
        invariant
            0 <= i <= n,
            n == v@.len(),
            first_index_of(v@, x, 0) == first_index_of(v@, x, i as int),
        decreases n - i,
    {
        if v[i] == x {
            return Some(i);
        }
        i = i + 1;
    }
    None
}

fn kind_of_tag_exec(tag: &String) -> (r: Option<NodeKind>)
    ensures
        r == kind_of_tag(tag@),
{
    let t_box: String = "gtk_box".to_owned();
    let t_label: String = "gtk_label".to_owned();
    let t_button: String = "gtk_button".to_owned();
    let t_field: String = "gtk_text_field".to_owned();
    let t_window: String = "gtk_window".to_owned();
    if *tag == t_box {
        Some(NodeKind::Container)
    } else if *tag == t_label {
        Some(NodeKind::Text)
    } else if *tag == t_button {
        Some(NodeKind::Button)
    } else if *tag == t_field {
        Some(NodeKind::TextField)
    } else if *tag == t_window {
        Some(NodeKind::Window)
    } else {
        None
    }
}

fn event_mapping_exec(kind: NodeKind, name: &String) -> (r: Option<EventName>)
    ensures
        r == event_mapping(kind, name@),
{
    let n_press: String = "press".to_owned();
    let n_change: String = "text_change".to_owned();
    if kind == NodeKind::Button && *name == n_press {
        Some(EventName::Press)
    } else if kind == NodeKind::TextField && *name == n_change {
        Some(EventName::TextChange)
    } else {
        None
    }
}

fn default_widget_exec(kind: NodeKind) -> (w: WidgetFacet)
    ensures
        w@ == default_widget_spec(kind),
{
    match kind {
        NodeKind::Container => WidgetFacet::Container,
        NodeKind::Text => WidgetFacet::Text { content: String::new() },
        NodeKind::Button => WidgetFacet::Button { label: String::new() },
        NodeKind::Window => WidgetFacet::Window { title: String::new() },
        NodeKind::TextField => WidgetFacet::TextField {
            value: String::new(),
            placeholder: String::new(),
        },
    }
}

fn initial_style_exec(kind: NodeKind) -> (s: Style)
    ensures
        s == initial_style_spec(kind),
{
    if kind == NodeKind::Window {
        Style::window_root_style()
    } else {
        Style::default_style()
    }
}

/// What one batch produced: the planned native commands, and the
/// recoverable failures that were logged and skipped.
#[derive(Debug)]
pub struct ApplyOutcome {
    pub commands: Vec<NativeCommand>,
    pub warnings: Vec<Error>,
}

impl Renderer {
    /// An empty retained tree with the given root-id convention.
    pub fn new(root_id: u64) -> (r: Renderer)
        ensures
            r@.arena.slots == Seq::<crate::arena::SlotV>::empty(),
            r@.arena.ids == Map::<u64, Key>::empty(),
            r@.root_id == root_id,
    {
        Renderer { arena: Arena::new(), root_id }
    }

    /// Borrows the underlying arena.
    pub fn arena_ref(&self) -> (a: &Arena)
        ensures
            a@ == self@.arena,
    {
        &self.arena
    }

    /// The external id reserved for the top-level window.
    pub fn root_id(&self) -> (r: u64)
        ensures
            r == self@.root_id,
    {
        self.root_id
    }

    /// Resolves an id to a live key; anything else is dangling.
    fn resolve_live(&self, id: u64) -> (r: Result<Key, Error>)
        ensures
            match self@.resolved(id) {
                None => r == Err::<Key, Error>(Error::DanglingReference),
                Some(k) => if self@.arena.live(k) {
                    r == Ok::<Key, Error>(k)
                } else {
                    r == Err::<Key, Error>(Error::DanglingReference)
                },
            },
    {
        match self.arena.resolve(id) {
            Ok(k) => {
                if self.arena.is_live(k) {
                    Ok(k)
                } else {
                    Err(Error::DanglingReference)
                }
            },
            Err(e) => Err(e),
        }
    }
}


/// Replacing a node in the arena never revokes any live key.
proof fn lemma_update_preserves_live(a: ArenaV, k: Key, n: NodeV, x: Key)
    requires
        a.live(k),
        a.live(x),
    ensures
        a.update_node(k, n).live(x),
{
}

/// Two live keys over the same slot are the same key.
proof fn lemma_live_same_index(a: ArenaV, x: Key, y: Key)
    requires
        a.live(x),
        a.live(y),
        x.index == y.index,
    ensures
        x == y,
{
}

/// A found first index is in bounds and hits the needle.
proof fn lemma_first_index_bounds(s: Seq<Key>, x: Key, i: int, j: int)
    requires
        0 <= i <= s.len(),
        first_index_of(s, x, i) == Some(j),
    ensures
        i <= j < s.len(),
        s[j] == x,
    decreases s.len() - i,
{
    if i < s.len() && !(s[i] == x) {
        lemma_first_index_bounds(s, x, i + 1, j);
    }
}

/// Setting backlinks on keys distinct from `x` leaves `x`'s node alone,
/// and keeps every key live.
proof fn lemma_set_backlinks_preserves_other(a: ArenaV, pk: Key, keys: Seq<Key>, i: int, x: Key)
    requires
        0 <= i <= keys.len(),
        a.live(x),
        forall|j: int| 0 <= j < keys.len() ==> a.live(#[trigger] keys[j]) && keys[j] != x,
    ensures
        set_backlinks_prefix(a, pk, keys, i).live(x),
        set_backlinks_prefix(a, pk, keys, i).node(x) == a.node(x),
        forall|j: int|
            0 <= j < keys.len() ==> set_backlinks_prefix(a, pk, keys, i).live(
                #[trigger] keys[j],
            ),
    decreases i,
{
    if i > 0 {
        lemma_set_backlinks_preserves_other(a, pk, keys, i - 1, x);
        let a0 = set_backlinks_prefix(a, pk, keys, i - 1);
        if keys[i - 1].index == x.index {
            lemma_live_same_index(a0, keys[i - 1], x);
        }
    }
}

impl Renderer {
    /// Validates the ids at `stack[start..]` as attach candidates; see
    /// [`validate_children_from`].
    fn validate_children_exec(
        &self,
        stack: &Vec<u64>,
        start: usize,
        tk: Key,
        except: Option<Key>,
        removed: Option<Key>,
    ) -> (r: Result<Vec<Key>, Error>)
        requires
            start <= stack@.len(),
        ensures
            ({
                let ids = stack@.subrange(start as int, stack@.len() as int);
                match r {
                    Ok(keys) => validate_children_from(
                        self@,
                        ids,
                        0,
                        Seq::empty(),
                        tk,
                        except,
                        removed,
                    ) == Ok::<Seq<Key>, Error>(keys@),
                    Err(e) => validate_children_from(
                        self@,
                        ids,
                        0,
                        Seq::empty(),
                        tk,
                        except,
                        removed,
                    ) == Err::<Seq<Key>, Error>(e),
                }
            }),
    {
        let ghost ids = stack@.subrange(start as int, stack@.len() as int);
        let mut keys: Vec<Key> = Vec::new();
        let n = stack.len();
        let mut i: usize = start;
        while i < n
            invariant
                start <= i <= n,
                n == stack@.len(),
                ids == stack@.subrange(start as int, n as int),
                validate_children_from(self@, ids, 0, Seq::empty(), tk, except, removed)
                    == validate_children_from(
                    self@,
                    ids,
                    (i - start) as int,
                    keys@,
                    tk,
                    except,
                    removed,
                ),
            decreases n - i,
        {
            proof {
                assert(ids[(i - start) as int] == stack@[i as int]);
            }
            let id = stack[i];
            let k = match self.arena.resolve(id) {
                Ok(k) => k,
                Err(e) => {
                    return Err(e);
                },
            };
            if !self.arena.is_live(k) {
                return Err(Error::DanglingReference);
            }
            let hits_removed = match removed {
                Some(rk) => k == rk,
                None => false,
            };
            if k == tk || hits_removed {
                return Err(Error::MalformedBatch);
            }
            let parent_bad = {
                let node = self.arena.node_ref(k);
                match node.layout_parent {
                    Some(p) => match except {
                        Some(e) => !(p == e),
                        None => true,
                    },
                    None => false,
                }
            };
            if parent_bad {
                return Err(Error::MalformedBatch);
            }
            if key_in_vec(&keys, k) {
                return Err(Error::MalformedBatch);
            }
            keys.push(k);
            i = i + 1;
        }
        Ok(keys)
    }

    /// Attaches the validated keys under `tk`; see
    /// [`attach_children_prefix`].
    #[verifier::loop_isolation(false)]
    fn attach_children_exec(&mut self, tk: Key, keys: &Vec<Key>, out: &mut Vec<NativeCommand>)
        requires
            old(self)@.arena.live(tk),
            old(self)@.arena.node(tk).facets is Some,
            forall|j: int|
                0 <= j < keys@.len() ==> old(self)@.arena.live(#[trigger] keys@[j]) && keys@[j]
                    != tk,
            forall|j1: int, j2: int| 0 <= j1 < j2 < keys@.len() ==> keys@[j1] != keys@[j2],
        ensures
            forall|x: Key| old(self)@.arena.live(x) ==> #[trigger] final(self)@.arena.live(x),
            final(self)@.arena == attach_children_prefix(
                old(self)@.arena,
                tk,
                keys@,
                keys@.len() as int,
            ).0,
            final(self)@.root_id == old(self)@.root_id,
            cmd_views(final(out)@) == cmd_views(old(out)@) + attach_children_prefix(
                old(self)@.arena,
                tk,
                keys@,
                keys@.len() as int,
            ).1,
    {
        let ghost a0 = self@.arena;
        let ghost out0 = out@;
        let n = keys.len();
        let mut i: usize = 0;
        while i < n
            invariant
                0 <= i <= n,
                forall|x: Key| a0.live(x) ==> #[trigger] self@.arena.live(x),
                self@.arena == attach_children_prefix(a0, tk, keys@, i as int).0,
                self@.root_id == old(self)@.root_id,
                cmd_views(out@) == cmd_views(out0) + attach_children_prefix(
                    a0,
                    tk,
                    keys@,
                    i as int,
                ).1,
                self@.arena.live(tk),
                self@.arena.node(tk).facets is Some,
                forall|j: int| i <= j < n ==> self@.arena.live(#[trigger] keys@[j]),
            decreases n - i,
        {
            let ghost astep = self@.arena;
            let k = keys[i];
            let has_facets = self.arena.node_ref(k).facets.is_some();
            self.arena.set_parent(k, Some(tk));
            proof {
                if k.index == tk.index {
                    lemma_live_same_index(astep, k, tk);
                    assert(false);
                }
            }
            self.arena.push_child(tk, k);
            if has_facets {
                let ghost outa = out@;
                out.push(NativeCommand::PutChild { parent: tk, child: k });
                proof {
                    lemma_cmd_views_push(outa, NativeCommand::PutChild { parent: tk, child: k });
                }
                let ghost outb = out@;
                out.push(NativeCommand::AddLayoutChild { parent: tk, child: k });
                proof {
                    lemma_cmd_views_push(
                        outb,
                        NativeCommand::AddLayoutChild { parent: tk, child: k },
                    );
                }
            }
            i = i + 1;
            proof {
                let stepped = attach_children_prefix(a0, tk, keys@, i as int);
                assert(self@.arena =~= stepped.0);
                assert(cmd_views(out@) =~= cmd_views(out0) + stepped.1);
                assert forall|j: int| i <= j < n implies self@.arena.live(
                    #[trigger] keys@[j],
                ) by {
                    lemma_update_preserves_live(
                        astep,
                        keys@[i - 1],
                        astep.node(keys@[i - 1]).with_parent(Some(tk)),
                        keys@[j],
                    );
                    let a1 = astep.update_node(
                        keys@[i - 1],
                        astep.node(keys@[i - 1]).with_parent(Some(tk)),
                    );
                    let tn = a1.node(tk);
                    lemma_update_preserves_live(
                        a1,
                        tk,
                        tn.with_facets(
                            Some(
                                tn.facets->0.with_children(
                                    tn.facets->0.children.push(keys@[i - 1]),
                                ),
                            ),
                        ),
                        keys@[j],
                    );
                }
            }
        }
        proof {
            assert(cmd_views(out@) =~= cmd_views(out0) + attach_children_prefix(
                a0,
                tk,
                keys@,
                n as int,
            ).1);
        }
    }

    /// Orphans every live key in `cs`; see [`clear_backlinks_prefix`].
    #[verifier::loop_isolation(false)]
    fn clear_backlinks_exec(&mut self, cs: &Vec<Key>)
        ensures
            forall|x: Key| old(self)@.arena.live(x) ==> #[trigger] final(self)@.arena.live(x),
            forall|x: Key|
                old(self)@.arena.live(x) ==> (#[trigger] final(self)@.arena.node(x)).facets
                    == old(self)@.arena.node(x).facets,
            final(self)@.arena == clear_backlinks_prefix(
                old(self)@.arena,
                cs@,
                cs@.len() as int,
            ),
            final(self)@.root_id == old(self)@.root_id,
    {
        let ghost a0 = self@.arena;
        let n = cs.len();
        let mut i: usize = 0;
        while i < n
            invariant
                0 <= i <= n,
                forall|x: Key| a0.live(x) ==> #[trigger] self@.arena.live(x),
                forall|x: Key|
                    a0.live(x) ==> (#[trigger] self@.arena.node(x)).facets == a0.node(x).facets,
                self@.arena == clear_backlinks_prefix(a0, cs@, i as int),
                self@.root_id == old(self)@.root_id,
            decreases n - i,
        {
            let ghost astep = self@.arena;
            let k = cs[i];
            let live_here = self.arena.is_live(k);
            if live_here {
                self.arena.set_parent(k, None);
            }
            i = i + 1;
            proof {
                assert forall|x: Key| a0.live(x) implies (#[trigger] self@.arena.node(x)).facets
                    == a0.node(x).facets by {
                    assert(astep.live(x));
                    assert(astep.node(x).facets == a0.node(x).facets);
                    if live_here {
                        assert(self@.arena == astep.update_node(
                            k,
                            astep.node(k).with_parent(None),
                        ));
                        if x.index == k.index {
                            assert(astep.node(x) == astep.node(k));
                            assert(self@.arena.node(x) == astep.node(k).with_parent(None));
                        } else {
                            assert(self@.arena.node(x) == astep.node(x));
                        }
                    }
                }
            }
        }
    }

    /// Marks every live facet-bearing key in `cs` for re-measurement; see
    /// [`mark_children_dirty_prefix`].
    #[verifier::loop_isolation(false)]
    fn mark_children_dirty_exec(&mut self, cs: &Vec<Key>, out: &mut Vec<NativeCommand>)
        ensures
            forall|x: Key| old(self)@.arena.live(x) ==> #[trigger] final(self)@.arena.live(x),
            final(self)@.arena == mark_children_dirty_prefix(
                old(self)@.arena,
                cs@,
                cs@.len() as int,
            ).0,
            final(self)@.root_id == old(self)@.root_id,
            cmd_views(final(out)@) == cmd_views(old(out)@) + mark_children_dirty_prefix(
                old(self)@.arena,
                cs@,
                cs@.len() as int,
            ).1,
    {
        let ghost a0 = self@.arena;
        let ghost out0 = out@;
        let n = cs.len();
        let mut i: usize = 0;
        while i < n
            invariant
                0 <= i <= n,
                forall|x: Key| a0.live(x) ==> #[trigger] self@.arena.live(x),
                self@.arena == mark_children_dirty_prefix(a0, cs@, i as int).0,
                self@.root_id == old(self)@.root_id,
                cmd_views(out@) == cmd_views(out0) + mark_children_dirty_prefix(
                    a0,
                    cs@,
                    i as int,
                ).1,
            decreases n - i,
        {
            let k = cs[i];
            if self.arena.is_live(k) {
                let has = self.arena.node_ref(k).facets.is_some();
                if has {
                    self.arena.set_dirty(k, true);
                    let ghost outa = out@;
                    out.push(NativeCommand::MarkDirty { key: k });
                    proof {
                        lemma_cmd_views_push(outa, NativeCommand::MarkDirty { key: k });
                    }
                }
            }
            i = i + 1;
            proof {
                assert(cmd_views(out@) =~= cmd_views(out0) + mark_children_dirty_prefix(
                    a0,
                    cs@,
                    i as int,
                ).1);
            }
        }
    }

    /// Points every key in `keys` at `pk`; see [`set_backlinks_prefix`].
    #[verifier::loop_isolation(false)]
    fn set_backlinks_exec(&mut self, pk: Key, keys: &Vec<Key>)
        requires
            forall|j: int| 0 <= j < keys@.len() ==> old(self)@.arena.live(#[trigger] keys@[j]),
        ensures
            forall|x: Key| old(self)@.arena.live(x) ==> #[trigger] final(self)@.arena.live(x),
            final(self)@.arena == set_backlinks_prefix(
                old(self)@.arena,
                pk,
                keys@,
                keys@.len() as int,
            ),
            final(self)@.root_id == old(self)@.root_id,
    {
        let ghost a0 = self@.arena;
        let n = keys.len();
        let mut i: usize = 0;
        while i < n
            invariant
                0 <= i <= n,
                forall|x: Key| a0.live(x) ==> #[trigger] self@.arena.live(x),
                self@.arena == set_backlinks_prefix(a0, pk, keys@, i as int),
                self@.root_id == old(self)@.root_id,
                forall|j: int| i <= j < n ==> self@.arena.live(#[trigger] keys@[j]),
            decreases n - i,
        {
            let ghost astep = self@.arena;
            let k = keys[i];
            self.arena.set_parent(k, Some(pk));
            i = i + 1;
            proof {
                assert forall|j: int| i <= j < n implies self@.arena.live(
                    #[trigger] keys@[j],
                ) by {
                    lemma_update_preserves_live(
                        astep,
                        keys@[i - 1],
                        astep.node(keys@[i - 1]).with_parent(Some(pk)),
                        keys@[j],
                    );
                }
            }
        }
    }
}

impl Renderer {
    fn do_create_element(
        &mut self,
        root: u64,
        tag: &String,
        stack: &mut Vec<u64>,
        out: &mut Vec<NativeCommand>,
    ) -> (r: Result<(), Error>)
        ensures
            ({
                let res = create_element_spec(old(self)@, old(stack)@, root, tag@);
                match res {
                    Ok(ok) => r is Ok && final(self)@ == ok.r && final(stack)@ == ok.stack
                        && cmd_views(final(out)@) == cmd_views(old(out)@) + ok.cmds,
                    Err(e) => r == Err::<(), Error>(e) && final(self)@ == old(self)@ && final(stack)@ == old(stack)@ && final(out)@ == old(out)@,
                }
            }),
    {
        match self.arena.resolve(root) {
            Ok(_) => {
                return Err(Error::MalformedBatch);
            },
            Err(_) => {},
        }
        let kind = match kind_of_tag_exec(tag) {
            Some(k) => k,
            None => {
                return Err(Error::UnsupportedElementKind);
            },
        };
        let k = self.arena.allocate();
        self.arena.bind(root, k);
        proof {
            assert(self@.arena.live(k));
        }
        let style = initial_style_exec(kind);
        let widget = default_widget_exec(kind);
        self.arena.set_facets(
            k,
            Facets { widget, style, dirty: false, children: Vec::new(), listeners: Vec::new() },
        );
        let ghost outa = out@;
        out.push(NativeCommand::CreateWidget { key: k, kind });
        proof {
            lemma_cmd_views_push(outa, NativeCommand::CreateWidget { key: k, kind });
        }
        let ghost outb = out@;
        out.push(NativeCommand::CreateLayoutNode { key: k, kind, style });
        proof {
            lemma_cmd_views_push(outb, NativeCommand::CreateLayoutNode { key: k, kind, style });
        }
        stack.push(root);
        proof {
            let res = create_element_spec(old(self)@, old(stack)@, root, tag@);
            let ok = res->Ok_0;
            assert(self@ =~= ok.r);
            assert(cmd_views(out@) =~= cmd_views(old(out)@) + ok.cmds);
        }
        Ok(())
    }

    fn do_create_text_node(
        &mut self,
        root: u64,
        text: &String,
        stack: &mut Vec<u64>,
        out: &mut Vec<NativeCommand>,
    ) -> (r: Result<(), Error>)
        ensures
            ({
                let res = create_text_node_spec(old(self)@, old(stack)@, root, text@);
                match res {
                    Ok(ok) => r is Ok && final(self)@ == ok.r && final(stack)@ == ok.stack
                        && cmd_views(final(out)@) == cmd_views(old(out)@) + ok.cmds,
                    Err(e) => r == Err::<(), Error>(e) && final(self)@ == old(self)@ && final(stack)@ == old(stack)@ && final(out)@ == old(out)@,
                }
            }),
    {
        match self.arena.resolve(root) {
            Ok(_) => {
                return Err(Error::MalformedBatch);
            },
            Err(_) => {},
        }
        let kind = NodeKind::Text;
        let k = self.arena.allocate();
        self.arena.bind(root, k);
        proof {
            assert(self@.arena.live(k));
        }
        let style = initial_style_exec(kind);
        let widget = WidgetFacet::Text { content: text.clone() };
        self.arena.set_facets(
            k,
            Facets { widget, style, dirty: false, children: Vec::new(), listeners: Vec::new() },
        );
        let ghost outa = out@;
        out.push(NativeCommand::CreateWidget { key: k, kind });
        proof {
            lemma_cmd_views_push(outa, NativeCommand::CreateWidget { key: k, kind });
        }
        let ghost outb = out@;
        out.push(NativeCommand::CreateLayoutNode { key: k, kind, style });
        proof {
            lemma_cmd_views_push(outb, NativeCommand::CreateLayoutNode { key: k, kind, style });
        }
        let ghost outc = out@;
        let value = text.clone();
        out.push(NativeCommand::SetWidgetProp { key: k, prop: PropName::Text, value });
        proof {
            lemma_cmd_views_push(outc, out@.last());
        }
        stack.push(root);
        proof {
            let res = create_text_node_spec(old(self)@, old(stack)@, root, text@);
            let ok = res->Ok_0;
            assert(self@ =~= ok.r);
            assert(cmd_views(out@) =~= cmd_views(old(out)@) + ok.cmds);
        }
        Ok(())
    }

    fn do_create_placeholder(&mut self, root: u64, stack: &mut Vec<u64>) -> (r: Result<(), Error>)
        ensures
            ({
                let res = create_placeholder_spec(old(self)@, old(stack)@, root);
                match res {
                    Ok(ok) => r is Ok && final(self)@ == ok.r && final(stack)@ == ok.stack
                        && ok.cmds == Seq::<CommandV>::empty(),
                    Err(e) => r == Err::<(), Error>(e) && final(self)@ == old(self)@ && final(stack)@ == old(stack)@,
                }
            }),
    {
        match self.arena.resolve(root) {
            Ok(_) => {
                return Err(Error::MalformedBatch);
            },
            Err(_) => {},
        }
        let k = self.arena.allocate();
        self.arena.bind(root, k);
        stack.push(root);
        proof {
            let res = create_placeholder_spec(old(self)@, old(stack)@, root);
            assert(self@ =~= res->Ok_0.r);
        }
        Ok(())
    }

    fn do_new_listener(
        &mut self,
        root: u64,
        name: &String,
        scope: u64,
        out: &mut Vec<NativeCommand>,
    ) -> (r: Result<(), Error>)
        ensures
            ({
                let res = new_listener_spec(old(self)@, Seq::empty(), root, name@, scope);
                match res {
                    Ok(ok) => r is Ok && final(self)@ == ok.r && cmd_views(final(out)@)
                        == cmd_views(old(out)@) + ok.cmds,
                    Err(e) => r == Err::<(), Error>(e) && final(self)@ == old(self)@ && final(out)@ == old(out)@,
                }
            }),
    {
        let k = match self.resolve_live(root) {
            Ok(k) => k,
            Err(e) => {
                return Err(e);
            },
        };
        let kind_opt = {
            let node = self.arena.node_ref(k);
            match &node.facets {
                Some(f) => Some(f.widget.kind()),
                None => None,
            }
        };
        let kind = match kind_opt {
            Some(kd) => kd,
            None => {
                return Err(Error::UnsupportedEvent);
            },
        };
        let ev = match event_mapping_exec(kind, name) {
            Some(ev) => ev,
            None => {
                return Err(Error::UnsupportedEvent);
            },
        };
        self.arena.push_listener(k, Listener { name: ev, scope });
        let ghost outa = out@;
        out.push(NativeCommand::AttachListener { key: k, kind, name: ev, scope, target: root });
        proof {
            lemma_cmd_views_push(outa, out@.last());
            let res = new_listener_spec(old(self)@, Seq::empty(), root, name@, scope);
            assert(self@ =~= res->Ok_0.r);
            assert(cmd_views(out@) =~= cmd_views(old(out)@) + res->Ok_0.cmds);
        }
        Ok(())
    }

    fn do_remove_listener(
        &mut self,
        root: u64,
        name: &String,
        out: &mut Vec<NativeCommand>,
    ) -> (r: Result<(), Error>)
        ensures
            ({
                let res = remove_listener_spec(old(self)@, Seq::empty(), root, name@);
                match res {
                    Ok(ok) => r is Ok && final(self)@ == ok.r && cmd_views(final(out)@)
                        == cmd_views(old(out)@) + ok.cmds,
                    Err(e) => r == Err::<(), Error>(e) && final(self)@ == old(self)@ && final(out)@ == old(out)@,
                }
            }),
    {
        let k = match self.resolve_live(root) {
            Ok(k) => k,
            Err(e) => {
                return Err(e);
            },
        };
        let kind_opt = {
            let node = self.arena.node_ref(k);
            match &node.facets {
                Some(f) => Some(f.widget.kind()),
                None => None,
            }
        };
        let kind = match kind_opt {
            Some(kd) => kd,
            None => {
                return Err(Error::UnsupportedEvent);
            },
        };
        let ev = match event_mapping_exec(kind, name) {
            Some(ev) => ev,
            None => {
                return Err(Error::UnsupportedEvent);
            },
        };
        let ls = self.arena.listeners_vec(k);
        let mut kept: Vec<Listener> = Vec::new();
        let n = ls.len();
        let mut i: usize = 0;
        while i < n
            invariant
                0 <= i <= n,
                n == ls@.len(),
                kept@ == keep_listeners_prefix(ls@, ev, i as int),
            decreases n - i,
        {
            let l = ls[i];
            if !(l.name == ev) {
                kept.push(l);
            }
            i = i + 1;
        }
        self.arena.set_listeners(k, kept);
        let ghost outa = out@;
        out.push(NativeCommand::DetachListener { key: k, name: ev });
        proof {
            lemma_cmd_views_push(outa, out@.last());
            let res = remove_listener_spec(old(self)@, Seq::empty(), root, name@);
            assert(self@ =~= res->Ok_0.r);
            assert(cmd_views(out@) =~= cmd_views(old(out)@) + res->Ok_0.cmds);
        }
        Ok(())
    }
}

impl Renderer {
    fn do_set_attribute(
        &mut self,
        root: u64,
        field: &String,
        value: &String,
        out: &mut Vec<NativeCommand>,
    ) -> (r: Result<(), Error>)
        ensures
            ({
                let res = set_attribute_spec(old(self)@, Seq::empty(), root, field@, value@);
                match res {
                    Ok(ok) => r is Ok && final(self)@ == ok.r && cmd_views(final(out)@)
                        == cmd_views(old(out)@) + ok.cmds,
                    Err(e) => r == Err::<(), Error>(e) && final(self)@ == old(self)@ && final(out)@ == old(out)@,
                }
            }),
    {
        let k = match self.resolve_live(root) {
            Ok(k) => k,
            Err(e) => {
                return Err(e);
            },
        };
        let has_facets = self.arena.node_ref(k).facets.is_some();
        if !has_facets {
            return Err(Error::UnsupportedAttribute);
        }
        let f_layout: String = "layout".to_owned();
        if *field == f_layout {
            let style = match codec::decode_style(value.as_str()) {
                Some(s) => s,
                None => {
                    return Err(Error::LayoutEngineFailure);
                },
            };
            let cs = self.arena.children_vec(k);
            self.arena.set_style(k, style, false);
            let ghost outa = out@;
            out.push(NativeCommand::SetStyle { key: k, style });
            proof {
                lemma_cmd_views_push(outa, NativeCommand::SetStyle { key: k, style });
            }
            self.mark_children_dirty_exec(&cs, out);
            proof {
                let res = set_attribute_spec(old(self)@, Seq::empty(), root, field@, value@);
                let ok = res->Ok_0;
                assert(self@ =~= ok.r);
                assert(cmd_views(out@) =~= cmd_views(old(out)@) + ok.cmds);
            }
            return Ok(());
        }
        let f_text: String = "text".to_owned();
        let f_title: String = "title".to_owned();
        let f_label: String = "label".to_owned();
        let f_value: String = "value".to_owned();
        let f_ph: String = "place_holder".to_owned();
        // outcome: None = unsupported; Some(None) = no-op; Some(Some(..)) = set
        let outcome: Option<Option<(WidgetFacet, PropName, bool)>> = {
            let node = self.arena.node_ref(k);
            match &node.facets {
                Some(f) => match &f.widget {
                    WidgetFacet::Text { .. } => {
                        if *field == f_text {
                            Some(
                                Some(
                                    (
                                        WidgetFacet::Text { content: value.clone() },
                                        PropName::Text,
                                        true,
                                    ),
                                ),
                            )
                        } else {
                            None
                        }
                    },
                    WidgetFacet::Window { .. } => {
                        if *field == f_title {
                            Some(
                                Some(
                                    (
                                        WidgetFacet::Window { title: value.clone() },
                                        PropName::Title,
                                        false,
                                    ),
                                ),
                            )
                        } else {
                            None
                        }
                    },
                    WidgetFacet::Button { .. } => {
                        if *field == f_label {
                            Some(
                                Some(
                                    (
                                        WidgetFacet::Button { label: value.clone() },
                                        PropName::Label,
                                        true,
                                    ),
                                ),
                            )
                        } else {
                            None
                        }
                    },
                    WidgetFacet::TextField { value: cur, placeholder } => {
                        if *field == f_value {
                            if *value == *cur {
                                Some(None)
                            } else {
                                Some(
                                    Some(
                                        (
                                            WidgetFacet::TextField {
                                                value: value.clone(),
                                                placeholder: placeholder.clone(),
                                            },
                                            PropName::Value,
                                            false,
                                        ),
                                    ),
                                )
                            }
                        } else if *field == f_ph {
                            Some(
                                Some(
                                    (
                                        WidgetFacet::TextField {
                                            value: cur.clone(),
                                            placeholder: value.clone(),
                                        },
                                        PropName::Placeholder,
                                        false,
                                    ),
                                ),
                            )
                        } else {
                            None
                        }
                    },
                    WidgetFacet::Container => None,
                },
                None => None,
            }
        };
        match outcome {
            None => Err(Error::UnsupportedAttribute),
            Some(None) => {
                proof {
                    let res = set_attribute_spec(old(self)@, Seq::empty(), root, field@, value@);
                    assert(cmd_views(out@) =~= cmd_views(old(out)@) + res->Ok_0.cmds);
                }
                Ok(())
            },
            Some(Some((w2, prop, size_affecting))) => {
                let ghost astep = self@.arena;
                self.arena.set_widget(k, w2);
                if size_affecting {
                    self.arena.set_dirty(k, true);
                    proof {
                        assert(self@.arena.slots =~= astep.slots.update(
                            k.index as int,
                            self@.arena.slots[k.index as int],
                        ));
                    }
                }
                let ghost outa = out@;
                out.push(NativeCommand::SetWidgetProp { key: k, prop, value: value.clone() });
                proof {
                    lemma_cmd_views_push(outa, out@.last());
                }
                if size_affecting {
                    let ghost outb = out@;
                    out.push(NativeCommand::MarkDirty { key: k });
                    proof {
                        lemma_cmd_views_push(outb, NativeCommand::MarkDirty { key: k });
                    }
                }
                proof {
                    let res = set_attribute_spec(old(self)@, Seq::empty(), root, field@, value@);
                    let ok = res->Ok_0;
                    assert(self@.arena =~= ok.r.arena);
                    assert(self@ =~= ok.r);
                    assert(cmd_views(out@) =~= cmd_views(old(out)@) + ok.cmds);
                }
                Ok(())
            },
        }
    }

    fn do_remove_attribute(
        &mut self,
        root: u64,
        name: &String,
        out: &mut Vec<NativeCommand>,
    ) -> (r: Result<(), Error>)
        ensures
            ({
                let res = remove_attribute_spec(old(self)@, Seq::empty(), root, name@);
                match res {
                    Ok(ok) => r is Ok && final(self)@ == ok.r && cmd_views(final(out)@)
                        == cmd_views(old(out)@) + ok.cmds,
                    Err(e) => r == Err::<(), Error>(e) && final(self)@ == old(self)@ && final(out)@ == old(out)@,
                }
            }),
    {
        let f_layout: String = "layout".to_owned();
        if *name == f_layout {
            let k = match self.resolve_live(root) {
                Ok(k) => k,
                Err(e) => {
                    return Err(e);
                },
            };
            let kind_opt = {
                let node = self.arena.node_ref(k);
                match &node.facets {
                    Some(f) => Some(f.widget.kind()),
                    None => None,
                }
            };
            let kind = match kind_opt {
                Some(kd) => kd,
                None => {
                    return Err(Error::UnsupportedAttribute);
                },
            };
            let style = initial_style_exec(kind);
            let cs = self.arena.children_vec(k);
            self.arena.set_style(k, style, false);
            let ghost outa = out@;
            out.push(NativeCommand::SetStyle { key: k, style });
            proof {
                lemma_cmd_views_push(outa, NativeCommand::SetStyle { key: k, style });
            }
            self.mark_children_dirty_exec(&cs, out);
            proof {
                let res = remove_attribute_spec(old(self)@, Seq::empty(), root, name@);
                let ok = res->Ok_0;
                assert(self@ =~= ok.r);
                assert(cmd_views(out@) =~= cmd_views(old(out)@) + ok.cmds);
            }
            Ok(())
        } else {
            let empty = String::new();
            let r = self.do_set_attribute(root, name, &empty, out);
            proof {
                assert(empty@ =~= Seq::<char>::empty());
            }
            r
        }
    }
}

impl Renderer {
    fn do_append_children(
        &mut self,
        many: u64,
        stack: &mut Vec<u64>,
        out: &mut Vec<NativeCommand>,
    ) -> (r: Result<(), Error>)
        ensures
            ({
                let res = append_children_spec(old(self)@, old(stack)@, many);
                match res {
                    Ok(ok) => r is Ok && final(self)@ == ok.r && final(stack)@ == ok.stack
                        && cmd_views(final(out)@) == cmd_views(old(out)@) + ok.cmds,
                    Err(e) => r == Err::<(), Error>(e) && final(self)@ == old(self)@ && final(stack)@ == old(stack)@ && final(out)@ == old(out)@,
                }
            }),
    {
        let slen = stack.len();
        if slen == 1 && many == 1 {
            let id = stack[0];
            let k = match self.resolve_live(id) {
                Ok(k) => k,
                Err(e) => {
                    return Err(e);
                },
            };
            let is_window = {
                let node = self.arena.node_ref(k);
                match &node.facets {
                    Some(f) => matches!(f.widget, WidgetFacet::Window { .. }),
                    None => false,
                }
            };
            if !is_window {
                return Err(Error::MalformedBatch);
            }
            stack.pop();
            let ghost outa = out@;
            out.push(NativeCommand::PresentRoot { key: k });
            proof {
                lemma_cmd_views_push(outa, NativeCommand::PresentRoot { key: k });
                assert(stack@ =~= Seq::<u64>::empty());
                let res = append_children_spec(old(self)@, old(stack)@, many);
                assert(cmd_views(out@) =~= cmd_views(old(out)@) + res->Ok_0.cmds);
            }
            Ok(())
        } else if many < slen as u64 {
            let n = many as usize;
            let target_id = stack[slen - n - 1];
            let tk = match self.resolve_live(target_id) {
                Ok(k) => k,
                Err(e) => {
                    return Err(e);
                },
            };
            let surface_ok = {
                let node = self.arena.node_ref(tk);
                match &node.facets {
                    Some(f) => {
                        let kd = f.widget.kind();
                        kd == NodeKind::Container || kd == NodeKind::Window
                    },
                    None => false,
                }
            };
            if !surface_ok {
                return Err(Error::MalformedBatch);
            }
            let keys = match self.validate_children_exec(stack, slen - n, tk, None, None) {
                Ok(ks) => ks,
                Err(e) => {
                    return Err(e);
                },
            };
            proof {
                lemma_validate_props(
                    self@,
                    stack@.subrange((slen - n) as int, slen as int),
                    0,
                    Seq::empty(),
                    tk,
                    None,
                    None,
                    keys@,
                );
            }
            stack.truncate(slen - n);
            self.attach_children_exec(tk, &keys, out);
            proof {
                let res = append_children_spec(old(self)@, old(stack)@, many);
                let ok = res->Ok_0;
                assert(stack@ =~= ok.stack);
                assert(self@ =~= ok.r);
            }
            Ok(())
        } else {
            Err(Error::MalformedBatch)
        }
    }

    fn do_remove_node(
        &mut self,
        root: u64,
        m: u64,
        stack: &mut Vec<u64>,
        out: &mut Vec<NativeCommand>,
    ) -> (r: Result<(), Error>)
        ensures
            ({
                let res = remove_node_spec(old(self)@, old(stack)@, root, m);
                match res {
                    Ok(ok) => r is Ok && final(self)@ == ok.r && final(stack)@ == ok.stack
                        && cmd_views(final(out)@) == cmd_views(old(out)@) + ok.cmds,
                    Err(e) => r == Err::<(), Error>(e) && final(self)@ == old(self)@ && final(stack)@ == old(stack)@ && final(out)@ == old(out)@,
                }
            }),
    {
        let rk = match self.resolve_live(root) {
            Ok(k) => k,
            Err(e) => {
                return Err(e);
            },
        };
        let slen = stack.len();
        if rk.generation == u64::MAX || m > slen as u64 {
            return Err(Error::MalformedBatch);
        }
        let n = m as usize;
        let (parent, rk_has_facets) = {
            let node = self.arena.node_ref(rk);
            (node.layout_parent, node.facets.is_some())
        };
        let mut parent_info: Option<(Key, usize)> = None;
        match parent {
            Some(pk) => {
                if pk == rk {
                    return Err(Error::MalformedBatch);
                }
                if !self.arena.is_live(pk) {
                    return Err(Error::MalformedBatch);
                }
                let pk_has = self.arena.node_ref(pk).facets.is_some();
                if !pk_has {
                    return Err(Error::MalformedBatch);
                }
                let pkids = self.arena.children_vec(pk);
                match first_index_in_vec(&pkids, rk) {
                    Some(idx) => {
                        proof {
                            lemma_first_index_bounds(pkids@, rk, 0, idx as int);
                        }
                        parent_info = Some((pk, idx));
                    },
                    None => {
                        return Err(Error::MalformedBatch);
                    },
                }
            },
            None => {},
        }
        let tk_check = match parent {
            Some(pk) => pk,
            None => rk,
        };
        let keys = match self.validate_children_exec(stack, slen - n, tk_check, Some(rk), Some(rk)) {
            Ok(ks) => ks,
            Err(e) => {
                return Err(e);
            },
        };
        proof {
            lemma_validate_props(
                self@,
                stack@.subrange((slen - n) as int, slen as int),
                0,
                Seq::empty(),
                tk_check,
                Some(rk),
                Some(rk),
                keys@,
            );
        }
        // detach from the parent's child list, planning the native detach
        match parent_info {
            Some((pk, idx)) => {
                let mut pkids = self.arena.children_vec(pk);
                proof {
                    assert(first_index_of(pkids@, rk, 0) is Some);
                    lemma_first_index_bounds(pkids@, rk, 0, first_index_of(pkids@, rk, 0)->0);
                }
                pkids.remove(idx);
                self.arena.set_children(pk, pkids);
                if rk_has_facets {
                    let ghost outa = out@;
                    out.push(NativeCommand::RemoveChild { parent: pk, child: rk });
                    proof {
                        lemma_cmd_views_push(outa, out@.last());
                    }
                    let ghost outb = out@;
                    out.push(NativeCommand::RemoveLayoutChild { parent: pk, child: rk });
                    proof {
                        lemma_cmd_views_push(outb, out@.last());
                    }
                }
            },
            None => {},
        }
        // orphan the node's own children and release it
        if rk_has_facets {
            let ghost outc = out@;
            out.push(NativeCommand::ReleaseLayoutNode { key: rk });
            proof {
                lemma_cmd_views_push(outc, NativeCommand::ReleaseLayoutNode { key: rk });
            }
            let cs = self.arena.children_vec(rk);
            self.clear_backlinks_exec(&cs);
        }
        let ghost a_pre_release = self@.arena;
        self.arena.release(rk);
        proof {
            assert(a_pre_release.live(rk));
            assert forall|j: int| 0 <= j < keys@.len() implies self@.arena.live(
                #[trigger] keys@[j],
            ) by {
                assert(a_pre_release.live(keys@[j]));
                if keys@[j].index == rk.index {
                    lemma_live_same_index(a_pre_release, keys@[j], rk);
                }
            }
            match parent_info {
                Some((pk2, _)) => {
                    assert(a_pre_release.live(pk2));
                    if pk2.index == rk.index {
                        lemma_live_same_index(a_pre_release, pk2, rk);
                    }
                    assert(self@.arena.live(pk2));
                    assert(self@.arena.node(pk2) == a_pre_release.node(pk2));
                },
                None => {},
            }
        }
        // attach the replacements where the node used to be
        match parent_info {
            Some((pk, _)) => {
                self.attach_children_exec(pk, &keys, out);
            },
            None => {},
        }
        stack.truncate(slen - n);
        proof {
            let res = remove_node_spec(old(self)@, old(stack)@, root, m);
            let ok = res->Ok_0;
            assert(stack@ =~= ok.stack);
            assert(self@ =~= ok.r);
            assert(cmd_views(out@) =~= cmd_views(old(out)@) + ok.cmds);
        }
        Ok(())
    }

    fn do_insert_siblings(
        &mut self,
        root: u64,
        n_raw: u64,
        after: bool,
        stack: &mut Vec<u64>,
        out: &mut Vec<NativeCommand>,
    ) -> (r: Result<(), Error>)
        ensures
            ({
                let res = insert_siblings_spec(old(self)@, old(stack)@, root, n_raw, after);
                match res {
                    Ok(ok) => r is Ok && final(self)@ == ok.r && final(stack)@ == ok.stack
                        && cmd_views(final(out)@) == cmd_views(old(out)@) + ok.cmds,
                    Err(e) => r == Err::<(), Error>(e) && final(self)@ == old(self)@ && final(stack)@ == old(stack)@ && final(out)@ == old(out)@,
                }
            }),
    {
        let rk = match self.resolve_live(root) {
            Ok(k) => k,
            Err(e) => {
                return Err(e);
            },
        };
        let slen = stack.len();
        if n_raw > slen as u64 {
            return Err(Error::MalformedBatch);
        }
        let n = n_raw as usize;
        let parent = self.arena.node_ref(rk).layout_parent;
        let pk = match parent {
            Some(pk) => pk,
            None => {
                return Err(Error::MalformedBatch);
            },
        };
        if pk == rk {
            return Err(Error::MalformedBatch);
        }
        if !self.arena.is_live(pk) {
            return Err(Error::MalformedBatch);
        }
        if !self.arena.node_ref(pk).facets.is_some() {
            return Err(Error::MalformedBatch);
        }
        let pkids = self.arena.children_vec(pk);
        let idx = match first_index_in_vec(&pkids, rk) {
            Some(i) => i,
            None => {
                return Err(Error::MalformedBatch);
            },
        };
        let keys = match self.validate_children_exec(stack, slen - n, pk, None, None) {
            Ok(ks) => ks,
            Err(e) => {
                return Err(e);
            },
        };
        proof {
            lemma_validate_props(
                self@,
                stack@.subrange((slen - n) as int, slen as int),
                0,
                Seq::empty(),
                pk,
                None,
                None,
                keys@,
            );
        }
        let pk_len = pkids.len();
        proof {
            lemma_first_index_bounds(pkids@, rk, 0, idx as int);
            assert(idx < pk_len);
        }
        let pos = if after {
            idx + 1
        } else {
            idx
        };
        let mut ncs: Vec<Key> = Vec::new();
        let mut j: usize = 0;
        while j < pos
            invariant
                0 <= j <= pos,
                pos <= pkids@.len(),
                ncs@ == pkids@.subrange(0, j as int),
            decreases pos - j,
        {
            ncs.push(pkids[j]);
            proof {
                assert(ncs@ =~= pkids@.subrange(0, j + 1 as int));
            }
            j = j + 1;
        }
        let kn = keys.len();
        let mut j2: usize = 0;
        while j2 < kn
            invariant
                0 <= j2 <= kn,
                kn == keys@.len(),
                pos <= pkids@.len(),
                ncs@ == pkids@.subrange(0, pos as int) + keys@.subrange(0, j2 as int),
            decreases kn - j2,
        {
            ncs.push(keys[j2]);
            proof {
                assert(ncs@ =~= pkids@.subrange(0, pos as int) + keys@.subrange(0, j2 + 1 as int));
            }
            j2 = j2 + 1;
        }
        let pn = pkids.len();
        let mut j3: usize = pos;
        while j3 < pn
            invariant
                pos <= j3 <= pn,
                pn == pkids@.len(),
                kn == keys@.len(),
                ncs@ == pkids@.subrange(0, pos as int) + keys@ + pkids@.subrange(
                    pos as int,
                    j3 as int,
                ),
            decreases pn - j3,
        {
            ncs.push(pkids[j3]);
            proof {
                assert(ncs@ =~= pkids@.subrange(0, pos as int) + keys@ + pkids@.subrange(
                    pos as int,
                    j3 + 1 as int,
                ));
            }
            j3 = j3 + 1;
        }
        proof {
            assert(keys@.subrange(0, kn as int) =~= keys@);
            assert(ncs@ =~= pkids@.subrange(0, pos as int) + keys@ + pkids@.subrange(
                pos as int,
                pn as int,
            ));
        }
        let ghost a1v = {
            let pn = self@.arena.node(pk);
            self@.arena.update_node(pk, pn.with_facets(Some(pn.facets->0.with_children(ncs@))))
        };
        self.arena.set_children(pk, ncs);
        proof {
            assert forall|j: int| 0 <= j < keys@.len() implies a1v.live(#[trigger] keys@[j]) by {
                lemma_update_preserves_live(
                    old(self)@.arena,
                    pk,
                    a1v.node(pk),
                    keys@[j],
                );
            }
            lemma_set_backlinks_preserves_other(a1v, pk, keys@, keys@.len() as int, pk);
        }
        self.set_backlinks_exec(pk, &keys);
        // widget attaches for the spliced nodes that have facets
        let ghost a2 = self@.arena;
        let ghost out_before_puts = out@;
        let mut j4: usize = 0;
        while j4 < kn
            invariant
                0 <= j4 <= kn,
                kn == keys@.len(),
                self@.arena == a2,
                self@.root_id == old(self)@.root_id,
                cmd_views(out@) == cmd_views(out_before_puts) + put_cmds_prefix(
                    a2,
                    pk,
                    keys@,
                    j4 as int,
                ),
            decreases kn - j4,
        {
            let c = keys[j4];
            if self.arena.is_live(c) {
                if self.arena.node_ref(c).facets.is_some() {
                    let ghost outa = out@;
                    out.push(NativeCommand::PutChild { parent: pk, child: c });
                    proof {
                        lemma_cmd_views_push(outa, NativeCommand::PutChild { parent: pk, child: c });
                    }
                }
            }
            j4 = j4 + 1;
            proof {
                assert(cmd_views(out@) =~= cmd_views(out_before_puts) + put_cmds_prefix(
                    a2,
                    pk,
                    keys@,
                    j4 as int,
                ));
            }
        }
        // one ordered re-sync of the parent's layout children
        let ncs2 = self.arena.children_vec(pk);
        let cn = ncs2.len();
        let mut lcs: Vec<Key> = Vec::new();
        let mut j5: usize = 0;
        while j5 < cn
            invariant
                0 <= j5 <= cn,
                cn == ncs2@.len(),
                self@.arena == a2,
                self@.root_id == old(self)@.root_id,
                lcs@ == layout_children_prefix(a2, ncs2@, j5 as int),
            decreases cn - j5,
        {
            let c = ncs2[j5];
            if self.arena.is_live(c) {
                if self.arena.node_ref(c).facets.is_some() {
                    lcs.push(c);
                }
            }
            j5 = j5 + 1;
        }
        let ghost outz = out@;
        out.push(NativeCommand::SyncLayoutChildren { parent: pk, children: lcs });
        proof {
            lemma_cmd_views_push(outz, out@.last());
        }
        stack.truncate(slen - n);
        proof {
            let res = insert_siblings_spec(old(self)@, old(stack)@, root, n_raw, after);
            let ok = res->Ok_0;
            assert(stack@ =~= ok.stack);
            assert(self@ =~= ok.r);
            assert(cmd_views(out@) =~= cmd_views(old(out)@) + ok.cmds);
        }
        Ok(())
    }
}

impl Renderer {
    /// Applies one operation; on error, nothing changed.
    #[verifier::rlimit(100)]
    fn apply_op(
        &mut self,
        op: &EditOp,
        stack: &mut Vec<u64>,
        out: &mut Vec<NativeCommand>,
    ) -> (r: Result<(), Error>)
        ensures
            ({
                let res = apply_op_spec(old(self)@, old(stack)@, *op);
                match res {
                    Ok(ok) => r is Ok && final(self)@ == ok.r && final(stack)@ == ok.stack
                        && cmd_views(final(out)@) == cmd_views(old(out)@) + ok.cmds,
                    Err(e) => r == Err::<(), Error>(e) && final(self)@ == old(self)@ && final(stack)@ == old(stack)@ && final(out)@ == old(out)@,
                }
            }),
    {
        match op {
            EditOp::PushRoot { root } => {
                match self.arena.resolve(*root) {
                    Ok(_) => {
                        stack.push(*root);
                        proof {
                            assert(cmd_views(out@) =~= cmd_views(out@) + Seq::<CommandV>::empty());
                        }
                        Ok(())
                    },
                    Err(e) => Err(e),
                }
            },
            EditOp::PopRoot => {
                if stack.len() == 0 {
                    Err(Error::MalformedBatch)
                } else {
                    stack.pop();
                    proof {
                        assert(stack@ =~= old(stack)@.drop_last());
                        assert(cmd_views(out@) =~= cmd_views(out@) + Seq::<CommandV>::empty());
                    }
                    Ok(())
                }
            },
            EditOp::AppendChildren { many } => self.do_append_children(*many, stack, out),
            EditOp::ReplaceWith { root, m } => self.do_remove_node(*root, *m, stack, out),
            EditOp::Remove { root } => self.do_remove_node(*root, 0, stack, out),
            EditOp::InsertAfter { root, n } => self.do_insert_siblings(*root, *n, true, stack, out),
            EditOp::InsertBefore { root, n } => self.do_insert_siblings(
                *root,
                *n,
                false,
                stack,
                out,
            ),
            EditOp::CreateElement { root, tag } => self.do_create_element(*root, tag, stack, out),
            EditOp::CreateElementNs { .. } => Err(Error::UnsupportedElementKind),
            EditOp::CreateTextNode { root, text } => self.do_create_text_node(
                *root,
                text,
                stack,
                out,
            ),
            EditOp::CreatePlaceholder { root } => {
                let r = self.do_create_placeholder(*root, stack);
                proof {
                    if r is Ok {
                        assert(cmd_views(out@) =~= cmd_views(out@) + Seq::<CommandV>::empty());
                    }
                }
                r
            },
            EditOp::NewEventListener { event_name, scope, root } => {
                let r = self.do_new_listener(*root, event_name, *scope, out);
                proof {
                    let with_stack = new_listener_spec(
                        old(self)@,
                        old(stack)@,
                        *root,
                        event_name@,
                        *scope,
                    );
                    let with_empty = new_listener_spec(
                        old(self)@,
                        Seq::empty(),
                        *root,
                        event_name@,
                        *scope,
                    );
                    match with_empty {
                        Ok(ok) => {
                            assert(with_stack is Ok);
                            assert(with_stack->Ok_0.r == ok.r);
                            assert(with_stack->Ok_0.cmds == ok.cmds);
                            assert(with_stack->Ok_0.stack == old(stack)@);
                        },
                        Err(e) => {
                            assert(with_stack == Err::<OpOk, Error>(e));
                        },
                    }
                }
                r
            },
            EditOp::RemoveEventListener { root, event } => {
                let r = self.do_remove_listener(*root, event, out);
                proof {
                    let with_stack = remove_listener_spec(old(self)@, old(stack)@, *root, event@);
                    let with_empty = remove_listener_spec(old(self)@, Seq::empty(), *root, event@);
                    match with_empty {
                        Ok(ok) => {
                            assert(with_stack is Ok);
                            assert(with_stack->Ok_0.r == ok.r);
                            assert(with_stack->Ok_0.cmds == ok.cmds);
                            assert(with_stack->Ok_0.stack == old(stack)@);
                        },
                        Err(e) => {
                            assert(with_stack == Err::<OpOk, Error>(e));
                        },
                    }
                }
                r
            },
            EditOp::SetText { root, text } => {
                let field: String = "text".to_owned();
                let r = self.do_set_attribute(*root, &field, text, out);
                proof {
                    let with_stack = set_attribute_spec(
                        old(self)@,
                        old(stack)@,
                        *root,
                        "text"@,
                        text@,
                    );
                    let with_empty = set_attribute_spec(
                        old(self)@,
                        Seq::empty(),
                        *root,
                        "text"@,
                        text@,
                    );
                    match with_empty {
                        Ok(ok) => {
                            assert(with_stack is Ok);
                            assert(with_stack->Ok_0.r == ok.r);
                            assert(with_stack->Ok_0.cmds == ok.cmds);
                            assert(with_stack->Ok_0.stack == old(stack)@);
                        },
                        Err(e) => {
                            assert(with_stack == Err::<OpOk, Error>(e));
                        },
                    }
                }
                r
            },
            EditOp::SetAttribute { root, field, value } => {
                let r = self.do_set_attribute(*root, field, value, out);
                proof {
                    let with_stack = set_attribute_spec(
                        old(self)@,
                        old(stack)@,
                        *root,
                        field@,
                        value@,
                    );
                    let with_empty = set_attribute_spec(
                        old(self)@,
                        Seq::empty(),
                        *root,
                        field@,
                        value@,
                    );
                    match with_empty {
                        Ok(ok) => {
                            assert(with_stack is Ok);
                            assert(with_stack->Ok_0.r == ok.r);
                            assert(with_stack->Ok_0.cmds == ok.cmds);
                            assert(with_stack->Ok_0.stack == old(stack)@);
                        },
                        Err(e) => {
                            assert(with_stack == Err::<OpOk, Error>(e));
                        },
                    }
                }
                r
            },
            EditOp::RemoveAttribute { root, name } => {
                let r = self.do_remove_attribute(*root, name, out);
                proof {
                    let with_stack = remove_attribute_spec(old(self)@, old(stack)@, *root, name@);
                    let with_empty = remove_attribute_spec(old(self)@, Seq::empty(), *root, name@);
                    match with_empty {
                        Ok(ok) => {
                            assert(with_stack is Ok);
                            assert(with_stack->Ok_0.r == ok.r);
                            assert(with_stack->Ok_0.cmds == ok.cmds);
                            assert(with_stack->Ok_0.stack == old(stack)@);
                        },
                        Err(e) => {
                            assert(with_stack == Err::<OpOk, Error>(e));
                        },
                    }
                }
                r
            },
        }
    }

    /// Applies an ordered edit batch. Operations that fail recoverably
    /// (an unknown kind, field or event, or a rejected style blob) are
    /// logged as warnings and skipped; a dangling reference or malformed
    /// batch is fatal: the batch stops there with the state it reached,
    /// and the render cycle must be restarted.
    #[verifier::loop_isolation(false)]
    #[verifier::rlimit(100)]
    pub fn apply(&mut self, ops: &Vec<EditOp>) -> (r: Result<ApplyOutcome, Error>)
        ensures
            ({
                let total = apply_ops_spec(old(self)@, Seq::empty(), ops@, 0);
                &&& final(self)@ == total.r
                &&& match r {
                    Ok(out) => total.fatal is None && cmd_views(out.commands@) == total.cmds
                        && out.warnings@ == total.warns,
                    Err(e) => total.fatal == Some(e),
                }
            }),
    {
        let mut stack: Vec<u64> = Vec::new();
        let mut cmds: Vec<NativeCommand> = Vec::new();
        let mut warns: Vec<Error> = Vec::new();
        let ghost total = apply_ops_spec(self@, Seq::empty(), ops@, 0);
        proof {
            assert(stack@ =~= Seq::<u64>::empty());
            assert(cmd_views(cmds@) =~= Seq::<CommandV>::empty());
            assert(total.cmds =~= cmd_views(cmds@) + total.cmds);
            assert(total.warns =~= warns@ + total.warns);
        }
        let n = ops.len();
        let mut i: usize = 0;
        while i < n
            invariant
                0 <= i <= n,
                ({
                    let rest = apply_ops_spec(self@, stack@, ops@, i as int);
                    &&& total.r == rest.r
                    &&& total.fatal == rest.fatal
                    &&& total.cmds == cmd_views(cmds@) + rest.cmds
                    &&& total.warns == warns@ + rest.warns
                }),
            decreases n - i,
        {
            let ghost pre_self = self@;
            let ghost pre_stack = stack@;
            let op = &ops[i];
            match self.apply_op(op, &mut stack, &mut cmds) {
                Ok(()) => {
                    proof {
                        let rest_new = apply_ops_spec(self@, stack@, ops@, i + 1);
                        assert(total.cmds =~= cmd_views(cmds@) + rest_new.cmds);
                    }
                },
                Err(e) => {
                    if e.is_recoverable() {
                        warns.push(e);
                        proof {
                            let rest_new = apply_ops_spec(self@, stack@, ops@, i + 1);
                            assert(total.warns =~= warns@ + rest_new.warns);
                        }
                    } else {
                        proof {
                            let rest = apply_ops_spec(self@, stack@, ops@, i as int);
                            assert(rest.fatal == Some(e));
                        }
                        return Err(e);
                    }
                },
            }
            i = i + 1;
        }
        proof {
            assert(total.cmds =~= cmd_views(cmds@));
            assert(total.warns =~= warns@);
        }
        Ok(ApplyOutcome { commands: cmds, warnings: warns })
    }
}

} // verus!
