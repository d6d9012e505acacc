//! The edit-operation stream consumed by the reconciler, the error
//! taxonomy, and the native commands the reconciler plans in response.

use vstd::prelude::*;
use crate::node::{EventName, Key, NodeKind};
use crate::style::Style;

verus! {

/// Why an edit could not be applied.
#[derive(Clone, Copy, Debug, PartialEq, Eq, Structural)]
pub enum Error {
    /// An external id was never bound, or its node was already released.
    DanglingReference,
    /// A `CreateElement` named a tag outside the closed kind set.
    UnsupportedElementKind,
    /// No semantic is defined for this `(kind, field)` pair.
    UnsupportedAttribute,
    /// No native source is defined for this `(kind, event)` pair.
    UnsupportedEvent,
    /// The layout capability rejected a style or a compute pass
    /// (here: a style blob that does not parse).
    LayoutEngineFailure,
    /// The edit batch itself is inconsistent: insufficient stack depth,
    /// re-binding a live id, or attaching an already attached node.
    MalformedBatch,
}

impl Error {
    /// Whether the batch may continue past this failure. A missing
    /// feature mapping is logged and skipped; a dangling reference or a
    /// malformed batch means the virtual tree and the retained tree have
    /// desynchronized, which is fatal for the render cycle. A rejected
    /// style blob spoils only the affected node's style.
    pub open spec fn is_recoverable_spec(self) -> bool {
        match self {
            Error::DanglingReference => false,
            Error::MalformedBatch => false,
            Error::UnsupportedElementKind => true,
            Error::UnsupportedAttribute => true,
            Error::UnsupportedEvent => true,
            Error::LayoutEngineFailure => true,
        }
    }

    pub fn is_recoverable(&self) -> (r: bool)
        ensures
            r == self.is_recoverable_spec(),
    {
        match self {
            Error::UnsupportedElementKind => true,
            Error::UnsupportedAttribute => true,
            Error::UnsupportedEvent => true,
            Error::LayoutEngineFailure => true,
            Error::DanglingReference => false,
            Error::MalformedBatch => false,
        }
    }
}

/// One instruction of the ordered edit stream, on plain values. `root` is
/// always an external id assigned by the diff engine.
pub enum EditOp {
    PushRoot { root: u64 },
    AppendChildren { many: u64 },
    ReplaceWith { root: u64, m: u64 },
    InsertAfter { root: u64, n: u64 },
    InsertBefore { root: u64, n: u64 },
    Remove { root: u64 },
    CreateTextNode { root: u64, text: String },
    CreateElement { root: u64, tag: String },
    CreateElementNs { root: u64, tag: String, ns: String },
    CreatePlaceholder { root: u64 },
    NewEventListener { event_name: String, scope: u64, root: u64 },
    RemoveEventListener { root: u64, event: String },
    SetText { root: u64, text: String },
    SetAttribute { root: u64, field: String, value: String },
    RemoveAttribute { root: u64, name: String },
    PopRoot,
}

/// A widget property the reconciler can set, per kind.
#[derive(Clone, Copy, Debug, PartialEq, Eq, Structural)]
pub enum PropName {
    Text,
    Title,
    Label,
    Value,
    Placeholder,
}

/// One native action planned by the reconciler; the toolkit adapter
/// performs these in order against the real widget and layout trees.
#[derive(Debug)]
pub enum NativeCommand {
    /// Construct the native widget (and its surface, for container kinds).
    CreateWidget { key: Key, kind: NodeKind },
    /// Create the node's entry in the layout tree with its initial style;
    /// leaf kinds get a measurement callback.
    CreateLayoutNode { key: Key, kind: NodeKind, style: Style },
    /// Place `child`'s widget into `parent`'s surface at the origin.
    PutChild { parent: Key, child: Key },
    /// Take `child`'s widget out of `parent`'s surface.
    RemoveChild { parent: Key, child: Key },
    /// Append `child` to `parent`'s layout children.
    AddLayoutChild { parent: Key, child: Key },
    /// Detach `child` from `parent`'s layout children.
    RemoveLayoutChild { parent: Key, child: Key },
    /// Replace `parent`'s layout children with exactly this ordered list.
    SyncLayoutChildren { parent: Key, children: Vec<Key> },
    /// Drop the node's entry in the layout tree.
    ReleaseLayoutNode { key: Key },
    /// Show the top-level window.
    PresentRoot { key: Key },
    /// Set a widget property to the given UTF-8 value.
    SetWidgetProp { key: Key, prop: PropName, value: String },
    /// Apply a decoded style to the node's layout entry.
    SetStyle { key: Key, style: Style },
    /// Invalidate the node's cached measurement.
    MarkDirty { key: Key },
    /// Attach a native callback that packages `(scope, target, name)` plus
    /// the payload into a user-event record.
    AttachListener { key: Key, kind: NodeKind, name: EventName, scope: u64, target: u64 },
    /// Detach such a callback.
    DetachListener { key: Key, name: EventName },
}

/// Spec view of [`NativeCommand`].
#[verifier::ext_equal]
pub enum CommandV {
    CreateWidget { key: Key, kind: NodeKind },
    CreateLayoutNode { key: Key, kind: NodeKind, style: Style },
    PutChild { parent: Key, child: Key },
    RemoveChild { parent: Key, child: Key },
    AddLayoutChild { parent: Key, child: Key },
    RemoveLayoutChild { parent: Key, child: Key },
    SyncLayoutChildren { parent: Key, children: Seq<Key> },
    ReleaseLayoutNode { key: Key },
    PresentRoot { key: Key },
    SetWidgetProp { key: Key, prop: PropName, value: Seq<char> },
    SetStyle { key: Key, style: Style },
    MarkDirty { key: Key },
    AttachListener { key: Key, kind: NodeKind, name: EventName, scope: u64, target: u64 },
    DetachListener { key: Key, name: EventName },
}

impl View for NativeCommand {
    type V = CommandV;

    open spec fn view(&self) -> CommandV {
        match self {
            NativeCommand::CreateWidget { key, kind } => CommandV::CreateWidget {
                key: *key,
                kind: *kind,
            },
            NativeCommand::CreateLayoutNode { key, kind, style } => CommandV::CreateLayoutNode {
                key: *key,
                kind: *kind,
                style: *style,
            },
            NativeCommand::PutChild { parent, child } => CommandV::PutChild {
                parent: *parent,
                child: *child,
            },
            NativeCommand::RemoveChild { parent, child } => CommandV::RemoveChild {
                parent: *parent,
                child: *child,
            },
            NativeCommand::AddLayoutChild { parent, child } => CommandV::AddLayoutChild {
                parent: *parent,
                child: *child,
            },
            NativeCommand::RemoveLayoutChild { parent, child } => CommandV::RemoveLayoutChild {
                parent: *parent,
                child: *child,
            },
            NativeCommand::SyncLayoutChildren { parent, children } => CommandV::SyncLayoutChildren {
                parent: *parent,
                children: children@,
            },
            NativeCommand::ReleaseLayoutNode { key } => CommandV::ReleaseLayoutNode { key: *key },
            NativeCommand::PresentRoot { key } => CommandV::PresentRoot { key: *key },
            NativeCommand::SetWidgetProp { key, prop, value } => CommandV::SetWidgetProp {
                key: *key,
                prop: *prop,
                value: value@,
            },
            NativeCommand::SetStyle { key, style } => CommandV::SetStyle {
                key: *key,
                style: *style,
            },
            NativeCommand::MarkDirty { key } => CommandV::MarkDirty { key: *key },
            NativeCommand::AttachListener { key, kind, name, scope, target } => (
            CommandV::AttachListener {
                key: *key,
                kind: *kind,
                name: *name,
                scope: *scope,
                target: *target,
            }),
            NativeCommand::DetachListener { key, name } => CommandV::DetachListener {
                key: *key,
                name: *name,
            },
        }
    }
}

/// The views of a planned command list.
pub open spec fn cmd_views(cs: Seq<NativeCommand>) -> Seq<CommandV> {
    cs.map_values(|c: NativeCommand| c@)
}

} // verus!
