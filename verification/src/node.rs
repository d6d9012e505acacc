//! Per-node data: the closed set of widget kinds, the widget facet (the
//! properties a native widget carries), the layout facet, and the listener
//! records, together with their spec-level views.

use vstd::prelude::*;
use crate::style::Style;

verus! {

/// Generational handle to a node slot ("internal key").
#[derive(Clone, Copy, Debug, PartialEq, Eq, Structural)]
pub struct Key {
    pub index: usize,
    pub generation: u64,
}

/// The closed set of widget kinds; fixed at creation.
#[derive(Clone, Copy, Debug, PartialEq, Eq, Structural)]
pub enum NodeKind {
    Container,
    Text,
    Button,
    TextField,
    Window,
}

/// Native input events the library understands.
#[derive(Clone, Copy, Debug, PartialEq, Eq, Hash, Structural)]
pub enum EventName {
    Press,
    TextChange,
}

/// One attached native listener: which event, and the component scope the
/// resulting records are addressed to.
#[derive(Clone, Copy, Debug, PartialEq, Eq, Structural)]
pub struct Listener {
    pub name: EventName,
    pub scope: u64,
}

/// The modelled state of a node's native widget: one variant per kind,
/// holding the properties the reconciler can set on it.
pub enum WidgetFacet {
    Container,
    Text { content: String },
    Button { label: String },
    Window { title: String },
    TextField { value: String, placeholder: String },
}

/// Spec view of [`WidgetFacet`]: strings become character sequences.
pub enum WidgetFacetV {
    Container,
    Text { content: Seq<char> },
    Button { label: Seq<char> },
    Window { title: Seq<char> },
    TextField { value: Seq<char>, placeholder: Seq<char> },
}

impl View for WidgetFacet {
    type V = WidgetFacetV;

    open spec fn view(&self) -> WidgetFacetV {
        match self {
            WidgetFacet::Container => WidgetFacetV::Container,
            WidgetFacet::Text { content } => WidgetFacetV::Text { content: content@ },
            WidgetFacet::Button { label } => WidgetFacetV::Button { label: label@ },
            WidgetFacet::Window { title } => WidgetFacetV::Window { title: title@ },
            WidgetFacet::TextField { value, placeholder } => WidgetFacetV::TextField {
                value: value@,
                placeholder: placeholder@,
            },
        }
    }
}

impl WidgetFacetV {
    pub open spec fn kind(self) -> NodeKind {
        match self {
            WidgetFacetV::Container => NodeKind::Container,
            WidgetFacetV::Text { .. } => NodeKind::Text,
            WidgetFacetV::Button { .. } => NodeKind::Button,
            WidgetFacetV::Window { .. } => NodeKind::Window,
            WidgetFacetV::TextField { .. } => NodeKind::TextField,
        }
    }
}

impl WidgetFacet {
    /// The kind this widget facet belongs to.
    pub fn kind(&self) -> (k: NodeKind)
        ensures
            k == self@.kind(),
    {
        match self {
            WidgetFacet::Container => NodeKind::Container,
            WidgetFacet::Text { .. } => NodeKind::Text,
            WidgetFacet::Button { .. } => NodeKind::Button,
            WidgetFacet::Window { .. } => NodeKind::Window,
            WidgetFacet::TextField { .. } => NodeKind::TextField,
        }
    }
}

/// Whether this kind owns an absolute-position surface that children are
/// placed into; only such kinds may have children.
pub open spec fn has_layout_surface(k: NodeKind) -> bool {
    k == NodeKind::Container || k == NodeKind::Window
}

/// The widget and layout facets of a fully constructed element.
pub struct Facets {
    pub widget: WidgetFacet,
    pub style: Style,
    pub dirty: bool,
    pub children: Vec<Key>,
    pub listeners: Vec<Listener>,
}

#[verifier::ext_equal]
pub struct FacetsV {
    pub widget: WidgetFacetV,
    pub style: Style,
    pub dirty: bool,
    pub children: Seq<Key>,
    pub listeners: Seq<Listener>,
}

impl View for Facets {
    type V = FacetsV;

    open spec fn view(&self) -> FacetsV {
        FacetsV {
            widget: self.widget@,
            style: self.style,
            dirty: self.dirty,
            children: self.children@,
            listeners: self.listeners@,
        }
    }
}

/// A live node: the external id bound to it, the backlink to the node whose
/// surface it was placed into, and its facets (`None` for a placeholder).
pub struct NodeData {
    pub id: u64,
    pub layout_parent: Option<Key>,
    pub facets: Option<Facets>,
}

#[verifier::ext_equal]
pub struct NodeV {
    pub id: u64,
    pub layout_parent: Option<Key>,
    pub facets: Option<FacetsV>,
}

impl View for NodeData {
    type V = NodeV;

    open spec fn view(&self) -> NodeV {
        NodeV {
            id: self.id,
            layout_parent: self.layout_parent,
            facets: match self.facets {
                Some(ref f) => Some(f@),
                None => None,
            },
        }
    }
}

impl NodeV {
    /// The kind of a node with facets.
    pub open spec fn kind(self) -> NodeKind
        recommends
            self.facets is Some,
    {
        self.facets->0.widget.kind()
    }

    /// The ordered child list (empty for placeholders and leaves).
    pub open spec fn children(self) -> Seq<Key> {
        match self.facets {
            Some(f) => f.children,
            None => Seq::empty(),
        }
    }
}

} // verus!
