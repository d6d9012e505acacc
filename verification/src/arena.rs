//! Generational storage of nodes, with the external-id binding table.
//!
//! A [`Key`] is live while its slot holds a node of the same generation.
//! Releasing a slot bumps its generation, so stale keys can never reach a
//! later occupant. Binding makes an external id resolve to a key; a released
//! key's binding is removed with it, so resolving a stale id fails.

use vstd::prelude::*;
use std::collections::HashMap;
use crate::node::{Facets, FacetsV, Key, Listener, NodeData, NodeV, WidgetFacet};
use crate::ops::Error;
use crate::style::Style;

verus! {

broadcast use vstd::std_specs::hash::group_hash_axioms;

/// One storage slot: its current generation and its occupant, if any.
pub struct Slot {
    pub generation: u64,
    pub node: Option<NodeData>,
}

#[verifier::ext_equal]
pub struct SlotV {
    pub generation: u64,
    pub node: Option<NodeV>,
}

impl View for Slot {
    type V = SlotV;

    open spec fn view(&self) -> SlotV {
        SlotV {
            generation: self.generation,
            node: match self.node {
                Some(ref n) => Some(n@),
                None => None,
            },
        }
    }
}

#[verifier::ext_equal]
pub struct ArenaV {
    pub slots: Seq<SlotV>,
    pub ids: Map<u64, Key>,
}

impl ArenaV {
    /// `k` currently designates an occupied slot.
    pub open spec fn live(self, k: Key) -> bool {
        &&& k.index < self.slots.len()
        &&& self.slots[k.index as int].generation == k.generation
        &&& self.slots[k.index as int].node is Some
    }

    /// The node `k` designates.
    pub open spec fn node(self, k: Key) -> NodeV
        recommends
            self.live(k),
    {
        self.slots[k.index as int].node->0
    }

    /// The arena with `k`'s node replaced.
    pub open spec fn update_node(self, k: Key, n: NodeV) -> ArenaV {
        ArenaV {
            slots: self.slots.update(
                k.index as int,
                SlotV { generation: k.generation, node: Some(n) },
            ),
            ids: self.ids,
        }
    }

    /// First reusable slot index at or after `i`: free, and with headroom
    /// to bump the generation once more.
    pub open spec fn first_free_from(self, i: int) -> Option<int>
        recommends
            0 <= i <= self.slots.len(),
        decreases self.slots.len() - i when 0 <= i <= self.slots.len()
    {
        if i >= self.slots.len() {
            None
        } else if self.slots[i].node is None && self.slots[i].generation < u64::MAX {
            Some(i)
        } else {
            self.first_free_from(i + 1)
        }
    }

    /// The key a fresh allocation receives.
    pub open spec fn alloc_key(self) -> Key {
        match self.first_free_from(0) {
            Some(i) => Key { index: i as usize, generation: self.slots[i].generation },
            None => Key { index: self.slots.len() as usize, generation: 0 },
        }
    }

    /// The arena after allocating a bare node (no binding, no facets).
    pub open spec fn alloc_spec(self) -> ArenaV {
        let k = self.alloc_key();
        let n = NodeV { id: 0, layout_parent: None, facets: None };
        match self.first_free_from(0) {
            Some(i) => self.update_node(k, n),
            None => ArenaV {
                slots: self.slots.push(SlotV { generation: 0, node: Some(n) }),
                ids: self.ids,
            },
        }
    }

    /// The arena after binding `id` to `k`.
    pub open spec fn bind_spec(self, id: u64, k: Key) -> ArenaV
        recommends
            self.live(k),
    {
        let a = self.update_node(k, self.node(k).with_id(id));
        ArenaV { slots: a.slots, ids: a.ids.insert(id, k) }
    }

    /// The arena after releasing `k`: the slot is freed with its generation
    /// bumped, and the binding that points at `k` (if any) is removed.
    pub open spec fn release_spec(self, k: Key) -> ArenaV
        recommends
            self.live(k),
            k.generation < u64::MAX,
    {
        let id = self.node(k).id;
        ArenaV {
            slots: self.slots.update(
                k.index as int,
                SlotV { generation: (k.generation + 1) as u64, node: None },
            ),
            ids: if self.ids.contains_key(id) && self.ids[id] == k {
                self.ids.remove(id)
            } else {
                self.ids
            },
        }
    }
}

impl NodeV {
    pub open spec fn with_id(self, id: u64) -> NodeV {
        NodeV { id, layout_parent: self.layout_parent, facets: self.facets }
    }

    pub open spec fn with_parent(self, p: Option<Key>) -> NodeV {
        NodeV { id: self.id, layout_parent: p, facets: self.facets }
    }

    pub open spec fn with_facets(self, f: Option<FacetsV>) -> NodeV {
        NodeV { id: self.id, layout_parent: self.layout_parent, facets: f }
    }
}

impl FacetsV {
    pub open spec fn with_children(self, cs: Seq<Key>) -> FacetsV {
        FacetsV {
            widget: self.widget,
            style: self.style,
            dirty: self.dirty,
            children: cs,
            listeners: self.listeners,
        }
    }

    pub open spec fn with_style(self, style: Style, dirty: bool) -> FacetsV {
        FacetsV {
            widget: self.widget,
            style,
            dirty,
            children: self.children,
            listeners: self.listeners,
        }
    }

    pub open spec fn with_dirty(self, dirty: bool) -> FacetsV {
        FacetsV {
            widget: self.widget,
            style: self.style,
            dirty,
            children: self.children,
            listeners: self.listeners,
        }
    }

    pub open spec fn with_widget(self, w: crate::node::WidgetFacetV) -> FacetsV {
        FacetsV {
            widget: w,
            style: self.style,
            dirty: self.dirty,
            children: self.children,
            listeners: self.listeners,
        }
    }

    pub open spec fn with_listeners(self, ls: Seq<Listener>) -> FacetsV {
        FacetsV {
            widget: self.widget,
            style: self.style,
            dirty: self.dirty,
            children: self.children,
            listeners: ls,
        }
    }
}

/// The node store and the external-id table.
pub struct Arena {
    slots: Vec<Slot>,
    ids: HashMap<u64, Key>,
}

impl View for Arena {
    type V = ArenaV;

    closed spec fn view(&self) -> ArenaV {
        ArenaV { slots: self.slots@.map_values(|s: Slot| s@), ids: self.ids@ }
    }
}

proof fn lemma_slots_update(slots: Seq<Slot>, i: int, s: Slot)
    requires
        0 <= i < slots.len(),
    ensures
        slots.update(i, s).map_values(|t: Slot| t@) =~= slots.map_values(|t: Slot| t@).update(
            i,
            s@,
        ),
{
}

proof fn lemma_slots_push(slots: Seq<Slot>, s: Slot)
    ensures
        slots.push(s).map_values(|t: Slot| t@) =~= slots.map_values(|t: Slot| t@).push(s@),
{
}

impl Arena {
    pub fn new() -> (a: Arena)
        ensures
            a@.slots == Seq::<SlotV>::empty(),
            a@.ids == Map::<u64, Key>::empty(),
    {
        let a = Arena { slots: Vec::new(), ids: HashMap::new() };
        proof {
            assert(a@.slots =~= Seq::<SlotV>::empty());
            assert(a@.ids =~= Map::<u64, Key>::empty());
        }
        a
    }

    /// How many slots the arena holds (live or free).
    pub fn slot_count(&self) -> (n: usize)
        ensures
            n == self@.slots.len(),
    {
        self.slots.len()
    }

    /// The live key over slot `i`, if it is occupied.
    pub fn key_at(&self, i: usize) -> (r: Option<Key>)
        requires
            i < self@.slots.len(),
        ensures
            match self@.slots[i as int].node {
                Some(_) => r == Some(Key { index: i, generation: self@.slots[i as int].generation })
                    && self@.live(r->0),
                None => r is None,
            },
    {
        match &self.slots[i].node {
            Some(_) => Some(Key { index: i, generation: self.slots[i].generation }),
            None => None,
        }
    }

    /// Whether `k` is live.
    pub fn is_live(&self, k: Key) -> (r: bool)
        ensures
            r == self@.live(k),
    {
        k.index < self.slots.len() && self.slots[k.index].generation == k.generation
            && self.slots[k.index].node.is_some()
    }

    /// Borrows the node `k` designates.
    pub fn node_ref(&self, k: Key) -> (n: &NodeData)
        requires
            self@.live(k),
        ensures
            n@ == self@.node(k),
    {
        match &self.slots[k.index].node {
            Some(n) => n,
            None => vstd::pervasive::unreached(),
        }
    }

    /// Creates a fresh, unbound, facet-less node and hands back its key.
    #[verifier::loop_isolation(false)]
    pub fn allocate(&mut self) -> (k: Key)
        ensures
            forall|x: Key| old(self)@.live(x) ==> #[trigger] final(self)@.live(x),
            k == old(self)@.alloc_key(),
            final(self)@ == old(self)@.alloc_spec(),
            !old(self)@.live(k),
            final(self)@.live(k),
    {
        let ghost v0 = self@;
        let n = self.slots.len();
        let mut i: usize = 0;
        while i < n
            invariant
                n == self.slots.len(),
                0 <= i <= n,
                self@ == v0,
                v0.first_free_from(0) == v0.first_free_from(i as int),
            decreases n - i,
        {
            let free_here = self.slots[i].node.is_none() && self.slots[i].generation < u64::MAX;
            if free_here {
                let g = self.slots[i].generation;
                let k = Key { index: i, generation: g };
                let ghost pre = self.slots@;
                let slot = &mut self.slots[i];
                slot.node = Some(NodeData { id: 0, layout_parent: None, facets: None });
                proof {
                    assert(v0.slots[i as int].node is None && v0.slots[i as int].generation
                        < u64::MAX);
                    assert(v0.first_free_from(i as int) == Some(i as int));
                    assert(k == v0.alloc_key());
                    lemma_slots_update(pre, i as int, self.slots@[i as int]);
                    assert(self@ =~= v0.alloc_spec());
                }
                return k;
            }
            i = i + 1;
        }
        let k = Key { index: n, generation: 0 };
        let ghost pre = self.slots@;
        self.slots.push(
            Slot { generation: 0, node: Some(NodeData { id: 0, layout_parent: None, facets: None }) },
        );
        proof {
            assert(v0.first_free_from(n as int) is None);
            lemma_slots_push(pre, self.slots@[n as int]);
            assert(self@ =~= v0.alloc_spec());
        }
        k
    }

    /// Binds external id `id` to the live key `k`.
    pub fn bind(&mut self, id: u64, k: Key)
        requires
            old(self)@.live(k),
        ensures
            forall|x: Key| old(self)@.live(x) ==> #[trigger] final(self)@.live(x),
            final(self)@ == old(self)@.bind_spec(id, k),
    {
        let ghost v0 = self@;
        let slot = &mut self.slots[k.index];
        match &mut slot.node {
            Some(n) => {
                n.id = id;
            },
            None => {
                proof {
                    assert(false);
                }
            },
        }
        self.ids.insert(id, k);
        proof {
            lemma_slots_update(old(self).slots@, k.index as int, self.slots@[k.index as int]);
            assert(self@ =~= v0.bind_spec(id, k));
        }
    }

    /// Looks an external id up; an unbound id is a dangling reference.
    pub fn resolve(&self, id: u64) -> (r: Result<Key, Error>)
        ensures
            self@.ids.contains_key(id) ==> r == Ok::<Key, Error>(self@.ids[id]),
            !self@.ids.contains_key(id) ==> r == Err::<Key, Error>(Error::DanglingReference),
    {
        match self.ids.get(&id) {
            Some(k) => Ok(*k),
            None => Err(Error::DanglingReference),
        }
    }

    /// Sets the layout-parent backlink.
    pub fn set_parent(&mut self, k: Key, p: Option<Key>)
        requires
            old(self)@.live(k),
        ensures
            forall|x: Key| old(self)@.live(x) ==> #[trigger] final(self)@.live(x),
            final(self)@ == old(self)@.update_node(k, old(self)@.node(k).with_parent(p)),
    {
        let ghost pre = self.slots@;
        let slot = &mut self.slots[k.index];
        match &mut slot.node {
            Some(n) => {
                n.layout_parent = p;
            },
            None => {
                proof {
                    assert(false);
                }
            },
        }
        proof {
            lemma_slots_update(pre, k.index as int, self.slots@[k.index as int]);
            assert(self@ =~= old(self)@.update_node(k, old(self)@.node(k).with_parent(p)));
        }
    }

    /// Installs (or replaces) the node's facets.
    pub fn set_facets(&mut self, k: Key, f: Facets)
        requires
            old(self)@.live(k),
        ensures
            forall|x: Key| old(self)@.live(x) ==> #[trigger] final(self)@.live(x),
            final(self)@ == old(self)@.update_node(k, old(self)@.node(k).with_facets(Some(f@))),
    {
        let ghost fv = f@;
        let ghost pre = self.slots@;
        let slot = &mut self.slots[k.index];
        match &mut slot.node {
            Some(n) => {
                n.facets = Some(f);
            },
            None => {
                proof {
                    assert(false);
                }
            },
        }
        proof {
            lemma_slots_update(pre, k.index as int, self.slots@[k.index as int]);
            assert(self@ =~= old(self)@.update_node(
                k,
                old(self)@.node(k).with_facets(Some(fv)),
            ));
        }
    }

    /// Appends `c` to the node's child list.
    pub fn push_child(&mut self, k: Key, c: Key)
        requires
            old(self)@.live(k),
            old(self)@.node(k).facets is Some,
        ensures
            forall|x: Key| old(self)@.live(x) ==> #[trigger] final(self)@.live(x),
            final(self)@ == old(self)@.update_node(
                k,
                old(self)@.node(k).with_facets(
                    Some(
                        old(self)@.node(k).facets->0.with_children(
                            old(self)@.node(k).facets->0.children.push(c),
                        ),
                    ),
                ),
            ),
    {
        let ghost pre = self.slots@;
        let slot = &mut self.slots[k.index];
        match &mut slot.node {
            Some(n) => match &mut n.facets {
                Some(f) => {
                    f.children.push(c);
                },
                None => {
                    proof {
                        assert(false);
                    }
                },
            },
            None => {
                proof {
                    assert(false);
                }
            },
        }
        proof {
            lemma_slots_update(pre, k.index as int, self.slots@[k.index as int]);
            assert(self@ =~= old(self)@.update_node(
                k,
                old(self)@.node(k).with_facets(
                    Some(
                        old(self)@.node(k).facets->0.with_children(
                            old(self)@.node(k).facets->0.children.push(c),
                        ),
                    ),
                ),
            ));
        }
    }

    /// Replaces the node's child list.
    pub fn set_children(&mut self, k: Key, cs: Vec<Key>)
        requires
            old(self)@.live(k),
            old(self)@.node(k).facets is Some,
        ensures
            forall|x: Key| old(self)@.live(x) ==> #[trigger] final(self)@.live(x),
            final(self)@ == old(self)@.update_node(
                k,
                old(self)@.node(k).with_facets(
                    Some(old(self)@.node(k).facets->0.with_children(cs@)),
                ),
            ),
    {
        let ghost csv = cs@;
        let ghost pre = self.slots@;
        let slot = &mut self.slots[k.index];
        match &mut slot.node {
            Some(n) => match &mut n.facets {
                Some(f) => {
                    f.children = cs;
                },
                None => {
                    proof {
                        assert(false);
                    }
                },
            },
            None => {
                proof {
                    assert(false);
                }
            },
        }
        proof {
            lemma_slots_update(pre, k.index as int, self.slots@[k.index as int]);
            assert(self@ =~= old(self)@.update_node(
                k,
                old(self)@.node(k).with_facets(
                    Some(old(self)@.node(k).facets->0.with_children(csv)),
                ),
            ));
        }
    }

    /// Sets the node's style and measurement flag together.
    pub fn set_style(&mut self, k: Key, style: Style, dirty: bool)
        requires
            old(self)@.live(k),
            old(self)@.node(k).facets is Some,
        ensures
            forall|x: Key| old(self)@.live(x) ==> #[trigger] final(self)@.live(x),
            final(self)@ == old(self)@.update_node(
                k,
                old(self)@.node(k).with_facets(
                    Some(old(self)@.node(k).facets->0.with_style(style, dirty)),
                ),
            ),
    {
        let ghost pre = self.slots@;
        let slot = &mut self.slots[k.index];
        match &mut slot.node {
            Some(n) => match &mut n.facets {
                Some(f) => {
                    f.style = style;
                    f.dirty = dirty;
                },
                None => {
                    proof {
                        assert(false);
                    }
                },
            },
            None => {
                proof {
                    assert(false);
                }
            },
        }
        proof {
            lemma_slots_update(pre, k.index as int, self.slots@[k.index as int]);
            assert(self@ =~= old(self)@.update_node(
                k,
                old(self)@.node(k).with_facets(
                    Some(old(self)@.node(k).facets->0.with_style(style, dirty)),
                ),
            ));
        }
    }

    /// Sets the node's measurement flag.
    pub fn set_dirty(&mut self, k: Key, dirty: bool)
        requires
            old(self)@.live(k),
            old(self)@.node(k).facets is Some,
        ensures
            forall|x: Key| old(self)@.live(x) ==> #[trigger] final(self)@.live(x),
            final(self)@ == old(self)@.update_node(
                k,
                old(self)@.node(k).with_facets(
                    Some(old(self)@.node(k).facets->0.with_dirty(dirty)),
                ),
            ),
    {
        let ghost pre = self.slots@;
        let slot = &mut self.slots[k.index];
        match &mut slot.node {
            Some(n) => match &mut n.facets {
                Some(f) => {
                    f.dirty = dirty;
                },
                None => {
                    proof {
                        assert(false);
                    }
                },
            },
            None => {
                proof {
                    assert(false);
                }
            },
        }
        proof {
            lemma_slots_update(pre, k.index as int, self.slots@[k.index as int]);
            assert(self@ =~= old(self)@.update_node(
                k,
                old(self)@.node(k).with_facets(
                    Some(old(self)@.node(k).facets->0.with_dirty(dirty)),
                ),
            ));
        }
    }

    /// Replaces the node's widget facet.
    pub fn set_widget(&mut self, k: Key, w: WidgetFacet)
        requires
            old(self)@.live(k),
            old(self)@.node(k).facets is Some,
        ensures
            forall|x: Key| old(self)@.live(x) ==> #[trigger] final(self)@.live(x),
            final(self)@ == old(self)@.update_node(
                k,
                old(self)@.node(k).with_facets(
                    Some(old(self)@.node(k).facets->0.with_widget(w@)),
                ),
            ),
    {
        let ghost wv = w@;
        let ghost pre = self.slots@;
        let slot = &mut self.slots[k.index];
        match &mut slot.node {
            Some(n) => match &mut n.facets {
                Some(f) => {
                    f.widget = w;
                },
                None => {
                    proof {
                        assert(false);
                    }
                },
            },
            None => {
                proof {
                    assert(false);
                }
            },
        }
        proof {
            lemma_slots_update(pre, k.index as int, self.slots@[k.index as int]);
            assert(self@ =~= old(self)@.update_node(
                k,
                old(self)@.node(k).with_facets(
                    Some(old(self)@.node(k).facets->0.with_widget(wv)),
                ),
            ));
        }
    }

    /// Appends a listener record.
    pub fn push_listener(&mut self, k: Key, l: Listener)
        requires
            old(self)@.live(k),
            old(self)@.node(k).facets is Some,
        ensures
            forall|x: Key| old(self)@.live(x) ==> #[trigger] final(self)@.live(x),
            final(self)@ == old(self)@.update_node(
                k,
                old(self)@.node(k).with_facets(
                    Some(
                        old(self)@.node(k).facets->0.with_listeners(
                            old(self)@.node(k).facets->0.listeners.push(l),
                        ),
                    ),
                ),
            ),
    {
        let ghost pre = self.slots@;
        let slot = &mut self.slots[k.index];
        match &mut slot.node {
            Some(n) => match &mut n.facets {
                Some(f) => {
                    f.listeners.push(l);
                },
                None => {
                    proof {
                        assert(false);
                    }
                },
            },
            None => {
                proof {
                    assert(false);
                }
            },
        }
        proof {
            lemma_slots_update(pre, k.index as int, self.slots@[k.index as int]);
            assert(self@ =~= old(self)@.update_node(
                k,
                old(self)@.node(k).with_facets(
                    Some(
                        old(self)@.node(k).facets->0.with_listeners(
                            old(self)@.node(k).facets->0.listeners.push(l),
                        ),
                    ),
                ),
            ));
        }
    }

    /// Replaces the node's listener list.
    pub fn set_listeners(&mut self, k: Key, ls: Vec<Listener>)
        requires
            old(self)@.live(k),
            old(self)@.node(k).facets is Some,
        ensures
            forall|x: Key| old(self)@.live(x) ==> #[trigger] final(self)@.live(x),
            final(self)@ == old(self)@.update_node(
                k,
                old(self)@.node(k).with_facets(
                    Some(old(self)@.node(k).facets->0.with_listeners(ls@)),
                ),
            ),
    {
        let ghost lsv = ls@;
        let ghost pre = self.slots@;
        let slot = &mut self.slots[k.index];
        match &mut slot.node {
            Some(n) => match &mut n.facets {
                Some(f) => {
                    f.listeners = ls;
                },
                None => {
                    proof {
                        assert(false);
                    }
                },
            },
            None => {
                proof {
                    assert(false);
                }
            },
        }
        proof {
            lemma_slots_update(pre, k.index as int, self.slots@[k.index as int]);
            assert(self@ =~= old(self)@.update_node(
                k,
                old(self)@.node(k).with_facets(
                    Some(old(self)@.node(k).facets->0.with_listeners(lsv)),
                ),
            ));
        }
    }

    /// Copies the node's child list.
    pub fn children_vec(&self, k: Key) -> (cs: Vec<Key>)
        requires
            self@.live(k),
            self@.node(k).facets is Some,
        ensures
            cs@ == self@.node(k).facets->0.children,
    {
        let node = self.node_ref(k);
        let children = match &node.facets {
            Some(f) => &f.children,
            None => vstd::pervasive::unreached(),
        };
        let mut cs: Vec<Key> = Vec::new();
        let n = children.len();
        let mut i: usize = 0;
        while i < n
            invariant
                n == children@.len(),
                0 <= i <= n,
                children@ == self@.node(k).facets->0.children,
                cs@ == children@.subrange(0, i as int),
            decreases n - i,
        {
            cs.push(children[i]);
            proof {
                assert(cs@ =~= children@.subrange(0, i + 1 as int));
            }
            i = i + 1;
        }
        proof {
            assert(cs@ =~= children@);
        }
        cs
    }

    /// Copies the node's listener list.
    pub fn listeners_vec(&self, k: Key) -> (ls: Vec<Listener>)
        requires
            self@.live(k),
            self@.node(k).facets is Some,
        ensures
            ls@ == self@.node(k).facets->0.listeners,
    {
        let node = self.node_ref(k);
        let listeners = match &node.facets {
            Some(f) => &f.listeners,
            None => vstd::pervasive::unreached(),
        };
        let mut ls: Vec<Listener> = Vec::new();
        let n = listeners.len();
        let mut i: usize = 0;
        while i < n
            invariant
                n == listeners@.len(),
                0 <= i <= n,
                listeners@ == self@.node(k).facets->0.listeners,
                ls@ == listeners@.subrange(0, i as int),
            decreases n - i,
        {
            ls.push(listeners[i]);
            proof {
                assert(ls@ =~= listeners@.subrange(0, i + 1 as int));
            }
            i = i + 1;
        }
        proof {
            assert(ls@ =~= listeners@);
        }
        ls
    }

    /// Frees `k`'s slot (bumping the generation) and removes the binding
    /// that still points at `k`, if one does.
    pub fn release(&mut self, k: Key)
        requires
            old(self)@.live(k),
            k.generation < u64::MAX,
        ensures
            final(self)@ == old(self)@.release_spec(k),
    {
        let id = self.node_ref(k).id;
        let remove_binding = match self.ids.get(&id) {
            Some(bound) => bound.index == k.index && bound.generation == k.generation,
            None => false,
        };
        if remove_binding {
            self.ids.remove(&id);
        }
        let g = k.generation;
        let slot = &mut self.slots[k.index];
        slot.generation = g + 1;
        slot.node = None;
        proof {
            lemma_slots_update(old(self).slots@, k.index as int, self.slots@[k.index as int]);
            assert(self@ =~= old(self)@.release_spec(k));
        }
    }
}

} // verus!
