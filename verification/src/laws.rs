//! The library's cross-cutting guarantees: well-formedness of the
//! retained state, and the laws relating tree building, removal and
//! styling to the states and commands the reconciler produces.

use vstd::prelude::*;
use crate::arena::ArenaV;
use crate::codec;
use crate::node::{FacetsV, Key, NodeKind, NodeV};
use crate::ops::{CommandV, EditOp, Error};
use crate::reconciler::{
    mark_children_dirty_prefix, remove_node_spec, set_attribute_spec, RendV,
};

verus! {

/// Slot `i` is occupied.
pub open spec fn occ(a: ArenaV, i: int) -> bool {
    0 <= i < a.slots.len() && a.slots[i].node is Some
}

/// The live key over slot `i`.
pub open spec fn key_of(a: ArenaV, i: int) -> Key {
    Key { index: i as usize, generation: a.slots[i].generation }
}

/// Every binding points at a live node that carries the bound id back.
pub open spec fn wf_ids(a: ArenaV) -> bool {
    forall|id: u64|
        #[trigger] a.ids.contains_key(id) ==> a.live(a.ids[id]) && a.node(a.ids[id]).id == id
}

/// Every occupied slot has generation headroom and is bound by its own
/// id: together with [`wf_ids`], ids and live keys are in bijection.
pub open spec fn wf_slots(a: ArenaV) -> bool {
    forall|i: int|
        #[trigger] occ(a, i) ==> a.slots[i].generation < u64::MAX && a.ids.contains_key(
            a.slots[i].node->0.id,
        ) && a.ids[a.slots[i].node->0.id] == key_of(a, i)
}

/// Child `j` of the node at slot `i` is live and points back at it.
pub open spec fn child_ok(a: ArenaV, i: int, j: int) -> bool {
    let n = a.slots[i].node->0;
    let c = n.facets->0.children[j];
    a.live(c) && a.node(c).layout_parent == Some(key_of(a, i))
}

pub open spec fn wf_children(a: ArenaV) -> bool {
    forall|i: int, j: int|
        occ(a, i) && a.slots[i].node->0.facets is Some && 0 <= j
            < a.slots[i].node->0.facets->0.children.len() ==> #[trigger] child_ok(a, i, j)
}

/// A backlink points at a live node with facets whose child list holds
/// this node.
pub open spec fn parent_ok(a: ArenaV, i: int) -> bool {
    match a.slots[i].node->0.layout_parent {
        Some(p) => a.live(p) && a.node(p).facets is Some && a.node(p).facets->0.children.contains(
            key_of(a, i),
        ),
        None => true,
    }
}

pub open spec fn wf_parents(a: ArenaV) -> bool {
    forall|i: int| #[trigger] occ(a, i) ==> parent_ok(a, i)
}

/// No child list repeats a key.
pub open spec fn children_distinct(a: ArenaV, i: int) -> bool {
    let n = a.slots[i].node->0;
    forall|j1: int, j2: int|
        0 <= j1 < j2 < n.facets->0.children.len() ==> #[trigger] n.facets->0.children[j1]
            != #[trigger] n.facets->0.children[j2]
}

pub open spec fn wf_dups(a: ArenaV) -> bool {
    forall|i: int| #[trigger] occ(a, i) && a.slots[i].node->0.facets is Some ==> children_distinct(
        a,
        i,
    )
}

/// Well-formedness of the retained state: ids and live keys are in
/// bijection, and the child lists and layout-parent backlinks describe
/// one consistent parent/child relation with no duplicate attachment.
pub open spec fn wf(v: RendV) -> bool {
    &&& v.arena.slots.len() <= usize::MAX
    &&& wf_ids(v.arena)
    &&& wf_slots(v.arena)
    &&& wf_children(v.arena)
    &&& wf_parents(v.arena)
    &&& wf_dups(v.arena)
}

/// A fresh renderer is well-formed.
pub proof fn lemma_wf_empty(v: RendV)
    requires
        v.arena.slots == Seq::<crate::arena::SlotV>::empty(),
        v.arena.ids == Map::<u64, Key>::empty(),
    ensures
        wf(v),
{
}

/// Marking measurements dirty changes no node's identity, style, widget,
/// children, backlink or binding — only the flags.
pub proof fn lemma_mark_preserves(a0: ArenaV, cs: Seq<Key>, i: int, x: Key)
    requires
        0 <= i <= cs.len(),
        a0.live(x),
    ensures
        ({
            let a1 = mark_children_dirty_prefix(a0, cs, i).0;
            &&& a1.ids == a0.ids
            &&& a1.slots.len() == a0.slots.len()
            &&& a1.live(x)
            &&& a1.node(x).id == a0.node(x).id
            &&& a1.node(x).layout_parent == a0.node(x).layout_parent
            &&& (a1.node(x).facets is Some <==> a0.node(x).facets is Some)
            &&& (a0.node(x).facets is Some ==> a1.node(x).facets->0.style == a0.node(
                x,
            ).facets->0.style && a1.node(x).facets->0.widget == a0.node(x).facets->0.widget
                && a1.node(x).facets->0.children == a0.node(x).facets->0.children)
        }),
    decreases i,
{
    if i > 0 {
        lemma_mark_preserves(a0, cs, i - 1, x);
    }
}

/// Of two successive style writes to the same node, the second wins: the
/// node ends up carrying exactly the style the second blob decodes to,
/// and each write plans the matching style application, in order. (The
/// node's own measurement is left clean by a style write; its children
/// are the ones re-measured.)
pub proof fn lemma_second_style_blob_wins(
    v: RendV,
    stack: Seq<u64>,
    id: u64,
    blob_a: Seq<char>,
    blob_b: Seq<char>,
)
    requires
        set_attribute_spec(v, stack, id, "layout"@, blob_a) is Ok,
        codec::decode_style_spec(blob_b) is Some,
    ensures
        ({
            let k = v.resolved(id)->0;
            let v1 = set_attribute_spec(v, stack, id, "layout"@, blob_a)->Ok_0.r;
            let res2 = set_attribute_spec(v1, stack, id, "layout"@, blob_b);
            &&& res2 is Ok
            &&& res2->Ok_0.r.arena.live(k)
            &&& res2->Ok_0.r.arena.node(k).facets->0.style == codec::decode_style_spec(blob_b)->0
            &&& res2->Ok_0.cmds[0] == CommandV::SetStyle {
                key: k,
                style: codec::decode_style_spec(blob_b)->0,
            }
        }),
{
    let k = v.resolved(id)->0;
    let node = v.arena.node(k);
    let f = node.facets->0;
    let sa = codec::decode_style_spec(blob_a)->0;
    let a1 = v.arena.update_node(k, node.with_facets(Some(f.with_style(sa, false))));
    assert(a1.live(k));
    lemma_mark_preserves(a1, f.children, f.children.len() as int, k);
    let v1 = set_attribute_spec(v, stack, id, "layout"@, blob_a)->Ok_0.r;
    assert(v1.arena.ids == v.arena.ids);
    assert(v1.resolved(id) == Some(k));
    assert(v1.arena.live(k));
    assert(v1.arena.node(k).facets is Some);
    let sb = codec::decode_style_spec(blob_b)->0;
    let node1 = v1.arena.node(k);
    let f1 = node1.facets->0;
    let a2 = v1.arena.update_node(k, node1.with_facets(Some(f1.with_style(sb, false))));
    assert(a2.live(k));
    lemma_mark_preserves(a2, f1.children, f1.children.len() as int, k);
}


/// Removing the unique occurrence from a duplicate-free list removes all
/// occurrences.
proof fn lemma_remove_first_distinct(s: Seq<Key>, x: Key, j: int)
    requires
        crate::reconciler::first_index_of(s, x, 0) == Some(j),
        forall|j1: int, j2: int| 0 <= j1 < j2 < s.len() ==> #[trigger] s[j1] != #[trigger] s[j2],
    ensures
        !crate::reconciler::remove_first(s, x).contains(x),
{
    lemma_first_index_props(s, x, 0, j);
    let r = s.remove(j);
    assert forall|l: int| 0 <= l < r.len() implies r[l] != x by {
        if l < j {
            assert(r[l] == s[l]);
            if s[l] == x {
                assert(s[l] == s[j]);
            }
        } else {
            assert(r[l] == s[l + 1]);
            if s[l + 1] == x {
                assert(s[j] == s[l + 1]);
            }
        }
    }
    if r.contains(x) {
        let w = choose|w: int| 0 <= w < r.len() && r[w] == x;
        assert(r[w] != x);
    }
}

/// A found first index is in bounds and hits the needle.
proof fn lemma_first_index_props(s: Seq<Key>, x: Key, i: int, j: int)
    requires
        0 <= i <= s.len(),
        crate::reconciler::first_index_of(s, x, i) == Some(j),
    ensures
        i <= j < s.len(),
        s[j] == x,
    decreases s.len() - i,
{
    if i < s.len() && !(s[i] == x) {
        lemma_first_index_props(s, x, i + 1, j);
    }
}

/// After replacing a leaf with nothing, no trace of it remains reachable:
/// its key is dead, no external id resolves to it, no child list holds
/// it, and no layout-parent backlink points at it.
pub proof fn lemma_replace_leaf_erases_it(v: RendV, stack: Seq<u64>, id: u64)
    requires
        wf(v),
        remove_node_spec(v, stack, id, 0) is Ok,
        v.resolved(id) is Some,
        v.arena.node(v.resolved(id)->0).children() == Seq::<Key>::empty(),
    ensures
        ({
            let rk = v.resolved(id)->0;
            let a2 = remove_node_spec(v, stack, id, 0)->Ok_0.r.arena;
            &&& !a2.live(rk)
            &&& forall|other: u64| #[trigger] a2.ids.contains_key(other) ==> a2.ids[other] != rk
            &&& forall|i: int, j: int|
                occ(a2, i) && a2.slots[i].node->0.facets is Some && 0 <= j
                    < a2.slots[i].node->0.facets->0.children.len()
                    ==> #[trigger] a2.slots[i].node->0.facets->0.children[j] != rk
            &&& forall|i: int|
                #[trigger] occ(a2, i) ==> a2.slots[i].node->0.layout_parent != Some(rk)
        }),
{
    let a = v.arena;
    let rk = v.resolved(id)->0;
    let node = a.node(rk);
    assert(occ(a, rk.index as int));
    let a1 = match node.layout_parent {
        Some(pk) => {
            let pn = a.node(pk);
            a.update_node(
                pk,
                pn.with_facets(
                    Some(
                        pn.facets->0.with_children(
                            crate::reconciler::remove_first(pn.facets->0.children, rk),
                        ),
                    ),
                ),
            )
        },
        None => a,
    };
    let a2 = a1.release_spec(rk);
    let res = remove_node_spec(v, stack, id, 0)->Ok_0;
    assert(stack.subrange(stack.len() - 0, stack.len() as int) =~= Seq::<u64>::empty());
    assert(res.r.arena == a2);

    // the released key is dead and unbound
    assert(!a2.live(rk));
    assert forall|other: u64| #[trigger] a2.ids.contains_key(other) implies a2.ids[other] != rk by {
        if a2.ids[other] == rk {
            assert(a.ids.contains_key(other) && a.ids[other] == rk);
            assert(a.node(rk).id == other);
            assert(occ(a, rk.index as int));
            assert(a.ids.contains_key(node.id));
            assert(!a2.ids.contains_key(node.id));
        }
    };

    // no child list still holds it
    assert forall|i: int, j: int|
        occ(a2, i) && a2.slots[i].node->0.facets is Some && 0 <= j
            < a2.slots[i].node->0.facets->0.children.len() implies (#[trigger] a2.slots[i].node->0.facets->0.children[j]) != rk by {
        let c = a2.slots[i].node->0.facets->0.children[j];
        if c == rk {
            assert(i != rk.index as int);
            match node.layout_parent {
                Some(pk) => {
                    if i == pk.index as int {
                        assert(occ(a, pk.index as int));
                        assert(children_distinct(a, pk.index as int));
                        lemma_remove_first_distinct(
                            a.node(pk).facets->0.children,
                            rk,
                            crate::reconciler::first_index_of(
                                a.node(pk).facets->0.children,
                                rk,
                                0,
                            )->0,
                        );
                        assert(a2.slots[i].node->0.facets->0.children.contains(rk));
                        assert(false);
                    } else {
                        assert(a2.slots[i] == a.slots[i]);
                        assert(occ(a, i));
                        assert(child_ok(a, i, j));
                        assert(a.node(rk).layout_parent == Some(key_of(a, i)));
                        assert(Some(key_of(a, i)) == Some(pk));
                        assert(key_of(a, i).index == pk.index);
                        assert(key_of(a, i).index == i as usize);
                        assert(i == pk.index as int);
                    }
                },
                None => {
                    assert(a2.slots[i] == a.slots[i]);
                    assert(occ(a, i));
                    assert(child_ok(a, i, j));
                    assert(a.node(rk).layout_parent == Some(key_of(a, i)));
                },
            }
        }
    };

    // no backlink still points at it
    assert forall|i: int| #[trigger] occ(a2, i) implies a2.slots[i].node->0.layout_parent != Some(
        rk,
    ) by {
        if a2.slots[i].node->0.layout_parent == Some(rk) {
            assert(i != rk.index as int);
            assert(occ(a, i));
            assert(a.slots[i].node->0.layout_parent == Some(rk));
            assert(parent_ok(a, i));
            assert(a.node(rk).facets->0.children.contains(key_of(a, i)));
            assert(node.children() == Seq::<Key>::empty());
        }
    };
}


/// The id-level machine that a sequence of creates, pushes and appends
/// implies, independent of keys, commands and facets: which kinds exist,
/// which ids hang under which, which are attached, and the operand stack.
pub struct BuildState {
    pub kinds: Map<u64, NodeKind>,
    pub childs: Map<u64, Seq<u64>>,
    pub attached: Set<u64>,
    pub stack: Seq<u64>,
}

pub open spec fn build_init() -> BuildState {
    BuildState {
        kinds: Map::empty(),
        childs: Map::empty(),
        attached: Set::empty(),
        stack: Seq::empty(),
    }
}

/// One machine step; `None` where the op sequence is not a well-formed
/// build (over-deep pops, unknown ids or tags, re-attachment, repeats).
pub open spec fn build_op(s: BuildState, op: EditOp) -> Option<BuildState> {
    match op {
        EditOp::CreateElement { root, tag } => {
            if s.kinds.contains_key(root) {
                None
            } else {
                match crate::reconciler::kind_of_tag(tag@) {
                    None => None,
                    Some(kd) => Some(
                        BuildState {
                            kinds: s.kinds.insert(root, kd),
                            childs: s.childs.insert(root, Seq::empty()),
                            attached: s.attached,
                            stack: s.stack.push(root),
                        },
                    ),
                }
            }
        },
        EditOp::PushRoot { root } => {
            if s.kinds.contains_key(root) {
                Some(
                    BuildState {
                        kinds: s.kinds,
                        childs: s.childs,
                        attached: s.attached,
                        stack: s.stack.push(root),
                    },
                )
            } else {
                None
            }
        },
        EditOp::AppendChildren { many } => {
            let n = many as int;
            if s.stack.len() == 1 && n == 1 {
                if s.kinds.contains_key(s.stack[0]) && s.kinds[s.stack[0]] == NodeKind::Window {
                    Some(
                        BuildState {
                            kinds: s.kinds,
                            childs: s.childs,
                            attached: s.attached,
                            stack: Seq::empty(),
                        },
                    )
                } else {
                    None
                }
            } else if n < s.stack.len() {
                let target = s.stack[s.stack.len() - n - 1];
                let kids = s.stack.subrange(s.stack.len() - n, s.stack.len() as int);
                let ok = {
                    &&& s.kinds.contains_key(target)
                    &&& crate::node::has_layout_surface(s.kinds[target])
                    &&& forall|j: int|
                        0 <= j < kids.len() ==> s.kinds.contains_key(#[trigger] kids[j])
                            && !s.attached.contains(kids[j]) && kids[j] != target
                    &&& forall|j1: int, j2: int|
                        0 <= j1 < j2 < kids.len() ==> #[trigger] kids[j1] != #[trigger] kids[j2]
                };
                if ok {
                    Some(
                        BuildState {
                            kinds: s.kinds,
                            childs: s.childs.insert(target, s.childs[target] + kids),
                            attached: s.attached.union(kids.to_set()),
                            stack: s.stack.subrange(0, s.stack.len() - n),
                        },
                    )
                } else {
                    None
                }
            } else {
                None
            }
        },
        _ => None,
    }
}

pub open spec fn build_fold(s: BuildState, ops: Seq<EditOp>, i: int) -> Option<BuildState>
    decreases ops.len() - i when 0 <= i <= ops.len()
{
    if i >= ops.len() {
        Some(s)
    } else {
        match build_op(s, ops[i]) {
            None => None,
            Some(s2) => build_fold(s2, ops, i + 1),
        }
    }
}

/// The external ids of a key list.
pub open spec fn ids_of(a: ArenaV, keys: Seq<Key>) -> Seq<u64> {
    keys.map_values(|c: Key| a.node(c).id)
}

/// The retained state realizes the machine state: same stack, ids in
/// bijection with the machine's nodes, matching kinds, child lists that
/// spell the machine's id lists, and a backlink exactly on attached ids.
pub open spec fn mirrors(v: RendV, stack: Seq<u64>, s: BuildState) -> bool {
    &&& wf(v)
    &&& stack == s.stack
    &&& v.arena.ids.dom() == s.kinds.dom()
    &&& s.childs.dom() == s.kinds.dom()
    &&& s.attached.subset_of(s.kinds.dom())
    &&& forall|id: u64|
        #[trigger] s.kinds.contains_key(id) ==> {
            let k = v.arena.ids[id];
            let n = v.arena.node(k);
            &&& n.facets is Some
            &&& n.facets->0.widget.kind() == s.kinds[id]
            &&& ids_of(v.arena, n.facets->0.children) == s.childs[id]
            &&& (n.layout_parent is Some <==> s.attached.contains(id))
        }
}

/// The empty renderer realizes the empty machine.
pub proof fn lemma_mirrors_empty(v: RendV)
    requires
        v.arena.slots == Seq::<crate::arena::SlotV>::empty(),
        v.arena.ids == Map::<u64, Key>::empty(),
    ensures
        mirrors(v, Seq::empty(), build_init()),
{
    assert(v.arena.ids.dom() =~= build_init().kinds.dom());
    assert(build_init().childs.dom() =~= build_init().kinds.dom());
}

/// Validation succeeds on a list of bound, unattached, distinct ids and
/// returns exactly their keys, in order.
proof fn lemma_validate_of_ids(v: RendV, kids: Seq<u64>, j: int, seen: Seq<Key>, tk: Key)
    requires
        wf(v),
        0 <= j <= kids.len(),
        forall|l: int|
            j <= l < kids.len() ==> v.arena.ids.contains_key(#[trigger] kids[l]) && v.arena.node(
                v.arena.ids[kids[l]],
            ).layout_parent is None && v.arena.ids[kids[l]] != tk,
        forall|l1: int, l2: int|
            j <= l1 < l2 < kids.len() ==> #[trigger] kids[l1] != #[trigger] kids[l2],
        forall|l: int| j <= l < kids.len() ==> !seen.contains(v.arena.ids[#[trigger] kids[l]]),
    ensures
        crate::reconciler::validate_children_from(v, kids, j, seen, tk, None, None) == Ok::<
            Seq<Key>,
            Error,
        >(seen + kids.subrange(j, kids.len() as int).map_values(|id: u64| v.arena.ids[id])),
    decreases kids.len() - j,
{
    if j >= kids.len() {
        assert(seen + kids.subrange(j, kids.len() as int).map_values(
            |id: u64| v.arena.ids[id],
        ) =~= seen);
    } else {
        let k = v.arena.ids[kids[j]];
        assert(v.arena.ids.contains_key(kids[j]));
        assert(v.arena.live(k));
        assert forall|l: int| j + 1 <= l < kids.len() implies !seen.push(k).contains(
            v.arena.ids[#[trigger] kids[l]],
        ) by {
            let kl = v.arena.ids[kids[l]];
            if kl == k {
                assert(v.arena.node(kl).id == kids[l]);
                assert(v.arena.node(k).id == kids[j]);
            }
            assert(!seen.contains(kl));
            assert forall|w: int| 0 <= w < seen.push(k).len() implies seen.push(k)[w] != kl by {
                if w < seen.len() {
                    assert(seen[w] != kl);
                }
            }
            if seen.push(k).contains(kl) {
                let w = choose|w: int| 0 <= w < seen.push(k).len() && seen.push(k)[w] == kl;
                assert(false);
            }
        }
        lemma_validate_of_ids(v, kids, j + 1, seen.push(k), tk);
        assert(seen.push(k) + kids.subrange(j + 1, kids.len() as int).map_values(
            |id: u64| v.arena.ids[id],
        ) =~= seen + kids.subrange(j, kids.len() as int).map_values(|id: u64| v.arena.ids[id]));
    }
}

/// What attaching a validated key list does, node by node: the target's
/// child list grows by exactly those keys, each key's backlink now names
/// the target, and every other node (and every binding) is untouched.
#[verifier::rlimit(100)]
proof fn lemma_attach_effect(a: ArenaV, tk: Key, keys: Seq<Key>, i: int)
    requires
        0 <= i <= keys.len(),
        a.live(tk),
        a.node(tk).facets is Some,
        forall|j: int| 0 <= j < keys.len() ==> a.live(#[trigger] keys[j]) && keys[j] != tk,
        forall|j1: int, j2: int|
            0 <= j1 < j2 < keys.len() ==> #[trigger] keys[j1] != #[trigger] keys[j2],
    ensures
        crate::reconciler::attach_children_prefix(a, tk, keys, i).0.ids == a.ids,
        crate::reconciler::attach_children_prefix(a, tk, keys, i).0.slots.len() == a.slots.len(),
        forall|idx: int|
            0 <= idx < a.slots.len() ==> crate::reconciler::attach_children_prefix(
                a,
                tk,
                keys,
                i,
            ).0.slots[idx].generation == a.slots[idx].generation
                && ((#[trigger] crate::reconciler::attach_children_prefix(
                a,
                tk,
                keys,
                i,
            ).0.slots[idx]).node is Some <==> a.slots[idx].node is Some),
        crate::reconciler::attach_children_prefix(a, tk, keys, i).0.live(tk),
        crate::reconciler::attach_children_prefix(a, tk, keys, i).0.node(tk) == a.node(
            tk,
        ).with_facets(
            Some(
                a.node(tk).facets->0.with_children(
                    a.node(tk).facets->0.children + keys.subrange(0, i),
                ),
            ),
        ),
        forall|j: int|
            0 <= j < i ==> crate::reconciler::attach_children_prefix(a, tk, keys, i).0.live(
                #[trigger] keys[j],
            ) && crate::reconciler::attach_children_prefix(a, tk, keys, i).0.node(keys[j])
                == a.node(keys[j]).with_parent(Some(tk)),
    decreases i,
{
    if i > 0 {
        lemma_attach_effect(a, tk, keys, i - 1);
        let a0 = crate::reconciler::attach_children_prefix(a, tk, keys, i - 1).0;
        let k = keys[i - 1];
        assert(a0.live(k)) by {
            if !keys.subrange(0, i - 1).contains(k) {
            } else {
                let w = choose|w: int|
                    0 <= w < i - 1 && #[trigger] keys.subrange(0, i - 1)[w] == k;
                assert(keys[w] == keys[i - 1]);
            }
        }
        if k.index == tk.index {
            lemma_live_same_index_laws(a0, k, tk);
            assert(false);
        }
        let a1 = a0.update_node(k, a0.node(k).with_parent(Some(tk)));
        let tn = a1.node(tk);
        let a2 = a1.update_node(
            tk,
            tn.with_facets(Some(tn.facets->0.with_children(tn.facets->0.children.push(k)))),
        );
        assert(a.node(tk).facets->0.children + keys.subrange(0, i) =~= (a.node(
            tk,
        ).facets->0.children + keys.subrange(0, i - 1)).push(k));
        assert(a2.node(tk) == a.node(tk).with_facets(
            Some(
                a.node(tk).facets->0.with_children(
                    a.node(tk).facets->0.children + keys.subrange(0, i),
                ),
            ),
        ));
        assert forall|j: int| 0 <= j < i implies a2.live(#[trigger] keys[j]) && a2.node(keys[j])
            == a.node(keys[j]).with_parent(Some(tk)) by {
            if j < i - 1 {
                assert(a0.live(keys[j]));
                assert(a0.node(keys[j]) == a.node(keys[j]).with_parent(Some(tk)));
                if keys[j].index == k.index {
                    lemma_live_same_index_laws(a0, keys[j], k);
                    assert(keys[j] == k);
                    assert(false);
                }
                if keys[j].index == tk.index {
                    lemma_live_same_index_laws(a0, keys[j], tk);
                    assert(false);
                }
                assert(a2.slots[keys[j].index as int] == a0.slots[keys[j].index as int]);
                assert(a2.live(keys[j]));
                assert(a2.node(keys[j]) == a0.node(keys[j]));
            } else {
                assert(a1.node(k) == a0.node(k).with_parent(Some(tk)));
                assert(k.index != tk.index);
                assert(a2.slots[k.index as int] == a1.slots[k.index as int]);
                assert(a2.live(k));
                assert(a2.node(k) == a1.node(k));
                assert(a0.node(k) == a.node(k)) by {
                    lemma_attach_untouched(a, tk, keys, i - 1, k);
                }
            }
        }
        assert forall|idx: int| 0 <= idx < a.slots.len() implies a2.slots[idx].generation
            == a.slots[idx].generation && ((#[trigger] a2.slots[idx]).node is Some
            <==> a.slots[idx].node is Some) by {
            assert(a0.slots[idx].generation == a.slots[idx].generation);
        }
    } else {
        assert(a.node(tk).facets->0.children + keys.subrange(0, 0) =~= a.node(
            tk,
        ).facets->0.children);
        assert(a.node(tk).facets->0.with_children(a.node(tk).facets->0.children) =~~= a.node(
            tk,
        ).facets->0);
        assert(a.node(tk).with_facets(
            Some(a.node(tk).facets->0.with_children(a.node(tk).facets->0.children)),
        ) =~~= a.node(tk));
    }
}

/// A node that is neither the target nor among the attached keys is
/// untouched by the attach.
proof fn lemma_attach_untouched(a: ArenaV, tk: Key, keys: Seq<Key>, i: int, x: Key)
    requires
        0 <= i <= keys.len(),
        a.live(tk),
        a.node(tk).facets is Some,
        forall|j: int| 0 <= j < keys.len() ==> a.live(#[trigger] keys[j]) && keys[j] != tk,
        forall|j1: int, j2: int|
            0 <= j1 < j2 < keys.len() ==> #[trigger] keys[j1] != #[trigger] keys[j2],
        a.live(x),
        x != tk,
        !keys.subrange(0, i).contains(x),
    ensures
        crate::reconciler::attach_children_prefix(a, tk, keys, i).0.live(x),
        crate::reconciler::attach_children_prefix(a, tk, keys, i).0.node(x) == a.node(x),
    decreases i,
{
    if i > 0 {
        assert(!keys.subrange(0, i - 1).contains(x)) by {
            if keys.subrange(0, i - 1).contains(x) {
                let w = choose|w: int|
                    0 <= w < i - 1 && #[trigger] keys.subrange(0, i - 1)[w] == x;
                assert(keys.subrange(0, i)[w] == x);
            }
        }
        assert(x != keys[i - 1]) by {
            if x == keys[i - 1] {
                assert(keys.subrange(0, i)[i - 1] == x);
            }
        }
        lemma_attach_untouched(a, tk, keys, i - 1, x);
        lemma_attach_effect(a, tk, keys, i - 1);
        let a0 = crate::reconciler::attach_children_prefix(a, tk, keys, i - 1).0;
        let k = keys[i - 1];
        assert(a0.live(k)) by {
            if !keys.subrange(0, i - 1).contains(k) {
            } else {
                let w = choose|w: int|
                    0 <= w < i - 1 && #[trigger] keys.subrange(0, i - 1)[w] == k;
                assert(keys[w] == keys[i - 1]);
            }
        }
        if x.index == k.index {
            lemma_live_same_index_laws(a0, x, k);
        }
        if x.index == tk.index {
            lemma_live_same_index_laws(a0, x, tk);
        }
    }
}

/// Two live keys over the same slot are the same key.
proof fn lemma_live_same_index_laws(a: ArenaV, x: Key, y: Key)
    requires
        a.live(x),
        a.live(y),
        x.index == y.index,
    ensures
        x == y,
{
}

/// A reusable free slot found by allocation scanning.
proof fn lemma_first_free_props(a: ArenaV, i: int, j: int)
    requires
        0 <= i <= a.slots.len(),
        a.first_free_from(i) == Some(j),
    ensures
        i <= j < a.slots.len(),
        a.slots[j].node is None,
        a.slots[j].generation < u64::MAX,
    decreases a.slots.len() - i,
{
    if i < a.slots.len() && !(a.slots[i].node is None && a.slots[i].generation < u64::MAX) {
        lemma_first_free_props(a, i + 1, j);
    }
}

/// The composed arena after `CreateElement`'s three steps (allocate,
/// bind, install facets).
pub open spec fn create_chain(a: ArenaV, root: u64, f: Option<FacetsV>) -> ArenaV {
    let k = a.alloc_key();
    let a1 = a.alloc_spec();
    let a2 = a1.bind_spec(root, k);
    match f {
        Some(facets) => a2.update_node(k, a2.node(k).with_facets(Some(facets))),
        None => a2,
    }
}

/// What creating a node does: the fresh key was dead and is now live with
/// exactly the requested facets and the binding, every old node and
/// binding is untouched, and the slot count grows by at most one.
proof fn lemma_create_effect(a: ArenaV, root: u64, f: Option<FacetsV>)
    requires
        a.slots.len() < usize::MAX,
    ensures
        !a.live(a.alloc_key()),
        create_chain(a, root, f).ids == a.ids.insert(root, a.alloc_key()),
        create_chain(a, root, f).live(a.alloc_key()),
        create_chain(a, root, f).node(a.alloc_key()) == (NodeV {
            id: root,
            layout_parent: None,
            facets: f,
        }),
        a.alloc_key().generation < u64::MAX,
        a.slots.len() <= create_chain(a, root, f).slots.len() <= a.slots.len() + 1,
        forall|x: Key|
            a.live(x) ==> x != a.alloc_key() && #[trigger] create_chain(a, root, f).live(x)
                && create_chain(a, root, f).node(x) == a.node(x),
        forall|idx: int|
            0 <= idx < create_chain(a, root, f).slots.len() && idx != a.alloc_key().index
                ==> #[trigger] occ(create_chain(a, root, f), idx) == occ(a, idx) && (occ(a, idx)
                ==> create_chain(a, root, f).slots[idx] == a.slots[idx]),
        occ(create_chain(a, root, f), a.alloc_key().index as int),
        create_chain(a, root, f).slots[a.alloc_key().index as int].generation
            == a.alloc_key().generation,
{
    let k = a.alloc_key();
    let a3 = create_chain(a, root, f);
    match a.first_free_from(0) {
        Some(j) => {
            lemma_first_free_props(a, 0, j);
            assert(!a.live(k));
            assert forall|x: Key| a.live(x) implies x != k && #[trigger] a3.live(x) && a3.node(x)
                == a.node(x) by {
                if x.index as int == j {
                    assert(a.slots[j].node is None);
                }
            }
        },
        None => {
            assert(k.index == a.slots.len());
            assert(!a.live(k));
            assert forall|x: Key| a.live(x) implies x != k && #[trigger] a3.live(x) && a3.node(x)
                == a.node(x) by {
                assert(x.index < a.slots.len());
            }
        },
    }
}

/// `CreateElement` realizes the machine's create step: it succeeds and
/// the result still mirrors the machine.
proof fn lemma_step_create(v: RendV, stack: Seq<u64>, s: BuildState, root: u64, tag: Seq<char>)
    requires
        mirrors(v, stack, s),
        v.arena.slots.len() < usize::MAX,
        !s.kinds.contains_key(root),
        crate::reconciler::kind_of_tag(tag) is Some,
    ensures
        crate::reconciler::create_element_spec(v, stack, root, tag) is Ok,
        crate::reconciler::create_element_spec(v, stack, root, tag)->Ok_0.r.arena.slots.len()
            <= v.arena.slots.len() + 1,
        ({
            let ok = crate::reconciler::create_element_spec(v, stack, root, tag)->Ok_0;
            let kd = crate::reconciler::kind_of_tag(tag)->0;
            let s2 = BuildState {
                kinds: s.kinds.insert(root, kd),
                childs: s.childs.insert(root, Seq::empty()),
                attached: s.attached,
                stack: s.stack.push(root),
            };
            mirrors(ok.r, ok.stack, s2)
        }),
{
    let a = v.arena;
    let kd = crate::reconciler::kind_of_tag(tag)->0;
    assert(!a.ids.contains_key(root)) by {
        assert(a.ids.dom() =~= s.kinds.dom());
    }
    let f = FacetsV {
        widget: crate::reconciler::default_widget_spec(kd),
        style: crate::reconciler::initial_style_spec(kd),
        dirty: false,
        children: Seq::empty(),
        listeners: Seq::empty(),
    };
    lemma_create_effect(a, root, Some(f));
    let k = a.alloc_key();
    let a3 = create_chain(a, root, Some(f));
    let ok = crate::reconciler::create_element_spec(v, stack, root, tag)->Ok_0;
    assert(ok.r.arena == a3);
    let s2 = BuildState {
        kinds: s.kinds.insert(root, kd),
        childs: s.childs.insert(root, Seq::empty()),
        attached: s.attached,
        stack: s.stack.push(root),
    };
    assert(crate::reconciler::default_widget_spec(kd).kind() == kd);

    // well-formedness of the new arena
    assert(wf_ids(a3)) by {
        assert forall|id: u64| #[trigger] a3.ids.contains_key(id) implies a3.live(a3.ids[id])
            && a3.node(a3.ids[id]).id == id by {
            if id != root {
                assert(a.ids.contains_key(id));
                assert(a.live(a.ids[id]));
            }
        }
    }
    assert(wf_slots(a3)) by {
        assert forall|i: int| #[trigger] occ(a3, i) implies a3.slots[i].generation < u64::MAX
            && a3.ids.contains_key(a3.slots[i].node->0.id) && a3.ids[a3.slots[i].node->0.id]
            == key_of(a3, i) by {
            if i == k.index as int {
                assert(a3.node(k).id == root);
                assert(a3.slots[i].node->0.id == root);
            } else {
                assert(occ(a, i));
                let oid = a.slots[i].node->0.id;
                assert(a.ids.contains_key(oid) && a.ids[oid] == key_of(a, i));
                assert(oid != root);
            }
        }
    }
    assert(wf_children(a3)) by {
        assert forall|i: int, j: int|
            occ(a3, i) && a3.slots[i].node->0.facets is Some && 0 <= j
                < a3.slots[i].node->0.facets->0.children.len() implies #[trigger] child_ok(
            a3,
            i,
            j,
        ) by {
            if i != k.index as int {
                assert(occ(a, i));
                assert(a3.slots[i] == a.slots[i]);
                assert(child_ok(a, i, j));
                let c = a.slots[i].node->0.facets->0.children[j];
                assert(a.live(c));
                assert(a3.live(c));
                assert(a3.node(c) == a.node(c));
            }
        }
    }
    assert(wf_parents(a3)) by {
        assert forall|i: int| #[trigger] occ(a3, i) implies parent_ok(a3, i) by {
            if i != k.index as int {
                assert(occ(a, i));
                assert(a3.slots[i] == a.slots[i]);
                assert(parent_ok(a, i));
                match a.slots[i].node->0.layout_parent {
                    Some(p) => {
                        assert(a.live(p));
                        assert(a3.live(p));
                        assert(a3.node(p) == a.node(p));
                    },
                    None => {},
                }
            }
        }
    }
    assert(wf_dups(a3)) by {
        assert forall|i: int|
            #[trigger] occ(a3, i) && a3.slots[i].node->0.facets is Some implies children_distinct(
            a3,
            i,
        ) by {
            if i != k.index as int {
                assert(occ(a, i));
                assert(a3.slots[i] == a.slots[i]);
                assert(children_distinct(a, i));
            }
        }
    }

    // the new state mirrors the stepped machine
    assert(a3.ids.dom() =~= s2.kinds.dom());
    assert(s2.childs.dom() =~= s2.kinds.dom());
    assert forall|id: u64| #[trigger] s2.kinds.contains_key(id) implies {
        let kk = a3.ids[id];
        let n = a3.node(kk);
        &&& n.facets is Some
        &&& n.facets->0.widget.kind() == s2.kinds[id]
        &&& ids_of(a3, n.facets->0.children) == s2.childs[id]
        &&& (n.layout_parent is Some <==> s2.attached.contains(id))
    } by {
        if id == root {
            assert(ids_of(a3, Seq::empty()) =~= Seq::<u64>::empty());
            assert(!s.attached.contains(root));
        } else {
            assert(s.kinds.contains_key(id));
            let kk = a.ids[id];
            assert(a.live(kk));
            assert(a3.node(kk) == a.node(kk));
            let cs = a.node(kk).facets->0.children;
            assert forall|l: int| 0 <= l < cs.len() implies a3.node(#[trigger] cs[l]).id == a.node(
                cs[l],
            ).id by {
                assert(child_ok(a, kk.index as int, l));
                assert(a.live(cs[l]));
                assert(a3.live(cs[l]));
            }
            assert(ids_of(a3, cs) =~= ids_of(a, cs));
        }
    }
}

/// `PushRoot` realizes the machine's push step.
proof fn lemma_step_push(v: RendV, stack: Seq<u64>, s: BuildState, root: u64)
    requires
        mirrors(v, stack, s),
        s.kinds.contains_key(root),
    ensures
        crate::reconciler::push_root_spec(v, stack, root) is Ok,
        ({
            let ok = crate::reconciler::push_root_spec(v, stack, root)->Ok_0;
            let s2 = BuildState {
                kinds: s.kinds,
                childs: s.childs,
                attached: s.attached,
                stack: s.stack.push(root),
            };
            mirrors(ok.r, ok.stack, s2)
        }),
{
    assert(v.arena.ids.contains_key(root)) by {
        assert(v.arena.ids.dom() =~= s.kinds.dom());
    }
}

/// Per-node summary of a whole attach: the target's child list grew by
/// the keys, each attached key now points at the target, and every node
/// keeps its identity and (except the target) its facets.
proof fn lemma_attach_node_summary(a: ArenaV, tk: Key, keys: Seq<Key>, x: Key)
    requires
        a.live(tk),
        a.node(tk).facets is Some,
        forall|j: int| 0 <= j < keys.len() ==> a.live(#[trigger] keys[j]) && keys[j] != tk,
        forall|j1: int, j2: int|
            0 <= j1 < j2 < keys.len() ==> #[trigger] keys[j1] != #[trigger] keys[j2],
        a.live(x),
    ensures
        ({
            let a2 = crate::reconciler::attach_children_prefix(a, tk, keys, keys.len() as int).0;
            &&& a2.live(x)
            &&& a2.node(x).id == a.node(x).id
            &&& a2.node(x).layout_parent == (if keys.contains(x) {
                Some(tk)
            } else {
                a.node(x).layout_parent
            })
            &&& (x == tk ==> a2.node(x).facets == Some(
                a.node(tk).facets->0.with_children(a.node(tk).facets->0.children + keys),
            ))
            &&& (x != tk ==> a2.node(x).facets == a.node(x).facets)
        }),
{
    let n = keys.len() as int;
    lemma_attach_effect(a, tk, keys, n);
    assert(keys.subrange(0, n) =~= keys);
    if x == tk {
        assert(!keys.contains(x)) by {
            if keys.contains(x) {
                let w = choose|w: int| 0 <= w < keys.len() && keys[w] == x;
            }
        }
    } else if keys.contains(x) {
        let j = choose|j: int| 0 <= j < keys.len() && keys[j] == x;
        assert(crate::reconciler::attach_children_prefix(a, tk, keys, n).0.node(keys[j]) == a.node(
            keys[j],
        ).with_parent(Some(tk)));
    } else {
        lemma_attach_untouched(a, tk, keys, n, x);
    }
}

/// `AppendChildren` realizes the machine's append (or present) step.
#[verifier::rlimit(100)]
proof fn lemma_step_append(v: RendV, stack: Seq<u64>, s: BuildState, many: u64)
    requires
        mirrors(v, stack, s),
        build_op(s, EditOp::AppendChildren { many }) is Some,
    ensures
        crate::reconciler::append_children_spec(v, stack, many) is Ok,
        crate::reconciler::append_children_spec(v, stack, many)->Ok_0.r.arena.slots.len()
            == v.arena.slots.len(),
        mirrors(
            crate::reconciler::append_children_spec(v, stack, many)->Ok_0.r,
            crate::reconciler::append_children_spec(v, stack, many)->Ok_0.stack,
            build_op(s, EditOp::AppendChildren { many })->0,
        ),
{
    let a = v.arena;
    let n = many as int;
    assert(v.arena.ids.dom() == s.kinds.dom());
    if stack.len() == 1 && n == 1 {
        let id = stack[0];
        assert(s.kinds.contains_key(id));
        assert(a.ids.contains_key(id)) by {
            assert(a.ids.dom() =~= s.kinds.dom());
        }
        let k = a.ids[id];
        assert(a.live(k));
        assert(a.node(k).facets->0.widget.kind() == NodeKind::Window);
        assert(a.node(k).facets->0.widget is Window);
        assert(v.resolved(id) == Some(k));
    } else {
        let target = s.stack[s.stack.len() - n - 1];
        let kids = s.stack.subrange(s.stack.len() - n, s.stack.len() as int);
        assert(s.kinds.contains_key(target));
        assert(a.ids.contains_key(target)) by {
            assert(a.ids.dom() =~= s.kinds.dom());
        }
        let tk = a.ids[target];
        assert(a.live(tk));
        assert(a.node(tk).facets is Some);
        assert(crate::node::has_layout_surface(a.node(tk).facets->0.widget.kind()));
        assert(v.resolved(target) == Some(tk));

        // every kid id is bound, unattached and distinct; their keys are
        // distinct and avoid the target
        assert forall|l: int| 0 <= l < kids.len() implies a.ids.contains_key(#[trigger] kids[l])
            && a.node(a.ids[kids[l]]).layout_parent is None && a.ids[kids[l]] != tk by {
            assert(s.kinds.contains_key(kids[l]));
            assert(a.ids.contains_key(kids[l])) by {
                assert(a.ids.dom() =~= s.kinds.dom());
            }
            assert(!s.attached.contains(kids[l]));
            if a.ids[kids[l]] == tk {
                assert(a.node(tk).id == target);
                assert(a.node(a.ids[kids[l]]).id == kids[l]);
            }
        }
        lemma_validate_of_ids(v, kids, 0, Seq::empty(), tk);
        let keys = kids.map_values(|kid: u64| v.arena.ids[kid]);
        assert(Seq::<Key>::empty() + kids.subrange(0, kids.len() as int).map_values(
            |kid: u64| v.arena.ids[kid],
        ) =~= keys);
        assert(crate::reconciler::validate_children_from(v, kids, 0, Seq::empty(), tk, None, None)
            == Ok::<Seq<Key>, Error>(keys));
        assert forall|j: int| 0 <= j < keys.len() implies a.live(#[trigger] keys[j]) && keys[j]
            != tk by {
            assert(keys[j] == a.ids[kids[j]]);
        }
        assert forall|j1: int, j2: int| 0 <= j1 < j2 < keys.len() implies #[trigger] keys[j1]
            != #[trigger] keys[j2] by {
            if keys[j1] == keys[j2] {
                assert(a.node(keys[j1]).id == kids[j1]);
                assert(a.node(keys[j2]).id == kids[j2]);
            }
        }
        lemma_attach_effect(a, tk, keys, keys.len() as int);
        assert(keys.subrange(0, keys.len() as int) =~= keys);
        let a2 = crate::reconciler::attach_children_prefix(a, tk, keys, keys.len() as int).0;
        let s2 = build_op(s, EditOp::AppendChildren { many })->0;

        // a kid's key is never among the old children (those are attached)
        assert forall|c: Key| a.node(tk).facets->0.children.contains(c) implies !keys.contains(
            c,
        ) by {
            if keys.contains(c) {
                let j = choose|j: int| 0 <= j < keys.len() && keys[j] == c;
                assert(a.node(keys[j]).layout_parent is None);
                let w = choose|w: int|
                    0 <= w < a.node(tk).facets->0.children.len() && a.node(
                        tk,
                    ).facets->0.children[w] == c;
                assert(child_ok(a, tk.index as int, w));
                assert(occ(a, tk.index as int));
            }
        }

        // well-formedness is preserved
        assert(a2.slots.len() <= usize::MAX);
        assert(wf_ids(a2)) by {
            assert forall|id: u64| #[trigger] a2.ids.contains_key(id) implies a2.live(a2.ids[id])
                && a2.node(a2.ids[id]).id == id by {
                assert(a.ids.contains_key(id));
                assert(a.live(a.ids[id]));
                lemma_attach_node_summary(a, tk, keys, a.ids[id]);
            }
        }
        assert(wf_slots(a2)) by {
            assert forall|i: int| #[trigger] occ(a2, i) implies a2.slots[i].generation < u64::MAX
                && a2.ids.contains_key(a2.slots[i].node->0.id) && a2.ids[a2.slots[i].node->0.id]
                == key_of(a2, i) by {
                assert(occ(a, i));
                let x = key_of(a, i);
                assert(a.live(x));
                lemma_attach_node_summary(a, tk, keys, x);
                assert(a2.node(x).id == a.node(x).id);
                assert(a2.slots[i].node->0.id == a.slots[i].node->0.id);
                assert(key_of(a2, i) == key_of(a, i));
            }
        }
        assert(wf_children(a2)) by {
            assert forall|i: int, j: int|
                occ(a2, i) && a2.slots[i].node->0.facets is Some && 0 <= j
                    < a2.slots[i].node->0.facets->0.children.len() implies #[trigger] child_ok(
                a2,
                i,
                j,
            ) by {
                assert(occ(a, i));
                let x = key_of(a, i);
                assert(a.live(x));
                lemma_attach_node_summary(a, tk, keys, x);
                assert(key_of(a2, i) == x);
                let oldkids = a.node(tk).facets->0.children;
                if x == tk {
                    assert(a2.node(x).facets->0.children =~= oldkids + keys);
                    if j < oldkids.len() {
                        let c = oldkids[j];
                        assert(child_ok(a, i, j));
                        assert(a.live(c));
                        lemma_attach_node_summary(a, tk, keys, c);
                        assert(!keys.contains(c));
                        assert(a2.node(c).layout_parent == Some(x));
                    } else {
                        let c = keys[j - oldkids.len()];
                        assert(a.live(c));
                        lemma_attach_node_summary(a, tk, keys, c);
                        assert(keys.contains(c));
                        assert(a2.node(c).layout_parent == Some(tk));
                    }
                } else {
                    assert(a2.node(x).facets == a.node(x).facets);
                    let c = a.node(x).facets->0.children[j];
                    assert(child_ok(a, i, j));
                    assert(a.live(c));
                    lemma_attach_node_summary(a, tk, keys, c);
                    assert(!keys.contains(c)) by {
                        if keys.contains(c) {
                            let w = choose|w: int| 0 <= w < keys.len() && keys[w] == c;
                            assert(a.node(keys[w]).layout_parent is None);
                        }
                    }
                    assert(a2.node(c).layout_parent == Some(x));
                }
            }
        }
        assert(wf_parents(a2)) by {
            assert forall|i: int| #[trigger] occ(a2, i) implies parent_ok(a2, i) by {
                assert(occ(a, i));
                let x = key_of(a, i);
                assert(a.live(x));
                lemma_attach_node_summary(a, tk, keys, x);
                assert(key_of(a2, i) == x);
                if keys.contains(x) {
                    assert(a2.node(x).layout_parent == Some(tk));
                    lemma_attach_node_summary(a, tk, keys, tk);
                    assert(a2.node(tk).facets->0.children =~= a.node(tk).facets->0.children
                        + keys);
                    let w = choose|w: int| 0 <= w < keys.len() && keys[w] == x;
                    assert((a.node(tk).facets->0.children + keys)[a.node(
                        tk,
                    ).facets->0.children.len() + w] == x);
                    assert(a2.node(tk).facets->0.children.contains(x));
                } else {
                    assert(a2.node(x).layout_parent == a.node(x).layout_parent);
                    match a.node(x).layout_parent {
                        Some(p) => {
                            assert(parent_ok(a, i));
                            assert(a.live(p));
                            lemma_attach_node_summary(a, tk, keys, p);
                            if p == tk {
                                assert(a2.node(tk).facets->0.children =~= a.node(
                                    tk,
                                ).facets->0.children + keys);
                                let w = choose|w: int|
                                    0 <= w < a.node(tk).facets->0.children.len() && a.node(
                                        tk,
                                    ).facets->0.children[w] == x;
                                assert((a.node(tk).facets->0.children + keys)[w] == x);
                                assert(a2.node(p).facets->0.children.contains(x));
                            } else {
                                assert(a2.node(p).facets == a.node(p).facets);
                            }
                        },
                        None => {},
                    }
                }
            }
        }
        assert(wf_dups(a2)) by {
            assert forall|i: int|
                #[trigger] occ(a2, i) && a2.slots[i].node->0.facets
                    is Some implies children_distinct(a2, i) by {
                assert(occ(a, i));
                let x = key_of(a, i);
                assert(a.live(x));
                lemma_attach_node_summary(a, tk, keys, x);
                if x == tk {
                    let oldkids = a.node(tk).facets->0.children;
                    let cs = a2.node(x).facets->0.children;
                    assert(cs =~= oldkids + keys);
                    assert(children_distinct(a, i));
                    assert forall|j1: int, j2: int|
                        0 <= j1 < j2 < cs.len() implies #[trigger] cs[j1] != #[trigger] cs[j2] by {
                        if j1 < oldkids.len() && j2 >= oldkids.len() {
                            assert(cs[j1] == oldkids[j1]);
                            assert(cs[j2] == keys[j2 - oldkids.len()]);
                            assert(oldkids.contains(oldkids[j1]));
                            if cs[j1] == cs[j2] {
                                assert(keys.contains(cs[j1]));
                            }
                        }
                    }
                } else {
                    assert(a2.node(x).facets == a.node(x).facets);
                    assert(children_distinct(a, i));
                    assert(a2.slots[i].node->0 == a2.node(x));
                    assert(a.slots[i].node->0 == a.node(x));
                }
            }
        }

        // the result mirrors the stepped machine
        let rest_stack = stack.subrange(0, stack.len() - n);
        assert(s2.stack == rest_stack);
        assert(a2.ids.dom() =~= s2.kinds.dom());
        assert(s2.childs.dom() =~= s2.kinds.dom());
        assert(s2.attached.subset_of(s2.kinds.dom())) by {
            assert forall|kid: u64| kids.to_set().contains(kid) implies s2.kinds.contains_key(
                kid,
            ) by {
                let l = choose|l: int| 0 <= l < kids.len() && kids[l] == kid;
            }
        }
        assert forall|id: u64| #[trigger] s2.kinds.contains_key(id) implies {
            let kk = a2.ids[id];
            let nn = a2.node(kk);
            &&& nn.facets is Some
            &&& nn.facets->0.widget.kind() == s2.kinds[id]
            &&& ids_of(a2, nn.facets->0.children) == s2.childs[id]
            &&& (nn.layout_parent is Some <==> s2.attached.contains(id))
        } by {
            assert(s.kinds.contains_key(id));
            let kk = a.ids[id];
            assert(a.live(kk));
            lemma_attach_node_summary(a, tk, keys, kk);
            let cs_old = a.node(kk).facets->0.children;
            // ids are preserved pointwise under the attach
            assert forall|l: int| 0 <= l < cs_old.len() implies a2.node(
                #[trigger] cs_old[l],
            ).id == a.node(cs_old[l]).id by {
                assert(child_ok(a, kk.index as int, l));
                assert(a.live(cs_old[l]));
                lemma_attach_node_summary(a, tk, keys, cs_old[l]);
            }
            if kk == tk {
                assert(id == target) by {
                    assert(a.node(tk).id == target);
                    assert(a.node(a.ids[id]).id == id);
                }
                assert(a2.node(kk).facets->0.children =~= cs_old + keys);
                assert forall|l: int| 0 <= l < keys.len() implies a2.node(
                    #[trigger] keys[l],
                ).id == kids[l] by {
                    assert(a.live(keys[l]));
                    lemma_attach_node_summary(a, tk, keys, keys[l]);
                    assert(a.node(a.ids[kids[l]]).id == kids[l]);
                }
                assert(ids_of(a2, cs_old + keys) =~= ids_of(a, cs_old) + kids);
                assert(s2.childs[id] == s.childs[id] + kids);
                assert(!kids.to_set().contains(target)) by {
                    if kids.to_set().contains(target) {
                        let l = choose|l: int| 0 <= l < kids.len() && kids[l] == target;
                    }
                }
                assert(s2.attached.contains(id) <==> s.attached.contains(id));
            } else {
                assert(id != target) by {
                    if id == target {
                        assert(a.ids[id] == tk);
                    }
                }
                assert(a2.node(kk).facets == a.node(kk).facets);
                assert(ids_of(a2, cs_old) =~= ids_of(a, cs_old));
                assert(s2.childs[id] == s.childs[id]);
                if keys.contains(kk) {
                    let l = choose|l: int| 0 <= l < keys.len() && keys[l] == kk;
                    assert(a.node(keys[l]).id == kids[l]);
                    assert(id == kids[l]);
                    assert(kids.to_set().contains(id));
                    assert(a2.node(kk).layout_parent == Some(tk));
                    assert(s2.attached.contains(id));
                } else {
                    assert(a2.node(kk).layout_parent == a.node(kk).layout_parent);
                    assert(!kids.to_set().contains(id)) by {
                        if kids.to_set().contains(id) {
                            let l = choose|l: int| 0 <= l < kids.len() && kids[l] == id;
                            assert(a.ids[kids[l]] == kk);
                            assert(keys[l] == kk);
                        }
                    }
                    assert(s2.attached.contains(id) <==> s.attached.contains(id));
                }
            }
        }
    }
}

/// Whether every op belongs to the tree-building fragment.
pub open spec fn build_ops_only(ops: Seq<EditOp>) -> bool {
    forall|i: int|
        0 <= i < ops.len() ==> ((#[trigger] ops[i]) is CreateElement || ops[i] is PushRoot
            || ops[i] is AppendChildren)
}

proof fn lemma_build_steps(v: RendV, stack: Seq<u64>, s: BuildState, ops: Seq<EditOp>, i: int)
    requires
        0 <= i <= ops.len(),
        mirrors(v, stack, s),
        build_ops_only(ops),
        build_fold(s, ops, i) is Some,
        v.arena.slots.len() + (ops.len() - i) <= usize::MAX,
    ensures
        ({
            let b = crate::reconciler::apply_ops_spec(v, stack, ops, i);
            &&& b.fatal is None
            &&& b.warns == Seq::<Error>::empty()
            &&& mirrors(b.r, b.stack, build_fold(s, ops, i)->0)
        }),
    decreases ops.len() - i,
{
    if i < ops.len() {
        let op = ops[i];
        assert(op is CreateElement || op is PushRoot || op is AppendChildren);
        assert(build_op(s, op) is Some);
        let s2 = build_op(s, op)->0;
        match op {
            EditOp::CreateElement { root, tag } => {
                assert(!s.kinds.contains_key(root));
                assert(crate::reconciler::kind_of_tag(tag@) is Some);
                lemma_step_create(v, stack, s, root, tag@);
                let ok = crate::reconciler::create_element_spec(v, stack, root, tag@)->Ok_0;
                lemma_build_steps(ok.r, ok.stack, s2, ops, i + 1);
                let rest = crate::reconciler::apply_ops_spec(ok.r, ok.stack, ops, i + 1);
                assert(rest.warns =~= Seq::<Error>::empty());
            },
            EditOp::PushRoot { root } => {
                lemma_step_push(v, stack, s, root);
                let ok = crate::reconciler::push_root_spec(v, stack, root)->Ok_0;
                lemma_build_steps(ok.r, ok.stack, s2, ops, i + 1);
            },
            EditOp::AppendChildren { many } => {
                lemma_step_append(v, stack, s, many);
                let ok = crate::reconciler::append_children_spec(v, stack, many)->Ok_0;
                lemma_build_steps(ok.r, ok.stack, s2, ops, i + 1);
            },
            _ => {
                assert(false);
            },
        }
    }
}

/// Any sequence of creates, pushes and appends that the id-level machine
/// admits applies to the empty renderer without failure or warning, and
/// the retained tree it leaves realizes exactly the shape the sequence
/// implies: the bound ids, their kinds, their ordered child lists (which
/// drive the widget tree and the layout tree alike) and their
/// attachments all equal the machine's.
pub proof fn lemma_build_sequence_shape(v: RendV, ops: Seq<EditOp>)
    requires
        v.arena.slots == Seq::<crate::arena::SlotV>::empty(),
        v.arena.ids == Map::<u64, Key>::empty(),
        build_ops_only(ops),
        build_fold(build_init(), ops, 0) is Some,
        ops.len() <= usize::MAX,
    ensures
        ({
            let b = crate::reconciler::apply_ops_spec(v, Seq::empty(), ops, 0);
            &&& b.fatal is None
            &&& b.warns == Seq::<Error>::empty()
            &&& mirrors(b.r, b.stack, build_fold(build_init(), ops, 0)->0)
        }),
{
    lemma_mirrors_empty(v);
    lemma_build_steps(v, Seq::empty(), build_init(), ops, 0);
}

/// The `(parent, child)` pairs of the planned widget attaches, in order.
pub open spec fn put_pairs(cs: Seq<CommandV>) -> Seq<(Key, Key)>
    decreases cs.len(),
{
    if cs.len() == 0 {
        Seq::empty()
    } else {
        put_pairs(cs.drop_last()) + (match cs.last() {
            CommandV::PutChild { parent, child } => seq![(parent, child)],
            _ => Seq::empty(),
        })
    }
}

/// The `(parent, child)` pairs of the planned layout attaches, in order.
pub open spec fn add_pairs(cs: Seq<CommandV>) -> Seq<(Key, Key)>
    decreases cs.len(),
{
    if cs.len() == 0 {
        Seq::empty()
    } else {
        add_pairs(cs.drop_last()) + (match cs.last() {
            CommandV::AddLayoutChild { parent, child } => seq![(parent, child)],
            _ => Seq::empty(),
        })
    }
}

proof fn lemma_pairs_concat(x: Seq<CommandV>, y: Seq<CommandV>)
    ensures
        put_pairs(x + y) == put_pairs(x) + put_pairs(y),
        add_pairs(x + y) == add_pairs(x) + add_pairs(y),
    decreases y.len(),
{
    if y.len() == 0 {
        assert(x + y =~= x);
        assert(put_pairs(x) + put_pairs(y) =~= put_pairs(x));
        assert(add_pairs(x) + add_pairs(y) =~= add_pairs(x));
    } else {
        lemma_pairs_concat(x, y.drop_last());
        assert((x + y).drop_last() =~= x + y.drop_last());
        assert((x + y).last() == y.last());
        assert(put_pairs(x + y) =~= put_pairs(x) + put_pairs(y));
        assert(add_pairs(x + y) =~= add_pairs(x) + add_pairs(y));
    }
}

/// One attach plans its widget and layout attaches in matching pairs.
proof fn lemma_attach_pairs(a: ArenaV, tk: Key, keys: Seq<Key>, i: int)
    requires
        0 <= i <= keys.len(),
    ensures
        put_pairs(crate::reconciler::attach_children_prefix(a, tk, keys, i).1) == add_pairs(
            crate::reconciler::attach_children_prefix(a, tk, keys, i).1,
        ),
    decreases i,
{
    reveal_with_fuel(put_pairs, 4);
    reveal_with_fuel(add_pairs, 4);
    if i > 0 {
        lemma_attach_pairs(a, tk, keys, i - 1);
        let (a0, cs0) = crate::reconciler::attach_children_prefix(a, tk, keys, i - 1);
        let k = keys[i - 1];
        let cs = if a0.node(k).facets is Some {
            seq![
                CommandV::PutChild { parent: tk, child: k },
                CommandV::AddLayoutChild { parent: tk, child: k },
            ]
        } else {
            Seq::<CommandV>::empty()
        };
        lemma_pairs_concat(cs0, cs);
        if a0.node(k).facets is Some {
            assert(cs.drop_last() =~= seq![CommandV::PutChild { parent: tk, child: k }]);
            assert(cs.drop_last().drop_last() =~= Seq::<CommandV>::empty());
            assert(cs.last() == CommandV::AddLayoutChild { parent: tk, child: k });
            assert(cs.drop_last().last() == CommandV::PutChild { parent: tk, child: k });
            assert(put_pairs(cs.drop_last().drop_last()) =~= Seq::<(Key, Key)>::empty());
            assert(add_pairs(cs.drop_last().drop_last()) =~= Seq::<(Key, Key)>::empty());
            assert(put_pairs(cs.drop_last()) =~= seq![(tk, k)]);
            assert(add_pairs(cs.drop_last()) =~= Seq::<(Key, Key)>::empty());
            assert(put_pairs(cs) =~= seq![(tk, k)]);
            assert(add_pairs(cs) =~= seq![(tk, k)]);
        }
        assert(put_pairs(cs0 + cs) =~= add_pairs(cs0 + cs));
    }
}

/// In any tree-building batch, the widget attaches and the layout
/// attaches the reconciler plans pair up exactly: the widget child-set
/// built from the commands equals the layout child-set, pair for pair and
/// in the same order.
#[verifier::rlimit(100)]
proof fn lemma_build_cmds_paired(v: RendV, stack: Seq<u64>, s: BuildState, ops: Seq<EditOp>, i: int)
    requires
        0 <= i <= ops.len(),
        mirrors(v, stack, s),
        build_ops_only(ops),
        build_fold(s, ops, i) is Some,
        v.arena.slots.len() + (ops.len() - i) <= usize::MAX,
    ensures
        ({
            let b = crate::reconciler::apply_ops_spec(v, stack, ops, i);
            put_pairs(b.cmds) == add_pairs(b.cmds)
        }),
    decreases ops.len() - i,
{
    reveal_with_fuel(put_pairs, 4);
    reveal_with_fuel(add_pairs, 4);
    if i < ops.len() {
        let op = ops[i];
        assert(build_op(s, op) is Some);
        let s2 = build_op(s, op)->0;
        match op {
            EditOp::CreateElement { root, tag } => {
                lemma_step_create(v, stack, s, root, tag@);
                let ok = crate::reconciler::create_element_spec(v, stack, root, tag@)->Ok_0;
                lemma_build_cmds_paired(ok.r, ok.stack, s2, ops, i + 1);
                let rest = crate::reconciler::apply_ops_spec(ok.r, ok.stack, ops, i + 1);
                let kd = crate::reconciler::kind_of_tag(tag@)->0;
                let kk = v.arena.alloc_key();
                let cw = CommandV::CreateWidget { key: kk, kind: kd };
                let cln = CommandV::CreateLayoutNode {
                    key: kk,
                    kind: kd,
                    style: crate::reconciler::initial_style_spec(kd),
                };
                assert(ok.cmds == seq![cw, cln] + Seq::<CommandV>::empty());
                assert(ok.cmds =~= seq![cw, cln]);
                assert(seq![cw, cln].drop_last() =~= seq![cw]);
                assert(seq![cw].drop_last() =~= Seq::<CommandV>::empty());
                assert(put_pairs(ok.cmds) =~= Seq::<(Key, Key)>::empty());
                assert(add_pairs(ok.cmds) =~= Seq::<(Key, Key)>::empty());
                lemma_pairs_concat(ok.cmds, rest.cmds);
            },
            EditOp::PushRoot { root } => {
                lemma_step_push(v, stack, s, root);
                let ok = crate::reconciler::push_root_spec(v, stack, root)->Ok_0;
                lemma_build_cmds_paired(ok.r, ok.stack, s2, ops, i + 1);
                let rest = crate::reconciler::apply_ops_spec(ok.r, ok.stack, ops, i + 1);
                lemma_pairs_concat(ok.cmds, rest.cmds);
            },
            EditOp::AppendChildren { many } => {
                lemma_step_append(v, stack, s, many);
                let ok = crate::reconciler::append_children_spec(v, stack, many)->Ok_0;
                lemma_build_cmds_paired(ok.r, ok.stack, s2, ops, i + 1);
                let rest = crate::reconciler::apply_ops_spec(ok.r, ok.stack, ops, i + 1);
                assert(put_pairs(ok.cmds) == add_pairs(ok.cmds)) by {
                    let n = many as int;
                    if stack.len() == 1 && n == 1 {
                        let kpr = v.resolved(stack[0])->0;
                        assert(ok.cmds =~= seq![CommandV::PresentRoot { key: kpr }]);
                        assert(ok.cmds.last() == CommandV::PresentRoot { key: kpr });
                        assert(ok.cmds.drop_last() =~= Seq::<CommandV>::empty());
                        assert(put_pairs(ok.cmds.drop_last()) =~= Seq::<(Key, Key)>::empty());
                        assert(put_pairs(ok.cmds) =~= Seq::<(Key, Key)>::empty());
                        assert(add_pairs(ok.cmds) =~= Seq::<(Key, Key)>::empty());
                    } else {
                        let target = stack[stack.len() - n - 1];
                        let tkr = v.resolved(target)->0;
                        let child_ids = stack.subrange(stack.len() - n, stack.len() as int);
                        let keys_spec = crate::reconciler::validate_children_from(
                            v,
                            child_ids,
                            0,
                            Seq::empty(),
                            tkr,
                            None,
                            None,
                        )->Ok_0;
                        lemma_attach_pairs(v.arena, tkr, keys_spec, keys_spec.len() as int);
                        assert(ok.cmds == crate::reconciler::attach_children_prefix(
                            v.arena,
                            tkr,
                            keys_spec,
                            keys_spec.len() as int,
                        ).1);
                    }
                }
                lemma_pairs_concat(ok.cmds, rest.cmds);
            },
            _ => {
                assert(false);
            },
        }
    }
}

/// Applying a tree-building batch to the empty renderer plans widget and
/// layout attaches that agree pair for pair: the widget tree and the
/// layout tree a toolkit adapter builds from the commands have the same
/// parent/child shape.
pub proof fn lemma_build_widget_layout_agree(v: RendV, ops: Seq<EditOp>)
    requires
        v.arena.slots == Seq::<crate::arena::SlotV>::empty(),
        v.arena.ids == Map::<u64, Key>::empty(),
        build_ops_only(ops),
        build_fold(build_init(), ops, 0) is Some,
        ops.len() <= usize::MAX,
    ensures
        ({
            let b = crate::reconciler::apply_ops_spec(v, Seq::empty(), ops, 0);
            put_pairs(b.cmds) == add_pairs(b.cmds)
        }),
{
    lemma_mirrors_empty(v);
    lemma_build_cmds_paired(v, Seq::empty(), build_init(), ops, 0);
}

/// The `(parent, child)` pairs of the planned widget detaches, in order.
pub open spec fn remove_put_pairs(cs: Seq<CommandV>) -> Seq<(Key, Key)>
    decreases cs.len(),
{
    if cs.len() == 0 {
        Seq::empty()
    } else {
        remove_put_pairs(cs.drop_last()) + (match cs.last() {
            CommandV::RemoveChild { parent, child } => seq![(parent, child)],
            _ => Seq::empty(),
        })
    }
}

/// The `(parent, child)` pairs of the planned layout detaches, in order.
pub open spec fn remove_add_pairs(cs: Seq<CommandV>) -> Seq<(Key, Key)>
    decreases cs.len(),
{
    if cs.len() == 0 {
        Seq::empty()
    } else {
        remove_add_pairs(cs.drop_last()) + (match cs.last() {
            CommandV::RemoveLayoutChild { parent, child } => seq![(parent, child)],
            _ => Seq::empty(),
        })
    }
}

proof fn lemma_remove_pairs_concat(x: Seq<CommandV>, y: Seq<CommandV>)
    ensures
        remove_put_pairs(x + y) == remove_put_pairs(x) + remove_put_pairs(y),
        remove_add_pairs(x + y) == remove_add_pairs(x) + remove_add_pairs(y),
    decreases y.len(),
{
    if y.len() == 0 {
        assert(x + y =~= x);
        assert(remove_put_pairs(x) + remove_put_pairs(y) =~= remove_put_pairs(x));
        assert(remove_add_pairs(x) + remove_add_pairs(y) =~= remove_add_pairs(x));
    } else {
        lemma_remove_pairs_concat(x, y.drop_last());
        assert((x + y).drop_last() =~= x + y.drop_last());
        assert((x + y).last() == y.last());
        assert(remove_put_pairs(x + y) =~= remove_put_pairs(x) + remove_put_pairs(y));
        assert(remove_add_pairs(x + y) =~= remove_add_pairs(x) + remove_add_pairs(y));
    }
}

/// One attach plans no detach at all.
proof fn lemma_attach_no_detach(a: ArenaV, tk: Key, keys: Seq<Key>, i: int)
    requires
        0 <= i <= keys.len(),
    ensures
        remove_put_pairs(crate::reconciler::attach_children_prefix(a, tk, keys, i).1)
            == Seq::<(Key, Key)>::empty(),
        remove_add_pairs(crate::reconciler::attach_children_prefix(a, tk, keys, i).1)
            == Seq::<(Key, Key)>::empty(),
    decreases i,
{
    reveal_with_fuel(remove_put_pairs, 4);
    reveal_with_fuel(remove_add_pairs, 4);
    if i > 0 {
        lemma_attach_no_detach(a, tk, keys, i - 1);
        let (a0, cs0) = crate::reconciler::attach_children_prefix(a, tk, keys, i - 1);
        let k = keys[i - 1];
        let cs = if a0.node(k).facets is Some {
            seq![
                CommandV::PutChild { parent: tk, child: k },
                CommandV::AddLayoutChild { parent: tk, child: k },
            ]
        } else {
            Seq::<CommandV>::empty()
        };
        lemma_remove_pairs_concat(cs0, cs);
        if a0.node(k).facets is Some {
            assert(cs.drop_last() =~= seq![CommandV::PutChild { parent: tk, child: k }]);
            assert(cs.drop_last().drop_last() =~= Seq::<CommandV>::empty());
            assert(remove_put_pairs(cs) =~= Seq::<(Key, Key)>::empty());
            assert(remove_add_pairs(cs) =~= Seq::<(Key, Key)>::empty());
        }
        assert(remove_put_pairs(cs0 + cs) =~= Seq::<(Key, Key)>::empty());
        assert(remove_add_pairs(cs0 + cs) =~= Seq::<(Key, Key)>::empty());
    }
}

/// Removal keeps the two trees in step in any state: a successful
/// `ReplaceWith` or `Remove` plans the widget detach and the layout detach
/// of the removed node together — both or neither, same pair — and its
/// re-attachments as exactly matching widget/layout attach pairs.
pub proof fn lemma_remove_cmds_paired(v: RendV, stack: Seq<u64>, root: u64, m: u64)
    requires
        remove_node_spec(v, stack, root, m) is Ok,
    ensures
        ({
            let cmds = remove_node_spec(v, stack, root, m)->Ok_0.cmds;
            &&& put_pairs(cmds) == add_pairs(cmds)
            &&& remove_put_pairs(cmds) == remove_add_pairs(cmds)
        }),
{
    reveal_with_fuel(put_pairs, 4);
    reveal_with_fuel(add_pairs, 4);
    reveal_with_fuel(remove_put_pairs, 4);
    reveal_with_fuel(remove_add_pairs, 4);
    let n = m as int;
    let rk = v.resolved(root)->0;
    let node = v.arena.node(rk);
    let child_ids = stack.subrange(stack.len() - n, stack.len() as int);
    let tk_check = match node.layout_parent {
        Some(pk) => pk,
        None => rk,
    };
    let keys = crate::reconciler::validate_children_from(
        v,
        child_ids,
        0,
        Seq::empty(),
        tk_check,
        Some(rk),
        Some(rk),
    )->Ok_0;
    let detach_cmds = match node.layout_parent {
        Some(pk) => {
            if node.facets is Some && v.arena.node(pk).facets is Some {
                seq![
                    CommandV::RemoveChild { parent: pk, child: rk },
                    CommandV::RemoveLayoutChild { parent: pk, child: rk },
                ]
            } else {
                Seq::<CommandV>::empty()
            }
        },
        None => Seq::<CommandV>::empty(),
    };
    let release_cmds = if node.facets is Some {
        seq![CommandV::ReleaseLayoutNode { key: rk }]
    } else {
        Seq::<CommandV>::empty()
    };
    let a1 = match node.layout_parent {
        Some(pk) => {
            let pn = v.arena.node(pk);
            v.arena.update_node(
                pk,
                pn.with_facets(
                    Some(
                        pn.facets->0.with_children(
                            crate::reconciler::remove_first(pn.facets->0.children, rk),
                        ),
                    ),
                ),
            )
        },
        None => v.arena,
    };
    let a2 = crate::reconciler::clear_backlinks_prefix(
        a1,
        node.children(),
        node.children().len() as int,
    );
    let a3 = a2.release_spec(rk);
    let attach_cmds = match node.layout_parent {
        Some(pk) => crate::reconciler::attach_children_prefix(a3, pk, keys, keys.len() as int).1,
        None => Seq::<CommandV>::empty(),
    };
    let cmds = remove_node_spec(v, stack, root, m)->Ok_0.cmds;
    assert(cmds == detach_cmds + release_cmds + attach_cmds);

    // detach and release plan no attaches, and matching detach pairs
    match node.layout_parent {
        Some(pk) => {
            if node.facets is Some && v.arena.node(pk).facets is Some {
                assert(detach_cmds.drop_last() =~= seq![
                    CommandV::RemoveChild { parent: pk, child: rk },
                ]);
                assert(detach_cmds.drop_last().drop_last() =~= Seq::<CommandV>::empty());
                assert(put_pairs(detach_cmds) =~= Seq::<(Key, Key)>::empty());
                assert(add_pairs(detach_cmds) =~= Seq::<(Key, Key)>::empty());
                assert(remove_put_pairs(detach_cmds) =~= seq![(pk, rk)]);
                assert(remove_add_pairs(detach_cmds) =~= seq![(pk, rk)]);
            }
        },
        None => {},
    }
    if node.facets is Some {
        assert(release_cmds.drop_last() =~= Seq::<CommandV>::empty());
        assert(put_pairs(release_cmds) =~= Seq::<(Key, Key)>::empty());
        assert(add_pairs(release_cmds) =~= Seq::<(Key, Key)>::empty());
        assert(remove_put_pairs(release_cmds) =~= Seq::<(Key, Key)>::empty());
        assert(remove_add_pairs(release_cmds) =~= Seq::<(Key, Key)>::empty());
    }

    // the re-attachments pair exactly and plan no detaches
    match node.layout_parent {
        Some(pk) => {
            lemma_attach_pairs(a3, pk, keys, keys.len() as int);
            lemma_attach_no_detach(a3, pk, keys, keys.len() as int);
        },
        None => {},
    }

    lemma_pairs_concat(detach_cmds, release_cmds);
    lemma_pairs_concat(detach_cmds + release_cmds, attach_cmds);
    lemma_remove_pairs_concat(detach_cmds, release_cmds);
    lemma_remove_pairs_concat(detach_cmds + release_cmds, attach_cmds);
}

/// A live facet-bearing member of the list stands in its facet filter.
proof fn lemma_layout_children_member(a: ArenaV, cs: Seq<Key>, i: int, l: int)
    requires
        0 <= l < i <= cs.len(),
        a.live(cs[l]),
        a.node(cs[l]).facets is Some,
    ensures
        crate::reconciler::layout_children_prefix(a, cs, i).contains(cs[l]),
    decreases i,
{
    if l == i - 1 {
        let pre = crate::reconciler::layout_children_prefix(a, cs, i - 1);
        assert(crate::reconciler::layout_children_prefix(a, cs, i) == pre.push(cs[l]));
        assert(pre.push(cs[l])[pre.len() as int] == cs[l]);
    } else {
        lemma_layout_children_member(a, cs, i - 1, l);
        let pre = crate::reconciler::layout_children_prefix(a, cs, i - 1);
        let w = choose|w: int| 0 <= w < pre.len() && pre[w] == cs[l];
        if a.live(cs[i - 1]) && a.node(cs[i - 1]).facets is Some {
            assert(pre.push(cs[i - 1])[w] == cs[l]);
        }
    }
}

/// Every element of the facet filter is a live facet-bearing member of
/// the list.
proof fn lemma_layout_children_sub(a: ArenaV, cs: Seq<Key>, i: int, j: int)
    requires
        0 <= i <= cs.len(),
        0 <= j < crate::reconciler::layout_children_prefix(a, cs, i).len(),
    ensures
        exists|l: int|
            0 <= l < i && #[trigger] cs[l] == crate::reconciler::layout_children_prefix(
                a,
                cs,
                i,
            )[j] && a.live(cs[l]) && a.node(cs[l]).facets is Some,
    decreases i,
{
    let pre = crate::reconciler::layout_children_prefix(a, cs, i - 1);
    if i > 0 && a.live(cs[i - 1]) && a.node(cs[i - 1]).facets is Some {
        if j < pre.len() {
            lemma_layout_children_sub(a, cs, i - 1, j);
            let l = choose|l: int|
                0 <= l < i - 1 && #[trigger] cs[l] == pre[j] && a.live(cs[l]) && a.node(
                    cs[l],
                ).facets is Some;
            assert(cs[l] == crate::reconciler::layout_children_prefix(a, cs, i)[j]);
        } else {
            assert(cs[i - 1] == crate::reconciler::layout_children_prefix(a, cs, i)[j]);
        }
    } else {
        lemma_layout_children_sub(a, cs, i - 1, j);
        let l = choose|l: int|
            0 <= l < i - 1 && #[trigger] cs[l] == pre[j] && a.live(cs[l]) && a.node(
                cs[l],
            ).facets is Some;
        assert(cs[l] == crate::reconciler::layout_children_prefix(a, cs, i)[j]);
    }
}

/// The widget puts an insert plans are the facet filter of the inserted
/// keys, paired with the parent.
proof fn lemma_put_pairs_of_puts(a: ArenaV, pk: Key, keys: Seq<Key>, i: int)
    requires
        0 <= i <= keys.len(),
    ensures
        put_pairs(crate::reconciler::put_cmds_prefix(a, pk, keys, i))
            == crate::reconciler::layout_children_prefix(a, keys, i).map_values(
            |c: Key| (pk, c),
        ),
    decreases i,
{
    reveal_with_fuel(put_pairs, 4);
    if i <= 0 {
        assert(crate::reconciler::layout_children_prefix(a, keys, 0).map_values(
            |c: Key| (pk, c),
        ) =~= Seq::<(Key, Key)>::empty());
    } else {
        lemma_put_pairs_of_puts(a, pk, keys, i - 1);
        let pre = crate::reconciler::put_cmds_prefix(a, pk, keys, i - 1);
        let k = keys[i - 1];
        if a.live(k) && a.node(k).facets is Some {
            let cmd = CommandV::PutChild { parent: pk, child: k };
            assert(crate::reconciler::put_cmds_prefix(a, pk, keys, i) == pre.push(cmd));
            assert(pre.push(cmd).drop_last() =~= pre);
            assert(pre.push(cmd).last() == cmd);
            assert(put_pairs(pre.push(cmd)) =~= put_pairs(pre) + seq![(pk, k)]);
            assert(crate::reconciler::layout_children_prefix(a, keys, i).map_values(
                |c: Key| (pk, c),
            ) =~= crate::reconciler::layout_children_prefix(a, keys, i - 1).map_values(
                |c: Key| (pk, c),
            ) + seq![(pk, k)]);
        }
    }
}

/// An insert keeps the two trees in step in any state: every widget put
/// it plans is into the sibling's parent, whose layout children it
/// re-syncs last, and each put child stands in that synced list — so the
/// layout tree covers every widget the insert placed.
pub proof fn lemma_insert_cmds_agree(v: RendV, stack: Seq<u64>, root: u64, n_raw: u64, after: bool)
    requires
        crate::reconciler::insert_siblings_spec(v, stack, root, n_raw, after) is Ok,
    ensures
        ({
            let cmds = crate::reconciler::insert_siblings_spec(
                v,
                stack,
                root,
                n_raw,
                after,
            )->Ok_0.cmds;
            let pk = v.arena.node(v.resolved(root)->0).layout_parent->0;
            &&& cmds.len() > 0
            &&& (cmds.last() matches CommandV::SyncLayoutChildren { parent, children } && parent
                == pk && (forall|j: int|
                0 <= j < put_pairs(cmds).len() ==> (#[trigger] put_pairs(cmds)[j]).0 == pk
                    && children.contains(put_pairs(cmds)[j].1)))
        }),
{
    reveal_with_fuel(put_pairs, 4);
    let n = n_raw as int;
    let rk = v.resolved(root)->0;
    let pk = v.arena.node(rk).layout_parent->0;
    let child_ids = stack.subrange(stack.len() - n, stack.len() as int);
    let keys = crate::reconciler::validate_children_from(
        v,
        child_ids,
        0,
        Seq::empty(),
        pk,
        None,
        None,
    )->Ok_0;
    let siblings = v.arena.node(pk).facets->0.children;
    let pos = crate::reconciler::first_index_of(siblings, rk, 0)->0 + if after {
        1int
    } else {
        0int
    };
    let a = v.arena;
    let old_children = a.node(pk).facets->0.children;
    let new_children = old_children.subrange(0, pos) + keys + old_children.subrange(
        pos,
        old_children.len() as int,
    );
    let pn = a.node(pk);
    let a1 = a.update_node(pk, pn.with_facets(Some(pn.facets->0.with_children(new_children))));
    let a2 = crate::reconciler::set_backlinks_prefix(a1, pk, keys, keys.len() as int);
    let put_cmds = crate::reconciler::put_cmds_prefix(a2, pk, keys, keys.len() as int);
    let synced = crate::reconciler::layout_children_prefix(
        a2,
        new_children,
        new_children.len() as int,
    );
    let sync_cmd = CommandV::SyncLayoutChildren { parent: pk, children: synced };
    let cmds = crate::reconciler::insert_siblings_spec(v, stack, root, n_raw, after)->Ok_0.cmds;
    assert(cmds == put_cmds + seq![sync_cmd]);
    assert(cmds.len() > 0);
    assert(cmds.last() == sync_cmd);

    lemma_pairs_concat(put_cmds, seq![sync_cmd]);
    assert(put_pairs(seq![sync_cmd]) =~= Seq::<(Key, Key)>::empty()) by {
        assert(seq![sync_cmd].drop_last() =~= Seq::<CommandV>::empty());
    }
    assert(put_pairs(cmds) =~= put_pairs(put_cmds));
    lemma_put_pairs_of_puts(a2, pk, keys, keys.len() as int);
    let filtered = crate::reconciler::layout_children_prefix(a2, keys, keys.len() as int);
    assert forall|j: int| 0 <= j < put_pairs(cmds).len() implies (#[trigger] put_pairs(
        cmds,
    )[j]).0 == pk && synced.contains(put_pairs(cmds)[j].1) by {
        assert(put_pairs(cmds)[j] == filtered.map_values(|c: Key| (pk, c))[j]);
        let c = filtered[j];
        assert(put_pairs(cmds)[j] == (pk, c));
        lemma_layout_children_sub(a2, keys, keys.len() as int, j);
        let l = choose|l: int|
            0 <= l < keys.len() && #[trigger] keys[l] == c && a2.live(keys[l]) && a2.node(
                keys[l],
            ).facets is Some;
        assert(new_children[old_children.subrange(0, pos).len() + l] == c);
        lemma_layout_children_member(
            a2,
            new_children,
            new_children.len() as int,
            old_children.subrange(0, pos).len() + l,
        );
    }
}


/// Creation keeps the two trees in step in any state: a successful
/// `CreateElement` plans the widget construction and the layout-node
/// construction together — same key, same kind, the kind's initial style —
/// and nothing else.
pub proof fn lemma_create_cmds_paired(v: RendV, stack: Seq<u64>, root: u64, tag: Seq<char>)
    requires
        crate::reconciler::create_element_spec(v, stack, root, tag) is Ok,
    ensures
        ({
            let cmds = crate::reconciler::create_element_spec(v, stack, root, tag)->Ok_0.cmds;
            let k = v.arena.alloc_key();
            let kd = crate::reconciler::kind_of_tag(tag)->0;
            cmds =~= seq![
                CommandV::CreateWidget { key: k, kind: kd },
                CommandV::CreateLayoutNode {
                    key: k,
                    kind: kd,
                    style: crate::reconciler::initial_style_spec(kd),
                },
            ]
        }),
{
}

} // verus!
