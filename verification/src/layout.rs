//! Planning a layout pass over the retained tree.
//!
//! The flex solve itself is the external layout engine's work; this module
//! decides whether a pass can run and which widgets get repositioned
//! afterwards: starting from the compute root, the resulting tree is
//! walked depth first, and every visited non-root node whose layout
//! parent owns an absolute-position surface is moved to its computed
//! location inside that surface. Container kinds — which have no
//! intrinsic-size negotiation of their own — also get their computed size
//! set explicitly. Nodes not reachable from the root are left untouched.

use vstd::prelude::*;
use vstd::set_lib::{lemma_int_range, lemma_len_subset, set_int_range};
use crate::arena::ArenaV;
use crate::node::{has_layout_surface, Key, NodeKind, WidgetFacet};
use crate::ops::Error;
use crate::reconciler::{RendV, Renderer};

verus! {

/// One geometry application: after the compute pass, move `node`'s widget
/// inside `parent`'s surface to the computed position (and, when
/// `explicit_size` holds, set the computed width and height on it too).
#[derive(Clone, Copy, Debug, PartialEq, Eq, Structural)]
pub struct MoveCmd {
    pub node: Key,
    pub parent: Key,
    pub explicit_size: bool,
}

/// A planned layout pass: the layout-tree root to compute from, and the
/// geometry applications that follow, in visit order.
#[derive(Debug)]
pub struct LayoutPlan {
    pub root: Key,
    pub moves: Vec<MoveCmd>,
}

/// The key a compute pass starts from: the configured root id must be
/// bound to a live window node.
pub open spec fn compute_root(v: RendV) -> Option<Key> {
    match v.resolved(v.root_id) {
        None => None,
        Some(k) => {
            if v.arena.live(k) && v.arena.node(k).facets is Some && v.arena.node(
                k,
            ).facets->0.widget is Window {
                Some(k)
            } else {
                None
            }
        },
    }
}

/// Whether slot `i` holds a node whose widget is repositioned when the
/// walk visits it.
pub open spec fn slot_moves(a: ArenaV, i: int) -> bool {
    &&& a.slots[i].node is Some
    &&& a.slots[i].node->0.facets is Some
    &&& match a.slots[i].node->0.layout_parent {
        Some(p) => a.live(p) && a.node(p).facets is Some && has_layout_surface(
            a.node(p).facets->0.widget.kind(),
        ),
        None => false,
    }
}

/// The geometry application for slot `i`.
pub open spec fn move_of_slot(a: ArenaV, i: int) -> MoveCmd {
    MoveCmd {
        node: Key { index: i as usize, generation: a.slots[i].generation },
        parent: a.slots[i].node->0.layout_parent->0,
        explicit_size: has_layout_surface(a.slots[i].node->0.facets->0.widget.kind()),
    }
}

/// A visited set is a finite set of slot indices.
pub open spec fn walk_wf(a: ArenaV, visited: Set<int>) -> bool {
    visited.finite() && visited.subset_of(set_int_range(0, a.slots.len() as int))
}

/// Depth-first geometry walk. The top of the worklist is popped; a dead
/// or already visited key is skipped; otherwise the node is marked
/// visited, moved when it is not the compute root and [`slot_moves`]
/// holds of it, and its children are pushed. The visited set bounds the
/// walk even on degenerate child graphs.
pub open spec fn walk_moves(a: ArenaV, root: Key, stack: Seq<Key>, visited: Set<int>) -> Seq<
    MoveCmd,
>
    decreases a.slots.len() - visited.len(), stack.len()
        when walk_wf(a, visited)
{
    if stack.len() == 0 {
        Seq::empty()
    } else {
        let k = stack.last();
        let rest = stack.drop_last();
        if !a.live(k) || visited.contains(k.index as int) {
            walk_moves(a, root, rest, visited)
        } else {
            proof {
                lemma_int_range(0, a.slots.len() as int);
                lemma_len_subset(visited, set_int_range(0, a.slots.len() as int));
                vstd::set::axiom_set_insert_len(visited, k.index as int);
            }
            let visited2 = visited.insert(k.index as int);
            proof {
                assert(visited2.subset_of(set_int_range(0, a.slots.len() as int)));
                lemma_len_subset(visited2, set_int_range(0, a.slots.len() as int));
            }
            let mv = if k != root && slot_moves(a, k.index as int) {
                seq![move_of_slot(a, k.index as int)]
            } else {
                Seq::<MoveCmd>::empty()
            };
            mv + walk_moves(a, root, rest + a.node(k).children(), visited2)
        }
    }
}

/// The whole planned move list of one pass from `root`.
pub open spec fn plan_moves(v: RendV, root: Key) -> Seq<MoveCmd> {
    walk_moves(v.arena, root, seq![root], Set::empty())
}

/// A layout pass plans from the retained state alone: two passes with no
/// mutation between them produce identical plans, so re-running the
/// compute over unchanged styles and measurements re-applies identical
/// geometry. (The numeric flex solve itself belongs to the external
/// engine, outside what this library states.)
pub proof fn lemma_layout_plan_deterministic(v1: RendV, v2: RendV, root: Key)
    requires
        v1 == v2,
    ensures
        compute_root(v1) == compute_root(v2),
        plan_moves(v1, root) == plan_moves(v2, root),
{
}

impl Renderer {
    /// Plans a layout pass. An unbound or stale root id means the diff
    /// engine and the retained tree have desynchronized: that is the
    /// fatal dangling reference, surfaced loudly. A bound root that is
    /// not a window plans nothing (`Ok(None)`); a window yields the
    /// compute root and the depth-first geometry applications.
    #[verifier::loop_isolation(false)]
    #[verifier::rlimit(100)]
    pub fn recalculate_layout(&self) -> (r: Result<Option<LayoutPlan>, Error>)
        ensures
            self@.resolved(self@.root_id) is None ==> r == Err::<Option<LayoutPlan>, Error>(
                Error::DanglingReference,
            ),
            (self@.resolved(self@.root_id) matches Some(k) && !self@.arena.live(k)) ==> r == Err::<
                Option<LayoutPlan>,
                Error,
            >(Error::DanglingReference),
            (self@.resolved(self@.root_id) matches Some(k) && self@.arena.live(k) && compute_root(
                self@,
            ) is None) ==> r == Ok::<Option<LayoutPlan>, Error>(None),
            compute_root(self@) matches Some(k) ==> (r matches Ok(op) && op matches Some(plan)
                && plan.root == k && plan.moves@ == plan_moves(self@, k)),
    {
        let rid = self.root_id();
        let a = self.arena_ref();
        let root = match a.resolve(rid) {
            Ok(k) => k,
            Err(_) => {
                return Err(Error::DanglingReference);
            },
        };
        if !a.is_live(root) {
            return Err(Error::DanglingReference);
        }
        let is_window = {
            let node = a.node_ref(root);
            match &node.facets {
                Some(f) => matches!(f.widget, WidgetFacet::Window { .. }),
                None => false,
            }
        };
        if !is_window {
            return Ok(None);
        }
        let n = a.slot_count();
        let mut visited: Vec<bool> = Vec::new();
        let mut fill: usize = 0;
        while fill < n
            invariant
                0 <= fill <= n,
                visited@.len() == fill,
                forall|i: int| 0 <= i < fill ==> !visited@[i],
            decreases n - fill,
        {
            visited.push(false);
            fill = fill + 1;
        }
        let ghost vset = Set::<int>::empty();
        let mut stack: Vec<Key> = Vec::new();
        stack.push(root);
        let mut moves: Vec<MoveCmd> = Vec::new();
        proof {
            lemma_int_range(0, n as int);
            assert(vset.subset_of(set_int_range(0, n as int)));
            assert(stack@ =~= seq![root]);
            assert(plan_moves(self@, root) == moves@ + walk_moves(self@.arena, root, stack@, vset))
                by {
                assert(moves@ + walk_moves(self@.arena, root, stack@, vset) =~= walk_moves(
                    self@.arena,
                    root,
                    stack@,
                    vset,
                ));
            }
        }
        while stack.len() != 0
            invariant
                n == self@.arena.slots.len(),
                visited@.len() == n,
                walk_wf(self@.arena, vset),
                vset.len() <= n,
                forall|i: int| 0 <= i < n ==> (visited@[i] <==> vset.contains(i)),
                plan_moves(self@, root) == moves@ + walk_moves(self@.arena, root, stack@, vset),
            decreases n - vset.len(), stack@.len(),
        {
            let ghost stack_pre = stack@;
            let ghost vset_pre = vset;
            let ghost moves_pre = moves@;
            let k = match stack.pop() {
                Some(k) => k,
                None => {
                    proof {
                        assert(false);
                    }
                    return Err(Error::DanglingReference);
                },
            };
            proof {
                assert(stack_pre.last() == k);
                assert(stack@ =~= stack_pre.drop_last());
            }
            let fresh = a.is_live(k) && !visited[k.index];
            if fresh {
                visited[k.index] = true;
                proof {
                    lemma_int_range(0, n as int);
                    lemma_len_subset(vset_pre, set_int_range(0, n as int));
                    vstd::set::axiom_set_insert_len(vset_pre, k.index as int);
                    vstd::set::axiom_set_insert_finite(vset_pre, k.index as int);
                    vset = vset_pre.insert(k.index as int);
                    assert(vset.subset_of(set_int_range(0, n as int)));
                    lemma_len_subset(vset, set_int_range(0, n as int));
                }
                if !(k == root) {
                    let movable = {
                        let node = a.node_ref(k);
                        match (&node.facets, node.layout_parent) {
                            (Some(_), Some(p)) => {
                                if a.is_live(p) {
                                    let pn = a.node_ref(p);
                                    match &pn.facets {
                                        Some(pf) => {
                                            let kd = pf.widget.kind();
                                            kd == NodeKind::Container || kd == NodeKind::Window
                                        },
                                        None => false,
                                    }
                                } else {
                                    false
                                }
                            },
                            _ => false,
                        }
                    };
                    if movable {
                        let node = a.node_ref(k);
                        let parent = match node.layout_parent {
                            Some(p) => p,
                            None => {
                                proof {
                                    assert(false);
                                }
                                return Err(Error::DanglingReference);
                            },
                        };
                        let explicit_size = {
                            match &node.facets {
                                Some(f) => {
                                    let kd = f.widget.kind();
                                    kd == NodeKind::Container || kd == NodeKind::Window
                                },
                                None => false,
                            }
                        };
                        moves.push(MoveCmd { node: k, parent, explicit_size });
                        proof {
                            assert(slot_moves(self@.arena, k.index as int));
                            assert(MoveCmd { node: k, parent, explicit_size } == move_of_slot(
                                self@.arena,
                                k.index as int,
                            ));
                        }
                    } else {
                        proof {
                            assert(!slot_moves(self@.arena, k.index as int));
                        }
                    }
                }
                // push the children; the spec appends them to the rest of
                // the worklist in order
                let has_facets = a.node_ref(k).facets.is_some();
                if has_facets {
                    let cs = a.children_vec(k);
                    let cn = cs.len();
                    let ghost stack_mid = stack@;
                    let mut j: usize = 0;
                    while j < cn
                        invariant
                            0 <= j <= cn,
                            cn == cs@.len(),
                            cs@ == self@.arena.node(k).children(),
                            stack@ == stack_mid + cs@.subrange(0, j as int),
                        decreases cn - j,
                    {
                        stack.push(cs[j]);
                        proof {
                            assert(stack@ =~= stack_mid + cs@.subrange(0, j + 1 as int));
                        }
                        j = j + 1;
                    }
                    proof {
                        assert(stack@ =~= stack_mid + self@.arena.node(k).children());
                    }
                } else {
                    proof {
                        assert(self@.arena.node(k).children() =~= Seq::<Key>::empty());
                        assert(stack@ =~= stack_pre.drop_last() + self@.arena.node(k).children());
                    }
                }
            }
            proof {
                if fresh {
                    let mv = if k != root && slot_moves(self@.arena, k.index as int) {
                        seq![move_of_slot(self@.arena, k.index as int)]
                    } else {
                        Seq::<MoveCmd>::empty()
                    };
                    assert(walk_moves(self@.arena, root, stack_pre, vset_pre) == mv + walk_moves(
                        self@.arena,
                        root,
                        stack_pre.drop_last() + self@.arena.node(k).children(),
                        vset,
                    ));
                    assert(stack@ =~= stack_pre.drop_last() + self@.arena.node(k).children());
                    assert(moves@ =~= moves_pre + mv);
                    assert(moves_pre + (mv + walk_moves(self@.arena, root, stack@, vset)) =~= (
                    moves_pre + mv) + walk_moves(self@.arena, root, stack@, vset));
                    assert(plan_moves(self@, root) == moves@ + walk_moves(
                        self@.arena,
                        root,
                        stack@,
                        vset,
                    ));
                } else {
                    assert(walk_moves(self@.arena, root, stack_pre, vset) == walk_moves(
                        self@.arena,
                        root,
                        stack@,
                        vset,
                    ));
                    assert(moves@ == moves_pre);
                }
            }
        }
        proof {
            assert(walk_moves(self@.arena, root, stack@, vset) =~= Seq::<MoveCmd>::empty());
            assert(plan_moves(self@, root) =~= moves@);
        }
        Ok(Some(LayoutPlan { root, moves }))
    }
}

} // verus!
