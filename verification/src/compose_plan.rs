//! Which file frames composing a frame needs: the layers that show are
//! followed down into their sources, into nested compositions too, until
//! file nodes are reached; a composition met again on the way (a cycle)
//! contributes a placeholder, so nothing.
//!
//! A layer maps a frame of its parent to its source's frame at speed 1:
//! `source.in + (frame - layer.in)`.

use vstd::prelude::*;
use crate::comp::{fits, CompNode, Layer};
use crate::compose::{any_solo, compose_order, contributes};
use crate::ids::contains_id;
use crate::node::NodeKind;
use crate::project::{copy_ids, has_node, node_index, position_in, Project};

verus! {

/// The start of a node on its own timeline.
pub open spec fn node_in(n: NodeKind) -> int {
    match n {
        NodeKind::File(f) => f.in_frame as int,
        NodeKind::Comp(c) => c.in_frame as int,
    }
}

/// The file frames that frame `f` of node `u` needs, bottom of the stack
/// first, while the compositions on `stack` are being composed: a file
/// node needs its frame `f`; a missing node, and a composition already on
/// the stack, need nothing; a composition needs what its showing layers
/// need (see `plan_layers`). `None` when a position falls outside `i32`.
pub open spec fn plan_at(media: Seq<NodeKind>, u: u128, f: int, stack: Seq<u128>) -> Option<Seq<(u128, i32)>>
    decreases media.len() - stack.len(), 0int, 0int,
{
    let k = node_index(media, u);
    if k < 0 {
        Some(Seq::empty())
    } else {
        match media[k] {
            NodeKind::File(_) => Some(seq![(u, f as i32)]),
            NodeKind::Comp(c) => if stack.contains(u) || stack.len() >= media.len() {
                Some(Seq::empty())
            } else if !c.wf() {
                None
            } else {
                plan_layers(media, c.layers@, compose_order(c.layers@, f, any_solo(c.layers@)), f, stack.push(u))
            },
        }
    }
}

/// What the layers `order` (indices into `ls`) of a composition at frame
/// `f` need, in that order: a layer whose source is missing needs nothing;
/// otherwise what its source needs at `source.in + (f - layer.in)`.
pub open spec fn plan_layers(
    media: Seq<NodeKind>,
    ls: Seq<Layer>,
    order: Seq<int>,
    f: int,
    stack: Seq<u128>,
) -> Option<Seq<(u128, i32)>>
    decreases media.len() - stack.len(), 1int, order.len(),
{
    if order.len() == 0 {
        Some(Seq::empty())
    } else {
        let l = ls[order[0]];
        let rest = plan_layers(media, ls, order.drop_first(), f, stack);
        let k = node_index(media, l.source_uuid);
        if k < 0 {
            rest
        } else {
            let sf = node_in(media[k]) + (f - l.in_frame);
            if !fits(sf) {
                None
            } else {
                match (plan_at(media, l.source_uuid, sf, stack), rest) {
                    (Some(a), Some(b)) => Some(a + b),
                    _ => None,
                }
            }
        }
    }
}


/// Where a layer's source stands at a frame of the layer's parent.
#[derive(Clone, Copy, Debug, PartialEq, Eq, Structural)]
pub enum SourceFrame {
    /// The source is not in the pool.
    Missing,
    /// The source frame falls outside `i32`.
    OutOfRange,
    /// The source's frame.
    At(i32),
}

/// The source frame of layer `l` at frame `f` of its parent:
/// `source.in + (f - layer.in)`.
pub open spec fn spec_source_frame(media: Seq<NodeKind>, l: Layer, f: int) -> SourceFrame {
    let k = node_index(media, l.source_uuid);
    if k < 0 {
        SourceFrame::Missing
    } else if !fits(node_in(media[k]) + (f - l.in_frame)) {
        SourceFrame::OutOfRange
    } else {
        SourceFrame::At((node_in(media[k]) + (f - l.in_frame)) as i32)
    }
}

/// The frame of its source that layer `l` shows at frame `f` of its
/// parent (see `spec_source_frame`).
pub fn source_frame(media: &[NodeKind], l: &Layer, f: i32) -> (r: SourceFrame)
    ensures
        r == spec_source_frame(media@, *l, f as int),
{
    let k = match position_in(media, l.source_uuid) {
        Some(k) => k,
        None => return SourceFrame::Missing,
    };
    let sf: i64 = media[k]._in() as i64 + (f as i64 - l.in_frame as i64);
    if sf < i32::MIN as i64 || sf > i32::MAX as i64 {
        SourceFrame::OutOfRange
    } else {
        SourceFrame::At(sf as i32)
    }
}

/// The plain-value view of an optional plan.
pub open spec fn plan_view(r: Option<Vec<(u128, i32)>>) -> Option<Seq<(u128, i32)>> {
    match r {
        Some(v) => Some(v@),
        None => None,
    }
}

proof fn lemma_compose_order_bounds(ls: Seq<Layer>, f: int, h: bool)
    ensures
        forall|i: int| 0 <= i < compose_order(ls, f, h).len() ==> 0 <= #[trigger] compose_order(ls, f, h)[i] < ls.len(),
    decreases ls.len(),
{
    if ls.len() > 0 {
        lemma_compose_order_bounds(ls.drop_last(), f, h);
        let rest = compose_order(ls.drop_last(), f, h);
        if contributes(ls.last(), f, h) {
            assert forall|i: int| 0 <= i < compose_order(ls, f, h).len() implies 0 <= #[trigger] compose_order(ls, f, h)[i] < ls.len() by {
                if i > 0 {
                    assert(compose_order(ls, f, h)[i] == rest[i - 1]);
                }
            }
        }
    }
}

/// What frame `f` of node `u` needs (see `plan_at`).
fn plan_node(media: &[NodeKind], u: u128, f: i32, stack: &Vec<u128>) -> (r: Option<Vec<(u128, i32)>>)
    ensures
        plan_view(r) == plan_at(media@, u, f as int, stack@),
    decreases media@.len() - stack@.len(), 0int, 0int,
{
    match position_in(media, u) {
        None => Some(Vec::new()),
        Some(k) => match &media[k] {
            NodeKind::File(_) => {
                let mut v: Vec<(u128, i32)> = Vec::new();
                v.push((u, f));
                proof {
                    assert(v@ =~= seq![(u, f as i32)]);
                }
                Some(v)
            },
            NodeKind::Comp(c) => {
                if contains_id(stack.as_slice(), u) || stack.len() >= media.len() {
                    return Some(Vec::new());
                }
                if !c.positions_fit() {
                    return None;
                }
                let order = c.compose_layers(f);
                let mut s2 = copy_ids(stack.as_slice());
                s2.push(u);
                proof {
                    lemma_compose_order_bounds(c.layers@, f as int, any_solo(c.layers@));
                    let co = compose_order(c.layers@, f as int, any_solo(c.layers@));
                    assert forall|i: int| 0 <= i < order@.len() implies (#[trigger] order@[i]) < c.layers@.len() by {
                        assert(order@.map_values(|i: usize| i as int)[i] == co[i]);
                    }
                    assert(order@.map_values(|i: usize| i as int).subrange(0, order@.len() as int)
                        =~= order@.map_values(|i: usize| i as int));
                }
                plan_layers_from(media, &c.layers, &order, 0, f, &s2)
            },
        },
    }
}

/// What the layers `order[from..]` of a composition at frame `f` need
/// (see `plan_layers`).
fn plan_layers_from(
    media: &[NodeKind],
    ls: &Vec<Layer>,
    order: &Vec<usize>,
    from: usize,
    f: i32,
    stack: &Vec<u128>,
) -> (r: Option<Vec<(u128, i32)>>)
    requires
        from <= order@.len(),
        forall|i: int| 0 <= i < order@.len() ==> (#[trigger] order@[i]) < ls@.len(),
    ensures
        plan_view(r) == plan_layers(
            media@,
            ls@,
            order@.map_values(|i: usize| i as int).subrange(from as int, order@.len() as int),
            f as int,
            stack@,
        ),
    decreases media@.len() - stack@.len(), 1int, order@.len() - from,
{
    let ghost ov = order@.map_values(|i: usize| i as int).subrange(from as int, order@.len() as int);
    if from == order.len() {
        proof {
            assert(ov.len() == 0);
        }
        return Some(Vec::new());
    }
    proof {
        assert(ov[0] == order@[from as int] as int);
        assert(ov.drop_first() =~= order@.map_values(|i: usize| i as int).subrange(from + 1, order@.len() as int));
    }
    let l = &ls[order[from]];
    let rest = plan_layers_from(media, ls, order, from + 1, f, stack);
    let sf = match source_frame(media, l, f) {
        SourceFrame::Missing => return rest,
        SourceFrame::OutOfRange => return None,
        SourceFrame::At(sf) => sf,
    };
    let a = plan_node(media, l.source_uuid, sf, stack);
    match (a, rest) {
        (Some(mut a), Some(mut b)) => {
            let ghost av = a@;
            let ghost bv = b@;
            a.append(&mut b);
            proof {
                assert(a@ =~= av + bv);
            }
            Some(a)
        },
        _ => None,
    }
}


/// Every entry of a plan is a file node of the pool.
pub open spec fn only_files(media: Seq<NodeKind>, p: Seq<(u128, i32)>) -> bool {
    forall|i: int| 0 <= i < p.len() ==> has_node(media, (#[trigger] p[i]).0) && media[node_index(media, p[i].0)] is File
}

proof fn lemma_plan_at_files(media: Seq<NodeKind>, u: u128, f: int, stack: Seq<u128>)
    ensures
        plan_at(media, u, f, stack) matches Some(p) ==> only_files(media, p),
    decreases media.len() - stack.len(), 0int, 0int,
{
    let k = node_index(media, u);
    if k >= 0 {
        match media[k] {
            NodeKind::File(_) => {},
            NodeKind::Comp(c) => {
                if !(stack.contains(u) || stack.len() >= media.len()) && c.wf() {
                    lemma_plan_layers_files(
                        media,
                        c.layers@,
                        compose_order(c.layers@, f, any_solo(c.layers@)),
                        f,
                        stack.push(u),
                    );
                }
            },
        }
    }
}

proof fn lemma_plan_layers_files(media: Seq<NodeKind>, ls: Seq<Layer>, order: Seq<int>, f: int, stack: Seq<u128>)
    ensures
        plan_layers(media, ls, order, f, stack) matches Some(p) ==> only_files(media, p),
    decreases media.len() - stack.len(), 1int, order.len(),
{
    if order.len() > 0 {
        let l = ls[order[0]];
        lemma_plan_layers_files(media, ls, order.drop_first(), f, stack);
        let k = node_index(media, l.source_uuid);
        if k >= 0 {
            let sf = node_in(media[k]) + (f - l.in_frame);
            if fits(sf) {
                lemma_plan_at_files(media, l.source_uuid, sf, stack);
                match (plan_at(media, l.source_uuid, sf, stack), plan_layers(media, ls, order.drop_first(), f, stack)) {
                    (Some(a), Some(b)) => {
                        assert forall|i: int| 0 <= i < (a + b).len() implies has_node(media, (#[trigger] (a + b)[i]).0)
                            && media[node_index(media, (a + b)[i].0)] is File by {
                            if i < a.len() {
                                assert((a + b)[i] == a[i]);
                            } else {
                                assert((a + b)[i] == b[i - a.len()]);
                            }
                        }
                    },
                    _ => {},
                }
            }
        }
    }
}

/// Composing reaches files only: every frame a plan asks for belongs to a
/// file node of the pool.
pub proof fn law_frame_sources_are_files(media: Seq<NodeKind>, u: u128, f: int)
    ensures
        plan_at(media, u, f, Seq::empty()) matches Some(p) ==> only_files(media, p),
{
    lemma_plan_at_files(media, u, f, Seq::empty());
}

impl Project {
    /// The file frames composing frame `frame` of node `uuid` needs, bottom
    /// of the stack first, as (file node, its frame) (see `plan_at`); a
    /// file node needs its own frame. `None` when a position falls outside
    /// `i32`.
    pub fn frame_sources(&self, uuid: u128, frame: i32) -> (r: Option<Vec<(u128, i32)>>)
        ensures
            plan_view(r) == plan_at(self.media@, uuid, frame as int, Seq::empty()),
    {
        let stack: Vec<u128> = Vec::new();
        proof {
            assert(stack@ =~= Seq::<u128>::empty());
        }
        plan_node(self.media.as_slice(), uuid, frame, &stack)
    }
}

} // verus!
