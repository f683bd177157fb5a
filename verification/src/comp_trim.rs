//! Trimming layers from the timeline: dragging a layer's start or end edge,
//! or setting where its visible part starts or ends.
//!
//! Trims are held in timeline frames (see `comp`), so a timeline delta
//! applies to them directly; a trim never goes below zero.

use vstd::prelude::*;
use crate::comp::{fits, index_of_uuid, layers_wf, lemma_index_of_uuid, max_int, CompError, CompNode, Layer};
use crate::strs::str_eq;

verus! {

/// Which trim an edge name addresses: `"in"`/`"start"` the trim at the
/// start, `"out"`/`"end"` the trim at the end; other names neither.
pub enum TrimEdge {
    Start,
    End,
    Neither,
}

pub open spec fn spec_trim_edge(edge: Seq<char>) -> TrimEdge {
    if edge == "in"@ || edge == "start"@ {
        TrimEdge::Start
    } else if edge == "out"@ || edge == "end"@ {
        TrimEdge::End
    } else {
        TrimEdge::Neither
    }
}

/// The edge an edge name addresses (see `spec_trim_edge`).
pub fn trim_edge(edge: &str) -> (r: TrimEdge)
    ensures
        r == spec_trim_edge(edge@),
{
    if str_eq(edge, "in") || str_eq(edge, "start") {
        TrimEdge::Start
    } else if str_eq(edge, "out") || str_eq(edge, "end") {
        TrimEdge::End
    } else {
        TrimEdge::Neither
    }
}

/// The trim value a drag by `delta` gives: dragging the start edge right
/// trims more at the start, dragging the end edge left trims more at the
/// end; never below zero.
pub open spec fn trimmed_value(l: Layer, e: TrimEdge, delta: int) -> int {
    match e {
        TrimEdge::Start => max_int(l.trim_in_span + delta, 0),
        TrimEdge::End => max_int(l.trim_out_span - delta, 0),
        TrimEdge::Neither => 0,
    }
}

/// A layer after a drag of edge `e` by `delta`, marked dirty; unchanged for
/// an edge name that addresses neither trim.
pub open spec fn trim_one(l: Layer, e: TrimEdge, delta: int) -> Layer {
    match e {
        TrimEdge::Start => Layer { trim_in_span: trimmed_value(l, e, delta) as i32, dirty: true, ..l },
        TrimEdge::End => Layer { trim_out_span: trimmed_value(l, e, delta) as i32, dirty: true, ..l },
        TrimEdge::Neither => l,
    }
}

/// Layers after `trim_layers`: for each uuid in order, the first layer with
/// that uuid is trimmed (see `trim_one`).
pub open spec fn trim_all(ls: Seq<Layer>, uuids: Seq<u128>, e: TrimEdge, delta: int) -> Seq<Layer>
    decreases uuids.len(),
{
    if uuids.len() == 0 {
        ls
    } else {
        let prev = trim_all(ls, uuids.drop_last(), e, delta);
        let k = index_of_uuid(prev, uuids.last());
        if k >= 0 {
            prev.update(k, trim_one(prev[k], e, delta))
        } else {
            prev
        }
    }
}

/// Every trim that `trim_layers` sets fits in `i32`.
pub open spec fn trims_fit(ls: Seq<Layer>, uuids: Seq<u128>, e: TrimEdge, delta: int) -> bool
    decreases uuids.len(),
{
    if uuids.len() == 0 {
        true
    } else {
        let prev = trim_all(ls, uuids.drop_last(), e, delta);
        let k = index_of_uuid(prev, uuids.last());
        &&& trims_fit(ls, uuids.drop_last(), e, delta)
        &&& (k >= 0 ==> fits(trimmed_value(prev[k], e, delta)))
    }
}

proof fn lemma_trims_fit_prefix(ls: Seq<Layer>, u: Seq<u128>, e: TrimEdge, delta: int, j: int)
    requires
        trims_fit(ls, u, e, delta),
        0 <= j <= u.len(),
    ensures
        trims_fit(ls, u.subrange(0, j), e, delta),
    decreases u.len(),
{
    if j < u.len() {
        lemma_trims_fit_prefix(ls, u.drop_last(), e, delta, j);
        assert(u.drop_last().subrange(0, j) =~= u.subrange(0, j));
    } else {
        assert(u.subrange(0, j) =~= u);
    }
}

/// Trims never go below zero: every layer that `trim_layers` touches ends
/// with a trim of at least zero on the edge it addresses.
pub proof fn law_trim_not_negative(l: Layer, e: TrimEdge, delta: int)
    ensures
        e is Start && fits(trimmed_value(l, e, delta)) ==> trim_one(l, e, delta).trim_in_span >= 0,
        e is End && fits(trimmed_value(l, e, delta)) ==> trim_one(l, e, delta).trim_out_span >= 0,
        e is Neither ==> trim_one(l, e, delta) == l,
{
}

impl CompNode {
    /// Drag the start or end edge of the given layers by `delta` timeline
    /// frames (`edge` is `"in"`/`"start"` or `"out"`/`"end"`); trims stay
    /// at zero or above. Then mark dirty and rebound.
    pub fn trim_layers(&mut self, layer_uuids: &[u128], edge: &str, delta: i32)
        requires
            trims_fit(old(self).layers@, layer_uuids@, spec_trim_edge(edge@), delta as int),
            layers_wf(trim_all(old(self).layers@, layer_uuids@, spec_trim_edge(edge@), delta as int)),
            fits(old(self).spec_work_area().0),
            fits(old(self).spec_work_area().1),
        ensures
            final(self).layers@ == trim_all(old(self).layers@, layer_uuids@, spec_trim_edge(edge@), delta as int),
            *final(self) == (CompNode { layers: final(self).layers, ..old(self).spec_rebound_with(final(self).layers@) }),
    {
        let e = trim_edge(edge);
        let ghost s0 = *self;
        let mut i: usize = 0;
        proof {
            assert(layer_uuids@.subrange(0, 0) =~= Seq::<u128>::empty());
        }
        while i < layer_uuids.len()
            invariant
                i <= layer_uuids@.len(),
                e == spec_trim_edge(edge@),
                trims_fit(s0.layers@, layer_uuids@, e, delta as int),
                self.layers@ == trim_all(s0.layers@, layer_uuids@.subrange(0, i as int), e, delta as int),
                *self == (CompNode { layers: self.layers, ..s0 }),
            decreases layer_uuids@.len() - i,
        {
            let u = layer_uuids[i];
            proof {
                let pre = layer_uuids@.subrange(0, i + 1);
                assert(pre.drop_last() =~= layer_uuids@.subrange(0, i as int));
                assert(pre.last() == u);
                lemma_trims_fit_prefix(s0.layers@, layer_uuids@, e, delta as int, i + 1);
                lemma_index_of_uuid(self.layers@, u);
            }
            match crate::comp::position_of_uuid(self.layers.as_slice(), u) {
                Some(k) => {
                    match e {
                        TrimEdge::Start => {
                            let v: i64 = self.layers[k].trim_in_span as i64 + delta as i64;
                            let v: i64 = if v < 0 { 0 } else { v };
                            self.layers[k].trim_in_span = v as i32;
                            self.layers[k].dirty = true;
                        },
                        TrimEdge::End => {
                            let v: i64 = self.layers[k].trim_out_span as i64 - delta as i64;
                            let v: i64 = if v < 0 { 0 } else { v };
                            self.layers[k].trim_out_span = v as i32;
                            self.layers[k].dirty = true;
                        },
                        TrimEdge::Neither => {},
                    }
                },
                None => {},
            }
            i = i + 1;
        }
        proof {
            assert(layer_uuids@.subrange(0, layer_uuids@.len() as int) =~= layer_uuids@);
        }
        self.dirty = true;
        self.rebound();
    }

    /// Make the visible part of layer `layer_idx` start at
    /// `new_play_start`: its start trim becomes the distance from the
    /// layer's start (zero when before it). Then mark dirty and rebound.
    pub fn set_child_start(&mut self, layer_idx: usize, new_play_start: i32) -> (r: Result<(), CompError>)
        requires
            layer_idx < old(self).layers@.len() ==> layers_wf(old(self).layers@.update(
                layer_idx as int,
                Layer {
                    trim_in_span: max_int(new_play_start - old(self).layers@[layer_idx as int].in_frame, 0) as i32,
                    dirty: true,
                    ..old(self).layers@[layer_idx as int]
                },
            )),
            layer_idx < old(self).layers@.len() ==> fits(new_play_start - old(self).layers@[layer_idx as int].in_frame),
            fits(old(self).spec_work_area().0),
            fits(old(self).spec_work_area().1),
        ensures
            layer_idx < old(self).layers@.len() ==> {
                &&& r is Ok
                &&& final(self).layers@ == old(self).layers@.update(
                    layer_idx as int,
                    Layer {
                        trim_in_span: max_int(new_play_start - old(self).layers@[layer_idx as int].in_frame, 0) as i32,
                        dirty: true,
                        ..old(self).layers@[layer_idx as int]
                    },
                )
                &&& *final(self) == (CompNode { layers: final(self).layers, ..old(self).spec_rebound_with(final(self).layers@) })
            },
            layer_idx >= old(self).layers@.len() ==> r == Err::<(), CompError>(CompError::LayerIndexOutOfBounds)
                && *final(self) == *old(self),
    {
        if layer_idx >= self.layers.len() {
            return Err(CompError::LayerIndexOutOfBounds);
        }
        let d: i32 = new_play_start - self.layers[layer_idx].in_frame;
        self.layers[layer_idx].trim_in_span = if d < 0 { 0 } else { d };
        self.layers[layer_idx].dirty = true;
        self.dirty = true;
        proof {
            let l0 = old(self).layers@[layer_idx as int];
            assert(self.layers@ =~= old(self).layers@.update(
                layer_idx as int,
                Layer { trim_in_span: max_int(new_play_start - l0.in_frame, 0) as i32, dirty: true, ..l0 },
            ));
        }
        self.rebound();
        Ok(())
    }

    /// Make the visible part of layer `layer_idx` end at `new_play_end`:
    /// its end trim becomes the distance to the layer's end (zero when
    /// after it). Then mark dirty and rebound.
    pub fn set_child_end(&mut self, layer_idx: usize, new_play_end: i32) -> (r: Result<(), CompError>)
        requires
            layer_idx < old(self).layers@.len() ==> layers_wf(old(self).layers@.update(
                layer_idx as int,
                Layer {
                    trim_out_span: max_int(old(self).layers@[layer_idx as int].spec_end() - new_play_end, 0) as i32,
                    dirty: true,
                    ..old(self).layers@[layer_idx as int]
                },
            )),
            layer_idx < old(self).layers@.len() ==> old(self).layers@[layer_idx as int].wf(),
            layer_idx < old(self).layers@.len() ==> fits(old(self).layers@[layer_idx as int].spec_end() - new_play_end),
            fits(old(self).spec_work_area().0),
            fits(old(self).spec_work_area().1),
        ensures
            layer_idx < old(self).layers@.len() ==> {
                &&& r is Ok
                &&& final(self).layers@ == old(self).layers@.update(
                    layer_idx as int,
                    Layer {
                        trim_out_span: max_int(old(self).layers@[layer_idx as int].spec_end() - new_play_end, 0) as i32,
                        dirty: true,
                        ..old(self).layers@[layer_idx as int]
                    },
                )
                &&& *final(self) == (CompNode { layers: final(self).layers, ..old(self).spec_rebound_with(final(self).layers@) })
            },
            layer_idx >= old(self).layers@.len() ==> r == Err::<(), CompError>(CompError::LayerIndexOutOfBounds)
                && *final(self) == *old(self),
    {
        if layer_idx >= self.layers.len() {
            return Err(CompError::LayerIndexOutOfBounds);
        }
        let end: i32 = self.layers[layer_idx].end();
        let d: i32 = end - new_play_end;
        self.layers[layer_idx].trim_out_span = if d < 0 { 0 } else { d };
        self.layers[layer_idx].dirty = true;
        self.dirty = true;
        proof {
            let l0 = old(self).layers@[layer_idx as int];
            assert(self.layers@ =~= old(self).layers@.update(
                layer_idx as int,
                Layer { trim_out_span: max_int(l0.spec_end() - new_play_end, 0) as i32, dirty: true, ..l0 },
            ));
        }
        self.rebound();
        Ok(())
    }
}

} // verus!
