//! Timeline edits of a composition driven by user events: layer order,
//! trims of the selected layers, the layer selection and the play area.

use vstd::prelude::*;
use crate::comp::{
    edges_of, fits, index_of_uuid, layers_wf, lemma_index_of_uuid, lemma_sorted_dedup_sorted, max_int, min_int,
    position_of_uuid, sorted_dedup, strictly_sorted,
    CompNode, Layer,
};
use crate::node::clamp_int;

verus! {

/// `index_of_uuid` only looks at the uuids.
proof fn lemma_index_same_uuids(a: Seq<Layer>, b: Seq<Layer>, u: u128)
    requires
        a.len() == b.len(),
        forall|i: int| 0 <= i < a.len() ==> (#[trigger] a[i]).uuid == b[i].uuid,
    ensures
        index_of_uuid(a, u) == index_of_uuid(b, u),
    decreases a.len(),
{
    if a.len() > 0 {
        assert(a[0].uuid == b[0].uuid);
        lemma_index_same_uuids(a.drop_first(), b.drop_first(), u);
        assert forall|i: int| 0 <= i < a.drop_first().len() implies (#[trigger] a.drop_first()[i]).uuid
            == b.drop_first()[i].uuid by {
            assert(a.drop_first()[i] == a[i + 1]);
            assert(b.drop_first()[i] == b[i + 1]);
        }
    }
}

/// Whether layer `i` is the first layer with its uuid and that uuid is
/// among `sel`.
pub open spec fn first_selected(ls: Seq<Layer>, sel: Seq<u128>, i: int) -> bool {
    sel.contains(ls[i].uuid) && index_of_uuid(ls, ls[i].uuid) == i
}

/// Distance of an edge's frame from frame `f`.
pub open spec fn edge_dist(e: (i32, bool), f: int) -> int {
    if e.0 >= f { e.0 - f } else { f - e.0 }
}

/// Edge `a` comes before edge `b` when ordered from frame `f`: nearer, or
/// as near and earlier.
pub open spec fn nearer_first(a: (i32, bool), b: (i32, bool), f: int) -> bool {
    edge_dist(a, f) < edge_dist(b, f) || (edge_dist(a, f) == edge_dist(b, f) && a.0 < b.0)
}

/// A layer with both trims cleared, marked dirty.
pub open spec fn untrimmed(l: Layer) -> Layer {
    Layer { trim_in_span: 0, trim_out_span: 0, dirty: true, ..l }
}

impl CompNode {
    /// Whether every position of the comp and its layers fits in `i32`.
    pub fn positions_fit(&self) -> (r: bool)
        ensures
            r == self.wf(),
    {
        let wi = self.in_frame as i64 + self.trim_in as i64;
        let wo = self.out_frame as i64 - self.trim_out as i64;
        let len = wo - wi + 1;
        let count = self.out_frame as i64 - self.in_frame as i64 + 1;
        let lim_lo = i32::MIN as i64;
        let lim_hi = i32::MAX as i64;
        if wi < lim_lo || wi > lim_hi || wo < lim_lo || wo > lim_hi || len < lim_lo || len > lim_hi || count < lim_lo
            || count > lim_hi {
            return false;
        }
        let mut i: usize = 0;
        while i < self.layers.len()
            invariant
                lim_lo == i32::MIN as i64,
                lim_hi == i32::MAX as i64,
                self.work_fits(),
                i <= self.layers@.len(),
                forall|j: int| 0 <= j < i ==> (#[trigger] self.layers@[j]).wf(),
            decreases self.layers@.len() - i,
        {
            let l = &self.layers[i];
            let end = l.in_frame as i64 + l.span as i64 - 1;
            let ws = l.in_frame as i64 + l.trim_in_span as i64;
            let we = end - l.trim_out_span as i64;
            proof {
                let sl = self.layers@[i as int];
                assert(end == sl.spec_end());
                assert(ws == sl.spec_work_area().0);
                assert(we == sl.spec_work_area().1);
            }
            if end < lim_lo || end > lim_hi || ws < lim_lo || ws > lim_hi || we < lim_lo || we > lim_hi {
                proof {
                    assert(!self.layers@[i as int].wf());
                }
                return false;
            }
            i = i + 1;
        }
        true
    }

    /// Move the layer at `from_idx` to `to_idx` (both must be valid and
    /// different) and mark the comp dirty; otherwise nothing changes.
    pub fn reorder_layer(&mut self, from_idx: usize, to_idx: usize)
        ensures
            if from_idx != to_idx && from_idx < old(self).layers@.len() && to_idx < old(self).layers@.len() {
                &&& final(self).layers@ == old(self).layers@.remove(from_idx as int).insert(
                    to_idx as int,
                    old(self).layers@[from_idx as int],
                )
                &&& *final(self) == (CompNode { layers: final(self).layers, dirty: true, ..*old(self) })
            } else {
                *final(self) == *old(self)
            },
    {
        if from_idx != to_idx && from_idx < self.layers.len() && to_idx < self.layers.len() {
            let layer = self.layers.remove(from_idx);
            self.layers.insert(to_idx, layer);
            self.dirty = true;
        }
    }

    /// Clear both trims of the selected layers (the first layer of each
    /// selected uuid), marking them and the comp dirty.
    pub fn reset_trims(&mut self)
        ensures
            final(self).layers@.len() == old(self).layers@.len(),
            forall|i: int| 0 <= i < old(self).layers@.len() ==> (#[trigger] final(self).layers@[i]) == if first_selected(
                old(self).layers@,
                old(self).layer_selection@,
                i,
            ) {
                untrimmed(old(self).layers@[i])
            } else {
                old(self).layers@[i]
            },
            *final(self) == (CompNode { layers: final(self).layers, dirty: true, ..*old(self) }),
    {
        let ghost s0 = *self;
        let ghost ls0 = self.layers@;
        let ghost sel = self.layer_selection@;
        let mut j: usize = 0;
        while j < self.layer_selection.len()
            invariant
                *self == (CompNode { layers: self.layers, ..s0 }),
                ls0 == s0.layers@,
                sel == s0.layer_selection@,
                j <= sel.len(),
                self.layers@.len() == ls0.len(),
                forall|i: int| 0 <= i < ls0.len() ==> (#[trigger] self.layers@[i]) == if first_selected(
                    ls0,
                    sel.subrange(0, j as int),
                    i,
                ) {
                    untrimmed(ls0[i])
                } else {
                    ls0[i]
                },
            decreases sel.len() - j,
        {
            let u = self.layer_selection[j];
            proof {
                assert forall|i: int| 0 <= i < ls0.len() implies (#[trigger] self.layers@[i]).uuid == ls0[i].uuid by {}
                lemma_index_same_uuids(self.layers@, ls0, u);
                lemma_index_of_uuid(ls0, u);
            }
            let ghost before = self.layers@;
            match position_of_uuid(self.layers.as_slice(), u) {
                Some(k) => {
                    self.layers[k].trim_in_span = 0;
                    self.layers[k].trim_out_span = 0;
                    self.layers[k].dirty = true;
                },
                None => {},
            }
            proof {
                let pre = sel.subrange(0, j as int);
                let post = sel.subrange(0, j + 1);
                assert(post =~= pre.push(u));
                assert forall|i: int| 0 <= i < ls0.len() implies (#[trigger] self.layers@[i]) == if first_selected(
                    ls0,
                    post,
                    i,
                ) {
                    untrimmed(ls0[i])
                } else {
                    ls0[i]
                } by {
                    assert(post.contains(ls0[i].uuid) == (pre.contains(ls0[i].uuid) || ls0[i].uuid == u)) by {
                        if post.contains(ls0[i].uuid) {
                            let m = choose|m: int| 0 <= m < post.len() && post[m] == ls0[i].uuid;
                            if m < pre.len() {
                                assert(pre[m] == ls0[i].uuid);
                            }
                        }
                        if pre.contains(ls0[i].uuid) {
                            let m = choose|m: int| 0 <= m < pre.len() && pre[m] == ls0[i].uuid;
                            assert(post[m] == ls0[i].uuid);
                        }
                        if ls0[i].uuid == u {
                            assert(post[pre.len() as int] == u);
                        }
                    }
                    if index_of_uuid(ls0, u) == i {
                        assert(ls0[i].uuid == u);
                    }
                }
            }
            j = j + 1;
        }
        proof {
            assert(sel.subrange(0, sel.len() as int) =~= sel);
        }
        self.dirty = true;
    }

    /// Select every layer, in order, anchored at the first.
    pub fn select_all_layers(&mut self)
        ensures
            final(self).layer_selection@.len() == old(self).layers@.len(),
            forall|i: int| 0 <= i < old(self).layers@.len() ==> #[trigger] final(self).layer_selection@[i]
                == old(self).layers@[i].uuid,
            final(self).layer_selection_anchor == (if old(self).layers@.len() > 0 {
                Some(old(self).layers@[0].uuid)
            } else {
                None
            }),
            *final(self) == (CompNode {
                layer_selection: final(self).layer_selection,
                layer_selection_anchor: final(self).layer_selection_anchor,
                ..*old(self)
            }),
    {
        let all = self.layers_uuids_vec();
        self.layer_selection = all;
        self.layer_selection_anchor = if self.layers.len() > 0 {
            Some(self.layers[0].uuid)
        } else {
            None
        };
    }

    /// Clear the layer selection and its anchor.
    pub fn clear_layer_selection(&mut self)
        ensures
            final(self).layer_selection@.len() == 0,
            *final(self) == (CompNode {
                layer_selection: final(self).layer_selection,
                layer_selection_anchor: None,
                ..*old(self)
            }),
    {
        self.layer_selection = Vec::new();
        self.layer_selection_anchor = None;
    }

    /// Reset the play area to the whole comp: both trims 0, dirty.
    pub fn reset_comp_play_area(&mut self)
        ensures
            *final(self) == (CompNode { trim_in: 0, trim_out: 0, dirty: true, ..*old(self) }),
    {
        let start = self._in();
        let end = self._out();
        self.set_comp_play_start(start);
        self.set_comp_play_end(end);
    }

    /// Set the play area from two frames in either order: the earlier,
    /// clamped to the comp's range, starts it; the later, clamped between
    /// that start and the comp's end, ends it. Marks the comp dirty.
    pub fn set_work_area_abs(&mut self, start: i32, end: i32)
        requires
            old(self).in_frame <= old(self).out_frame,
            fits(old(self).out_frame - old(self).in_frame),
        ensures
            ({
                let lo = clamp_int(min_int(start as int, end as int), old(self).in_frame as int, old(self).out_frame as int);
                let hi = clamp_int(max_int(start as int, end as int), lo, old(self).out_frame as int);
                *final(self) == (CompNode {
                    trim_in: (lo - old(self).in_frame) as i32,
                    trim_out: (old(self).out_frame - hi) as i32,
                    dirty: true,
                    ..*old(self)
                })
            }),
            final(self).spec_work_area() == ({
                let lo = clamp_int(min_int(start as int, end as int), old(self).in_frame as int, old(self).out_frame as int);
                (lo, clamp_int(max_int(start as int, end as int), lo, old(self).out_frame as int))
            }),
    {
        let comp_start = self.in_frame;
        let comp_end = self.out_frame;
        let a = if start < end { start } else { end };
        let b = if end > start { end } else { start };
        let lo = if a < comp_start { comp_start } else if a > comp_end { comp_end } else { a };
        let hi = if b < lo { lo } else if b > comp_end { comp_end } else { b };
        self.set_comp_play_start(lo);
        self.set_comp_play_end(hi);
    }

    /// Layer edges ordered by distance from `from_frame`, nearest first
    /// (of two frames equally far, the earlier first); one edge per frame,
    /// the same edges as `get_child_edges`.
    pub fn get_child_edges_near(&self, from_frame: i32) -> (r: Vec<(i32, bool)>)
        requires
            layers_wf(self.layers@),
        ensures
            r@.len() == sorted_dedup(edges_of(self.layers@)).len(),
            forall|x: (i32, bool)| r@.contains(x) <==> sorted_dedup(edges_of(self.layers@)).contains(x),
            forall|i: int, j: int| 0 <= i < j < r@.len() ==> nearer_first(#[trigger] r@[i], #[trigger] r@[j], from_frame as int),
    {
        let e = self.get_child_edges();
        let ghost ev = e@;
        proof {
            lemma_sorted_dedup_sorted(edges_of(self.layers@));
        }
        let n = e.len();
        let f = from_frame;
        let mut p: usize = 0;
        while p < n && e[p].0 < f
            invariant
                p <= n,
                n == ev.len(),
                ev == e@,
                forall|k: int| 0 <= k < p ==> (#[trigger] ev[k]).0 < f,
            decreases n - p,
        {
            p = p + 1;
        }
        proof {
            assert forall|k: int| p <= k < n implies (#[trigger] ev[k]).0 >= f by {
                if k > p {
                    assert(ev[p as int].0 < ev[k].0);
                }
            }
        }
        let mut lo: usize = p;
        let mut hi: usize = p;
        let mut out: Vec<(i32, bool)> = Vec::new();
        while lo > 0 || hi < n
            invariant
                lo <= p <= hi <= n,
                n == ev.len(),
                ev == e@,
                strictly_sorted(ev),
                forall|k: int| 0 <= k < p ==> (#[trigger] ev[k]).0 < f,
                forall|k: int| p <= k < n ==> (#[trigger] ev[k]).0 >= f,
                out@.len() == hi - lo,
                forall|x: (i32, bool)| out@.contains(x) <==> exists|k: int| lo <= k < hi && #[trigger] ev[k] == x,
                forall|i: int, j: int| 0 <= i < j < out@.len() ==> nearer_first(#[trigger] out@[i], #[trigger] out@[j], f as int),
                forall|i: int, k: int| 0 <= i < out@.len() && (0 <= k < lo || hi <= k < n) ==> nearer_first(#[trigger] out@[i], #[trigger] ev[k], f as int),
            decreases lo + (n - hi),
        {
            let take_left = if lo == 0 {
                false
            } else if hi == n {
                true
            } else {
                let da: i64 = f as i64 - e[lo - 1].0 as i64;
                let db: i64 = e[hi].0 as i64 - f as i64;
                da <= db
            };
            let x = if take_left { e[lo - 1] } else { e[hi] };
            let ghost k0: int = if take_left { lo - 1 } else { hi as int };
            let ghost ob = out@;
            proof {
                assert(x == ev[k0]);
                assert forall|k: int| (0 <= k < lo || hi <= k < n) && k != k0 implies nearer_first(x, #[trigger] ev[k], f as int) by {
                    if k < k0 {
                        assert(ev[k].0 < ev[k0].0);
                    } else if k > k0 {
                        assert(ev[k0].0 < ev[k].0);
                    }
                    if take_left && k >= hi {
                        if hi as int != k {
                            assert(ev[hi as int].0 < ev[k].0);
                        }
                    }
                    if !take_left && k < lo {
                        if k != lo - 1 {
                            assert(ev[k].0 < ev[lo - 1].0);
                        }
                    }
                }
            }
            out.push(x);
            if take_left {
                lo = lo - 1;
            } else {
                hi = hi + 1;
            }
            proof {
                assert(out@ == ob.push(x));
                assert forall|y: (i32, bool)| out@.contains(y) <==> exists|k: int| lo <= k < hi && #[trigger] ev[k] == y by {
                    if out@.contains(y) {
                        let m = choose|m: int| 0 <= m < out@.len() && out@[m] == y;
                        if m < ob.len() {
                            assert(ob[m] == y);
                            assert(ob.contains(y));
                        } else {
                            assert(ev[k0] == y);
                        }
                    }
                    if exists|k: int| lo <= k < hi && #[trigger] ev[k] == y {
                        let k = choose|k: int| lo <= k < hi && #[trigger] ev[k] == y;
                        if k == k0 {
                            assert(out@[ob.len() as int] == y);
                        } else {
                            assert(ob.contains(y));
                            let m = choose|m: int| 0 <= m < ob.len() && ob[m] == y;
                            assert(out@[m] == y);
                        }
                    }
                }
                assert forall|i: int, j: int| 0 <= i < j < out@.len() implies nearer_first(#[trigger] out@[i], #[trigger] out@[j], f as int) by {
                    if j == ob.len() {
                        assert(out@[i] == ob[i]);
                        assert(nearer_first(ob[i], ev[k0], f as int));
                    } else {
                        assert(out@[i] == ob[i] && out@[j] == ob[j]);
                    }
                }
                assert forall|i: int, k: int| 0 <= i < out@.len() && (0 <= k < lo || hi <= k < n) implies nearer_first(#[trigger] out@[i], #[trigger] ev[k], f as int) by {
                    if i == ob.len() {
                        assert(out@[i] == x);
                    } else {
                        assert(out@[i] == ob[i]);
                    }
                }
            }
        }
        proof {
            assert forall|x: (i32, bool)| out@.contains(x) <==> ev.contains(x) by {
                if ev.contains(x) {
                    let k = choose|k: int| 0 <= k < ev.len() && ev[k] == x;
                    assert(0 <= k < hi);
                }
                if out@.contains(x) {
                    let k = choose|k: int| lo <= k < hi && #[trigger] ev[k] == x;
                    assert(ev[k] == x);
                }
            }
        }
        out
    }
}

} // verus!
