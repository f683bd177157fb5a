//! Decisions of composing a frame: which layers contribute and in which
//! order, when a cached frame has to be composed again, which frames to
//! schedule around the playhead, and the timeline rows of the layer bars.

use vstd::prelude::*;
use crate::comp::{fits, layers_wf, min_int, CompNode, Layer};
use crate::frame::FrameStatus;
use crate::node::{frames_of, spec_comp_needs_compute, spiral, spiral_frames};

verus! {

/// Whether any layer is solo'd.
pub open spec fn any_solo(ls: Seq<Layer>) -> bool {
    exists|i: int| 0 <= i < ls.len() && (#[trigger] ls[i]).solo
}

/// Whether a layer shows at frame `f`: inside its work area, visible, and
/// solo'd when any layer is.
pub open spec fn contributes(l: Layer, f: int, has_solo: bool) -> bool {
    &&& l.spec_work_area().0 <= f <= l.spec_work_area().1
    &&& l.visible
    &&& (!has_solo || l.solo)
}

/// Indices of the layers among `ls` that show at frame `f`, from the
/// bottom of the stack (the last layer) to the top (the first).
pub open spec fn compose_order(ls: Seq<Layer>, f: int, has_solo: bool) -> Seq<int>
    decreases ls.len(),
{
    if ls.len() == 0 {
        Seq::empty()
    } else {
        let rest = compose_order(ls.drop_last(), f, has_solo);
        if contributes(ls.last(), f, has_solo) {
            seq![ls.len() - 1] + rest
        } else {
            rest
        }
    }
}

/// Start and end of a layer's full bar.
pub open spec fn bar(l: Layer) -> (int, int) {
    (l.spec_start(), l.spec_end())
}

/// Whether two closed frame ranges share a frame.
pub open spec fn overlaps(a: (int, int), b: (int, int)) -> bool {
    a.0 <= b.1 && a.1 >= b.0
}

/// Whether range `r` is free in a row of occupied ranges.
pub open spec fn row_free(row: Seq<(int, int)>, r: (int, int)) -> bool {
    forall|k: int| 0 <= k < row.len() ==> !overlaps(r, #[trigger] row[k])
}

/// The first row from `from` on where range `r` is free; rows past the
/// occupied ones are free.
pub open spec fn first_free_row(occ: Seq<Seq<(int, int)>>, r: (int, int), from: nat) -> nat
    decreases occ.len() - from,
{
    if from >= occ.len() {
        from
    } else if row_free(occ[from as int], r) {
        from
    } else {
        first_free_row(occ, r, from + 1)
    }
}

/// `occ` with range `r` added to row `row` (a new row when `row` is
/// `occ.len()`).
pub open spec fn occupy(occ: Seq<Seq<(int, int)>>, row: nat, r: (int, int)) -> Seq<Seq<(int, int)>> {
    if row < occ.len() {
        occ.update(row as int, occ[row as int].push(r))
    } else {
        occ.push(seq![r])
    }
}

/// The greedy layout after placing the layers of `order` (indices into
/// `ls`; others are skipped), in order: the occupied ranges of each row
/// and the row of each layer.
pub open spec fn layout(ls: Seq<Layer>, order: Seq<usize>) -> (Seq<Seq<(int, int)>>, Seq<Option<nat>>)
    decreases order.len(),
{
    if order.len() == 0 {
        (Seq::empty(), Seq::new(ls.len(), |i: int| None))
    } else {
        let (occ, rows) = layout(ls, order.drop_last());
        let idx = order.last() as int;
        if idx < ls.len() {
            let r = first_free_row(occ, bar(ls[idx]), 0);
            (occupy(occ, r, bar(ls[idx])), rows.update(idx, Some(r)))
        } else {
            (occ, rows)
        }
    }
}

proof fn lemma_first_free_row(occ: Seq<Seq<(int, int)>>, r: (int, int), from: nat)
    requires
        from <= occ.len(),
    ensures
        from <= first_free_row(occ, r, from) <= occ.len(),
        first_free_row(occ, r, from) < occ.len() ==> row_free(occ[first_free_row(occ, r, from) as int], r),
        forall|k: int| from <= k < first_free_row(occ, r, from) ==> !row_free(#[trigger] occ[k], r),
    decreases occ.len() - from,
{
    if from < occ.len() && !row_free(occ[from as int], r) {
        lemma_first_free_row(occ, r, from + 1);
    }
}

/// Rows whose ranges pairwise share no frame.
pub open spec fn rows_disjoint(occ: Seq<Seq<(int, int)>>) -> bool {
    forall|row: int, i: int, j: int|
        0 <= row < occ.len() && 0 <= i < j < occ[row].len() ==> !overlaps(#[trigger] occ[row][i], #[trigger] occ[row][j])
}

/// The greedy layout never puts two overlapping bars in one row.
pub proof fn law_layout_rows_disjoint(ls: Seq<Layer>, order: Seq<usize>)
    ensures
        rows_disjoint(layout(ls, order).0),
        layout(ls, order).1.len() == ls.len(),
    decreases order.len(),
{
    if order.len() > 0 {
        law_layout_rows_disjoint(ls, order.drop_last());
        let (occ, rows) = layout(ls, order.drop_last());
        let idx = order.last() as int;
        if idx < ls.len() {
            let b = bar(ls[idx]);
            let r = first_free_row(occ, b, 0);
            lemma_first_free_row(occ, b, 0);
            let occ2 = occupy(occ, r, b);
            assert forall|row: int, i: int, j: int|
                0 <= row < occ2.len() && 0 <= i < j < occ2[row].len() implies !overlaps(
                #[trigger] occ2[row][i],
                #[trigger] occ2[row][j],
            ) by {
                if row == r {
                    if r < occ.len() {
                        if j == occ[row].len() {
                            assert(row_free(occ[row], b));
                            assert(occ2[row][j] == b);
                            assert(occ2[row][i] == occ[row][i]);
                            assert(!overlaps(b, occ[row][i]));
                        } else {
                            assert(occ2[row][i] == occ[row][i]);
                            assert(occ2[row][j] == occ[row][j]);
                        }
                    }
                } else {
                    assert(occ2[row] == occ[row]);
                }
            }
        }
    }
}

impl CompNode {
    /// The layers that show at `frame_idx`, bottom of the stack first (see
    /// `compose_order`): inside their work area, visible, and solo'd when
    /// any layer is.
    pub fn compose_layers(&self, frame_idx: i32) -> (r: Vec<usize>)
        requires
            layers_wf(self.layers@),
        ensures
            r@.map_values(|i: usize| i as int) == compose_order(self.layers@, frame_idx as int, any_solo(self.layers@)),
            forall|k: int| 0 <= k < r@.len() ==> (#[trigger] r@[k]) < self.layers@.len() && shows_at(
                self.layers@[r@[k] as int],
                frame_idx as int,
                exists|j: int| 0 <= j < self.layers@.len() && (#[trigger] self.layers@[j]).solo,
            ),
    {
        let n = self.layers.len();
        let mut has_solo = false;
        let mut i: usize = 0;
        while i < n
            invariant
                n == self.layers@.len(),
                i <= n,
                has_solo == (exists|j: int| 0 <= j < i && (#[trigger] self.layers@[j]).solo),
            decreases n - i,
        {
            if self.layers[i].solo {
                has_solo = true;
            }
            i = i + 1;
        }
        assert(has_solo == any_solo(self.layers@));
        let mut out: Vec<usize> = Vec::new();
        let mut k: usize = n;
        proof {
            assert(self.layers@.subrange(0, n as int) =~= self.layers@);
            assert(out@.map_values(|i: usize| i as int) =~= Seq::<int>::empty());
            assert(Seq::<int>::empty() + compose_order(self.layers@, frame_idx as int, has_solo)
                =~= compose_order(self.layers@, frame_idx as int, has_solo));
        }
        while k > 0
            invariant
                n == self.layers@.len(),
                k <= n,
                layers_wf(self.layers@),
                has_solo == any_solo(self.layers@),
                out@.map_values(|i: usize| i as int) + compose_order(self.layers@.subrange(0, k as int), frame_idx as int, has_solo)
                    == compose_order(self.layers@, frame_idx as int, has_solo),
            decreases k,
        {
            let ghost pre = self.layers@.subrange(0, k as int);
            proof {
                assert(pre.drop_last() =~= self.layers@.subrange(0, k - 1));
                assert(pre.last() == self.layers@[k - 1]);
                assert(self.layers@[k - 1].wf());
            }
            let layer = &self.layers[k - 1];
            let (ws, we) = layer.work_area();
            let ghost before = out@.map_values(|i: usize| i as int);
            if ws <= frame_idx && frame_idx <= we && layer.visible && (!has_solo || layer.solo) {
                out.push(k - 1);
                proof {
                    assert(out@.map_values(|i: usize| i as int) =~= before.push(k - 1));
                    assert(before.push(k - 1) + compose_order(self.layers@.subrange(0, k - 1), frame_idx as int, has_solo)
                        =~= before + (seq![k - 1] + compose_order(self.layers@.subrange(0, k - 1), frame_idx as int, has_solo)));
                }
            }
            k = k - 1;
        }
        proof {
            assert(self.layers@.subrange(0, 0) =~= Seq::<Layer>::empty());
            assert(out@.map_values(|i: usize| i as int) + Seq::<int>::empty() =~= out@.map_values(|i: usize| i as int));
        }
        proof {
            lemma_compose_order_exact(self.layers@, frame_idx as int, any_solo(self.layers@));
            let o = compose_order(self.layers@, frame_idx as int, any_solo(self.layers@));
            assert forall|k: int| 0 <= k < out@.len() implies (#[trigger] out@[k]) < self.layers@.len() && shows_at(
                self.layers@[out@[k] as int],
                frame_idx as int,
                exists|j: int| 0 <= j < self.layers@.len() && (#[trigger] self.layers@[j]).solo,
            ) by {
                assert(out@.map_values(|i: usize| i as int)[k] == o[k]);
            }
        }
        out
    }

    /// Whether a frame has to be composed again rather than taken from the
    /// cache: the comp or a layer changed, a source changed, there is no
    /// cached frame, or the cached one is not fully loaded.
    pub fn needs_recompose(&self, any_source_dirty: bool, cached: Option<FrameStatus>) -> (r: bool)
        ensures
            r == (self.spec_is_dirty() || any_source_dirty || cached != Some(FrameStatus::Loaded)),
    {
        let dirty = self.is_dirty();
        let loaded = match cached {
            Some(FrameStatus::Loaded) => true,
            _ => false,
        };
        dirty || any_source_dirty || !loaded
    }

    /// Whether a composed frame with this cached status still has to be
    /// computed in the background.
    pub fn needs_compute(status: Option<FrameStatus>) -> (r: bool)
        ensures
            r == spec_comp_needs_compute(status),
    {
        match status {
            Some(FrameStatus::Loaded) | Some(FrameStatus::Loading) => false,
            _ => true,
        }
    }

    /// The frames to compose in the background around `center`: none for a
    /// comp without layers or with an empty work area; otherwise a spiral
    /// around `center` over `radius` (at most the work area's length)
    /// offsets, limited to the work area.
    pub open spec fn spec_preload_frames(self, center: int, radius: int) -> Seq<int> {
        let (ps, pe) = self.spec_work_area();
        let m = min_int(radius, pe - ps);
        if self.layers@.len() == 0 || pe < ps {
            Seq::empty()
        } else {
            spiral(center, (if m < 0 { 0 } else { m + 1 }) as nat, ps, pe)
        }
    }

    /// The frames to compose in the background around `center`, in order
    /// (see `spec_preload_frames`).
    pub fn preload_frames(&self, center: i32, radius: i32) -> (r: Vec<i32>)
        requires
            fits(self.spec_work_area().0),
            fits(self.spec_work_area().1),
        ensures
            frames_of(r@) == self.spec_preload_frames(center as int, radius as int),
    {
        if self.layers.len() == 0 {
            let v: Vec<i32> = Vec::new();
            proof {
                assert(frames_of(v@) =~= Seq::<int>::empty());
            }
            return v;
        }
        let (ps, pe) = self.work_area();
        if pe < ps {
            let v: Vec<i32> = Vec::new();
            proof {
                assert(frames_of(v@) =~= Seq::<int>::empty());
            }
            return v;
        }
        let len = pe as i64 - ps as i64;
        let m = if (radius as i64) < len { radius as i64 } else { len };
        spiral_frames(center, m, ps, pe)
    }

    /// Timeline row of each layer: the layers of `child_order` (indices;
    /// others are skipped) are placed in order, each in the first row where
    /// its full bar overlaps no bar placed there before. Entry `i` is the
    /// row of layer `i`, `None` for a layer not placed.
    pub fn compute_layer_rows(&self, child_order: &[usize]) -> (r: Vec<Option<usize>>)
        requires
            layers_wf(self.layers@),
        ensures
            r@.len() == self.layers@.len(),
            forall|i: int| 0 <= i < r@.len() ==> (match #[trigger] r@[i] {
                Some(row) => layout(self.layers@, child_order@).1[i] == Some(row as nat),
                None => layout(self.layers@, child_order@).1[i] is None,
            }),
    {
        let n = self.layers.len();
        let mut rows: Vec<Option<usize>> = Vec::new();
        let mut i: usize = 0;
        while i < n
            invariant
                i <= n,
                rows@.len() == i,
                forall|j: int| 0 <= j < i ==> (#[trigger] rows@[j]) is None,
            decreases n - i,
        {
            rows.push(None);
            i = i + 1;
        }
        let mut occupied: Vec<Vec<(i32, i32)>> = Vec::new();
        let mut k: usize = 0;
        proof {
            assert(child_order@.subrange(0, 0) =~= Seq::<usize>::empty());
        }
        while k < child_order.len()
            invariant
                n == self.layers@.len(),
                layers_wf(self.layers@),
                k <= child_order@.len(),
                occupied@.len() == layout(self.layers@, child_order@.subrange(0, k as int)).0.len(),
                occupied@.len() <= k,
                forall|row: int| 0 <= row < occupied@.len() ==> (#[trigger] occupied@[row])@.len()
                    == layout(self.layers@, child_order@.subrange(0, k as int)).0[row].len(),
                forall|row: int, q: int| 0 <= row < occupied@.len() && 0 <= q < occupied@[row]@.len() ==> (
                    #[trigger] occupied@[row]@[q]).0 == layout(self.layers@, child_order@.subrange(0, k as int)).0[row][q].0
                    && occupied@[row]@[q].1 == layout(self.layers@, child_order@.subrange(0, k as int)).0[row][q].1,
                rows@.len() == n,
                forall|j: int| 0 <= j < n ==> (match #[trigger] rows@[j] {
                    Some(row) => layout(self.layers@, child_order@.subrange(0, k as int)).1[j] == Some(row as nat),
                    None => layout(self.layers@, child_order@.subrange(0, k as int)).1[j] is None,
                }),
            decreases child_order@.len() - k,
        {
            let ghost pre = child_order@.subrange(0, k as int);
            let ghost post = child_order@.subrange(0, k + 1);
            let ghost occ_s = layout(self.layers@, pre).0;
            proof {
                assert(post.drop_last() =~= pre);
                assert(post.last() == child_order@[k as int]);
                law_layout_rows_disjoint(self.layers@, pre);
            }
            let idx = child_order[k];
            if idx < n {
                let layer = &self.layers[idx];
                proof {
                    assert(self.layers@[idx as int].wf());
                }
                let start = layer.start();
                let end = layer.end();
                let ghost b = bar(self.layers@[idx as int]);
                proof {
                    lemma_first_free_row(occ_s, b, 0);
                }
                let mut row: usize = 0;
                let mut found = false;
                while !found && row < occupied.len()
                    invariant
                        row <= occupied@.len(),
                        found ==> row < occupied@.len() && row_free(occ_s[row as int], b),
                        occupied@.len() == occ_s.len(),
                        forall|rr: int, q: int| 0 <= rr < occupied@.len() && 0 <= q < occupied@[rr]@.len() ==> (
                            #[trigger] occupied@[rr]@[q]).0 == occ_s[rr][q].0 && occupied@[rr]@[q].1 == occ_s[rr][q].1,
                        forall|rr: int| 0 <= rr < occupied@.len() ==> (#[trigger] occupied@[rr])@.len() == occ_s[rr].len(),
                        b == (start as int, end as int),
                        forall|rr: int| 0 <= rr < row ==> !row_free(#[trigger] occ_s[rr], b),
                    decreases (occupied@.len() - row) * 2 + (if found { 0int } else { 1int }),
                {
                    let ranges = &occupied[row];
                    let mut free = true;
                    let mut q: usize = 0;
                    while q < ranges.len()
                        invariant
                            q <= ranges@.len(),
                            ranges@.len() == occ_s[row as int].len(),
                            forall|qq: int| 0 <= qq < ranges@.len() ==> (#[trigger] ranges@[qq]).0 == occ_s[row as int][qq].0
                                && ranges@[qq].1 == occ_s[row as int][qq].1,
                            b == (start as int, end as int),
                            free == (forall|qq: int| 0 <= qq < q ==> !overlaps(b, #[trigger] occ_s[row as int][qq])),
                        decreases ranges@.len() - q,
                    {
                        let (os, oe) = ranges[q];
                        proof {
                            assert(ranges@[q as int].0 == occ_s[row as int][q as int].0);
                        }
                        if start <= oe && end >= os {
                            free = false;
                            proof {
                                assert(overlaps(b, occ_s[row as int][q as int]));
                            }
                        }
                        q = q + 1;
                    }
                    if free {
                        found = true;
                    } else {
                        row = row + 1;
                    }
                }
                proof {
                    let fr = first_free_row(occ_s, b, 0);
                    if found {
                        assert(fr == row) by {
                            if fr < row {
                                assert(!row_free(occ_s[fr as int], b));
                            }
                        }
                    } else {
                        assert(fr == row) by {
                            if fr < row {
                                assert(!row_free(occ_s[fr as int], b));
                            }
                        }
                    }
                }
                let ghost occ_before = occupied@;
                if row < occupied.len() {
                    occupied[row].push((start, end));
                } else {
                    let mut fresh: Vec<(i32, i32)> = Vec::new();
                    fresh.push((start, end));
                    occupied.push(fresh);
                }
                rows.set(idx, Some(row));
                proof {
                    assert(layout(self.layers@, post) == (occupy(occ_s, row as nat, b), layout(self.layers@, pre).1.update(
                        idx as int,
                        Some(row as nat),
                    )));
                }
            }
            k = k + 1;
        }
        proof {
            assert(child_order@.subrange(0, child_order@.len() as int) =~= child_order@);
        }
        rows
    }
}

} // verus!

verus! {

/// Layer `l` shows at frame `f`: `f` lies in its trimmed work area, it is
/// visible, and it is solo'd when `solo_on`. Written on the layer's fields.
pub open spec fn shows_at(l: Layer, f: int, solo_on: bool) -> bool {
    &&& l.in_frame + l.trim_in_span <= f
    &&& f <= l.in_frame + l.span - 1 - l.trim_out_span
    &&& l.visible
    &&& (solo_on ==> l.solo)
}

proof fn lemma_compose_order_exact(ls: Seq<Layer>, f: int, h: bool)
    ensures
        forall|k: int| 0 <= k < compose_order(ls, f, h).len() ==> {
            let i = #[trigger] compose_order(ls, f, h)[k];
            0 <= i < ls.len() && shows_at(ls[i], f, h)
        },
        forall|i: int| 0 <= i < ls.len() && shows_at(#[trigger] ls[i], f, h) ==> compose_order(ls, f, h).contains(i),
        forall|k1: int, k2: int| 0 <= k1 < k2 < compose_order(ls, f, h).len() ==>
            #[trigger] compose_order(ls, f, h)[k1] > #[trigger] compose_order(ls, f, h)[k2],
    decreases ls.len(),
{
    if ls.len() > 0 {
        let d = ls.drop_last();
        lemma_compose_order_exact(d, f, h);
        let rest = compose_order(d, f, h);
        let o = compose_order(ls, f, h);
        assert forall|j: int| 0 <= j < d.len() implies d[j] == ls[j] by {}
        if contributes(ls.last(), f, h) {
            assert(o == seq![ls.len() - 1] + rest);
            assert forall|k: int| 0 <= k < o.len() implies {
                let i = #[trigger] o[k];
                0 <= i < ls.len() && shows_at(ls[i], f, h)
            } by {
                if k > 0 {
                    assert(o[k] == rest[k - 1]);
                    assert(d[rest[k - 1]] == ls[rest[k - 1]]);
                }
            }
            assert forall|i: int| 0 <= i < ls.len() && shows_at(#[trigger] ls[i], f, h) implies o.contains(i) by {
                if i < ls.len() - 1 {
                    assert(d[i] == ls[i]);
                    let m = choose|m: int| 0 <= m < rest.len() && rest[m] == i;
                    assert(o[m + 1] == i);
                } else {
                    assert(o[0] == i);
                }
            }
            assert forall|k1: int, k2: int| 0 <= k1 < k2 < o.len() implies #[trigger] o[k1] > #[trigger] o[k2] by {
                if k1 > 0 {
                    assert(o[k1] == rest[k1 - 1] && o[k2] == rest[k2 - 1]);
                } else {
                    assert(o[k2] == rest[k2 - 1]);
                }
            }
        } else {
            assert(o == rest);
            assert forall|k: int| 0 <= k < o.len() implies {
                let i = #[trigger] o[k];
                0 <= i < ls.len() && shows_at(ls[i], f, h)
            } by {
                assert(d[rest[k]] == ls[rest[k]]);
            }
            assert forall|i: int| 0 <= i < ls.len() && shows_at(#[trigger] ls[i], f, h) implies o.contains(i) by {
                if i < ls.len() - 1 {
                    assert(d[i] == ls[i]);
                }
            }
        }
    }
}

/// The layers composed at frame `f` are exactly those whose trimmed work
/// area holds `f`, that are visible, and, when any layer is solo'd, that
/// are solo'd; they come bottom of the stack first (descending index). A
/// layer trimmed past `f` never appears.
pub proof fn law_compose_layers_exact(ls: Seq<Layer>, f: int)
    ensures
        ({
            let solo_on = exists|j: int| 0 <= j < ls.len() && (#[trigger] ls[j]).solo;
            let o = compose_order(ls, f, any_solo(ls));
            &&& forall|k: int| 0 <= k < o.len() ==> {
                let i = #[trigger] o[k];
                0 <= i < ls.len() && shows_at(ls[i], f, solo_on)
            }
            &&& forall|i: int| 0 <= i < ls.len() && shows_at(#[trigger] ls[i], f, solo_on) ==> o.contains(i)
            &&& forall|k1: int, k2: int| 0 <= k1 < k2 < o.len() ==> #[trigger] o[k1] > #[trigger] o[k2]
        }),
{
    lemma_compose_order_exact(ls, f, any_solo(ls));
}

} // verus!
