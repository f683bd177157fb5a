//! Tracks: rows of the timeline holding layers that do not overlap, kept
//! sorted by start.
//!
//! A track layer's timing is held in timeline frames: it starts at
//! `in_frame` and its full bar is `span` frames long (the source length
//! already divided by the playback speed), so `end = in + span - 1`.

use vstd::prelude::*;
use crate::comp::fits;

verus! {

/// Single layer (clip placement) on a track.
#[derive(Clone, Debug)]
pub struct TrackLayer {
    /// Unique id of this placement.
    pub instance_uuid: u128,
    /// Start in the parent timeline.
    pub in_frame: i32,
    /// Length of the full bar in timeline frames.
    pub span: i32,
}

impl TrackLayer {
    pub open spec fn spec_start(self) -> int {
        self.in_frame as int
    }

    pub open spec fn spec_end(self) -> int {
        self.in_frame + self.span - 1
    }

    pub open spec fn wf(self) -> bool {
        fits(self.spec_end())
    }

    pub fn new(instance_uuid: u128, in_frame: i32, span: i32) -> (r: Self)
        ensures
            r == (TrackLayer { instance_uuid, in_frame, span }),
    {
        TrackLayer { instance_uuid, in_frame, span }
    }

    /// Start of the full bar in parent coordinates.
    pub fn start(&self) -> (r: i32)
        ensures
            r == self.spec_start(),
    {
        self.in_frame
    }

    /// End of the full bar in parent coordinates.
    pub fn end(&self) -> (r: i32)
        requires
            self.wf(),
        ensures
            r == self.spec_end(),
    {
        ((self.in_frame as i64) + (self.span as i64) - 1) as i32
    }
}

/// Track (row) on the timeline containing non-overlapping layers.
#[derive(Clone, Debug)]
pub struct Track {
    pub name: String,
    /// Locked tracks reject edits.
    pub locked: bool,
    /// Optional UI color as [R, G, B, A].
    pub color: Option<[u8; 4]>,
    /// Layers sorted by start time.
    pub layers: Vec<TrackLayer>,
}

/// Every layer's end fits in `i32`.
pub open spec fn track_layers_wf(ls: Seq<TrackLayer>) -> bool {
    forall|i: int| 0 <= i < ls.len() ==> (#[trigger] ls[i]).wf()
}

/// Layers are in non-decreasing order of start.
pub open spec fn sorted_by_start(ls: Seq<TrackLayer>) -> bool {
    forall|i: int, j: int| 0 <= i < j < ls.len() ==> ls[i].spec_start() <= ls[j].spec_start()
}

/// No two layers overlap.
pub open spec fn non_overlapping(ls: Seq<TrackLayer>) -> bool {
    forall|i: int, j: int| #![trigger ls[i], ls[j]]
        0 <= i < ls.len() && 0 <= j < ls.len() && i != j ==> !overlaps(
            ls[i].spec_start(),
            ls[i].spec_end(),
            ls[j].spec_start(),
            ls[j].spec_end(),
        )
}

/// Two closed frame ranges share a frame.
pub open spec fn overlaps(s1: int, e1: int, s2: int, e2: int) -> bool {
    s1 <= e2 && e1 >= s2
}

/// `[start, end]` overlaps none of the layers.
pub open spec fn spec_can_place(ls: Seq<TrackLayer>, start: int, end: int) -> bool {
    forall|i: int| #![trigger ls[i]] 0 <= i < ls.len() ==> !overlaps(start, end, ls[i].spec_start(), ls[i].spec_end())
}

/// Position where `add_layer` inserts a layer starting at `start`: the first
/// layer that starts later, else the end.
pub open spec fn insert_pos(ls: Seq<TrackLayer>, start: int) -> int
    decreases ls.len(),
{
    if ls.len() == 0 {
        0
    } else if ls[0].spec_start() > start {
        0
    } else {
        1 + insert_pos(ls.drop_first(), start)
    }
}

proof fn lemma_insert_pos(ls: Seq<TrackLayer>, start: int)
    ensures
        0 <= insert_pos(ls, start) <= ls.len(),
        forall|j: int| 0 <= j < insert_pos(ls, start) ==> ls[j].spec_start() <= start,
        insert_pos(ls, start) < ls.len() ==> ls[insert_pos(ls, start)].spec_start() > start,
    decreases ls.len(),
{
    if ls.len() > 0 && ls[0].spec_start() <= start {
        lemma_insert_pos(ls.drop_first(), start);
        assert forall|j: int| 1 <= j < insert_pos(ls, start) implies ls[j].spec_start() <= start by {
            assert(ls[j] == ls.drop_first()[j - 1]);
        }
        if insert_pos(ls, start) < ls.len() {
            assert(ls[insert_pos(ls, start)] == ls.drop_first()[insert_pos(ls, start) - 1]);
        }
    }
}

/// Index of the first layer with the given instance uuid, or -1.
pub open spec fn track_index_of(ls: Seq<TrackLayer>, u: u128) -> int
    decreases ls.len(),
{
    if ls.len() == 0 {
        -1
    } else if ls[0].instance_uuid == u {
        0
    } else {
        let k = track_index_of(ls.drop_first(), u);
        if k < 0 { -1 } else { k + 1 }
    }
}

proof fn lemma_track_index_of(ls: Seq<TrackLayer>, u: u128)
    ensures
        -1 <= track_index_of(ls, u) < ls.len(),
        track_index_of(ls, u) >= 0 ==> ls[track_index_of(ls, u)].instance_uuid == u,
        track_index_of(ls, u) >= 0 ==> forall|j: int| 0 <= j < track_index_of(ls, u) ==> ls[j].instance_uuid != u,
        track_index_of(ls, u) < 0 ==> forall|j: int| 0 <= j < ls.len() ==> ls[j].instance_uuid != u,
    decreases ls.len(),
{
    if ls.len() > 0 && ls[0].instance_uuid != u {
        lemma_track_index_of(ls.drop_first(), u);
        assert forall|j: int| 1 <= j < ls.len() implies ls[j] == ls.drop_first()[j - 1] by {}
    }
}

/// Index of the first layer covering `frame`, or -1.
pub open spec fn index_at_frame(ls: Seq<TrackLayer>, frame: int) -> int
    decreases ls.len(),
{
    if ls.len() == 0 {
        -1
    } else if ls[0].spec_start() <= frame <= ls[0].spec_end() {
        0
    } else {
        let k = index_at_frame(ls.drop_first(), frame);
        if k < 0 { -1 } else { k + 1 }
    }
}

proof fn lemma_index_at_frame(ls: Seq<TrackLayer>, frame: int)
    ensures
        -1 <= index_at_frame(ls, frame) < ls.len(),
        index_at_frame(ls, frame) >= 0 ==> ls[index_at_frame(ls, frame)].spec_start() <= frame
            <= ls[index_at_frame(ls, frame)].spec_end(),
        index_at_frame(ls, frame) >= 0 ==> forall|j: int| #![trigger ls[j]]
            0 <= j < index_at_frame(ls, frame) ==> !(ls[j].spec_start() <= frame <= ls[j].spec_end()),
        index_at_frame(ls, frame) < 0 ==> forall|j: int| #![trigger ls[j]]
            0 <= j < ls.len() ==> !(ls[j].spec_start() <= frame <= ls[j].spec_end()),
    decreases ls.len(),
{
    if ls.len() > 0 && !(ls[0].spec_start() <= frame <= ls[0].spec_end()) {
        lemma_index_at_frame(ls.drop_first(), frame);
        assert forall|j: int| 1 <= j < ls.len() implies ls[j] == ls.drop_first()[j - 1] by {}
    }
}

impl Track {
    pub fn new(name: &str) -> (r: Self)
        ensures
            r.name@ == name@,
            !r.locked,
            r.color is None,
            r.layers@.len() == 0,
    {
        Track { name: name.to_owned(), locked: false, color: None, layers: Vec::new() }
    }

    /// Whether a layer covering `[start, end]` can be placed without overlap.
    pub fn can_place(&self, start: i32, end: i32) -> (r: bool)
        requires
            track_layers_wf(self.layers@),
        ensures
            r == spec_can_place(self.layers@, start as int, end as int),
    {
        let mut i: usize = 0;
        while i < self.layers.len()
            invariant
                i <= self.layers@.len(),
                track_layers_wf(self.layers@),
                forall|j: int| #![trigger self.layers@[j]] 0 <= j < i ==> !overlaps(
                    start as int,
                    end as int,
                    self.layers@[j].spec_start(),
                    self.layers@[j].spec_end(),
                ),
            decreases self.layers@.len() - i,
        {
            proof {
                assert(self.layers@[i as int].wf());
            }
            let layer_start = self.layers[i].start();
            let layer_end = self.layers[i].end();
            if start <= layer_end && end >= layer_start {
                return false;
            }
            i = i + 1;
        }
        true
    }

    /// Add layer to track, before the first layer that starts later.
    pub fn add_layer(&mut self, layer: TrackLayer)
        ensures
            final(self).layers@ == old(self).layers@.insert(
                insert_pos(old(self).layers@, layer.spec_start()),
                layer,
            ),
            final(self).name == old(self).name,
            final(self).locked == old(self).locked,
            final(self).color == old(self).color,
    {
        let start = layer.start();
        proof {
            lemma_insert_pos(self.layers@, start as int);
        }
        let mut pos: usize = 0;
        while pos < self.layers.len() && self.layers[pos].in_frame <= start
            invariant
                pos <= self.layers@.len(),
                forall|j: int| 0 <= j < pos ==> self.layers@[j].spec_start() <= start,
                0 <= insert_pos(self.layers@, start as int) <= self.layers@.len(),
                forall|j: int| 0 <= j < insert_pos(self.layers@, start as int) ==> self.layers@[j].spec_start() <= start,
                insert_pos(self.layers@, start as int) < self.layers@.len() ==> self.layers@[insert_pos(
                    self.layers@,
                    start as int,
                )].spec_start() > start,
            decreases self.layers@.len() - pos,
        {
            pos = pos + 1;
        }
        proof {
            let ip = insert_pos(self.layers@, start as int);
            if pos < ip {
                assert(self.layers@[pos as int].spec_start() <= start);
            }
            if pos > ip {
                assert(self.layers@[ip].spec_start() <= start);
            }
        }
        self.layers.insert(pos, layer);
    }

    /// Remove the first layer with the given instance uuid.
    pub fn remove_layer(&mut self, instance_uuid: u128) -> (r: Option<TrackLayer>)
        ensures
            ({
                let k = track_index_of(old(self).layers@, instance_uuid);
                match r {
                    Some(l) => 0 <= k && l == old(self).layers@[k] && final(self).layers@ == old(
                        self,
                    ).layers@.remove(k),
                    None => k == -1 && final(self).layers@ == old(self).layers@,
                }
            }),
            final(self).name == old(self).name,
            final(self).locked == old(self).locked,
            final(self).color == old(self).color,
    {
        proof {
            lemma_track_index_of(self.layers@, instance_uuid);
        }
        let ghost s0 = *self;
        let mut i: usize = 0;
        while i < self.layers.len()
            invariant
                *self == s0,
                s0 == *old(self),
                i <= self.layers@.len(),
                forall|j: int| 0 <= j < i ==> self.layers@[j].instance_uuid != instance_uuid,
                -1 <= track_index_of(self.layers@, instance_uuid) < self.layers@.len(),
                track_index_of(self.layers@, instance_uuid) >= 0 ==> self.layers@[track_index_of(
                    self.layers@,
                    instance_uuid,
                )].instance_uuid == instance_uuid,
                track_index_of(self.layers@, instance_uuid) >= 0 ==> forall|j: int|
                    0 <= j < track_index_of(self.layers@, instance_uuid)
                        ==> self.layers@[j].instance_uuid != instance_uuid,
                track_index_of(self.layers@, instance_uuid) < 0 ==> forall|j: int|
                    0 <= j < self.layers@.len() ==> self.layers@[j].instance_uuid != instance_uuid,
            decreases self.layers@.len() - i,
        {
            if self.layers[i].instance_uuid == instance_uuid {
                return Some(self.layers.remove(i));
            }
            i = i + 1;
        }
        None
    }

    /// The first layer covering a frame.
    pub fn layer_at_frame(&self, frame: i32) -> (r: Option<&TrackLayer>)
        requires
            track_layers_wf(self.layers@),
        ensures
            ({
                let k = index_at_frame(self.layers@, frame as int);
                match r {
                    Some(l) => 0 <= k && *l == self.layers@[k],
                    None => k == -1,
                }
            }),
    {
        proof {
            lemma_index_at_frame(self.layers@, frame as int);
        }
        let mut i: usize = 0;
        while i < self.layers.len()
            invariant
                i <= self.layers@.len(),
                track_layers_wf(self.layers@),
                forall|j: int| #![trigger self.layers@[j]] 0 <= j < i ==> !(self.layers@[j].spec_start() <= frame <= self.layers@[j].spec_end()),
                -1 <= index_at_frame(self.layers@, frame as int) < self.layers@.len(),
                index_at_frame(self.layers@, frame as int) >= 0 ==> self.layers@[index_at_frame(
                    self.layers@,
                    frame as int,
                )].spec_start() <= frame <= self.layers@[index_at_frame(self.layers@, frame as int)].spec_end(),
                index_at_frame(self.layers@, frame as int) >= 0 ==> forall|j: int| #![trigger self.layers@[j]]
                    0 <= j < index_at_frame(self.layers@, frame as int) ==> !(self.layers@[j].spec_start()
                        <= frame <= self.layers@[j].spec_end()),
                index_at_frame(self.layers@, frame as int) < 0 ==> forall|j: int| #![trigger self.layers@[j]]
                    0 <= j < self.layers@.len() ==> !(self.layers@[j].spec_start() <= frame
                        <= self.layers@[j].spec_end()),
            decreases self.layers@.len() - i,
        {
            proof {
                assert(self.layers@[i as int].wf());
            }
            if frame >= self.layers[i].start() && frame <= self.layers[i].end() {
                return Some(&self.layers[i]);
            }
            i = i + 1;
        }
        None
    }

    /// The first layer with the given instance uuid.
    pub fn find_layer(&self, instance_uuid: u128) -> (r: Option<&TrackLayer>)
        ensures
            ({
                let k = track_index_of(self.layers@, instance_uuid);
                match r {
                    Some(l) => 0 <= k && *l == self.layers@[k],
                    None => k == -1,
                }
            }),
    {
        proof {
            lemma_track_index_of(self.layers@, instance_uuid);
        }
        let mut i: usize = 0;
        while i < self.layers.len()
            invariant
                i <= self.layers@.len(),
                forall|j: int| 0 <= j < i ==> self.layers@[j].instance_uuid != instance_uuid,
                -1 <= track_index_of(self.layers@, instance_uuid) < self.layers@.len(),
                track_index_of(self.layers@, instance_uuid) >= 0 ==> self.layers@[track_index_of(
                    self.layers@,
                    instance_uuid,
                )].instance_uuid == instance_uuid,
                track_index_of(self.layers@, instance_uuid) >= 0 ==> forall|j: int|
                    0 <= j < track_index_of(self.layers@, instance_uuid)
                        ==> self.layers@[j].instance_uuid != instance_uuid,
                track_index_of(self.layers@, instance_uuid) < 0 ==> forall|j: int|
                    0 <= j < self.layers@.len() ==> self.layers@[j].instance_uuid != instance_uuid,
            decreases self.layers@.len() - i,
        {
            if self.layers[i].instance_uuid == instance_uuid {
                return Some(&self.layers[i]);
            }
            i = i + 1;
        }
        None
    }

    pub fn is_empty(&self) -> (r: bool)
        ensures
            r == (self.layers@.len() == 0),
    {
        self.layers.len() == 0
    }

    pub fn len(&self) -> (r: usize)
        ensures
            r == self.layers@.len(),
    {
        self.layers.len()
    }
}

/// Law: adding a layer to a track keeps its layers sorted by start.
pub proof fn law_add_layer_keeps_sorted(ls: Seq<TrackLayer>, layer: TrackLayer)
    requires
        sorted_by_start(ls),
    ensures
        sorted_by_start(ls.insert(insert_pos(ls, layer.spec_start()), layer)),
{
    let p = insert_pos(ls, layer.spec_start());
    lemma_insert_pos(ls, layer.spec_start());
    let n = ls.insert(p, layer);
    assert forall|i: int, j: int| 0 <= i < j < n.len() implies n[i].spec_start() <= n[j].spec_start() by {
        if j < p {
            assert(n[i] == ls[i] && n[j] == ls[j]);
        } else if j == p {
            assert(n[i] == ls[i]);
        } else if i < p {
            assert(n[i] == ls[i] && n[j] == ls[j - 1]);
        } else if i == p {
            assert(n[j] == ls[j - 1]);
            if j - 1 > p {
                assert(ls[p].spec_start() <= ls[j - 1].spec_start());
            }
        } else {
            assert(n[i] == ls[i - 1] && n[j] == ls[j - 1]);
        }
    }
}

/// Law: a layer that `can_place` admits, added to a track whose layers do
/// not overlap, leaves them not overlapping.
pub proof fn law_add_placeable_keeps_non_overlapping(ls: Seq<TrackLayer>, layer: TrackLayer)
    requires
        non_overlapping(ls),
        spec_can_place(ls, layer.spec_start(), layer.spec_end()),
    ensures
        non_overlapping(ls.insert(insert_pos(ls, layer.spec_start()), layer)),
{
    let p = insert_pos(ls, layer.spec_start());
    lemma_insert_pos(ls, layer.spec_start());
    let n = ls.insert(p, layer);
    assert forall|i: int, j: int| 0 <= i < n.len() && 0 <= j < n.len() && i != j implies !overlaps(
        n[i].spec_start(),
        n[i].spec_end(),
        n[j].spec_start(),
        n[j].spec_end(),
    ) by {
        let oi = if i < p { i } else { i - 1 };
        let oj = if j < p { j } else { j - 1 };
        if i == p {
            assert(n[j] == ls[oj]);
        } else if j == p {
            assert(n[i] == ls[oi]);
        } else {
            assert(n[i] == ls[oi] && n[j] == ls[oj]);
        }
    }
}

/// Law: removing a layer keeps the remaining layers sorted.
pub proof fn law_remove_keeps_sorted(ls: Seq<TrackLayer>, k: int)
    requires
        sorted_by_start(ls),
        0 <= k < ls.len(),
    ensures
        sorted_by_start(ls.remove(k)),
{
    let n = ls.remove(k);
    assert forall|i: int, j: int| 0 <= i < j < n.len() implies n[i].spec_start() <= n[j].spec_start() by {
        let oi = if i < k { i } else { i + 1 };
        let oj = if j < k { j } else { j + 1 };
        assert(n[i] == ls[oi] && n[j] == ls[oj]);
    }
}

} // verus!
