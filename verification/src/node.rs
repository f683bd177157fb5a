//! Nodes of the media graph: file nodes that read image sequences or
//! videos, compositions, and the order in which a node's frames are
//! scheduled for background loading.

use vstd::prelude::*;
use crate::comp::{fits, max_int, min_int, CompError, CompNode};
use crate::frame::FrameStatus;
use crate::ids::new_uuid;
use crate::seqpath::{frame_path, spec_frame_path, spec_is_video, is_video};

verus! {

// ---------------------------------------------------------------------------
// Preload order
// ---------------------------------------------------------------------------

/// The frames a spiral visits at one offset from `center`, limited to
/// `lo..=hi`: first `center - offset` (only where `center >= offset`), then
/// `center + offset` (only where `offset > 0`).
pub open spec fn spiral_step(center: int, offset: int, lo: int, hi: int) -> Seq<int> {
    (if center >= offset && lo <= center - offset <= hi {
        seq![center - offset]
    } else {
        Seq::<int>::empty()
    }) + (if offset > 0 && lo <= center + offset <= hi {
        seq![center + offset]
    } else {
        Seq::<int>::empty()
    })
}

/// The frames a spiral around `center` visits at the offsets `0..n`, in order.
pub open spec fn spiral(center: int, n: nat, lo: int, hi: int) -> Seq<int>
    decreases n,
{
    if n == 0 {
        Seq::empty()
    } else {
        spiral(center, (n - 1) as nat, lo, hi) + spiral_step(center, n - 1, lo, hi)
    }
}

/// A frame sequence read as integers.
pub open spec fn frames_of(v: Seq<i32>) -> Seq<int> {
    v.map_values(|f: i32| f as int)
}

/// The frames of a spiral around `center` over the offsets `0..=max_offset`
/// that lie in `lo..=hi` (none for a negative `max_offset`).
pub fn spiral_frames(center: i32, max_offset: i64, lo: i32, hi: i32) -> (r: Vec<i32>)
    requires
        max_offset <= 0x1_0000_0000,
    ensures
        frames_of(r@) == spiral(center as int, (if max_offset < 0 { 0 } else { max_offset + 1 }) as nat, lo as int, hi as int),
{
    let mut out: Vec<i32> = Vec::new();
    if max_offset < 0 {
        proof {
            assert(frames_of(out@) =~= Seq::<int>::empty());
        }
        return out;
    }
    let c = center as i64;
    let mut offset: i64 = 0;
    while offset <= max_offset
        invariant
            0 <= offset <= max_offset + 1,
            max_offset <= 0x1_0000_0000,
            c == center as i64,
            frames_of(out@) == spiral(center as int, offset as nat, lo as int, hi as int),
        decreases max_offset + 1 - offset,
    {
        let ghost before = frames_of(out@);
        if c >= offset {
            let idx = c - offset;
            if lo as i64 <= idx && idx <= hi as i64 {
                out.push(idx as i32);
            }
        }
        let ghost mid = frames_of(out@);
        if offset > 0 {
            let idx = c + offset;
            if lo as i64 <= idx && idx <= hi as i64 {
                out.push(idx as i32);
            }
        }
        proof {
            let st = spiral_step(center as int, offset as int, lo as int, hi as int);
            let back = if center >= offset && lo <= center - offset <= hi {
                seq![center - offset]
            } else {
                Seq::<int>::empty()
            };
            assert(mid =~= before + back);
            assert(frames_of(out@) =~= before + st);
        }
        offset = offset + 1;
    }
    out
}

/// The spiral holds exactly the frames `f` of `lo..=hi` less than `n` away
/// from `center` that lie after it or are not negative.
pub proof fn law_spiral_members(center: int, n: nat, lo: int, hi: int, f: int)
    ensures
        spiral(center, n, lo, hi).contains(f) <==> (lo <= f <= hi && f - center < n && center - f < n && (f > center
            || f >= 0)),
    decreases n,
{
    if n > 0 {
        law_spiral_members(center, (n - 1) as nat, lo, hi, f);
        let prev = spiral(center, (n - 1) as nat, lo, hi);
        let st = spiral_step(center, n - 1, lo, hi);
        assert(spiral(center, n, lo, hi) == prev + st);
        if (prev + st).contains(f) {
            let k = choose|k: int| 0 <= k < (prev + st).len() && (prev + st)[k] == f;
            if k < prev.len() {
                assert(prev[k] == f);
            } else {
                assert(st[k - prev.len()] == f);
            }
        }
        if lo <= f <= hi && f - center < n && center - f < n && (f > center || f >= 0) {
            if f - center < n - 1 && center - f < n - 1 {
                let k = choose|k: int| 0 <= k < prev.len() && prev[k] == f;
                assert((prev + st)[k] == f);
            } else if f >= center {
                assert(st.contains(f)) by {
                    if f == center {
                        assert(st[0] == f);
                    } else {
                        assert(st[st.len() - 1] == f);
                    }
                }
                let k = choose|k: int| 0 <= k < st.len() && st[k] == f;
                assert((prev + st)[prev.len() + k] == f);
            } else {
                assert(st[0] == f);
                assert((prev + st)[prev.len() as int] == f);
            }
        }
    }
}

/// A frame occurs in a spiral at most once.
pub proof fn law_spiral_distinct(center: int, n: nat, lo: int, hi: int)
    ensures
        spiral(center, n, lo, hi).no_duplicates(),
    decreases n,
{
    if n > 0 {
        law_spiral_distinct(center, (n - 1) as nat, lo, hi);
        let prev = spiral(center, (n - 1) as nat, lo, hi);
        let st = spiral_step(center, n - 1, lo, hi);
        let all = prev + st;
        assert forall|i: int, j: int| 0 <= i < j < all.len() implies all[i] != all[j] by {
            if j >= prev.len() {
                let g = all[j];
                assert(st.contains(g)) by {
                    assert(st[j - prev.len()] == g);
                }
                if i < prev.len() {
                    assert(prev.contains(all[i])) by {
                        assert(prev[i] == all[i]);
                    }
                    law_spiral_members(center, (n - 1) as nat, lo, hi, all[i]);
                }
            }
        }
    }
}

/// The frames `start..=end` in order (none when `start > end`).
pub open spec fn forward(start: int, end: int) -> Seq<int> {
    Seq::new(max_int(end - start + 1, 0) as nat, |i: int| start + i)
}

/// The frames `start..=end` in order.
pub fn forward_frames(start: i32, end: i32) -> (r: Vec<i32>)
    ensures
        frames_of(r@) == forward(start as int, end as int),
{
    let mut out: Vec<i32> = Vec::new();
    let mut f: i64 = start as i64;
    while f <= end as i64
        invariant
            start <= f <= end as i64 + 1 || (f == start && start > end),
            frames_of(out@) == forward(start as int, f - 1),
        decreases end as i64 + 1 - f,
    {
        let ghost before = out@;
        let ghost fo = f;
        assert(frames_of(before).len() == before.len());
        assert(before.len() == fo - start);
        out.push(f as i32);
        assert(out@[fo - start] as int == fo);
        f = f + 1;
        proof {
            assert forall|i: int| 0 <= i < out@.len() implies #[trigger] frames_of(out@)[i] == forward(start as int, f - 1)[i] by {
                if i < before.len() {
                    assert(frames_of(before)[i] == forward(start as int, f - 2)[i]);
                }
            }
            assert(frames_of(out@) =~= forward(start as int, f - 1));
        }
    }
    proof {
        assert(frames_of(out@) =~= forward(start as int, end as int));
    }
    out
}

/// Whether a file frame with this cached status still has to be loaded:
/// loaded, loading and failed frames are left alone.
pub open spec fn spec_file_needs_load(status: Option<FrameStatus>) -> bool {
    match status {
        Some(FrameStatus::Loaded) | Some(FrameStatus::Loading) | Some(FrameStatus::Error) => false,
        _ => true,
    }
}

/// Whether a composed frame with this cached status still has to be
/// computed: loaded and loading frames are left alone.
pub open spec fn spec_comp_needs_compute(status: Option<FrameStatus>) -> bool {
    match status {
        Some(FrameStatus::Loaded) | Some(FrameStatus::Loading) => false,
        _ => true,
    }
}

// ---------------------------------------------------------------------------
// File nodes
// ---------------------------------------------------------------------------

/// Node that loads frames from an image sequence or a video file.
#[derive(Clone, Debug)]
pub struct FileNode {
    pub uuid: u128,
    pub name: String,
    /// Path pattern with `*` for the frame number, or a video path.
    pub file_mask: String,
    /// First frame number of the sequence.
    pub file_start: i32,
    /// Last frame number of the sequence.
    pub file_end: i32,
    pub in_frame: i32,
    pub out_frame: i32,
    pub trim_in: i32,
    pub trim_out: i32,
    pub frame: i32,
    pub width: u32,
    pub height: u32,
    /// Zero padding of the frame number in file names.
    pub padding: u32,
    pub dirty: bool,
}

/// What a file node shows at a frame of its timeline.
#[derive(Clone, Copy, Debug, PartialEq, Eq, Structural)]
pub enum FileFrame {
    /// Nothing: the node has no frames.
    Nothing,
    /// A placeholder of the node's size.
    Placeholder,
    /// The sequence frame with this number.
    Sequence(i32),
}

/// `x` clamped into `lo..=hi`.
pub open spec fn clamp_int(x: int, lo: int, hi: int) -> int {
    if x < lo { lo } else if x > hi { hi } else { x }
}

/// `x` saturated into the range of `i32`.
pub open spec fn sat_i32(x: int) -> int {
    if x < i32::MIN { i32::MIN as int } else if x > i32::MAX { i32::MAX as int } else { x }
}


/// A file node shows sequence frames only inside its trimmed work area
/// `in + trim_in ..= out - trim_out`: any frame outside it (before the
/// start trim or after the end trim) is a placeholder. Inside it, a frame
/// within `in ..= out` shows sequence frame `file_start + (f - in)` when
/// that lies in `file_start ..= file_end`; every sequence frame shown lies
/// in that range.
pub proof fn law_frame_at_work_area(n: FileNode, f: int)
    ensures
        n.spec_frame_at(f) matches FileFrame::Sequence(s) ==> {
            &&& n.in_frame + n.trim_in <= f <= n.out_frame - n.trim_out
            &&& n.file_start <= s <= n.file_end
            &&& (n.in_frame <= f <= n.out_frame && n.file_start + (f - n.in_frame) <= n.file_end ==> s == n.file_start
                + (f - n.in_frame))
        },
        n.in_frame <= n.out_frame && (f < n.in_frame + n.trim_in || f > n.out_frame - n.trim_out)
            ==> n.spec_frame_at(f) == FileFrame::Placeholder,
        n.in_frame <= f <= n.out_frame && n.in_frame + n.trim_in <= f <= n.out_frame - n.trim_out
            && n.file_start <= n.file_start + (f - n.in_frame) <= n.file_end
            ==> n.spec_frame_at(f) == FileFrame::Sequence((n.file_start + (f - n.in_frame)) as i32),
{
}

impl FileNode {
    pub open spec fn spec_frame_count(self) -> int {
        max_int(self.out_frame - self.in_frame + 1, 0)
    }

    pub open spec fn spec_work_area(self) -> (int, int) {
        (self.in_frame + self.trim_in, self.out_frame - self.trim_out)
    }

    /// The node's positions fit in `i32`.
    pub open spec fn wf(self) -> bool {
        &&& fits(self.out_frame - self.in_frame + 1)
        &&& fits(self.spec_work_area().0)
        &&& fits(self.spec_work_area().1)
    }

    /// What the node shows at timeline frame `f`: nothing when it has no
    /// frames; a placeholder outside its work area; otherwise the sequence
    /// frame as far from `file_start` as `f` (clamped to in..out) is from
    /// `in`, saturated, or a placeholder past `file_end`.
    pub open spec fn spec_frame_at(self, f: int) -> FileFrame {
        let (ws, we) = self.spec_work_area();
        if self.spec_frame_count() <= 0 {
            FileFrame::Nothing
        } else if f < ws || f > we {
            FileFrame::Placeholder
        } else {
            let local = clamp_int(f, self.in_frame as int, self.out_frame as int) - self.in_frame;
            let seq = sat_i32(self.file_start + local);
            if seq < self.file_start || seq > self.file_end {
                FileFrame::Placeholder
            } else {
                FileFrame::Sequence(seq as i32)
            }
        }
    }

    /// The frames to schedule for loading around `center`: none for an
    /// empty work area; for a video, forward from `center` (or the work
    /// area's start) to its end; for an image sequence, a spiral around
    /// `center` wide enough to cover the work area.
    pub open spec fn spec_preload_frames(self, center: int) -> Seq<int> {
        let (ps, pe) = self.spec_work_area();
        if pe < ps {
            Seq::empty()
        } else if spec_is_video(self.file_mask@) {
            forward(max_int(center, ps), pe)
        } else {
            let cc = clamp_int(center, ps, pe);
            let max_off = max_int(max_int(cc - ps, pe - cc), 0);
            spiral(center, (max_off + 1) as nat, ps, pe)
        }
    }

    /// Whether the node's positions fit in `i32`.
    pub fn positions_fit(&self) -> (r: bool)
        ensures
            r == self.wf(),
    {
        let count = self.out_frame as i64 - self.in_frame as i64 + 1;
        let ws = self.in_frame as i64 + self.trim_in as i64;
        let we = self.out_frame as i64 - self.trim_out as i64;
        let lo = i32::MIN as i64;
        let hi = i32::MAX as i64;
        lo <= count && count <= hi && lo <= ws && ws <= hi && lo <= we && we <= hi
    }

    /// Create a file node from a file mask and its first and last frame.
    pub fn new(file_mask: String, start: i32, end: i32) -> (r: Self)
        ensures
            r.uuid != 0,
            r.name@ == file_mask@,
            r.file_mask@ == file_mask@,
            r.file_start == start,
            r.file_end == end,
            r.in_frame == start,
            r.out_frame == end,
            r.trim_in == 0,
            r.trim_out == 0,
            r.frame == start,
            r.width == 64,
            r.height == 64,
            r.padding == 4,
            r.dirty,
    {
        FileNode {
            uuid: new_uuid(),
            name: file_mask.clone(),
            file_mask,
            file_start: start,
            file_end: end,
            in_frame: start,
            out_frame: end,
            trim_in: 0,
            trim_out: 0,
            frame: start,
            width: 64,
            height: 64,
            padding: 4,
            dirty: true,
        }
    }

    /// Create with a specified uuid.
    pub fn with_uuid(self, uuid: u128) -> (r: Self)
        ensures
            r == (FileNode { uuid, ..self }),
    {
        FileNode { uuid, ..self }
    }

    pub fn uuid(&self) -> (r: u128)
        ensures
            r == self.uuid,
    {
        self.uuid
    }

    pub fn name(&self) -> (r: &str)
        ensures
            r@ == self.name@,
    {
        self.name.as_str()
    }

    /// Node type name.
    pub fn node_type(&self) -> (r: &'static str)
        ensures
            r@ == "File"@,
    {
        proof {
            reveal_strlit("File");
        }
        "File"
    }

    /// A file node has no inputs.
    pub fn inputs(&self) -> (r: Vec<u128>)
        ensures
            r@.len() == 0,
    {
        Vec::new()
    }

    pub fn file_mask(&self) -> (r: Option<String>)
        ensures
            r matches Some(m) && m@ == self.file_mask@,
    {
        Some(self.file_mask.clone())
    }

    pub fn file_start(&self) -> (r: Option<i32>)
        ensures
            r == Some(self.file_start),
    {
        Some(self.file_start)
    }

    pub fn file_end(&self) -> (r: Option<i32>)
        ensures
            r == Some(self.file_end),
    {
        Some(self.file_end)
    }

    pub fn _in(&self) -> (r: i32)
        ensures
            r == self.in_frame,
    {
        self.in_frame
    }

    pub fn _out(&self) -> (r: i32)
        ensures
            r == self.out_frame,
    {
        self.out_frame
    }

    /// Frame size, each side at least 1.
    pub fn dim(&self) -> (r: (usize, usize))
        ensures
            r.0 == max_int(self.width as int, 1),
            r.1 == max_int(self.height as int, 1),
    {
        let w = if self.width == 0 { 1 } else { self.width as usize };
        let h = if self.height == 0 { 1 } else { self.height as usize };
        (w, h)
    }

    /// Number of frames from in to out, never negative.
    pub fn frame_count(&self) -> (r: i32)
        requires
            fits(self.out_frame - self.in_frame + 1),
        ensures
            r == self.spec_frame_count(),
    {
        let n = (self.out_frame as i64) - (self.in_frame as i64) + 1;
        if n < 0 { 0 } else { n as i32 }
    }

    /// Current playhead frame.
    pub fn frame(&self) -> (r: i32)
        ensures
            r == self.frame,
    {
        self.frame
    }

    /// Work area (trimmed range) in absolute frames.
    pub fn work_area_abs(&self) -> (r: (i32, i32))
        requires
            fits(self.spec_work_area().0),
            fits(self.spec_work_area().1),
        ensures
            r.0 == self.spec_work_area().0,
            r.1 == self.spec_work_area().1,
    {
        (self.in_frame + self.trim_in, self.out_frame - self.trim_out)
    }

    pub fn is_dirty(&self) -> (r: bool)
        ensures
            r == self.dirty,
    {
        self.dirty
    }

    pub fn mark_dirty(&mut self)
        ensures
            *final(self) == (FileNode { dirty: true, ..*old(self) }),
    {
        self.dirty = true;
    }

    pub fn clear_dirty(&mut self)
        ensures
            *final(self) == (FileNode { dirty: false, ..*old(self) }),
    {
        self.dirty = false;
    }

    /// The path of sequence frame `frame_number`: for a video the mask with
    /// `@frame`, otherwise the mask with `*` replaced by the zero-padded
    /// number (see `spec_frame_path`).
    pub fn resolve_frame_path(&self, frame_number: i32) -> (r: Option<String>)
        ensures
            r matches Some(p) && p@ == spec_frame_path(self.file_mask@, self.padding as nat, frame_number as int),
    {
        Some(frame_path(self.file_mask.as_str(), self.padding as usize, frame_number))
    }

    /// What the node shows at timeline frame `frame_idx` (see `spec_frame_at`).
    pub fn frame_at(&self, frame_idx: i32) -> (r: FileFrame)
        requires
            self.wf(),
        ensures
            r == self.spec_frame_at(frame_idx as int),
            r matches FileFrame::Sequence(_) ==> self.in_frame + self.trim_in <= frame_idx <= self.out_frame
                - self.trim_out,
            self.in_frame <= self.out_frame && (frame_idx < self.in_frame + self.trim_in || frame_idx > self.out_frame
                - self.trim_out) ==> r == FileFrame::Placeholder,
    {
        proof {
            law_frame_at_work_area(*self, frame_idx as int);
        }
        let duration = self.frame_count();
        if duration <= 0 {
            return FileFrame::Nothing;
        }
        let (ws, we) = self.work_area_abs();
        if frame_idx < ws || frame_idx > we {
            return FileFrame::Placeholder;
        }
        let clamped = if frame_idx < self.in_frame {
            self.in_frame
        } else if frame_idx > self.out_frame {
            self.out_frame
        } else {
            frame_idx
        };
        let local = (clamped as i64) - (self.in_frame as i64);
        let sum = (self.file_start as i64) + local;
        let seq: i32 = if sum > i32::MAX as i64 {
            i32::MAX
        } else if sum < i32::MIN as i64 {
            i32::MIN
        } else {
            sum as i32
        };
        if seq < self.file_start || seq > self.file_end {
            FileFrame::Placeholder
        } else {
            FileFrame::Sequence(seq)
        }
    }

    /// The sequence frame a background load of timeline frame `frame_idx`
    /// reads: `file_start` plus the distance from `in`, saturated.
    pub fn load_sequence_frame(&self, frame_idx: i32) -> (r: i32)
        requires
            fits(frame_idx - self.in_frame),
        ensures
            r == sat_i32(self.file_start + (frame_idx - self.in_frame)),
    {
        let sum = (self.file_start as i64) + ((frame_idx - self.in_frame) as i64);
        if sum > i32::MAX as i64 {
            i32::MAX
        } else if sum < i32::MIN as i64 {
            i32::MIN
        } else {
            sum as i32
        }
    }

    /// Whether a frame with this cached status still has to be loaded.
    pub fn needs_load(status: Option<FrameStatus>) -> (r: bool)
        ensures
            r == spec_file_needs_load(status),
    {
        match status {
            Some(FrameStatus::Loaded) | Some(FrameStatus::Loading) | Some(FrameStatus::Error) => false,
            _ => true,
        }
    }

    /// The frames to schedule for loading around `center`, in order (see
    /// `spec_preload_frames`).
    pub fn preload_frames(&self, center: i32) -> (r: Vec<i32>)
        requires
            self.wf(),
        ensures
            frames_of(r@) == self.spec_preload_frames(center as int),
    {
        let (ps, pe) = self.work_area_abs();
        if pe < ps {
            let v: Vec<i32> = Vec::new();
            proof {
                assert(frames_of(v@) =~= Seq::<int>::empty());
            }
            return v;
        }
        if is_video(self.file_mask.as_str()) {
            let start = if center > ps { center } else { ps };
            return forward_frames(start, pe);
        }
        let cc: i64 = if center < ps { ps as i64 } else if center > pe { pe as i64 } else { center as i64 };
        let back = cc - ps as i64;
        let fwd = pe as i64 - cc;
        let m = if back > fwd { back } else { fwd };
        let max_off = if m < 0 { 0 } else { m };
        spiral_frames(center, max_off, ps, pe)
    }
}

// ---------------------------------------------------------------------------
// Node kinds
// ---------------------------------------------------------------------------

/// All node types of the media pool.
#[derive(Clone, Debug)]
pub enum NodeKind {
    File(FileNode),
    Comp(CompNode),
}

impl NodeKind {
    pub open spec fn spec_uuid(self) -> u128 {
        match self {
            NodeKind::File(n) => n.uuid,
            NodeKind::Comp(n) => n.uuid,
        }
    }

    pub open spec fn spec_name(self) -> Seq<char> {
        match self {
            NodeKind::File(n) => n.name@,
            NodeKind::Comp(n) => n.name@,
        }
    }

    /// The node's inputs: the sources of a composition's layers, in layer
    /// order; a file node has none.
    pub open spec fn spec_inputs(self) -> Seq<u128> {
        match self {
            NodeKind::File(_) => Seq::empty(),
            NodeKind::Comp(c) => c.layers@.map_values(|l: crate::comp::Layer| l.source_uuid),
        }
    }

    /// The node's positions fit in `i32`.
    pub open spec fn wf(self) -> bool {
        match self {
            NodeKind::File(n) => n.wf(),
            NodeKind::Comp(c) => c.wf(),
        }
    }

    /// Whether the node's positions fit in `i32`.
    pub fn positions_fit(&self) -> (r: bool)
        ensures
            r == self.wf(),
    {
        match self {
            NodeKind::File(n) => n.positions_fit(),
            NodeKind::Comp(c) => c.positions_fit(),
        }
    }

    pub fn is_file(&self) -> (r: bool)
        ensures
            r == (*self is File),
    {
        match self {
            NodeKind::File(_) => true,
            NodeKind::Comp(_) => false,
        }
    }

    pub fn is_comp(&self) -> (r: bool)
        ensures
            r == (*self is Comp),
    {
        match self {
            NodeKind::File(_) => false,
            NodeKind::Comp(_) => true,
        }
    }

    /// A file node is in file mode, a composition is not.
    pub fn is_file_mode(&self) -> (r: bool)
        ensures
            r == (*self is File),
    {
        self.is_file()
    }

    pub fn uuid(&self) -> (r: u128)
        ensures
            r == self.spec_uuid(),
    {
        match self {
            NodeKind::File(n) => n.uuid(),
            NodeKind::Comp(n) => n.uuid(),
        }
    }

    pub fn name(&self) -> (r: &str)
        ensures
            r@ == self.spec_name(),
    {
        match self {
            NodeKind::File(n) => n.name(),
            NodeKind::Comp(n) => n.name(),
        }
    }

    /// Node type name: `"File"` or `"Comp"`.
    pub fn node_type(&self) -> (r: &'static str)
        ensures
            r@ == (if *self is File { "File"@ } else { "Comp"@ }),
    {
        match self {
            NodeKind::File(n) => n.node_type(),
            NodeKind::Comp(n) => n.node_type(),
        }
    }

    /// The node's inputs (see `spec_inputs`).
    pub fn inputs(&self) -> (r: Vec<u128>)
        ensures
            r@ == self.spec_inputs(),
    {
        match self {
            NodeKind::File(n) => {
                let v = n.inputs();
                proof {
                    assert(v@ =~= self.spec_inputs());
                }
                v
            },
            NodeKind::Comp(n) => n.inputs(),
        }
    }

    /// Play range: a file node's work area, a composition's play range.
    pub fn play_range(&self, use_work_area: bool) -> (r: (i32, i32))
        requires
            self.wf(),
        ensures
            r == match *self {
                NodeKind::File(n) => (n.spec_work_area().0 as i32, n.spec_work_area().1 as i32),
                NodeKind::Comp(c) => (c.spec_work_area().0 as i32, c.spec_work_area().1 as i32),
            },
    {
        match self {
            NodeKind::File(n) => n.work_area_abs(),
            NodeKind::Comp(n) => n.play_range(use_work_area),
        }
    }

    /// Content bounds: a file node's work area, a composition's bounds over
    /// all its visible layers.
    pub fn bounds(&self, use_trim: bool) -> (r: (i32, i32))
        requires
            self.wf(),
        ensures
            r == match *self {
                NodeKind::File(n) => (n.spec_work_area().0 as i32, n.spec_work_area().1 as i32),
                NodeKind::Comp(c) => (c.spec_bounds(use_trim, false).0 as i32, c.spec_bounds(use_trim, false).1 as i32),
            },
    {
        match self {
            NodeKind::File(n) => n.work_area_abs(),
            NodeKind::Comp(n) => n.bounds(use_trim, false),
        }
    }

    /// Number of frames from in to out, never negative.
    pub fn frame_count(&self) -> (r: i32)
        requires
            self.wf(),
        ensures
            r == match *self {
                NodeKind::File(n) => n.spec_frame_count(),
                NodeKind::Comp(c) => max_int(c.out_frame - c.in_frame + 1, 0),
            },
    {
        match self {
            NodeKind::File(n) => n.frame_count(),
            NodeKind::Comp(n) => n.frame_count(),
        }
    }

    /// Frame size, each side at least 1.
    pub fn dim(&self) -> (r: (usize, usize))
        ensures
            r == match *self {
                NodeKind::File(n) => (max_int(n.width as int, 1) as usize, max_int(n.height as int, 1) as usize),
                NodeKind::Comp(c) => (max_int(c.width as int, 1) as usize, max_int(c.height as int, 1) as usize),
            },
    {
        match self {
            NodeKind::File(n) => n.dim(),
            NodeKind::Comp(n) => n.dim(),
        }
    }

    pub fn _in(&self) -> (r: i32)
        ensures
            r == match *self {
                NodeKind::File(n) => n.in_frame,
                NodeKind::Comp(c) => c.in_frame,
            },
    {
        match self {
            NodeKind::File(n) => n._in(),
            NodeKind::Comp(n) => n._in(),
        }
    }

    pub fn _out(&self) -> (r: i32)
        ensures
            r == match *self {
                NodeKind::File(n) => n.out_frame,
                NodeKind::Comp(c) => c.out_frame,
            },
    {
        match self {
            NodeKind::File(n) => n._out(),
            NodeKind::Comp(n) => n._out(),
        }
    }

    /// Current playhead frame.
    pub fn frame(&self) -> (r: i32)
        ensures
            r == match *self {
                NodeKind::File(n) => n.frame,
                NodeKind::Comp(c) => c.frame,
            },
    {
        match self {
            NodeKind::File(n) => n.frame(),
            NodeKind::Comp(n) => n.frame(),
        }
    }

    /// The file mask of a file node; a composition has none.
    pub fn file_mask(&self) -> (r: Option<String>)
        ensures
            match *self {
                NodeKind::File(n) => r matches Some(m) && m@ == n.file_mask@,
                NodeKind::Comp(_) => r is None,
            },
    {
        match self {
            NodeKind::File(n) => n.file_mask(),
            NodeKind::Comp(_) => None,
        }
    }

    pub fn as_file(&self) -> (r: Option<&FileNode>)
        ensures
            match *self {
                NodeKind::File(n) => r == Some(&n),
                NodeKind::Comp(_) => r is None,
            },
    {
        match self {
            NodeKind::File(n) => Some(n),
            NodeKind::Comp(_) => None,
        }
    }

    pub fn as_comp(&self) -> (r: Option<&CompNode>)
        ensures
            match *self {
                NodeKind::Comp(c) => r == Some(&c),
                NodeKind::File(_) => r is None,
            },
    {
        match self {
            NodeKind::Comp(n) => Some(n),
            NodeKind::File(_) => None,
        }
    }

    /// Whether the node (or, for a composition, any of its layers) changed.
    pub fn is_dirty(&self) -> (r: bool)
        ensures
            r == match *self {
                NodeKind::File(n) => n.dirty,
                NodeKind::Comp(c) => c.spec_is_dirty(),
            },
    {
        match self {
            NodeKind::File(n) => n.is_dirty(),
            NodeKind::Comp(n) => n.is_dirty(),
        }
    }

    /// Add a layer for a source to a composition; a file node refuses.
    pub fn add_child_layer(
        &mut self,
        source_uuid: u128,
        name: &str,
        start_frame: i32,
        duration: i32,
        insert_idx: Option<usize>,
        source_dim: (usize, usize),
    ) -> (r: Result<u128, CompError>)
        requires
            fits(start_frame + duration - 1),
            *old(self) is Comp ==> crate::comp::layers_wf((*old(self))->Comp_0.layers@),
            *old(self) is Comp ==> fits((*old(self))->Comp_0.spec_work_area().0),
            *old(self) is Comp ==> fits((*old(self))->Comp_0.spec_work_area().1),
        ensures
            *old(self) is File ==> r == Err::<u128, CompError>(CompError::NotAComposition) && *final(self) == *old(self),
            *old(self) is Comp ==> (r is Ok && *final(self) is Comp && CompNode::spec_added_child(
                (*old(self))->Comp_0,
                (*final(self))->Comp_0,
                r->Ok_0,
                source_uuid,
                name@,
                start_frame,
                duration,
                insert_idx,
                source_dim,
            )),
            final(self).spec_uuid() == old(self).spec_uuid(),
    {
        match self {
            NodeKind::Comp(comp) => comp.add_child_layer(source_uuid, name, start_frame, duration, insert_idx, source_dim),
            NodeKind::File(_) => Err(CompError::NotAComposition),
        }
    }
}

impl From<FileNode> for NodeKind {
    fn from(node: FileNode) -> (r: NodeKind) {
        NodeKind::File(node)
    }
}

impl vstd::std_specs::convert::FromSpecImpl<FileNode> for NodeKind {
    open spec fn obeys_from_spec() -> bool {
        true
    }

    open spec fn from_spec(v: FileNode) -> NodeKind {
        NodeKind::File(v)
    }
}

impl From<CompNode> for NodeKind {
    fn from(node: CompNode) -> (r: NodeKind) {
        NodeKind::Comp(node)
    }
}

impl vstd::std_specs::convert::FromSpecImpl<CompNode> for NodeKind {
    open spec fn obeys_from_spec() -> bool {
        true
    }

    open spec fn from_spec(v: CompNode) -> NodeKind {
        NodeKind::Comp(v)
    }
}

} // verus!
