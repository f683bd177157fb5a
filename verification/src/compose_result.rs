//! What a composed frame is, given the frames of its sources: the pixel
//! format it is blended in, its status, whether the cache keeps it, and the
//! guard against a composition that contains itself.

use vstd::prelude::*;
use crate::frame::{FrameStatus, PixelFormat};
use crate::ids::contains_id;
use crate::project::{ids_without, without_id};

verus! {

/// The higher precision of two formats.
pub open spec fn spec_wider(a: PixelFormat, b: PixelFormat) -> PixelFormat {
    if a == PixelFormat::RgbaF32 || b == PixelFormat::RgbaF32 {
        PixelFormat::RgbaF32
    } else if a == PixelFormat::RgbaF16 || b == PixelFormat::RgbaF16 {
        PixelFormat::RgbaF16
    } else {
        PixelFormat::Rgba8
    }
}

/// The format sources are blended in: the highest precision among them,
/// 8-bit when there is none.
pub open spec fn target_format_of(fs: Seq<PixelFormat>) -> PixelFormat
    decreases fs.len(),
{
    if fs.len() == 0 {
        PixelFormat::Rgba8
    } else {
        spec_wider(target_format_of(fs.drop_last()), fs.last())
    }
}

/// The format to blend frames of these formats in (see `target_format_of`).
pub fn target_format(formats: &[PixelFormat]) -> (r: PixelFormat)
    ensures
        r == target_format_of(formats@),
{
    let mut t = PixelFormat::Rgba8;
    let mut i: usize = 0;
    proof {
        assert(formats@.subrange(0, 0) =~= Seq::<PixelFormat>::empty());
    }
    while i < formats.len()
        invariant
            i <= formats@.len(),
            t == target_format_of(formats@.subrange(0, i as int)),
        decreases formats@.len() - i,
    {
        proof {
            assert(formats@.subrange(0, i + 1).drop_last() =~= formats@.subrange(0, i as int));
        }
        t = t.wider(formats[i]);
        i = i + 1;
    }
    proof {
        assert(formats@.subrange(0, i as int) =~= formats@);
    }
    t
}

/// Every source frame is loaded.
pub open spec fn all_loaded(ss: Seq<FrameStatus>) -> bool {
    forall|i: int| 0 <= i < ss.len() ==> #[trigger] ss[i] == FrameStatus::Loaded
}

/// The status of a composite of frames with these statuses: `Loaded` when
/// every source is loaded, else `Loading` (incomplete).
pub fn composite_status(statuses: &[FrameStatus]) -> (r: FrameStatus)
    ensures
        r == (if all_loaded(statuses@) { FrameStatus::Loaded } else { FrameStatus::Loading }),
{
    let mut i: usize = 0;
    while i < statuses.len()
        invariant
            i <= statuses@.len(),
            forall|q: int| 0 <= q < i ==> #[trigger] statuses@[q] == FrameStatus::Loaded,
        decreases statuses@.len() - i,
    {
        if statuses[i] != FrameStatus::Loaded {
            return FrameStatus::Loading;
        }
        i = i + 1;
    }
    FrameStatus::Loaded
}

/// Whether the frame cache keeps a frame of this status: only complete
/// (loaded) frames are kept, so an incomplete composite is composed again.
pub fn is_cacheable(status: FrameStatus) -> (r: bool)
    ensures
        r == (status == FrameStatus::Loaded),
{
    status == FrameStatus::Loaded
}

/// Enter the composition `uuid`: `false` (a cycle, compose a placeholder)
/// when it is already being composed, else it joins the stack.
pub fn enter_compose(stack: &mut Vec<u128>, uuid: u128) -> (r: bool)
    ensures
        r == !old(stack)@.contains(uuid),
        r ==> final(stack)@ == old(stack)@.push(uuid),
        !r ==> final(stack)@ == old(stack)@,
{
    if contains_id(stack.as_slice(), uuid) {
        false
    } else {
        stack.push(uuid);
        true
    }
}

/// Leave the composition `uuid`: it leaves the stack.
pub fn leave_compose(stack: &mut Vec<u128>, uuid: u128)
    ensures
        final(stack)@ == ids_without(old(stack)@, uuid),
{
    let rest = without_id(stack.as_slice(), uuid);
    *stack = rest;
}

/// A composition that is being composed is found again: entering it a
/// second time before leaving it reports a cycle, and after leaving it can
/// be entered again.
pub proof fn law_reentry_is_cycle(stack: Seq<u128>, uuid: u128)
    ensures
        stack.push(uuid).contains(uuid),
        !ids_without(stack.push(uuid), uuid).contains(uuid),
{
    assert(stack.push(uuid)[stack.len() as int] == uuid);
    crate::project::lemma_ids_without(stack.push(uuid), uuid);
}

} // verus!
