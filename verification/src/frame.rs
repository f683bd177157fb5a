//! Frame status, pixel formats and the pixel buffer operations that need
//! no arithmetic on the channel values: placeholders, crop/pad, channel
//! dropping and 8-to-16-bit widening.
//!
//! Buffers are RGBA, four channel values per pixel, rows top to bottom.

use vstd::prelude::*;
use vstd::arithmetic::div_mod::{lemma_fundamental_div_mod, lemma_fundamental_div_mod_converse};

verus! {

/// Frame loading errors.
#[derive(Debug)]
pub enum FrameError {
    Exr(String),
    Image(String),
    LoadError(String),
    UnsupportedFormat(String),
    NoFilename,
}

/// Pixel format type.
#[derive(Clone, Copy, Debug, PartialEq, Eq, Structural)]
pub enum PixelFormat {
    /// 8-bit RGBA (LDR).
    Rgba8,
    /// 16-bit half-float RGBA (HDR).
    RgbaF16,
    /// 32-bit float RGBA (HDR).
    RgbaF32,
}

/// Crop alignment mode.
#[derive(Clone, Copy, Debug, PartialEq, Eq, Structural)]
pub enum CropAlign {
    /// Center-align when cropping or padding.
    Center,
    /// Align to the top-left corner.
    LeftTop,
}

/// Pixel bit depth for frame construction.
#[derive(Clone, Copy, Debug, PartialEq, Eq, Structural)]
pub enum PixelDepth {
    U8,
    F16,
    F32,
}

/// Tonemapping mode for HDR to LDR conversion.
#[derive(Clone, Copy, Debug, PartialEq, Eq, Structural)]
pub enum TonemapMode {
    Clamp,
    ACES,
    Reinhard,
}

impl Default for TonemapMode {
    /// ACES gives the best filmic results.
    fn default() -> (r: Self)
        ensures
            r == TonemapMode::ACES,
    {
        TonemapMode::ACES
    }
}

/// Frame loading status.
#[derive(Clone, Copy, Debug, PartialEq, Eq, Structural)]
pub enum FrameStatus {
    /// No file name: a green placeholder.
    Placeholder,
    /// File name set, header read; the buffer is still a placeholder.
    Header,
    /// Loading in progress.
    Loading,
    /// Pixels loaded.
    Loaded,
    /// Loading failed.
    Error,
}

/// What a status change asks of a frame.
#[derive(Clone, Copy, Debug, PartialEq, Eq, Structural)]
pub enum StatusChange {
    /// The frame already has the requested status.
    Keep,
    /// Replace the pixels by a placeholder of the same size, 8-bit, and
    /// set the status to `Header`.
    Unload,
    /// Read the header from the file.
    LoadHeader,
    /// Load the full pixels from the file.
    Load,
    /// Only set the status field.
    SetStatus(FrameStatus),
}

/// Rank of a status in a composition: the result is only as good as its
/// worst input.
pub open spec fn spec_status_rank(s: FrameStatus) -> int {
    match s {
        FrameStatus::Error => 0,
        FrameStatus::Placeholder => 1,
        FrameStatus::Header => 2,
        FrameStatus::Loading => 3,
        FrameStatus::Loaded => 4,
    }
}

/// The work that moving a frame from `cur` to `new` takes.
pub open spec fn spec_status_change(cur: FrameStatus, new: FrameStatus) -> StatusChange {
    if cur == new {
        StatusChange::Keep
    } else {
        match (cur, new) {
            (FrameStatus::Loaded, FrameStatus::Header) => StatusChange::Unload,
            (FrameStatus::Error, FrameStatus::Header) => StatusChange::Unload,
            (FrameStatus::Placeholder, FrameStatus::Header) => StatusChange::LoadHeader,
            (FrameStatus::Header, FrameStatus::Loaded) => StatusChange::Load,
            (FrameStatus::Error, FrameStatus::Loaded) => StatusChange::Load,
            _ => StatusChange::SetStatus(new),
        }
    }
}

impl FrameStatus {
    /// Load-indicator colour of this status, as (red, green, blue).
    pub fn color_rgb(&self) -> (r: (u8, u8, u8))
        ensures
            r == match *self {
                FrameStatus::Placeholder => (40u8, 40u8, 45u8),
                FrameStatus::Header => (60u8, 100u8, 180u8),
                FrameStatus::Loading => (220u8, 160u8, 60u8),
                FrameStatus::Loaded => (80u8, 200u8, 120u8),
                FrameStatus::Error => (200u8, 60u8, 60u8),
            },
    {
        match self {
            FrameStatus::Placeholder => (40, 40, 45),
            FrameStatus::Header => (60, 100, 180),
            FrameStatus::Loading => (220, 160, 60),
            FrameStatus::Loaded => (80, 200, 120),
            FrameStatus::Error => (200, 60, 60),
        }
    }

    /// Rank of this status in a composition (`Error` lowest, `Loaded` highest).
    pub fn rank(&self) -> (r: u8)
        ensures
            r == spec_status_rank(*self),
    {
        match self {
            FrameStatus::Error => 0,
            FrameStatus::Placeholder => 1,
            FrameStatus::Header => 2,
            FrameStatus::Loading => 3,
            FrameStatus::Loaded => 4,
        }
    }

    /// The work that moving a frame from this status to `new` takes:
    /// unloading keeps the size and drops the pixels, a placeholder reads
    /// its header, a header or a failed frame loads, a loading frame is
    /// only marked `Header` again, and any other change only sets the field.
    pub fn change_to(&self, new: FrameStatus) -> (r: StatusChange)
        ensures
            r == spec_status_change(*self, new),
    {
        if *self == new {
            return StatusChange::Keep;
        }
        match (*self, new) {
            (FrameStatus::Loaded, FrameStatus::Header) => StatusChange::Unload,
            (FrameStatus::Error, FrameStatus::Header) => StatusChange::Unload,
            (FrameStatus::Placeholder, FrameStatus::Header) => StatusChange::LoadHeader,
            (FrameStatus::Header, FrameStatus::Loaded) => StatusChange::Load,
            (FrameStatus::Error, FrameStatus::Loaded) => StatusChange::Load,
            _ => StatusChange::SetStatus(new),
        }
    }

    /// Claim a frame for loading: only a `Header` frame may be claimed, and
    /// it becomes `Loading`; any other status stays and the claim fails.
    pub fn claim_for_loading(&self) -> (r: (bool, FrameStatus))
        ensures
            r.0 == (*self == FrameStatus::Header),
            r.1 == (if r.0 { FrameStatus::Loading } else { *self }),
    {
        match self {
            FrameStatus::Header => (true, FrameStatus::Loading),
            _ => (false, *self),
        }
    }
}

/// The first status of lowest rank, or `Placeholder` for none.
pub open spec fn spec_min_status(s: Seq<FrameStatus>) -> FrameStatus
    decreases s.len(),
{
    if s.len() == 0 {
        FrameStatus::Placeholder
    } else if s.len() == 1 {
        s[0]
    } else {
        let rest = spec_min_status(s.drop_last());
        if spec_status_rank(s.last()) < spec_status_rank(rest) {
            s.last()
        } else {
            rest
        }
    }
}

/// The status of a composition of frames with these statuses: the first
/// one of lowest rank, `Placeholder` when there is none.
pub fn min_status(statuses: &[FrameStatus]) -> (r: FrameStatus)
    ensures
        r == spec_min_status(statuses@),
        statuses@.len() > 0 ==> statuses@.contains(r),
        forall|i: int| 0 <= i < statuses@.len() ==> spec_status_rank(r) <= spec_status_rank(#[trigger] statuses@[i]),
{
    if statuses.len() == 0 {
        return FrameStatus::Placeholder;
    }
    let mut best = statuses[0];
    let mut i: usize = 1;
    proof {
        assert(statuses@.subrange(0, 1) =~= seq![statuses@[0]]);
    }
    while i < statuses.len()
        invariant
            1 <= i <= statuses@.len(),
            best == spec_min_status(statuses@.subrange(0, i as int)),
            statuses@.subrange(0, i as int).contains(best),
            forall|j: int| 0 <= j < i ==> spec_status_rank(best) <= spec_status_rank(#[trigger] statuses@[j]),
        decreases statuses@.len() - i,
    {
        let s = statuses[i];
        proof {
            let t = statuses@.subrange(0, i + 1);
            assert(t.drop_last() =~= statuses@.subrange(0, i as int));
            assert(t.last() == s);
        }
        if s.rank() < best.rank() {
            best = s;
        }
        i = i + 1;
        proof {
            let t = statuses@.subrange(0, i as int);
            let u = statuses@.subrange(0, i - 1);
            assert forall|x: FrameStatus| u.contains(x) implies t.contains(x) by {
                let k = choose|k: int| 0 <= k < u.len() && u[k] == x;
                assert(t[k] == x);
            }
            assert(t[i - 1] == s);
        }
    }
    proof {
        assert(statuses@.subrange(0, statuses@.len() as int) =~= statuses@);
    }
    best
}

impl PixelFormat {
    /// Bytes of one channel value.
    pub fn bytes_per_channel(&self) -> (r: usize)
        ensures
            r == match *self {
                PixelFormat::Rgba8 => 1usize,
                PixelFormat::RgbaF16 => 2usize,
                PixelFormat::RgbaF32 => 4usize,
            },
    {
        match self {
            PixelFormat::Rgba8 => 1,
            PixelFormat::RgbaF16 => 2,
            PixelFormat::RgbaF32 => 4,
        }
    }

    /// The format that holds both: the higher precision of the two.
    pub fn wider(&self, other: PixelFormat) -> (r: PixelFormat)
        ensures
            r == (if *self == PixelFormat::RgbaF32 || other == PixelFormat::RgbaF32 {
                PixelFormat::RgbaF32
            } else if *self == PixelFormat::RgbaF16 || other == PixelFormat::RgbaF16 {
                PixelFormat::RgbaF16
            } else {
                PixelFormat::Rgba8
            }),
    {
        match (*self, other) {
            (PixelFormat::RgbaF32, _) | (_, PixelFormat::RgbaF32) => PixelFormat::RgbaF32,
            (PixelFormat::RgbaF16, _) | (_, PixelFormat::RgbaF16) => PixelFormat::RgbaF16,
            _ => PixelFormat::Rgba8,
        }
    }
}

impl PixelDepth {
    /// The pixel format a frame of this depth is created with.
    pub fn format(&self) -> (r: PixelFormat)
        ensures
            r == match *self {
                PixelDepth::U8 => PixelFormat::Rgba8,
                PixelDepth::F16 => PixelFormat::RgbaF16,
                PixelDepth::F32 => PixelFormat::RgbaF32,
            },
    {
        match self {
            PixelDepth::U8 => PixelFormat::Rgba8,
            PixelDepth::F16 => PixelFormat::RgbaF16,
            PixelDepth::F32 => PixelFormat::RgbaF32,
        }
    }
}

/// Memory of a pixel buffer in bytes: its channel count times the size of
/// one channel value of its format.
pub fn buffer_mem(format: PixelFormat, channels: usize) -> (r: usize)
    requires
        channels * 4 <= usize::MAX,
    ensures
        r == channels * match format {
            PixelFormat::Rgba8 => 1usize,
            PixelFormat::RgbaF16 => 2usize,
            PixelFormat::RgbaF32 => 4usize,
        },
{
    channels * format.bytes_per_channel()
}

/// `n` pixels, each with the channel values of `fill`.
pub fn fill_pixels<T: Copy>(n: usize, fill: &[T]) -> (r: Vec<T>)
    requires
        fill@.len() == 4,
        n * 4 <= usize::MAX,
    ensures
        r@.len() == n * 4,
        forall|j: int| 0 <= j < n * 4 ==> #[trigger] r@[j] == fill@[j % 4],
{
    let mut out: Vec<T> = Vec::new();
    let mut k: usize = 0;
    while k < n
        invariant
            fill@.len() == 4,
            k <= n,
            n * 4 <= usize::MAX,
            out@.len() == k * 4,
            forall|j: int| 0 <= j < k * 4 ==> #[trigger] out@[j] == fill@[j % 4],
        decreases n - k,
    {
        let ghost before = out@;
        out.push(fill[0]);
        out.push(fill[1]);
        out.push(fill[2]);
        out.push(fill[3]);
        proof {
            assert forall|j: int| 0 <= j < (k + 1) * 4 implies #[trigger] out@[j] == fill@[j % 4] by {
                if j < k * 4 {
                    assert(out@[j] == before[j]);
                } else {
                    let c = j - k * 4;
                    lemma_fundamental_div_mod_converse(j, 4, k as int, c);
                }
            }
        }
        k = k + 1;
    }
    out
}

/// The channel values of the placeholder pixel: dark green, opaque.
pub open spec fn placeholder_channel(c: int) -> u8 {
    if c == 1 {
        100u8
    } else if c == 3 {
        255u8
    } else {
        0u8
    }
}

/// An 8-bit placeholder buffer of `width` by `height` pixels.
pub fn placeholder_rgba8(width: usize, height: usize) -> (r: Vec<u8>)
    requires
        width * height * 4 <= usize::MAX,
    ensures
        r@.len() == width * height * 4,
        forall|j: int| 0 <= j < width * height * 4 ==> #[trigger] r@[j] == placeholder_channel(j % 4),
{
    let fill: [u8; 4] = [0, 100, 0, 255];
    proof {
        assert(width * height * 4 == (width * height) * 4) by (nonlinear_arith);
    }
    let n = width * height;
    let r = fill_pixels(n, fill.as_slice());
    proof {
        assert forall|j: int| 0 <= j < width * height * 4 implies #[trigger] r@[j] == placeholder_channel(j % 4) by {
            let c = j % 4;
            assert(0 <= c < 4);
            assert(fill@[c] == placeholder_channel(c));
        }
    }
    r
}

/// Offsets of a crop or pad from a `ow` by `oh` buffer to `nw` by `nh`:
/// (first source column, first source row, first target column, first
/// target row). Centred, the excess of each side is split in two, rounded
/// down; aligned top-left, all are 0.
pub open spec fn crop_offsets(ow: int, oh: int, nw: int, nh: int, align: CropAlign) -> (int, int, int, int) {
    match align {
        CropAlign::Center => (
            if ow > nw { (ow - nw) / 2 } else { 0 },
            if oh > nh { (oh - nh) / 2 } else { 0 },
            if nw > ow { (nw - ow) / 2 } else { 0 },
            if nh > oh { (nh - oh) / 2 } else { 0 },
        ),
        CropAlign::LeftTop => (0, 0, 0, 0),
    }
}

/// Index of channel `c` of pixel (`x`, `y`) in a buffer `w` pixels wide.
pub open spec fn pix(w: int, x: int, y: int, c: int) -> int {
    (y * w + x) * 4 + c
}

/// Channel `c` of target pixel (`x`, `y`) after cropping or padding the
/// buffer `old` (`ow` by `oh`) to `nw` by `nh`: inside the copied window
/// the source pixel it lands on, elsewhere the fill value.
pub open spec fn cropped_channel<T>(
    old: Seq<T>,
    ow: int,
    oh: int,
    nw: int,
    nh: int,
    align: CropAlign,
    fill: Seq<T>,
    x: int,
    y: int,
    c: int,
) -> T {
    let (sx, sy, dx, dy) = crop_offsets(ow, oh, nw, nh, align);
    let cw = min_of(ow, nw);
    let ch = min_of(oh, nh);
    if dx <= x < dx + cw && dy <= y < dy + ch {
        old[pix(ow, x - dx + sx, y - dy + sy, c)]
    } else {
        fill[c]
    }
}


/// Centred cropping and padding split each side's excess in two (rounded
/// down), the same way in both directions: a crop keeps the middle of the
/// source, a pad puts the source in the middle of the target with the fill
/// around it. Written on buffer indices.
pub proof fn law_crop_center<T>(old: Seq<T>, ow: int, oh: int, nw: int, nh: int, fill: Seq<T>, x: int, y: int, c: int)
    requires
        0 <= ow,
        0 <= oh,
        0 <= x < nw,
        0 <= y < nh,
        0 <= c < 4,
    ensures
        ow >= nw && oh >= nh ==> cropped_channel(old, ow, oh, nw, nh, CropAlign::Center, fill, x, y, c)
            == old[((y + (oh - nh) / 2) * ow + x + (ow - nw) / 2) * 4 + c],
        nw >= ow && nh >= oh ==> cropped_channel(old, ow, oh, nw, nh, CropAlign::Center, fill, x, y, c) == if (nw
            - ow) / 2 <= x < (nw - ow) / 2 + ow && (nh - oh) / 2 <= y < (nh - oh) / 2 + oh {
            old[((y - (nh - oh) / 2) * ow + x - (nw - ow) / 2) * 4 + c]
        } else {
            fill[c]
        },
        ow >= nw && nh >= oh ==> cropped_channel(old, ow, oh, nw, nh, CropAlign::Center, fill, x, y, c) == if (nh
            - oh) / 2 <= y < (nh - oh) / 2 + oh {
            old[((y - (nh - oh) / 2) * ow + x + (ow - nw) / 2) * 4 + c]
        } else {
            fill[c]
        },
        nw >= ow && oh >= nh ==> cropped_channel(old, ow, oh, nw, nh, CropAlign::Center, fill, x, y, c) == if (nw
            - ow) / 2 <= x < (nw - ow) / 2 + ow {
            old[((y + (oh - nh) / 2) * ow + x - (nw - ow) / 2) * 4 + c]
        } else {
            fill[c]
        },
{
}

/// Aligned top-left, a pixel keeps its coordinates: inside the source it
/// is the source's pixel, outside it the fill.
pub proof fn law_crop_left_top<T>(old: Seq<T>, ow: int, oh: int, nw: int, nh: int, fill: Seq<T>, x: int, y: int, c: int)
    requires
        0 <= ow,
        0 <= oh,
        0 <= x < nw,
        0 <= y < nh,
        0 <= c < 4,
    ensures
        cropped_channel(old, ow, oh, nw, nh, CropAlign::LeftTop, fill, x, y, c) == if x < ow && y < oh {
            old[(y * ow + x) * 4 + c]
        } else {
            fill[c]
        },
{
}

pub open spec fn min_of(a: int, b: int) -> int {
    if a <= b { a } else { b }
}

proof fn lemma_pix_bound(w: int, h: int, x: int, y: int, c: int)
    requires
        0 <= x < w,
        0 <= y < h,
        0 <= c < 4,
    ensures
        0 <= pix(w, x, y, c) < w * h * 4,
        pix(w, x, y, c) + (4 - c) == pix(w, x, y, 0) + 4,
{
    assert(0 <= y * w) by (nonlinear_arith)
        requires
            0 <= y,
            0 <= w,
    ;
    assert(y * w + x < w * h) by (nonlinear_arith)
        requires
            0 <= x < w,
            0 <= y < h,
    ;
    assert((y * w + x) * 4 + c < w * h * 4) by (nonlinear_arith)
        requires
            y * w + x < w * h,
            0 <= c < 4,
    ;
}

/// Every channel index of a `w` by `h` buffer is the index of one pixel's
/// channel.
proof fn lemma_pix_cover(w: int, h: int, j: int) -> (r: (int, int, int))
    requires
        w > 0,
        0 <= j < w * h * 4,
    ensures
        0 <= r.0 < w,
        0 <= r.1 < h,
        0 <= r.2 < 4,
        pix(w, r.0, r.1, r.2) == j,
{
    let p = j / 4;
    let c = j % 4;
    lemma_fundamental_div_mod(j, 4);
    let y = p / w;
    let x = p % w;
    lemma_fundamental_div_mod(p, w);
    assert(0 <= p) by (nonlinear_arith)
        requires
            0 <= j,
            p == j / 4,
    ;
    assert(p < w * h) by (nonlinear_arith)
        requires
            j < w * h * 4,
            j == 4 * p + c,
            0 <= c < 4,
    ;
    assert(0 <= y < h) by (nonlinear_arith)
        requires
            p == w * y + x,
            0 <= x < w,
            0 <= p < w * h,
            w > 0,
    ;
    assert(pix(w, x, y, c) == j) by (nonlinear_arith)
        requires
            p == w * y + x,
            j == 4 * p + c,
    ;
    (x, y, c)
}

/// Cropping a buffer to its own size changes nothing: every target channel
/// is the source channel at the same place.
pub proof fn law_crop_same_size<T>(old: Seq<T>, w: int, h: int, align: CropAlign, fill: Seq<T>, x: int, y: int, c: int)
    requires
        0 <= x < w,
        0 <= y < h,
        0 <= c < 4,
    ensures
        cropped_channel(old, w, h, w, h, align, fill, x, y, c) == old[pix(w, x, y, c)],
{
}

/// The buffer `old` (`ow` by `oh`) cropped or padded to `nw` by `nh`: the
/// overlapping window is copied at the offsets of `align`, the rest of the
/// target is filled with `fill`.
pub fn crop_buffer<T: Copy>(
    old: &[T],
    ow: usize,
    oh: usize,
    nw: usize,
    nh: usize,
    align: CropAlign,
    fill: &[T],
) -> (r: Vec<T>)
    requires
        old@.len() == ow * oh * 4,
        fill@.len() == 4,
        nw * nh * 4 <= usize::MAX,
    ensures
        r@.len() == nw * nh * 4,
        forall|x: int, y: int, c: int|
            0 <= x < nw && 0 <= y < nh && 0 <= c < 4 ==> #[trigger] r@[pix(nw as int, x, y, c)]
                == cropped_channel(old@, ow as int, oh as int, nw as int, nh as int, align, fill@, x, y, c),
        ow == nw && oh == nh ==> r@ == old@,
{
    let (sx, sy, dx, dy): (usize, usize, usize, usize) = match align {
        CropAlign::Center => (
            if ow > nw { (ow - nw) / 2 } else { 0 },
            if oh > nh { (oh - nh) / 2 } else { 0 },
            if nw > ow { (nw - ow) / 2 } else { 0 },
            if nh > oh { (nh - oh) / 2 } else { 0 },
        ),
        CropAlign::LeftTop => (0, 0, 0, 0),
    };
    let cw: usize = if ow <= nw { ow } else { nw };
    let ch: usize = if oh <= nh { oh } else { nh };
    let olen = old.len();
    let ghost spec_off = crop_offsets(ow as int, oh as int, nw as int, nh as int, align);
    assert(spec_off == (sx as int, sy as int, dx as int, dy as int));
    // The copied window stays inside both buffers.
    assert(dx + cw <= nw && dy + ch <= nh && sx + cw <= ow && sy + ch <= oh);
    let mut out: Vec<T> = Vec::new();
    let mut y: usize = 0;
    while y < nh
        invariant
            old@.len() == ow * oh * 4,
            olen == old@.len(),
            fill@.len() == 4,
            nw * nh * 4 <= usize::MAX,
            spec_off == crop_offsets(ow as int, oh as int, nw as int, nh as int, align),
            spec_off == (sx as int, sy as int, dx as int, dy as int),
            cw == min_of(ow as int, nw as int),
            ch == min_of(oh as int, nh as int),
            dx + cw <= nw && dy + ch <= nh && sx + cw <= ow && sy + ch <= oh,
            y <= nh,
            out@.len() == y * nw * 4,
            forall|xx: int, yy: int, c: int|
                0 <= xx < nw && 0 <= yy < y && 0 <= c < 4 ==> #[trigger] out@[pix(nw as int, xx, yy, c)]
                    == cropped_channel(old@, ow as int, oh as int, nw as int, nh as int, align, fill@, xx, yy, c),
        decreases nh - y,
    {
        proof {
            assert((y + 1) * nw * 4 <= nw * nh * 4) by (nonlinear_arith)
                requires
                    y < nh,
            ;
            assert(y * nw * 4 + nw * 4 == (y + 1) * nw * 4) by (nonlinear_arith);
        }
        let mut x: usize = 0;
        while x < nw
            invariant
                old@.len() == ow * oh * 4,
                olen == old@.len(),
                fill@.len() == 4,
                nw * nh * 4 <= usize::MAX,
                spec_off == crop_offsets(ow as int, oh as int, nw as int, nh as int, align),
                spec_off == (sx as int, sy as int, dx as int, dy as int),
                cw == min_of(ow as int, nw as int),
                ch == min_of(oh as int, nh as int),
                dx + cw <= nw && dy + ch <= nh && sx + cw <= ow && sy + ch <= oh,
                y < nh,
                x <= nw,
                (y + 1) * nw * 4 <= nw * nh * 4,
                out@.len() == y * nw * 4 + x * 4,
                forall|xx: int, yy: int, c: int|
                    0 <= xx < nw && 0 <= yy < y && 0 <= c < 4 ==> #[trigger] out@[pix(nw as int, xx, yy, c)]
                        == cropped_channel(old@, ow as int, oh as int, nw as int, nh as int, align, fill@, xx, yy, c),
                forall|xx: int, c: int|
                    0 <= xx < x && 0 <= c < 4 ==> #[trigger] out@[pix(nw as int, xx, y as int, c)]
                        == cropped_channel(old@, ow as int, oh as int, nw as int, nh as int, align, fill@, xx, y as int, c),
            decreases nw - x,
        {
            let ghost before = out@;
            proof {
                assert(pix(nw as int, x as int, y as int, 0) == y * nw * 4 + x * 4) by (nonlinear_arith);
            }
            if dx <= x && x < dx + cw && dy <= y && y < dy + ch {
                let src_x = x - dx + sx;
                let src_y = y - dy + sy;
                proof {
                    lemma_pix_bound(ow as int, oh as int, src_x as int, src_y as int, 0);
                    assert(src_y * ow <= src_y * ow + src_x) by (nonlinear_arith)
                        requires
                            0 <= src_x,
                    ;
                }
                let base = (src_y * ow + src_x) * 4;
                out.push(old[base]);
                out.push(old[base + 1]);
                out.push(old[base + 2]);
                out.push(old[base + 3]);
            } else {
                out.push(fill[0]);
                out.push(fill[1]);
                out.push(fill[2]);
                out.push(fill[3]);
            }
            proof {
                assert forall|xx: int, yy: int, c: int|
                    0 <= xx < nw && 0 <= yy < y && 0 <= c < 4 implies #[trigger] out@[pix(nw as int, xx, yy, c)]
                        == cropped_channel(old@, ow as int, oh as int, nw as int, nh as int, align, fill@, xx, yy, c) by {
                    lemma_pix_bound(nw as int, y as int, xx, yy, c);
                    assert(nw * y * 4 == y * nw * 4) by (nonlinear_arith);
                    assert(before[pix(nw as int, xx, yy, c)] == out@[pix(nw as int, xx, yy, c)]);
                }
                assert forall|xx: int, c: int|
                    0 <= xx < x + 1 && 0 <= c < 4 implies #[trigger] out@[pix(nw as int, xx, y as int, c)]
                        == cropped_channel(old@, ow as int, oh as int, nw as int, nh as int, align, fill@, xx, y as int, c) by {
                    assert(pix(nw as int, xx, y as int, c) == y * nw * 4 + xx * 4 + c) by (nonlinear_arith);
                    if xx < x {
                        assert(before[pix(nw as int, xx, y as int, c)] == out@[pix(nw as int, xx, y as int, c)]);
                    } else {
                        let src_x = x - dx + sx;
                        let src_y = y - dy + sy;
                        assert(pix(ow as int, src_x, src_y, c) == (src_y * ow + src_x) * 4 + c);
                    }
                }
            }
            x = x + 1;
        }
        y = y + 1;
    }
    proof {
        assert(nh * nw * 4 == nw * nh * 4) by (nonlinear_arith);
        if ow == nw && oh == nh {
            assert forall|j: int| 0 <= j < out@.len() implies out@[j] == old@[j] by {
                let (x, y, c) = lemma_pix_cover(nw as int, nh as int, j);
                law_crop_same_size(old@, nw as int, nh as int, align, fill@, x, y, c);
            }
            assert(out@ =~= old@);
        }
    }
    out
}

/// An 8-bit RGBA channel sequence with the alpha values dropped: pixel by
/// pixel, red, green and blue; a trailing partial pixel is ignored.
pub open spec fn spec_rgb24(rgba: Seq<u8>) -> Seq<u8> {
    Seq::new(((rgba.len() / 4) * 3) as nat, |j: int| rgba[(j / 3) * 4 + j % 3])
}

/// An 8-bit RGBA channel sequence widened to 16 bits without alpha: each
/// of red, green and blue times 257, so 255 becomes 65535.
pub open spec fn spec_rgb48(rgba: Seq<u8>) -> Seq<u16> {
    Seq::new(((rgba.len() / 4) * 3) as nat, |j: int| (rgba[(j / 3) * 4 + j % 3] * 257) as u16)
}

proof fn lemma_rgb_index(p: int, c: int)
    requires
        0 <= p,
        0 <= c < 3,
    ensures
        (p * 3 + c) / 3 == p,
        (p * 3 + c) % 3 == c,
{
    lemma_fundamental_div_mod_converse(p * 3 + c, 3, p, c);
}

/// Drop the alpha channel of an 8-bit RGBA buffer.
pub fn rgba8_to_rgb24(rgba: &[u8]) -> (r: Vec<u8>)
    ensures
        r@ == spec_rgb24(rgba@),
{
    let len = rgba.len();
    let n = len / 4;
    let mut out: Vec<u8> = Vec::new();
    let mut p: usize = 0;
    while p < n
        invariant
            len == rgba@.len(),
            n == rgba@.len() / 4,
            p <= n,
            out@.len() == p * 3,
            forall|j: int| 0 <= j < p * 3 ==> #[trigger] out@[j] == rgba@[(j / 3) * 4 + j % 3],
        decreases n - p,
    {
        proof {
            assert(p * 4 + 3 < rgba@.len()) by (nonlinear_arith)
                requires
                    p < n,
                    n == rgba@.len() / 4,
            ;
        }
        let ghost before = out@;
        out.push(rgba[p * 4]);
        out.push(rgba[p * 4 + 1]);
        out.push(rgba[p * 4 + 2]);
        proof {
            assert forall|j: int| 0 <= j < (p + 1) * 3 implies #[trigger] out@[j] == rgba@[(j / 3) * 4 + j % 3] by {
                if j < p * 3 {
                    assert(out@[j] == before[j]);
                } else {
                    lemma_rgb_index(p as int, j - p * 3);
                }
            }
        }
        p = p + 1;
    }
    proof {
        assert(out@ =~= spec_rgb24(rgba@));
    }
    out
}

/// Widen an 8-bit RGBA buffer to 16-bit RGB (each value times 257).
pub fn rgba8_to_rgb48(rgba: &[u8]) -> (r: Vec<u16>)
    ensures
        r@ == spec_rgb48(rgba@),
{
    let len = rgba.len();
    let n = len / 4;
    let mut out: Vec<u16> = Vec::new();
    let mut p: usize = 0;
    while p < n
        invariant
            len == rgba@.len(),
            n == rgba@.len() / 4,
            p <= n,
            out@.len() == p * 3,
            forall|j: int| 0 <= j < p * 3 ==> #[trigger] out@[j] == (rgba@[(j / 3) * 4 + j % 3] * 257) as u16,
        decreases n - p,
    {
        proof {
            assert(p * 4 + 3 < rgba@.len()) by (nonlinear_arith)
                requires
                    p < n,
                    n == rgba@.len() / 4,
            ;
        }
        let ghost before = out@;
        out.push((rgba[p * 4] as u16) * 257);
        out.push((rgba[p * 4 + 1] as u16) * 257);
        out.push((rgba[p * 4 + 2] as u16) * 257);
        proof {
            assert forall|j: int| 0 <= j < (p + 1) * 3 implies #[trigger] out@[j] == (rgba@[(j / 3) * 4 + j % 3] * 257) as u16 by {
                if j < p * 3 {
                    assert(out@[j] == before[j]);
                } else {
                    lemma_rgb_index(p as int, j - p * 3);
                }
            }
        }
        p = p + 1;
    }
    proof {
        assert(out@ =~= spec_rgb48(rgba@));
    }
    out
}

/// An 8-bit RGBA image.
pub struct Rgba8Image {
    pub width: usize,
    pub height: usize,
    pub pixels: Vec<u8>,
}

/// Format conversions of a frame for encoding.
pub trait FrameConversion {
    /// RGBA8 to RGB24 (alpha removed).
    fn to_rgb24(&self) -> Result<Vec<u8>, FrameError>;

    /// Any format to RGB48 (16 bits per channel, alpha removed).
    fn to_rgb48(&self) -> Result<Vec<u16>, FrameError>;
}

impl FrameConversion for Rgba8Image {
    fn to_rgb24(&self) -> (r: Result<Vec<u8>, FrameError>)
        ensures
            r matches Ok(v) && v@ == spec_rgb24(self.pixels@),
    {
        Ok(rgba8_to_rgb24(self.pixels.as_slice()))
    }

    fn to_rgb48(&self) -> (r: Result<Vec<u16>, FrameError>)
        ensures
            r matches Ok(v) && v@ == spec_rgb48(self.pixels@),
    {
        Ok(rgba8_to_rgb48(self.pixels.as_slice()))
    }
}

} // verus!
