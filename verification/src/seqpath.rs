//! Image-sequence path parsing: file name, stem and extension of a path,
//! trailing frame numbers, video frame suffixes and frame-path masks.

use vstd::prelude::*;
use crate::frame::FrameError;
use crate::strs::{
    all_digits, chars_of, dec, digits_value, fmt_signed_padded, is_digit, lowercase,
    parse_digits, parse_unsigned, parse_unsigned_in, push_chars, push_dec, push_signed_padded,
    push_str, str_eq, str_to_lowercase, string_from_chars,
};

verus! {

/// The final component of a path as `Path::file_name` gives it. Which
/// characters separate components is the build target's path syntax, fixed
/// for a build; nothing here states it.
pub uninterp spec fn path_file_name(p: Seq<char>) -> Option<Seq<char>>;

/// The parent of a path as `Path::parent` gives it (same path syntax as
/// `path_file_name`).
pub uninterp spec fn path_parent(p: Seq<char>) -> Option<Seq<char>>;

/// The view of an optional string.
pub open spec fn opt_view(o: Option<String>) -> Option<Seq<char>> {
    match o {
        Some(s) => Some(s@),
        None => None,
    }
}

/// Calls `Path::file_name`; the result is named `path_file_name`.
#[verifier::external_body]
fn file_name_of(p: &str) -> (r: Option<String>)
    ensures
        opt_view(r) == path_file_name(p@),
{
    std::path::Path::new(p).file_name().map(|s| s.to_string_lossy().into_owned())
}

/// Calls `Path::parent`; the result is named `path_parent`.
#[verifier::external_body]
fn parent_of(p: &str) -> (r: Option<String>)
    ensures
        opt_view(r) == path_parent(p@),
{
    std::path::Path::new(p).parent().map(|s| s.to_string_lossy().into_owned())
}

/// Index of the last occurrence of `c` in `s`, or -1.
pub open spec fn last_index_of(s: Seq<char>, c: char) -> int
    decreases s.len(),
{
    if s.len() == 0 {
        -1
    } else if s.last() == c {
        s.len() - 1
    } else {
        last_index_of(s.drop_last(), c)
    }
}

/// Index of the first occurrence of `c` in `s`, or -1.
pub open spec fn first_index_of(s: Seq<char>, c: char) -> int
    decreases s.len(),
{
    if s.len() == 0 {
        -1
    } else if s[0] == c {
        0
    } else {
        let k = first_index_of(s.drop_first(), c);
        if k < 0 { -1 } else { k + 1 }
    }
}

/// The extension of a file name, following `Path::extension`: the part after
/// the final `.`, none when there is no `.` or the only `.` leads the name.
pub open spec fn spec_extension(f: Seq<char>) -> Option<Seq<char>> {
    let k = last_index_of(f, '.');
    if k <= 0 {
        None
    } else {
        Some(f.subrange(k + 1, f.len() as int))
    }
}

/// The stem of a file name, following `Path::file_stem`.
pub open spec fn spec_stem(f: Seq<char>) -> Seq<char> {
    let k = last_index_of(f, '.');
    if k <= 0 {
        f
    } else {
        f.subrange(0, k)
    }
}

/// Start of the run of ASCII digits that ends `s` (`s.len()` when none).
pub open spec fn trailing_digits_start(s: Seq<char>) -> int
    decreases s.len(),
{
    if s.len() == 0 {
        0
    } else if is_digit(s.last()) {
        trailing_digits_start(s.drop_last())
    } else {
        s.len() as int
    }
}

/// The message of the error for a frame number too large for `usize`.
pub open spec fn overflow_message(digits: Seq<char>) -> Seq<char> {
    "Invalid frame number '"@ + digits + "': number too large to fit in target type"@
}

/// The directory prefix joined to the local prefix: `"{parent}/{local}"`
/// when the parent is a non-empty string, else the local prefix alone.
pub open spec fn join_prefix(parent: Option<Seq<char>>, local: Seq<char>) -> Seq<char> {
    match parent {
        Some(q) => if q.len() > 0 { q + "/"@ + local } else { local },
        None => local,
    }
}

/// What `split_sequence_name` returns for a file name `f` in directory
/// `parent`, as plain values: `Ok(None)` when the name has no extension or
/// its stem no trailing digits, `Err(message)` when the frame number
/// overflows `usize`, else `(prefix, number, extension, padding)`.
pub open spec fn spec_split_sequence_name(parent: Option<Seq<char>>, f: Seq<char>) -> Result<
    Option<(Seq<char>, nat, Seq<char>, nat)>,
    Seq<char>,
> {
    match spec_extension(f) {
        None => Ok(None),
        Some(ext) => {
            let stem = spec_stem(f);
            let d = trailing_digits_start(stem);
            if d == stem.len() {
                Ok(None)
            } else {
                let digits = stem.subrange(d, stem.len() as int);
                if digits_value(digits) > usize::MAX {
                    Err(overflow_message(digits))
                } else {
                    Ok(Some((join_prefix(parent, stem.subrange(0, d)), digits_value(digits), ext, digits.len())))
                }
            }
        },
    }
}

/// What `split_sequence_path` returns for a path: the split of its file
/// name in its parent directory, `Ok(None)` without a file name.
pub open spec fn spec_split_sequence_path(p: Seq<char>) -> Result<
    Option<(Seq<char>, nat, Seq<char>, nat)>,
    Seq<char>,
> {
    match path_file_name(p) {
        None => Ok(None),
        Some(f) => spec_split_sequence_name(path_parent(p), f),
    }
}

/// The plain-value view of `split_sequence_path`'s result.
pub open spec fn split_result_view(r: Result<Option<(String, usize, String, usize)>, FrameError>) -> Result<
    Option<(Seq<char>, nat, Seq<char>, nat)>,
    Seq<char>,
> {
    match r {
        Ok(None) => Ok(None),
        Ok(Some((a, b, c, d))) => Ok(Some((a@, b as nat, c@, d as nat))),
        Err(FrameError::Image(m)) => Err(m@),
        Err(_) => Err(Seq::empty()),
    }
}

pub fn last_index_in(v: &[char], c: char) -> (r: Option<usize>)
    ensures
        match r {
            Some(k) => k as int == last_index_of(v@, c) && k < v@.len(),
            None => last_index_of(v@, c) == -1,
        },
{
    let mut i = v.len();
    proof {
        assert(v@.subrange(0, i as int) =~= v@);
    }
    while i > 0
        invariant
            i <= v@.len(),
            last_index_of(v@, c) == last_index_of(v@.subrange(0, i as int), c),
        decreases i,
    {
        let ghost pre = v@.subrange(0, i as int);
        proof {
            assert(pre.drop_last() =~= v@.subrange(0, i - 1));
        }
        if v[i - 1] == c {
            return Some(i - 1);
        }
        i = i - 1;
    }
    None
}

pub proof fn lemma_last_index_bounds(s: Seq<char>, c: char)
    ensures
        -1 <= last_index_of(s, c) < s.len(),
        last_index_of(s, c) >= 0 ==> s[last_index_of(s, c)] == c,
    decreases s.len(),
{
    if s.len() > 0 && s.last() != c {
        lemma_last_index_bounds(s.drop_last(), c);
    }
}

pub fn trailing_digits_start_in(v: &[char], to: usize) -> (r: usize)
    requires
        to <= v@.len(),
    ensures
        r as int == trailing_digits_start(v@.subrange(0, to as int)),
        r <= to,
        all_digits(v@.subrange(r as int, to as int)),
{
    let mut i = to;
    proof {
        assert(v@.subrange(to as int, to as int) =~= Seq::<char>::empty());
    }
    while i > 0
        invariant
            i <= to <= v@.len(),
            all_digits(v@.subrange(i as int, to as int)),
            trailing_digits_start(v@.subrange(0, to as int)) == trailing_digits_start(v@.subrange(0, i as int)),
        decreases i,
    {
        let c = v[i - 1];
        let ghost pre = v@.subrange(0, i as int);
        proof {
            assert(pre.drop_last() =~= v@.subrange(0, i - 1));
            assert(pre.last() == c);
        }
        let cu = c as u32;
        if !(cu >= 48 && cu <= 57) {
            proof {
                assert(!is_digit(c));
                assert(trailing_digits_start(pre) == i);
            }
            return i;
        }
        proof {
            assert(v@.subrange(i - 1, to as int) =~= seq![c] + v@.subrange(i as int, to as int));
        }
        i = i - 1;
    }
    proof {
        assert(v@.subrange(0, 0) =~= Seq::<char>::empty());
    }
    0
}

/// Split a sequence file name in directory `parent` into (prefix, number,
/// ext, padding).
pub fn split_sequence_name(parent: Option<&str>, fname: &str) -> (r: Result<
    Option<(String, usize, String, usize)>,
    FrameError,
>)
    ensures
        split_result_view(r) == spec_split_sequence_name(
            match parent {
                Some(q) => Some(q@),
                None => None,
            },
            fname@,
        ),
        r is Err ==> r->Err_0 is Image,
{
    let ghost pv: Option<Seq<char>> = match parent {
        Some(q) => Some(q@),
        None => None,
    };
    let fv = chars_of(fname);
    let dot = last_index_in(fv.as_slice(), '.');
    proof {
        lemma_last_index_bounds(fv@, '.');
    }
    let k = match dot {
        Some(k) => k,
        None => return Ok(None),
    };
    if k == 0 {
        return Ok(None);
    }
    let flen = fv.len();
    let ext = string_from_chars(fv.as_slice(), k + 1, flen);
    let ghost stem = fv@.subrange(0, k as int);
    let d = trailing_digits_start_in(fv.as_slice(), k);
    if d == k {
        return Ok(None);
    }
    proof {
        assert(stem.subrange(d as int, stem.len() as int) =~= fv@.subrange(d as int, k as int));
        assert(stem.subrange(0, d as int) =~= fv@.subrange(0, d as int));
    }
    let number = match parse_digits(fv.as_slice(), d, k, usize::MAX as u64) {
        Some(n) => n as usize,
        None => {
            let mut msg = String::new();
            proof {
                reveal_strlit("Invalid frame number '");
                reveal_strlit("': number too large to fit in target type");
            }
            push_str(&mut msg, "Invalid frame number '");
            push_chars(&mut msg, fv.as_slice(), d, k);
            push_str(&mut msg, "': number too large to fit in target type");
            proof {
                assert(msg@ =~= overflow_message(fv@.subrange(d as int, k as int)));
            }
            return Err(FrameError::Image(msg));
        },
    };
    let padding = k - d;
    let mut prefix = String::new();
    match parent {
        Some(p) => {
            if p.unicode_len() > 0 {
                push_str(&mut prefix, p);
                proof {
                    reveal_strlit("/");
                }
                push_str(&mut prefix, "/");
            }
        },
        None => {},
    }
    push_chars(&mut prefix, fv.as_slice(), 0, d);
    proof {
        assert(prefix@ =~= join_prefix(pv, fv@.subrange(0, d as int)));
    }
    Ok(Some((prefix, number, ext, padding)))
}

/// Split a sequence path into (prefix, number, ext, padding).
///
/// Example: "/path/seq.0001.exr" -> ("/path/seq.", 1, "exr", 4)
pub fn split_sequence_path(path: &str) -> (r: Result<Option<(String, usize, String, usize)>, FrameError>)
    ensures
        split_result_view(r) == spec_split_sequence_path(path@),
        r is Err ==> r->Err_0 is Image,
{
    let fname = match file_name_of(path) {
        Some(f) => f,
        None => return Ok(None),
    };
    match parent_of(path) {
        Some(p) => split_sequence_name(Some(p.as_str()), fname.as_str()),
        None => split_sequence_name(None, fname.as_str()),
    }
}

} // verus!

verus! {

/// What `parse_video_path` returns: a path ending in `@<number>` is split
/// into the part before the last `@` and the number; any other path is
/// returned whole with no number.
pub open spec fn spec_parse_video_path(p: Seq<char>) -> (Seq<char>, Option<nat>) {
    let k = last_index_of(p, '@');
    if k >= 0 {
        match parse_unsigned(p.subrange(k + 1, p.len() as int), usize::MAX as nat) {
            Some(n) => (p.subrange(0, k), Some(n)),
            None => (p, None),
        }
    } else {
        (p, None)
    }
}

/// Parse video path with frame suffix
/// "video.mp4@17" -> ("video.mp4", Some(17))
/// "video.mp4" -> ("video.mp4", None)
pub fn parse_video_path(path: &str) -> (r: (String, Option<usize>))
    ensures
        r.0@ == spec_parse_video_path(path@).0,
        match r.1 {
            Some(n) => spec_parse_video_path(path@).1 == Some(n as nat),
            None => spec_parse_video_path(path@).1 is None,
        },
{
    let v = chars_of(path);
    proof {
        lemma_last_index_bounds(v@, '@');
    }
    match last_index_in(v.as_slice(), '@') {
        Some(k) => {
            match parse_unsigned_in(v.as_slice(), k + 1, v.len(), usize::MAX as u64) {
                Some(n) => {
                    let base = string_from_chars(v.as_slice(), 0, k);
                    (base, Some(n as usize))
                },
                None => (string_from_chars(v.as_slice(), 0, v.len()), None),
            }
        },
        None => (string_from_chars(v.as_slice(), 0, v.len()), None),
    }
}

/// The extensions handled as video files.
pub open spec fn is_video_ext(e: Seq<char>) -> bool {
    ||| e == "mp4"@
    ||| e == "mov"@
    ||| e == "avi"@
    ||| e == "mkv"@
    ||| e == "webm"@
    ||| e == "m4v"@
    ||| e == "mxf"@
    ||| e == "wmv"@
    ||| e == "flv"@
    ||| e == "mpg"@
    ||| e == "mpeg"@
}

/// Whether a (lowercased) extension is one handled as video.
pub fn is_video_extension(e: &str) -> (r: bool)
    ensures
        r == is_video_ext(e@),
{
    str_eq(e, "mp4") || str_eq(e, "mov") || str_eq(e, "avi") || str_eq(e, "mkv") || str_eq(
        e,
        "webm",
    ) || str_eq(e, "m4v") || str_eq(e, "mxf") || str_eq(e, "wmv") || str_eq(e, "flv") || str_eq(
        e,
        "mpg",
    ) || str_eq(e, "mpeg")
}

/// Classified file type used to dispatch to the correct loader/header backend.
#[derive(Clone, Copy, Debug, PartialEq, Eq, Structural)]
pub enum FileKind {
    Video,
    Exr,
    Generic,
}

/// The kind an extension selects.
pub open spec fn spec_classify_ext(e: Seq<char>) -> FileKind {
    if is_video_ext(e) {
        FileKind::Video
    } else if e == "exr"@ {
        FileKind::Exr
    } else {
        FileKind::Generic
    }
}

/// Classify a lowercased extension string into a FileKind.
pub fn classify_ext(ext: &str) -> (r: FileKind)
    ensures
        r == spec_classify_ext(ext@),
{
    if is_video_extension(ext) {
        FileKind::Video
    } else if str_eq(ext, "exr") {
        FileKind::Exr
    } else {
        FileKind::Generic
    }
}

/// The extension of a path's file name, or the empty string.
pub open spec fn ext_or_empty(p: Seq<char>) -> Seq<char> {
    match path_file_name(p) {
        Some(f) => match spec_extension(f) {
            Some(e) => e,
            None => Seq::empty(),
        },
        None => Seq::empty(),
    }
}

/// The lowercased extension of a path.
pub open spec fn spec_path_ext(p: Seq<char>) -> Seq<char> {
    lowercase(ext_or_empty(p))
}

/// The extension of a file name (`Path::extension` on the name).
pub fn name_extension(fname: &str) -> (r: Option<String>)
    ensures
        opt_view(r) == spec_extension(fname@),
{
    let fv = chars_of(fname);
    let flen = fv.len();
    proof {
        lemma_last_index_bounds(fv@, '.');
    }
    match last_index_in(fv.as_slice(), '.') {
        Some(k) => {
            if k == 0 {
                None
            } else {
                Some(string_from_chars(fv.as_slice(), k + 1, flen))
            }
        },
        None => None,
    }
}

/// The stem of a file name (`Path::file_stem` on the name).
pub fn name_stem(fname: &str) -> (r: String)
    ensures
        r@ == spec_stem(fname@),
{
    let fv = chars_of(fname);
    proof {
        lemma_last_index_bounds(fv@, '.');
    }
    match last_index_in(fv.as_slice(), '.') {
        Some(k) => {
            if k == 0 {
                string_from_chars(fv.as_slice(), 0, fv.len())
            } else {
                string_from_chars(fv.as_slice(), 0, k)
            }
        },
        None => string_from_chars(fv.as_slice(), 0, fv.len()),
    }
}

fn extension_of(path: &str) -> (r: String)
    ensures
        r@ == ext_or_empty(path@),
{
    match file_name_of(path) {
        Some(f) => match name_extension(f.as_str()) {
            Some(e) => e,
            None => String::new(),
        },
        None => String::new(),
    }
}

/// Extract the lowercased extension from a path.
pub fn path_ext(path: &str) -> (r: String)
    ensures
        r@ == spec_path_ext(path@),
{
    let e = extension_of(path);
    str_to_lowercase(e.as_str())
}

/// Whether a path names a video file (by its lowercased extension).
pub open spec fn spec_is_video(p: Seq<char>) -> bool {
    is_video_ext(spec_path_ext(p))
}

/// Whether a path names a video file (by its lowercased extension).
pub fn is_video(path: &str) -> (r: bool)
    ensures
        r == spec_is_video(path@),
{
    let e = path_ext(path);
    is_video_extension(e.as_str())
}

/// The identifier of a clip: `"clip:{pattern}:{start}:{end}"`.
pub open spec fn spec_clip_uuid(pattern: Seq<char>, start: nat, end: nat) -> Seq<char> {
    "clip:"@ + pattern + ":"@ + dec(start) + ":"@ + dec(end)
}

/// The identifier of a clip: `"clip:{pattern}:{start}:{end}"`.
pub fn gen_clip_uuid(pattern: &str, start: usize, end: usize) -> (r: String)
    ensures
        r@ == spec_clip_uuid(pattern@, start as nat, end as nat),
{
    let mut s = String::new();
    push_str(&mut s, "clip:");
    push_str(&mut s, pattern);
    push_str(&mut s, ":");
    push_dec(&mut s, start as u64);
    push_str(&mut s, ":");
    push_dec(&mut s, end as u64);
    proof {
        assert(s@ =~= spec_clip_uuid(pattern@, start as nat, end as nat));
    }
    s
}

/// The path of one frame of a file mask: for a video, `"{mask}@{frame}"`;
/// for a mask holding `*`, the first `*` replaced by the frame number
/// zero-padded to `padding` (sign included); otherwise the mask itself.
pub open spec fn spec_frame_path(mask: Seq<char>, padding: nat, frame: int) -> Seq<char> {
    if spec_is_video(mask) {
        mask + "@"@ + fmt_signed_padded(frame, 0)
    } else {
        let k = first_index_of(mask, '*');
        if k >= 0 {
            mask.subrange(0, k) + fmt_signed_padded(frame, padding) + mask.subrange(
                k + 1,
                mask.len() as int,
            )
        } else {
            mask
        }
    }
}

proof fn lemma_first_index_bounds(s: Seq<char>, c: char)
    ensures
        -1 <= first_index_of(s, c) < s.len(),
        first_index_of(s, c) >= 0 ==> s[first_index_of(s, c)] == c,
        first_index_of(s, c) >= 0 ==> forall|j: int|
            0 <= j < first_index_of(s, c) ==> s[j] != c,
        first_index_of(s, c) < 0 ==> forall|j: int| 0 <= j < s.len() ==> s[j] != c,
    decreases s.len(),
{
    if s.len() > 0 && s[0] != c {
        lemma_first_index_bounds(s.drop_first(), c);
        assert forall|j: int| 1 <= j < s.len() implies s[j] == s.drop_first()[j - 1] by {}
    }
}

fn first_index_in(v: &[char], c: char) -> (r: Option<usize>)
    ensures
        match r {
            Some(k) => k as int == first_index_of(v@, c) && k < v@.len(),
            None => first_index_of(v@, c) == -1,
        },
{
    proof {
        lemma_first_index_bounds(v@, c);
    }
    let mut i: usize = 0;
    while i < v.len()
        invariant
            i <= v@.len(),
            forall|j: int| 0 <= j < i ==> v@[j] != c,
            -1 <= first_index_of(v@, c) < v@.len(),
            first_index_of(v@, c) >= 0 ==> v@[first_index_of(v@, c)] == c,
            first_index_of(v@, c) >= 0 ==> forall|j: int| 0 <= j < first_index_of(v@, c) ==> v@[j] != c,
            first_index_of(v@, c) < 0 ==> forall|j: int| 0 <= j < v@.len() ==> v@[j] != c,
        decreases v@.len() - i,
    {
        if v[i] == c {
            return Some(i);
        }
        i = i + 1;
    }
    None
}

/// The path of one frame of a file mask (see `spec_frame_path`).
pub fn frame_path(mask: &str, padding: usize, frame: i32) -> (r: String)
    ensures
        r@ == spec_frame_path(mask@, padding as nat, frame as int),
{
    let mut s = String::new();
    if is_video(mask) {
        push_str(&mut s, mask);
        push_str(&mut s, "@");
        push_signed_padded(&mut s, frame as i64, 0);
        proof {
            assert(s@ =~= spec_frame_path(mask@, padding as nat, frame as int));
        }
        return s;
    }
    let v = chars_of(mask);
    let vlen = v.len();
    match first_index_in(v.as_slice(), '*') {
        Some(k) => {
            push_chars(&mut s, v.as_slice(), 0, k);
            push_signed_padded(&mut s, frame as i64, padding as u64);
            push_chars(&mut s, v.as_slice(), k + 1, vlen);
            proof {
                assert(s@ =~= spec_frame_path(mask@, padding as nat, frame as int));
            }
            s
        },
        None => {
            push_str(&mut s, mask);
            proof {
                assert(s@ =~= spec_frame_path(mask@, padding as nat, frame as int));
            }
            s
        },
    }
}

/// The stem of a path's file name (`Path::file_stem`), none without a file name.
pub fn file_stem(path: &str) -> (r: Option<String>)
    ensures
        opt_view(r) == match path_file_name(path@) {
            Some(f) => Some(spec_stem(f)),
            None => None,
        },
{
    match file_name_of(path) {
        Some(f) => Some(name_stem(f.as_str())),
        None => None,
    }
}

/// Image loader front: picks the backend for a file.
#[derive(Clone, Copy, Debug)]
pub struct Loader;

impl Loader {
    /// The backend that reads a file's header and pixels, chosen by the
    /// path's lowercased extension.
    pub fn backend(path: &str) -> (r: FileKind)
        ensures
            r == spec_classify_ext(spec_path_ext(path@)),
    {
        let e = path_ext(path);
        classify_ext(e.as_str())
    }
}

} // verus!
