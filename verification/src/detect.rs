//! Detecting image sequences among matched file paths: the paths are split
//! into prefix, frame number and extension, grouped by prefix and
//! extension, and the largest group becomes the sequence.

use vstd::prelude::*;
use crate::frame::FrameError;
use crate::node::FileNode;
use crate::seqpath::{file_stem, opt_view, path_file_name, spec_split_sequence_path, spec_stem, split_result_view, split_sequence_path};
use crate::strs::{push_str, str_eq};

verus! {

/// A frame of a possible sequence: prefix, frame number, extension, path.
pub type SeqEntry = (Seq<char>, nat, Seq<char>, Seq<char>);

/// The frames the paths name, in path order; the first path whose frame
/// number does not fit makes it an error with that path's message.
pub open spec fn seq_entries(paths: Seq<Seq<char>>) -> Result<Seq<SeqEntry>, Seq<char>>
    decreases paths.len(),
{
    if paths.len() == 0 {
        Ok(Seq::empty())
    } else {
        match seq_entries(paths.drop_last()) {
            Err(m) => Err(m),
            Ok(es) => match spec_split_sequence_path(paths.last()) {
                Err(m) => Err(m),
                Ok(None) => Ok(es),
                Ok(Some((pre, n, ext, _pad))) => Ok(es.push((pre, n, ext, paths.last()))),
            },
        }
    }
}

/// Whether two frames belong to one group (same prefix and extension).
pub open spec fn same_group(a: SeqEntry, b: SeqEntry) -> bool {
    a.0 == b.0 && a.2 == b.2
}

/// How many frames of `es` are in the group of `e`.
pub open spec fn group_count(es: Seq<SeqEntry>, e: SeqEntry) -> nat
    decreases es.len(),
{
    if es.len() == 0 {
        0
    } else {
        group_count(es.drop_last(), e) + (if same_group(es.last(), e) { 1nat } else { 0nat })
    }
}

/// Frame `b` starts the chosen group: no group is larger, and no frame
/// before it belongs to a group as large (the first of the largest groups).
pub open spec fn is_chosen(es: Seq<SeqEntry>, b: int) -> bool {
    &&& 0 <= b < es.len()
    &&& forall|i: int| 0 <= i < es.len() ==> group_count(es, #[trigger] es[i]) <= group_count(es, es[b])
    &&& forall|i: int| 0 <= i < b ==> group_count(es, #[trigger] es[i]) < group_count(es, es[b])
}

/// The sequence picked from matched paths.
#[derive(Clone, Debug)]
pub struct SequencePick {
    pub prefix: String,
    pub ext: String,
    pub min_frame: usize,
    pub max_frame: usize,
    /// Number of frames in the group.
    pub count: usize,
    /// The group's first path.
    pub first_path: String,
}

/// `p` describes the group that frame `b` starts: its prefix and extension,
/// size, smallest and largest frame number, and the path of frame `b`.
pub open spec fn describes(p: SequencePick, es: Seq<SeqEntry>, b: int) -> bool {
    &&& p.prefix@ == es[b].0
    &&& p.ext@ == es[b].2
    &&& p.count == group_count(es, es[b])
    &&& p.first_path@ == es[b].3
    &&& forall|i: int| 0 <= i < es.len() && same_group(#[trigger] es[i], es[b]) ==> p.min_frame <= es[i].1 <= p.max_frame
    &&& exists|i: int| 0 <= i < es.len() && same_group(#[trigger] es[i], es[b]) && es[i].1 == p.min_frame
    &&& exists|i: int| 0 <= i < es.len() && same_group(#[trigger] es[i], es[b]) && es[i].1 == p.max_frame
}

/// The message for a pattern nothing matched.
pub open spec fn no_match_message(pattern: Seq<char>) -> Seq<char> {
    "No files matched pattern: "@ + pattern
}

/// What `pick_sequence` returns, as plain values.
pub open spec fn pick_ok(paths: Seq<Seq<char>>, p: SequencePick) -> bool {
    seq_entries(paths) matches Ok(es) && exists|b: int| is_chosen(es, b) && describes(p, es, b)
}

proof fn lemma_group_count_le(es: Seq<SeqEntry>, e: SeqEntry)
    ensures
        group_count(es, e) <= es.len(),
    decreases es.len(),
{
    if es.len() > 0 {
        lemma_group_count_le(es.drop_last(), e);
    }
}

proof fn lemma_group_count_same(es: Seq<SeqEntry>, a: SeqEntry, b: SeqEntry)
    requires
        same_group(a, b),
    ensures
        group_count(es, a) == group_count(es, b),
    decreases es.len(),
{
    if es.len() > 0 {
        lemma_group_count_same(es.drop_last(), a, b);
    }
}

/// How many frames of `v` (as entries) are in the group of `e`, counting the
/// first `n`.
fn count_group(v: &Vec<(String, usize, String, String)>, e: &(String, usize, String, String), n: usize) -> (r: usize)
    requires
        n <= v@.len(),
    ensures
        r == group_count(entries_view(v@).subrange(0, n as int), entry_of(*e)),
{
    let mut c: usize = 0;
    let mut i: usize = 0;
    while i < n
        invariant
            n <= v@.len(),
            i <= n,
            c <= i,
            c == group_count(entries_view(v@).subrange(0, i as int), entry_of(*e)),
        decreases n - i,
    {
        proof {
            let pre = entries_view(v@).subrange(0, i + 1);
            assert(pre.drop_last() =~= entries_view(v@).subrange(0, i as int));
            assert(pre.last() == entry_of(v@[i as int]));
        }
        if str_eq(v[i].0.as_str(), e.0.as_str()) && str_eq(v[i].2.as_str(), e.2.as_str()) {
            c = c + 1;
        }
        i = i + 1;
    }
    c
}

/// An exec frame as plain values.
pub open spec fn entry_of(e: (String, usize, String, String)) -> SeqEntry {
    (e.0@, e.1 as nat, e.2@, e.3@)
}

pub open spec fn entries_view(v: Seq<(String, usize, String, String)>) -> Seq<SeqEntry> {
    v.map_values(|e: (String, usize, String, String)| entry_of(e))
}

fn copy_string(s: &String) -> (r: String)
    ensures
        r@ == s@,
{
    let mut out = String::new();
    push_str(&mut out, s.as_str());
    out
}

/// The largest group of sequence frames among paths matched by `pattern`:
/// an error when nothing matched, when a frame number does not fit (the
/// first such path's error), or when no path is a sequence frame;
/// otherwise the first of the largest groups (see `pick_ok`).
pub fn pick_sequence(pattern: &str, paths: &[String]) -> (r: Result<SequencePick, FrameError>)
    ensures
        paths@.len() == 0 ==> (r matches Err(FrameError::Image(m)) && m@ == no_match_message(pattern@)),
        paths@.len() > 0 ==> match seq_entries(paths@.map_values(|p: String| p@)) {
            Err(msg) => (r matches Err(FrameError::Image(m)) && m@ == msg),
            Ok(es) => if es.len() == 0 {
                (r matches Err(FrameError::Image(m)) && m@ == "No valid sequence files found"@)
            } else {
                (r matches Ok(p) && pick_ok(paths@.map_values(|p: String| p@), p))
            },
        },
{
    if paths.len() == 0 {
        let mut m = String::new();
        push_str(&mut m, "No files matched pattern: ");
        push_str(&mut m, pattern);
        return Err(FrameError::Image(m));
    }
    let ghost pv = paths@.map_values(|p: String| p@);
    let mut entries: Vec<(String, usize, String, String)> = Vec::new();
    let mut k: usize = 0;
    proof {
        assert(pv.subrange(0, 0) =~= Seq::<Seq<char>>::empty());
        assert(entries_view(entries@) =~= Seq::<SeqEntry>::empty());
    }
    while k < paths.len()
        invariant
            pv == paths@.map_values(|p: String| p@),
            k <= paths@.len(),
            seq_entries(pv.subrange(0, k as int)) == Ok::<Seq<SeqEntry>, Seq<char>>(entries_view(entries@)),
        decreases paths@.len() - k,
    {
        let ghost pre = pv.subrange(0, k + 1);
        proof {
            assert(pre.drop_last() =~= pv.subrange(0, k as int));
            assert(pre.last() == paths@[k as int]@);
        }
        let split = split_sequence_path(paths[k].as_str());
        match split {
            Err(e) => {
                proof {
                    assert(seq_entries(pre) == Err::<Seq<SeqEntry>, Seq<char>>(split_result_view(Err(e))->Err_0));
                    lemma_seq_entries_err_prefix(pv, k as int + 1);
                }
                match e {
                    FrameError::Image(m) => {
                        return Err(FrameError::Image(m));
                    },
                    other => {
                        return Err(other);
                    },
                }
            },
            Ok(None) => {},
            Ok(Some((pre_s, n, ext, _pad))) => {
                let ghost before = entries_view(entries@);
                entries.push((pre_s, n, ext, copy_string(&paths[k])));
                proof {
                    assert(entries_view(entries@) =~= before.push(entries_view(entries@).last()));
                }
            },
        }
        k = k + 1;
    }
    proof {
        assert(pv.subrange(0, k as int) =~= pv);
    }
    let ghost es = entries_view(entries@);
    let n = entries.len();
    if n == 0 {
        let mut m = String::new();
        push_str(&mut m, "No valid sequence files found");
        return Err(FrameError::Image(m));
    }
    proof {
        assert(entries_view(entries@).subrange(0, n as int) =~= es);
    }
    let mut best: usize = 0;
    let mut best_count = count_group(&entries, &entries[0], n);
    let mut i: usize = 1;
    while i < n
        invariant
            n == es.len(),
            es == entries_view(entries@),
            entries_view(entries@).subrange(0, n as int) == es,
            1 <= i <= n,
            best < i,
            best_count == group_count(es, es[best as int]),
            forall|j: int| 0 <= j < i ==> group_count(es, #[trigger] es[j]) <= best_count,
            forall|j: int| 0 <= j < best ==> group_count(es, #[trigger] es[j]) < best_count,
        decreases n - i,
    {
        let c = count_group(&entries, &entries[i], n);
        if c > best_count {
            best = i;
            best_count = c;
        }
        i = i + 1;
    }
    let bp = &entries[best];
    let mut min_frame: usize = bp.1;
    let mut max_frame: usize = bp.1;
    let mut j: usize = 0;
    proof {
        assert(es[best as int].1 == min_frame as nat);
        assert(same_group(es[best as int], es[best as int]));
    }
    while j < n
        invariant
            n == es.len(),
            es == entries_view(entries@),
            best < n,
            *bp == entries@[best as int],
            forall|q: int| 0 <= q < j && same_group(#[trigger] es[q], es[best as int]) ==> min_frame <= es[q].1 <= max_frame,
            exists|q: int| 0 <= q < n && same_group(#[trigger] es[q], es[best as int]) && es[q].1 == min_frame,
            exists|q: int| 0 <= q < n && same_group(#[trigger] es[q], es[best as int]) && es[q].1 == max_frame,
            j <= n,
        decreases n - j,
    {
        let e = &entries[j];
        if str_eq(e.0.as_str(), bp.0.as_str()) && str_eq(e.2.as_str(), bp.2.as_str()) {
            proof {
                assert(same_group(es[j as int], es[best as int]));
            }
            if e.1 < min_frame {
                min_frame = e.1;
            }
            if e.1 > max_frame {
                max_frame = e.1;
            }
        }
        j = j + 1;
    }
    let pick = SequencePick {
        prefix: copy_string(&bp.0),
        ext: copy_string(&bp.2),
        min_frame,
        max_frame,
        count: best_count,
        first_path: copy_string(&bp.3),
    };
    proof {
        assert(is_chosen(es, best as int));
        assert(describes(pick, es, best as int));
    }
    Ok(pick)
}

/// An error met on a prefix of the paths is the error of all of them.
proof fn lemma_seq_entries_err_prefix(pv: Seq<Seq<char>>, k: int)
    requires
        0 <= k <= pv.len(),
        seq_entries(pv.subrange(0, k)) is Err,
    ensures
        seq_entries(pv) == seq_entries(pv.subrange(0, k)),
    decreases pv.len() - k,
{
    if k < pv.len() {
        let pre = pv.subrange(0, k + 1);
        assert(pre.drop_last() =~= pv.subrange(0, k));
        lemma_seq_entries_err_prefix(pv, k + 1);
    } else {
        assert(pv.subrange(0, k) =~= pv);
    }
}

/// The name a file node takes from a path: the stem of its file name, or
/// `fallback` when the path has no file name.
pub open spec fn name_from(path: Seq<char>, fallback: Seq<char>) -> Seq<char> {
    match path_file_name(path) {
        Some(f) => spec_stem(f),
        None => fallback,
    }
}

/// The file mask of a sequence: `"{prefix}*.{ext}"`.
pub open spec fn sequence_mask(prefix: Seq<char>, ext: Seq<char>) -> Seq<char> {
    prefix + "*."@ + ext
}

/// The file mask of a sequence, also the pattern its frames are matched
/// against: `"{prefix}*.{ext}"`.
pub fn sequence_pattern(prefix: &str, ext: &str) -> (r: String)
    ensures
        r@ == sequence_mask(prefix@, ext@),
{
    let mut out = String::new();
    push_str(&mut out, prefix);
    push_str(&mut out, "*.");
    push_str(&mut out, ext);
    proof {
        reveal_strlit("*.");
        assert(out@ =~= sequence_mask(prefix@, ext@));
    }
    out
}

impl FileNode {
    /// The node for a detected sequence: mask `"{prefix}*.{ext}"` from the
    /// smallest to the largest frame number (cast to `i32`), the size read
    /// from the first frame's header, the given padding, named after the
    /// first frame's file stem.
    pub fn from_sequence(pick: &SequencePick, width: u32, height: u32, padding: usize) -> (r: FileNode)
        ensures
            r.uuid != 0,
            r.file_mask@ == sequence_mask(pick.prefix@, pick.ext@),
            r.file_start == pick.min_frame as i32 && r.in_frame == pick.min_frame as i32,
            r.file_end == pick.max_frame as i32 && r.out_frame == pick.max_frame as i32,
            r.frame == pick.min_frame as i32,
            r.trim_in == 0 && r.trim_out == 0,
            r.width == width && r.height == height,
            r.padding == padding as u32,
            r.name@ == name_from(pick.first_path@, sequence_mask(pick.prefix@, pick.ext@)),
            r.dirty,
    {
        let mut mask = String::new();
        push_str(&mut mask, pick.prefix.as_str());
        push_str(&mut mask, "*.");
        push_str(&mut mask, pick.ext.as_str());
        proof {
            assert(mask@ =~= sequence_mask(pick.prefix@, pick.ext@));
        }
        let mut node = FileNode::new(mask, pick.min_frame as i32, pick.max_frame as i32);
        node.width = width;
        node.height = height;
        node.padding = padding as u32;
        match file_stem(pick.first_path.as_str()) {
            Some(stem) => {
                node.name = stem;
            },
            None => {},
        }
        node
    }

    /// The node for a single image: the path as mask, frame 0 only, the
    /// size read from its header, named after the file stem.
    pub fn single_file(path: &str, width: u32, height: u32) -> (r: FileNode)
        ensures
            r.uuid != 0,
            r.file_mask@ == path@,
            r.file_start == 0 && r.file_end == 0 && r.in_frame == 0 && r.out_frame == 0,
            r.width == width && r.height == height,
            r.padding == 4,
            r.name@ == name_from(path@, path@),
            r.dirty,
    {
        let mut node = FileNode::new(copy_str(path), 0, 0);
        node.width = width;
        node.height = height;
        match file_stem(path) {
            Some(stem) => {
                node.name = stem;
            },
            None => {},
        }
        node
    }

    /// The node for a video: the path as mask, frames 0 to the last one
    /// (`frame_count - 1`, saturating at 0, cast to `i32`), the video's size,
    /// no padding, named after the file stem.
    pub fn video(path: &str, frame_count: u64, width: u32, height: u32) -> (r: FileNode)
        ensures
            r.uuid != 0,
            r.file_mask@ == path@,
            r.file_start == 0 && r.in_frame == 0,
            r.file_end == (if frame_count == 0 { 0 } else { frame_count - 1 }) as i32,
            r.out_frame == r.file_end,
            r.width == width && r.height == height,
            r.padding == 0,
            r.name@ == name_from(path@, path@),
            r.dirty,
    {
        let last: u64 = if frame_count == 0 { 0 } else { frame_count - 1 };
        let mut node = FileNode::new(copy_str(path), 0, last as i32);
        node.width = width;
        node.height = height;
        node.padding = 0;
        match file_stem(path) {
            Some(stem) => {
                node.name = stem;
            },
            None => {},
        }
        node
    }
}

fn copy_str(s: &str) -> (r: String)
    ensures
        r@ == s@,
{
    let mut out = String::new();
    push_str(&mut out, s);
    out
}

/// Keep the first node of each file mask, in order.
pub open spec fn first_per_mask(ns: Seq<FileNode>) -> Seq<FileNode>
    decreases ns.len(),
{
    if ns.len() == 0 {
        ns
    } else {
        let r = first_per_mask(ns.drop_last());
        if exists|i: int| 0 <= i < ns.len() - 1 && (#[trigger] ns[i]).file_mask@ == ns.last().file_mask@ {
            r
        } else {
            r.push(ns.last())
        }
    }
}

/// Drop nodes whose file mask an earlier node has.
pub fn dedup_by_mask(nodes: Vec<FileNode>) -> (r: Vec<FileNode>)
    ensures
        r@ == first_per_mask(nodes@),
{
    let ghost orig = nodes@;
    let n = nodes.len();
    let mut masks: Vec<String> = Vec::new();
    let mut rest = nodes;
    let mut out: Vec<FileNode> = Vec::new();
    let mut j: usize = 0;
    while rest.len() > 0
        invariant
            n == orig.len(),
            j <= n,
            rest@ == orig.subrange(j as int, n as int),
            out@ == first_per_mask(orig.subrange(0, j as int)),
            masks@.len() == j,
            forall|q: int| 0 <= q < j ==> (#[trigger] masks@[q])@ == orig[q].file_mask@,
        decreases rest@.len(),
    {
        let node = rest.remove(0);
        let ghost pre = orig.subrange(0, j + 1);
        proof {
            assert(pre.drop_last() =~= orig.subrange(0, j as int));
            assert(pre.last() == node);
            assert(rest@ =~= orig.subrange(j + 1, n as int));
        }
        let mut seen = false;
        let mut q: usize = 0;
        while q < masks.len()
            invariant
                q <= masks@.len(),
                masks@.len() == j,
                j < n,
                n == orig.len(),
                pre == orig.subrange(0, j + 1),
                forall|t: int| 0 <= t < j ==> (#[trigger] masks@[t])@ == orig[t].file_mask@,
                seen == (exists|t: int| 0 <= t < q && (#[trigger] pre[t]).file_mask@ == node.file_mask@),
                node == pre.last(),
            decreases masks@.len() - q,
        {
            if str_eq(masks[q].as_str(), node.file_mask.as_str()) {
                proof {
                    assert(pre[q as int] == orig[q as int]);
                }
                seen = true;
            } else {
                proof {
                    assert(pre[q as int] == orig[q as int]);
                    assert forall|t: int| 0 <= t < q + 1 && (#[trigger] pre[t]).file_mask@ == node.file_mask@ implies t < q by {
                        if t == q {
                            assert(pre[t] == orig[t]);
                        }
                    }
                }
            }
            q = q + 1;
        }
        let m = copy_string(&node.file_mask);
        if !seen {
            out.push(node);
        }
        masks.push(m);
        j = j + 1;
        proof {
            assert forall|t: int| 0 <= t < j implies (#[trigger] masks@[t])@ == orig[t].file_mask@ by {}
        }
    }
    proof {
        assert(orig.subrange(0, j as int) =~= orig);
    }
    out
}

} // verus!
