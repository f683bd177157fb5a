//! Project: the media pool of file and composition nodes, the order of the
//! media list, the selection and the active item, and the graph that the
//! compositions' layers form over the pool.

use vstd::prelude::*;
use crate::comp::{CompNode, Layer};
use crate::node::{FileNode, NodeKind};
use crate::seqpath::{last_index_in, last_index_of, lemma_last_index_bounds, trailing_digits_start, trailing_digits_start_in};
use crate::strs::{chars_of, dec, is_digit, lemma_dec_digits, parse_unsigned, parse_unsigned_in, push_char, push_chars, push_dec};

verus! {

/// Index of the first node with the given uuid, or -1.
pub open spec fn node_index(media: Seq<NodeKind>, u: u128) -> int
    decreases media.len(),
{
    if media.len() == 0 {
        -1
    } else {
        let k = node_index(media.drop_last(), u);
        if k >= 0 {
            k
        } else if media.last().spec_uuid() == u {
            media.len() - 1
        } else {
            -1
        }
    }
}

pub proof fn lemma_node_index(media: Seq<NodeKind>, u: u128)
    ensures
        -1 <= node_index(media, u) < media.len(),
        node_index(media, u) >= 0 ==> media[node_index(media, u)].spec_uuid() == u,
        node_index(media, u) >= 0 ==> forall|j: int| 0 <= j < node_index(media, u) ==> (#[trigger] media[j]).spec_uuid() != u,
        node_index(media, u) < 0 ==> forall|j: int| 0 <= j < media.len() ==> (#[trigger] media[j]).spec_uuid() != u,
    decreases media.len(),
{
    if media.len() > 0 {
        lemma_node_index(media.drop_last(), u);
        assert forall|j: int| 0 <= j < media.len() - 1 implies media[j] == media.drop_last()[j] by {}
    }
}

/// Whether some node has the given uuid.
pub open spec fn has_node(media: Seq<NodeKind>, u: u128) -> bool {
    node_index(media, u) >= 0
}

/// No two nodes share a uuid.
pub open spec fn unique_uuids(media: Seq<NodeKind>) -> bool {
    forall|i: int, j: int| 0 <= i < j < media.len() ==> (#[trigger] media[i]).spec_uuid() != (#[trigger] media[j]).spec_uuid()
}

/// The inputs of the node with uuid `u`; none when there is no such node.
pub open spec fn children(media: Seq<NodeKind>, u: u128) -> Seq<u128> {
    let k = node_index(media, u);
    if k >= 0 {
        media[k].spec_inputs()
    } else {
        Seq::empty()
    }
}

/// Top-level project: the media pool and the state of the media list.
#[derive(Clone, Debug)]
pub struct Project {
    /// All nodes, at most one per uuid.
    pub media: Vec<NodeKind>,
    /// UI order of the media items.
    pub comps_order: Vec<u128>,
    /// Current selection, in order.
    pub selection: Vec<u128>,
    /// Currently active item.
    pub active: Option<u128>,
    /// Anchor of a shift-click range selection.
    pub selection_anchor: Option<usize>,
}

/// A copy of a list of identifiers.
pub fn copy_ids(v: &[u128]) -> (r: Vec<u128>)
    ensures
        r@ == v@,
{
    let mut out: Vec<u128> = Vec::new();
    let mut i: usize = 0;
    while i < v.len()
        invariant
            i <= v@.len(),
            out@ == v@.subrange(0, i as int),
        decreases v@.len() - i,
    {
        out.push(v[i]);
        i = i + 1;
        proof {
            assert(out@ =~= v@.subrange(0, i as int));
        }
    }
    proof {
        assert(v@.subrange(0, i as int) =~= v@);
    }
    out
}

/// `s` without the occurrences of `x`, order kept.
pub open spec fn ids_without(s: Seq<u128>, x: u128) -> Seq<u128>
    decreases s.len(),
{
    if s.len() == 0 {
        s
    } else {
        let r = ids_without(s.drop_last(), x);
        if s.last() != x { r.push(s.last()) } else { r }
    }
}

pub proof fn lemma_ids_without(s: Seq<u128>, x: u128)
    ensures
        !ids_without(s, x).contains(x),
        forall|y: u128| y != x && s.contains(y) ==> ids_without(s, x).contains(y),
        forall|y: u128| ids_without(s, x).contains(y) ==> s.contains(y),
    decreases s.len(),
{
    if s.len() > 0 {
        lemma_ids_without(s.drop_last(), x);
        let r = ids_without(s.drop_last(), x);
        assert forall|y: u128| y != x && s.contains(y) implies ids_without(s, x).contains(y) by {
            let k = choose|k: int| 0 <= k < s.len() && s[k] == y;
            if k < s.len() - 1 {
                assert(s.drop_last()[k] == y);
                assert(s.drop_last().contains(y));
                assert(r.contains(y));
                let m = choose|m: int| 0 <= m < r.len() && r[m] == y;
                if s.last() != x {
                    assert(r.push(s.last())[m] == y);
                }
            } else {
                assert(r.push(s.last())[r.len() as int] == y);
            }
        }
        assert forall|y: u128| ids_without(s, x).contains(y) implies s.contains(y) by {
            let m = choose|m: int| 0 <= m < ids_without(s, x).len() && ids_without(s, x)[m] == y;
            if m < r.len() {
                assert(r[m] == y);
                assert(r.contains(y));
                assert(s.drop_last().contains(y));
                let k = choose|k: int| 0 <= k < s.drop_last().len() && s.drop_last()[k] == y;
                assert(s[k] == y);
            } else {
                assert(s[s.len() - 1] == y);
            }
        }
    }
}

/// `v` without the occurrences of `x`, order kept.
pub fn without_id(v: &[u128], x: u128) -> (r: Vec<u128>)
    ensures
        r@ == ids_without(v@, x),
{
    let mut out: Vec<u128> = Vec::new();
    let mut i: usize = 0;
    while i < v.len()
        invariant
            i <= v@.len(),
            out@ == ids_without(v@.subrange(0, i as int), x),
        decreases v@.len() - i,
    {
        proof {
            let pre = v@.subrange(0, i + 1);
            assert(pre.drop_last() =~= v@.subrange(0, i as int));
            assert(pre.last() == v@[i as int]);
        }
        if v[i] != x {
            out.push(v[i]);
        }
        i = i + 1;
    }
    proof {
        assert(v@.subrange(0, i as int) =~= v@);
    }
    out
}

/// `ls` without the layers whose source is `src`, order kept.
pub open spec fn layers_without(ls: Seq<Layer>, src: u128) -> Seq<Layer>
    decreases ls.len(),
{
    if ls.len() == 0 {
        ls
    } else {
        let r = layers_without(ls.drop_last(), src);
        if ls.last().source_uuid != src { r.push(ls.last()) } else { r }
    }
}

pub proof fn lemma_layers_without(ls: Seq<Layer>, src: u128)
    ensures
        forall|k: int| 0 <= k < layers_without(ls, src).len() ==> (#[trigger] layers_without(ls, src)[k]).source_uuid != src,
    decreases ls.len(),
{
    if ls.len() > 0 {
        lemma_layers_without(ls.drop_last(), src);
        let r = layers_without(ls.drop_last(), src);
        assert forall|k: int| 0 <= k < r.len() implies r.push(ls.last())[k] == r[k] by {}
    }
}

/// The layers without those whose source is `src`, order kept.
pub fn layers_without_source(ls: Vec<Layer>, src: u128) -> (r: Vec<Layer>)
    ensures
        r@ == layers_without(ls@, src),
{
    let ghost orig = ls@;
    let n = ls.len();
    let mut rest = ls;
    let mut out: Vec<Layer> = Vec::new();
    let mut j: usize = 0;
    while rest.len() > 0
        invariant
            n == orig.len(),
            j <= orig.len(),
            rest@ == orig.subrange(j as int, orig.len() as int),
            out@ == layers_without(orig.subrange(0, j as int), src),
        decreases rest@.len(),
    {
        let l = rest.remove(0);
        proof {
            let pre = orig.subrange(0, j + 1);
            assert(pre.drop_last() =~= orig.subrange(0, j as int));
            assert(pre.last() == l);
            assert(rest@ =~= orig.subrange(j + 1, orig.len() as int));
        }
        if l.source_uuid != src {
            out.push(l);
        }
        j = j + 1;
    }
    proof {
        assert(orig.subrange(0, j as int) =~= orig);
    }
    out
}


// ---------------------------------------------------------------------------
// Name generation
// ---------------------------------------------------------------------------

/// `s` without the copies of `c` that end it.
pub open spec fn trim_end_char(s: Seq<char>, c: char) -> Seq<char>
    decreases s.len(),
{
    if s.len() > 0 && s.last() == c {
        trim_end_char(s.drop_last(), c)
    } else {
        s
    }
}

/// `s` without the copies of `c` that start it.
pub open spec fn trim_start_char(s: Seq<char>, c: char) -> Seq<char>
    decreases s.len(),
{
    if s.len() > 0 && s[0] == c {
        trim_start_char(s.drop_first(), c)
    } else {
        s
    }
}

/// The base of a generated name: the source name before its last `.`,
/// without trailing digits and then trailing underscores; `"layer"` when
/// nothing is left.
pub open spec fn name_base(src: Seq<char>) -> Seq<char> {
    let k = last_index_of(src, '.');
    let stem = if k >= 0 { src.subrange(0, k) } else { src };
    let t = stem.subrange(0, trailing_digits_start(stem));
    let b = trim_end_char(t, '_');
    if b.len() == 0 { "layer"@ } else { b }
}

/// The number a name carries after `base`: the name must start with
/// `base`, and the rest, without leading underscores, must parse as a
/// `u32`; 0 otherwise.
pub open spec fn name_suffix(name: Seq<char>, base: Seq<char>) -> nat {
    if base.len() <= name.len() && name.subrange(0, base.len() as int) == base {
        match parse_unsigned(trim_start_char(name.subrange(base.len() as int, name.len() as int), '_'), u32::MAX as nat) {
            Some(n) => n,
            None => 0,
        }
    } else {
        0
    }
}

pub open spec fn max_nat(a: nat, b: nat) -> nat {
    if a >= b { a } else { b }
}

/// Largest suffix number among the layer names.
pub open spec fn layers_max_suffix(ls: Seq<Layer>, base: Seq<char>) -> nat
    decreases ls.len(),
{
    if ls.len() == 0 {
        0
    } else {
        max_nat(layers_max_suffix(ls.drop_last(), base), name_suffix(ls.last().name@, base))
    }
}

/// Largest suffix number of a node's name and, for a composition, its
/// layers' names.
pub open spec fn node_max_suffix(n: NodeKind, base: Seq<char>) -> nat {
    max_nat(
        name_suffix(n.spec_name(), base),
        match n {
            NodeKind::Comp(c) => layers_max_suffix(c.layers@, base),
            NodeKind::File(_) => 0,
        },
    )
}

/// Largest suffix number over all nodes and layers.
pub open spec fn media_max_suffix(media: Seq<NodeKind>, base: Seq<char>) -> nat
    decreases media.len(),
{
    if media.len() == 0 {
        0
    } else {
        max_nat(media_max_suffix(media.drop_last(), base), node_max_suffix(media.last(), base))
    }
}

/// The generated name: `"{base}_{n}"` with `n` one past the largest
/// number any node or layer name carries after the base.
pub open spec fn spec_gen_name(media: Seq<NodeKind>, src: Seq<char>) -> Seq<char> {
    let base = name_base(src);
    base + "_"@ + dec(media_max_suffix(media, base) + 1)
}

/// End of `v[..to]` once the copies of `c` that end it are dropped.
fn trim_end_in(v: &[char], to: usize, c: char) -> (r: usize)
    requires
        to <= v@.len(),
    ensures
        r <= to,
        v@.subrange(0, r as int) == trim_end_char(v@.subrange(0, to as int), c),
{
    let mut i = to;
    while i > 0 && v[i - 1] == c
        invariant
            i <= to <= v@.len(),
            trim_end_char(v@.subrange(0, i as int), c) == trim_end_char(v@.subrange(0, to as int), c),
        decreases i,
    {
        proof {
            assert(v@.subrange(0, i as int).drop_last() =~= v@.subrange(0, i - 1));
        }
        i = i - 1;
    }
    proof {
        if i > 0 {
            assert(v@.subrange(0, i as int).last() == v@[i - 1]);
        }
    }
    i
}

/// Start of `v[from..to]` once the copies of `c` that start it are dropped.
fn trim_start_in(v: &[char], from: usize, to: usize, c: char) -> (r: usize)
    requires
        from <= to <= v@.len(),
    ensures
        from <= r <= to,
        v@.subrange(r as int, to as int) == trim_start_char(v@.subrange(from as int, to as int), c),
{
    let mut i = from;
    while i < to && v[i] == c
        invariant
            from <= i <= to <= v@.len(),
            trim_start_char(v@.subrange(i as int, to as int), c) == trim_start_char(v@.subrange(from as int, to as int), c),
        decreases to - i,
    {
        proof {
            assert(v@.subrange(i as int, to as int).drop_first() =~= v@.subrange(i + 1, to as int));
        }
        i = i + 1;
    }
    proof {
        if i < to {
            assert(v@.subrange(i as int, to as int)[0] == v@[i as int]);
        }
    }
    i
}

/// Whether `p` is a prefix of `v`.
fn starts_with_chars(v: &[char], p: &[char]) -> (r: bool)
    ensures
        r == (p@.len() <= v@.len() && v@.subrange(0, p@.len() as int) == p@),
{
    if p.len() > v.len() {
        return false;
    }
    let mut i: usize = 0;
    while i < p.len()
        invariant
            p@.len() <= v@.len(),
            i <= p@.len(),
            forall|j: int| 0 <= j < i ==> v@[j] == p@[j],
        decreases p@.len() - i,
    {
        if v[i] != p[i] {
            proof {
                assert(v@.subrange(0, p@.len() as int)[i as int] != p@[i as int]);
            }
            return false;
        }
        i = i + 1;
    }
    proof {
        assert(v@.subrange(0, p@.len() as int) =~= p@);
    }
    true
}

proof fn lemma_layers_max_bound(ls: Seq<Layer>, base: Seq<char>, j: int)
    requires
        0 <= j < ls.len(),
    ensures
        name_suffix(ls[j].name@, base) <= layers_max_suffix(ls, base),
    decreases ls.len(),
{
    if j < ls.len() - 1 {
        lemma_layers_max_bound(ls.drop_last(), base, j);
        assert(ls.drop_last()[j] == ls[j]);
    }
}

proof fn lemma_media_max_bound(media: Seq<NodeKind>, base: Seq<char>, i: int)
    requires
        0 <= i < media.len(),
    ensures
        node_max_suffix(media[i], base) <= media_max_suffix(media, base),
    decreases media.len(),
{
    if i < media.len() - 1 {
        lemma_media_max_bound(media.drop_last(), base, i);
        assert(media.drop_last()[i] == media[i]);
    }
}

/// The generated name carries the number it was generated with.
proof fn lemma_gen_name_suffix(base: Seq<char>, n: nat)
    requires
        n <= u32::MAX,
    ensures
        name_suffix(base + "_"@ + dec(n), base) == n,
{
    reveal_strlit("_");
    lemma_dec_digits(n);
    let g = base + "_"@ + dec(n);
    let d = dec(n);
    assert(g.subrange(0, base.len() as int) =~= base);
    let rest = g.subrange(base.len() as int, g.len() as int);
    assert(rest =~= seq!['_'] + d);
    assert(rest.drop_first() =~= d);
    assert(d[0] != '_') by {
        assert(is_digit(d[0]));
    }
    assert(trim_start_char(d, '_') == d);
    assert(trim_start_char(rest, '_') == d);
    assert(d[0] != '+') by {
        assert(is_digit(d[0]));
    }
}

/// A generated name is new: no node and no layer is called that, as long
/// as the largest number in use after the base is below `u32::MAX`.
pub proof fn law_gen_name_unique(media: Seq<NodeKind>, src: Seq<char>)
    requires
        media_max_suffix(media, name_base(src)) < u32::MAX,
    ensures
        forall|i: int| 0 <= i < media.len() ==> (#[trigger] media[i]).spec_name() != spec_gen_name(media, src),
        forall|i: int, j: int|
            0 <= i < media.len() && media[i] is Comp && 0 <= j < media[i]->Comp_0.layers@.len() ==> (
            #[trigger] media[i]->Comp_0.layers@[j]).name@ != spec_gen_name(media, src),
{
    let base = name_base(src);
    let m = media_max_suffix(media, base);
    lemma_gen_name_suffix(base, (m + 1) as nat);
    assert forall|i: int| 0 <= i < media.len() implies (#[trigger] media[i]).spec_name() != spec_gen_name(media, src) by {
        lemma_media_max_bound(media, base, i);
    }
    assert forall|i: int, j: int|
        0 <= i < media.len() && media[i] is Comp && 0 <= j < media[i]->Comp_0.layers@.len() implies (
        #[trigger] media[i]->Comp_0.layers@[j]).name@ != spec_gen_name(media, src) by {
        lemma_media_max_bound(media, base, i);
        lemma_layers_max_bound(media[i]->Comp_0.layers@, base, j);
    }
}

/// The base of a generated name (see `name_base`).
fn name_base_of(src: &str) -> (r: Vec<char>)
    ensures
        r@ == name_base(src@),
{
    let v = chars_of(src);
    proof {
        lemma_last_index_bounds(v@, '.');
    }
    let stem_end = match last_index_in(v.as_slice(), '.') {
        Some(k) => k,
        None => v.len(),
    };
    let ghost stem = v@.subrange(0, stem_end as int);
    proof {
        assert(stem == (if last_index_of(src@, '.') >= 0 {
            src@.subrange(0, last_index_of(src@, '.'))
        } else {
            src@
        })) by {
            if last_index_of(src@, '.') < 0 {
                assert(v@.subrange(0, v@.len() as int) =~= v@);
            }
        }
    }
    let d = trailing_digits_start_in(v.as_slice(), stem_end);
    proof {
        assert(v@.subrange(0, d as int) =~= stem.subrange(0, trailing_digits_start(stem)));
    }
    let b = trim_end_in(v.as_slice(), d, '_');
    if b == 0 {
        let mut out: Vec<char> = Vec::new();
        out.push('l');
        out.push('a');
        out.push('y');
        out.push('e');
        out.push('r');
        proof {
            reveal_strlit("layer");
            assert(out@ =~= "layer"@);
        }
        out
    } else {
        let mut out: Vec<char> = Vec::new();
        let mut i: usize = 0;
        while i < b
            invariant
                b <= v@.len(),
                i <= b,
                out@ == v@.subrange(0, i as int),
            decreases b - i,
        {
            out.push(v[i]);
            i = i + 1;
            proof {
                assert(out@ =~= v@.subrange(0, i as int));
            }
        }
        out
    }
}

/// The number a name carries after `base` (see `name_suffix`).
fn suffix_of(name: &str, base: &[char]) -> (r: u64)
    ensures
        r == name_suffix(name@, base@),
        r <= u32::MAX,
{
    let v = chars_of(name);
    if !starts_with_chars(v.as_slice(), base) {
        return 0;
    }
    let from = trim_start_in(v.as_slice(), base.len(), v.len(), '_');
    match parse_unsigned_in(v.as_slice(), from, v.len(), 0xFFFF_FFFF) {
        Some(n) => n,
        None => 0,
    }
}

/// Position of the first node with the given uuid.
pub fn position_in(media: &[NodeKind], uuid: u128) -> (r: Option<usize>)
    ensures
        match r {
            Some(k) => k as int == node_index(media@, uuid) && k < media@.len(),
            None => node_index(media@, uuid) < 0,
        },
{
    proof {
        lemma_node_index(media@, uuid);
    }
    let mut i: usize = 0;
    while i < media.len()
        invariant
            i <= media@.len(),
            forall|j: int| 0 <= j < i ==> (#[trigger] media@[j]).spec_uuid() != uuid,
            -1 <= node_index(media@, uuid) < media@.len(),
            node_index(media@, uuid) >= 0 ==> media@[node_index(media@, uuid)].spec_uuid() == uuid,
            node_index(media@, uuid) >= 0 ==> forall|j: int|
                0 <= j < node_index(media@, uuid) ==> (#[trigger] media@[j]).spec_uuid() != uuid,
            node_index(media@, uuid) < 0 ==> forall|j: int|
                0 <= j < media@.len() ==> (#[trigger] media@[j]).spec_uuid() != uuid,
        decreases media@.len() - i,
    {
        if media[i].uuid() == uuid {
            return Some(i);
        }
        i = i + 1;
    }
    None
}

/// The inputs of the node with the given uuid (see `children`).
pub fn children_in(media: &[NodeKind], uuid: u128) -> (r: Vec<u128>)
    ensures
        r@ == children(media@, uuid),
{
    match position_in(media, uuid) {
        Some(k) => media[k].inputs(),
        None => {
            let v: Vec<u128> = Vec::new();
            proof {
                assert(v@ =~= children(media@, uuid));
            }
            v
        },
    }
}

/// A node with its layers whose source is `u` removed (a file node as it is).
pub open spec fn stripped(a: NodeKind, b: NodeKind, u: u128) -> bool {
    match a {
        NodeKind::File(_) => b == a,
        NodeKind::Comp(c) => b matches NodeKind::Comp(d) && d.layers@ == layers_without(c.layers@, u) && d == (CompNode {
            layers: d.layers,
            ..c
        }),
    }
}

/// Positions of the nodes whose uuid is not `u`, in order.
pub open spec fn kept_positions(media: Seq<NodeKind>, u: u128) -> Seq<int>
    decreases media.len(),
{
    if media.len() == 0 {
        Seq::empty()
    } else {
        let r = kept_positions(media.drop_last(), u);
        if media.last().spec_uuid() != u { r.push(media.len() - 1) } else { r }
    }
}

proof fn lemma_kept_positions(media: Seq<NodeKind>, u: u128)
    ensures
        forall|k: int| 0 <= k < kept_positions(media, u).len() ==> 0 <= #[trigger] kept_positions(media, u)[k] < media.len()
            && media[kept_positions(media, u)[k]].spec_uuid() != u,
        forall|k: int, l: int| 0 <= k < l < kept_positions(media, u).len() ==> #[trigger] kept_positions(media, u)[k]
            < #[trigger] kept_positions(media, u)[l],
        forall|j: int| 0 <= j < media.len() && (#[trigger] media[j]).spec_uuid() != u ==> kept_positions(media, u).contains(j),
    decreases media.len(),
{
    if media.len() > 0 {
        lemma_kept_positions(media.drop_last(), u);
        let r = kept_positions(media.drop_last(), u);
        assert forall|k: int| 0 <= k < r.len() implies r[k] < media.len() - 1 && media[r[k]] == media.drop_last()[r[k]] by {}
        assert forall|j: int| 0 <= j < media.len() && (#[trigger] media[j]).spec_uuid() != u implies kept_positions(media, u).contains(j) by {
            if j < media.len() - 1 {
                assert(media.drop_last()[j] == media[j]);
                let k = choose|k: int| 0 <= k < r.len() && r[k] == j;
                if media.last().spec_uuid() != u {
                    assert(r.push(media.len() - 1)[k] == j);
                }
            } else {
                assert(r.push(media.len() - 1)[r.len() as int] == j);
            }
        }
    }
}

/// `new` is `old` after deleting the node `u`: the other nodes in order,
/// each without layers whose source is `u`; `u` gone from the media list
/// and the selection; the active item and anchor as they were.
pub open spec fn spec_del_node(old: Project, new: Project, u: u128) -> bool {
    let kept = kept_positions(old.media@, u);
    &&& new.media@.len() == kept.len()
    &&& forall|k: int| 0 <= k < kept.len() ==> stripped(old.media@[#[trigger] kept[k]], new.media@[k], u)
    &&& new.comps_order@ == ids_without(old.comps_order@, u)
    &&& new.selection@ == ids_without(old.selection@, u)
    &&& new.active == old.active
    &&& new.selection_anchor == old.selection_anchor
}

/// The node without layers whose source is `u`.
fn strip_node(n: NodeKind, u: u128) -> (r: NodeKind)
    ensures
        stripped(n, r, u),
        r.spec_uuid() == n.spec_uuid(),
{
    match n {
        NodeKind::Comp(mut c) => {
            let mut ls: Vec<Layer> = Vec::new();
            std::mem::swap(&mut ls, &mut c.layers);
            c.layers = layers_without_source(ls, u);
            NodeKind::Comp(c)
        },
        NodeKind::File(f) => NodeKind::File(f),
    }
}

/// One item of a depth-first walk of the node graph.
#[derive(Clone, Copy, Debug, PartialEq, Eq, Structural)]
pub struct NodeIterItem {
    /// Node uuid.
    pub uuid: u128,
    /// Depth from the root (0 for the root).
    pub depth: i32,
    /// Whether the node has no children.
    pub is_leaf: bool,
}

/// The depth-first walk from `u` at `depth`, descending while the depth
/// is below `max`: `u` itself, then the walks of its children in order.
pub open spec fn preorder(media: Seq<NodeKind>, u: u128, depth: int, max: int) -> Seq<NodeIterItem>
    decreases max - depth, 0int,
{
    let ch = children(media, u);
    let item = NodeIterItem { uuid: u, depth: depth as i32, is_leaf: ch.len() == 0 };
    if depth < max {
        seq![item] + preorder_list(media, ch, depth + 1, max)
    } else {
        seq![item]
    }
}

/// The walks from each of `cs` at `depth`, one after another.
pub open spec fn preorder_list(media: Seq<NodeKind>, cs: Seq<u128>, depth: int, max: int) -> Seq<NodeIterItem>
    decreases max - depth, cs.len(),
{
    if cs.len() == 0 {
        Seq::empty()
    } else {
        preorder_list(media, cs.drop_last(), depth, max) + preorder(media, cs.last(), depth, max)
    }
}

/// The depth at which a walk stops descending: `depth`, or for a negative
/// `depth` (no limit) the number of nodes, past which an acyclic graph has
/// nothing left to visit.
pub open spec fn walk_limit(depth: int, n_nodes: int) -> int {
    if depth >= 0 {
        depth
    } else if n_nodes > i32::MAX {
        i32::MAX as int
    } else {
        n_nodes
    }
}

/// There is a chain of inputs from `a` to `b` (of length 0 when equal).
pub open spec fn is_path(media: Seq<NodeKind>, p: Seq<u128>) -> bool {
    &&& p.len() >= 1
    &&& forall|k: int| 0 <= k < p.len() - 1 ==> children(media, #[trigger] p[k]).contains(p[k + 1])
}

/// `b` can be reached from `a` along inputs.
pub open spec fn reachable(media: Seq<NodeKind>, a: u128, b: u128) -> bool {
    exists|p: Seq<u128>| #[trigger] is_path(media, p) && p[0] == a && p.last() == b
}

/// Every uuid occurring as an input, node by node.
pub open spec fn all_inputs(media: Seq<NodeKind>) -> Seq<u128>
    decreases media.len(),
{
    if media.len() == 0 {
        Seq::empty()
    } else {
        all_inputs(media.drop_last()) + media.last().spec_inputs()
    }
}

proof fn lemma_children_in_all_inputs(media: Seq<NodeKind>, u: u128, c: u128)
    requires
        children(media, u).contains(c),
    ensures
        all_inputs(media).contains(c),
    decreases media.len(),
{
    lemma_node_index(media, u);
    let k = node_index(media, u);
    if k == media.len() - 1 {
        let ins = media.last().spec_inputs();
        let m = choose|m: int| 0 <= m < ins.len() && ins[m] == c;
        assert((all_inputs(media.drop_last()) + ins)[all_inputs(media.drop_last()).len() + m] == c);
    } else {
        lemma_node_index(media.drop_last(), u);
        assert(node_index(media.drop_last(), u) == k);
        assert(media.drop_last()[k] == media[k]);
        lemma_children_in_all_inputs(media.drop_last(), u, c);
        let a = all_inputs(media.drop_last());
        let m = choose|m: int| 0 <= m < a.len() && a[m] == c;
        assert((a + media.last().spec_inputs())[m] == c);
    }
}

/// How many positions of `u` hold a value missing from `vis`.
pub open spec fn count_missing(u: Seq<u128>, vis: Seq<u128>) -> nat
    decreases u.len(),
{
    if u.len() == 0 {
        0
    } else {
        count_missing(u.drop_last(), vis) + (if vis.contains(u.last()) { 0nat } else { 1nat })
    }
}

proof fn lemma_count_missing(u: Seq<u128>, vis: Seq<u128>, c: u128)
    requires
        !vis.contains(c),
    ensures
        count_missing(u, vis.push(c)) <= count_missing(u, vis),
        u.contains(c) ==> count_missing(u, vis.push(c)) < count_missing(u, vis),
    decreases u.len(),
{
    if u.len() > 0 {
        lemma_count_missing(u.drop_last(), vis, c);
        if vis.contains(u.last()) {
            let k = choose|k: int| 0 <= k < vis.len() && vis[k] == u.last();
            assert(vis.push(c)[k] == u.last());
        }
        if u.contains(c) && !u.drop_last().contains(c) {
            let k = choose|k: int| 0 <= k < u.len() && u[k] == c;
            if k < u.len() - 1 {
                assert(u.drop_last()[k] == c);
            }
            assert(vis.push(c)[vis.len() as int] == c);
        }
        if u.drop_last().contains(c) {
            assert(u.contains(c)) by {
                let k = choose|k: int| 0 <= k < u.drop_last().len() && u.drop_last()[k] == c;
                assert(u[k] == c);
            }
        }
    }
}

/// A set closed under inputs that holds the start of a path holds all of it.
proof fn lemma_closed_holds_path(media: Seq<NodeKind>, vis: Seq<u128>, p: Seq<u128>, k: int)
    requires
        is_path(media, p),
        vis.contains(p[0]),
        forall|v: u128, c: u128| vis.contains(v) && #[trigger] children(media, v).contains(c) ==> #[trigger] vis.contains(c),
        0 <= k < p.len(),
    ensures
        vis.contains(p[k]),
    decreases k,
{
    if k > 0 {
        lemma_closed_holds_path(media, vis, p, k - 1);
        assert(children(media, p[k - 1]).contains(p[k]));
    }
}

impl Project {
    /// Media, order and selection are consistent: one node per uuid.
    pub open spec fn wf(self) -> bool {
        unique_uuids(self.media@)
    }

    /// An empty project: no media, nothing ordered, selected or active.
    pub fn new() -> (r: Self)
        ensures
            r.media@.len() == 0,
            r.comps_order@.len() == 0,
            r.selection@.len() == 0,
            r.active is None,
            r.selection_anchor is None,
            r.wf(),
    {
        Project {
            media: Vec::new(),
            comps_order: Vec::new(),
            selection: Vec::new(),
            active: None,
            selection_anchor: None,
        }
    }

    /// Media list order.
    pub fn comps_order(&self) -> (r: Vec<u128>)
        ensures
            r@ == self.comps_order@,
    {
        copy_ids(self.comps_order.as_slice())
    }

    pub fn set_comps_order(&mut self, order: Vec<u128>)
        ensures
            *final(self) == (Project { comps_order: order, ..*old(self) }),
    {
        self.comps_order = order;
    }

    pub fn push_comps_order(&mut self, uuid: u128)
        ensures
            final(self).comps_order@ == old(self).comps_order@.push(uuid),
            *final(self) == (Project { comps_order: final(self).comps_order, ..*old(self) }),
    {
        self.comps_order.push(uuid);
    }

    /// Current selection, in order.
    pub fn selection(&self) -> (r: Vec<u128>)
        ensures
            r@ == self.selection@,
    {
        copy_ids(self.selection.as_slice())
    }

    pub fn set_selection(&mut self, sel: Vec<u128>)
        ensures
            *final(self) == (Project { selection: sel, ..*old(self) }),
    {
        self.selection = sel;
    }

    pub fn push_selection(&mut self, uuid: u128)
        ensures
            final(self).selection@ == old(self).selection@.push(uuid),
            *final(self) == (Project { selection: final(self).selection, ..*old(self) }),
    {
        self.selection.push(uuid);
    }

    /// Active item.
    pub fn active(&self) -> (r: Option<u128>)
        ensures
            r == self.active,
    {
        self.active
    }

    pub fn set_active(&mut self, uuid: Option<u128>)
        ensures
            *final(self) == (Project { active: uuid, ..*old(self) }),
    {
        self.active = uuid;
    }

    /// Position of the node with the given uuid in the pool.
    pub fn node_position(&self, uuid: u128) -> (r: Option<usize>)
        ensures
            match r {
                Some(k) => k as int == node_index(self.media@, uuid) && k < self.media@.len(),
                None => node_index(self.media@, uuid) < 0,
            },
    {
        position_in(self.media.as_slice(), uuid)
    }

    /// Whether the pool holds a node with the given uuid.
    pub fn contains_node(&self, uuid: u128) -> (r: bool)
        ensures
            r == has_node(self.media@, uuid),
    {
        self.node_position(uuid).is_some()
    }

    /// Same as `contains_node`.
    pub fn contains_comp(&self, uuid: u128) -> (r: bool)
        ensures
            r == has_node(self.media@, uuid),
    {
        self.contains_node(uuid)
    }

    /// The node with the given uuid.
    pub fn get_node(&self, uuid: u128) -> (r: Option<&NodeKind>)
        ensures
            match r {
                Some(n) => has_node(self.media@, uuid) && *n == self.media@[node_index(self.media@, uuid)],
                None => !has_node(self.media@, uuid),
            },
    {
        match self.node_position(uuid) {
            Some(k) => Some(&self.media[k]),
            None => None,
        }
    }

    /// The composition with the given uuid.
    pub fn get_comp(&self, uuid: u128) -> (r: Option<&CompNode>)
        ensures
            match r {
                Some(c) => has_node(self.media@, uuid) && self.media@[node_index(self.media@, uuid)] == NodeKind::Comp(*c),
                None => !has_node(self.media@, uuid) || self.media@[node_index(self.media@, uuid)] is File,
            },
    {
        match self.get_node(uuid) {
            Some(n) => n.as_comp(),
            None => None,
        }
    }

    /// The file node with the given uuid.
    pub fn get_file(&self, uuid: u128) -> (r: Option<&FileNode>)
        ensures
            match r {
                Some(f) => has_node(self.media@, uuid) && self.media@[node_index(self.media@, uuid)] == NodeKind::File(*f),
                None => !has_node(self.media@, uuid) || self.media@[node_index(self.media@, uuid)] is Comp,
            },
    {
        match self.get_node(uuid) {
            Some(n) => n.as_file(),
            None => None,
        }
    }

    /// Put a node into the pool: it replaces the node with its uuid, or
    /// joins at the end.
    pub fn update_node(&mut self, node: NodeKind)
        ensures
            ({
                let k = node_index(old(self).media@, node.spec_uuid());
                final(self).media@ == if k >= 0 {
                    old(self).media@.update(k, node)
                } else {
                    old(self).media@.push(node)
                }
            }),
            *final(self) == (Project { media: final(self).media, ..*old(self) }),
    {
        let uuid = node.uuid();
        match self.node_position(uuid) {
            Some(k) => {
                self.media.set(k, node);
            },
            None => {
                self.media.push(node);
            },
        }
    }

    /// Add a node to the pool and to the end of the media list.
    pub fn add_node(&mut self, node: NodeKind)
        ensures
            ({
                let k = node_index(old(self).media@, node.spec_uuid());
                final(self).media@ == if k >= 0 {
                    old(self).media@.update(k, node)
                } else {
                    old(self).media@.push(node)
                }
            }),
            final(self).comps_order@ == old(self).comps_order@.push(node.spec_uuid()),
            final(self).selection == old(self).selection,
            final(self).active == old(self).active,
            final(self).selection_anchor == old(self).selection_anchor,
    {
        let uuid = node.uuid();
        self.update_node(node);
        self.push_comps_order(uuid);
    }

    /// Create a composition from frame 0 to `end` and add it; returns its uuid.
    pub fn create_comp(&mut self, name: &str, end: i32) -> (r: u128)
        ensures
            final(self).comps_order@ == old(self).comps_order@.push(r),
            has_node(final(self).media@, r),
            (final(self).media@[node_index(final(self).media@, r)] matches NodeKind::Comp(c) && c.name@ == name@
                && c.in_frame == 0 && c.out_frame == end && c.layers@.len() == 0),
    {
        let comp = CompNode::new(name, 0, end);
        let uuid = comp.uuid();
        let ghost g = comp;
        self.add_node(NodeKind::Comp(comp));
        proof {
            lemma_node_index(final(self).media@, uuid);
            lemma_node_index(old(self).media@, uuid);
            let k = node_index(old(self).media@, uuid);
            if k < 0 {
                assert(final(self).media@[old(self).media@.len() as int].spec_uuid() == uuid);
            } else {
                assert(final(self).media@[k].spec_uuid() == uuid);
            }
            assert(node_index(final(self).media@, uuid) >= 0);
            let j = node_index(final(self).media@, uuid);
            if k >= 0 {
                assert(j == k) by {
                    if j < k {
                        assert(final(self).media@[j] == old(self).media@[j]);
                    }
                }
            } else {
                assert(j == old(self).media@.len()) by {
                    if j < old(self).media@.len() {
                        assert(final(self).media@[j] == old(self).media@[j]);
                    }
                }
            }
        }
        uuid
    }

    /// Create a file node and add it; returns its uuid.
    pub fn create_file(&mut self, file_mask: String, start: i32, end: i32) -> (r: u128)
        ensures
            final(self).comps_order@ == old(self).comps_order@.push(r),
            has_node(final(self).media@, r),
            (final(self).media@[node_index(final(self).media@, r)] matches NodeKind::File(f) && f.file_mask@ == file_mask@
                && f.file_start == start && f.file_end == end),
    {
        let ghost mask = file_mask@;
        let file = FileNode::new(file_mask, start, end);
        let uuid = file.uuid();
        self.add_node(NodeKind::File(file));
        proof {
            lemma_node_index(final(self).media@, uuid);
            lemma_node_index(old(self).media@, uuid);
            let k = node_index(old(self).media@, uuid);
            if k < 0 {
                assert(final(self).media@[old(self).media@.len() as int].spec_uuid() == uuid);
            } else {
                assert(final(self).media@[k].spec_uuid() == uuid);
            }
            let j = node_index(final(self).media@, uuid);
            if k >= 0 {
                assert(j == k) by {
                    if j < k {
                        assert(final(self).media@[j] == old(self).media@[j]);
                    }
                }
            } else {
                assert(j == old(self).media@.len()) by {
                    if j < old(self).media@.len() {
                        assert(final(self).media@[j] == old(self).media@[j]);
                    }
                }
            }
        }
        uuid
    }

    /// The first item of the media list; when the list is empty, a new
    /// composition "Main" (frame 0 to 0) is added, listed and returned.
    pub fn ensure_default_comp(&mut self) -> (r: u128)
        ensures
            old(self).comps_order@.len() > 0 ==> r == old(self).comps_order@[0] && *final(self) == *old(self),
            old(self).comps_order@.len() == 0 ==> (final(self).comps_order@ == seq![r] && has_node(final(self).media@, r)
                && (final(self).media@[node_index(final(self).media@, r)] matches NodeKind::Comp(c) && c.name@ == "Main"@
                && c.in_frame == 0 && c.out_frame == 0)),
    {
        if self.comps_order.len() > 0 {
            return self.comps_order[0];
        }
        proof {
            reveal_strlit("Main");
        }
        self.create_comp("Main", 0)
    }

    /// A new unique name derived from `source_name` (see `spec_gen_name`).
    pub fn gen_name(&self, source_name: &str) -> (r: String)
        ensures
            r@ == spec_gen_name(self.media@, source_name@),
    {
        let base = name_base_of(source_name);
        let mut max_num: u64 = 0;
        let mut i: usize = 0;
        proof {
            assert(self.media@.subrange(0, 0) =~= Seq::<NodeKind>::empty());
        }
        while i < self.media.len()
            invariant
                i <= self.media@.len(),
                base@ == name_base(source_name@),
                max_num == media_max_suffix(self.media@.subrange(0, i as int), base@),
                max_num <= u32::MAX,
            decreases self.media@.len() - i,
        {
            let node = &self.media[i];
            proof {
                let pre = self.media@.subrange(0, i + 1);
                assert(pre.drop_last() =~= self.media@.subrange(0, i as int));
                assert(pre.last() == self.media@[i as int]);
            }
            let mut node_max = suffix_of(node.name(), base.as_slice());
            match node {
                NodeKind::Comp(comp) => {
                    let mut lmax: u64 = 0;
                    let mut j: usize = 0;
                    proof {
                        assert(comp.layers@.subrange(0, 0) =~= Seq::<Layer>::empty());
                    }
                    while j < comp.layers.len()
                        invariant
                            j <= comp.layers@.len(),
                            lmax == layers_max_suffix(comp.layers@.subrange(0, j as int), base@),
                            lmax <= u32::MAX,
                        decreases comp.layers@.len() - j,
                    {
                        proof {
                            let pre = comp.layers@.subrange(0, j + 1);
                            assert(pre.drop_last() =~= comp.layers@.subrange(0, j as int));
                            assert(pre.last() == comp.layers@[j as int]);
                        }
                        let n = suffix_of(comp.layers[j].name.as_str(), base.as_slice());
                        if n > lmax {
                            lmax = n;
                        }
                        j = j + 1;
                    }
                    proof {
                        assert(comp.layers@.subrange(0, j as int) =~= comp.layers@);
                    }
                    if lmax > node_max {
                        node_max = lmax;
                    }
                },
                NodeKind::File(_) => {},
            }
            if node_max > max_num {
                max_num = node_max;
            }
            i = i + 1;
        }
        proof {
            assert(self.media@.subrange(0, i as int) =~= self.media@);
        }
        let mut out = String::new();
        push_chars(&mut out, base.as_slice(), 0, base.len());
        push_char(&mut out, '_');
        push_dec(&mut out, max_num + 1);
        proof {
            reveal_strlit("_");
            assert(base@.subrange(0, base@.len() as int) =~= base@);
            assert(out@ =~= spec_gen_name(self.media@, source_name@));
        }
        out
    }

    /// Remove a node: from the pool, from every composition's layers
    /// (layers whose source it is), from the media list and the selection
    /// (see `spec_del_node`).
    pub fn del_node(&mut self, uuid: u128)
        ensures
            spec_del_node(*old(self), *final(self), uuid),
    {
        let ghost orig = self.media@;
        let mut rest: Vec<NodeKind> = Vec::new();
        std::mem::swap(&mut rest, &mut self.media);
        let n = rest.len();
        let mut kept: Vec<NodeKind> = Vec::new();
        let mut j: usize = 0;
        while rest.len() > 0
            invariant
                n == orig.len(),
                j <= orig.len(),
                rest@ == orig.subrange(j as int, orig.len() as int),
                kept@.len() == kept_positions(orig.subrange(0, j as int), uuid).len(),
                forall|k: int| 0 <= k < kept@.len() ==> stripped(
                    orig[#[trigger] kept_positions(orig.subrange(0, j as int), uuid)[k]],
                    kept@[k],
                    uuid,
                ),
            decreases rest@.len(),
        {
            let node = rest.remove(0);
            let ghost pre = orig.subrange(0, j + 1);
            proof {
                assert(pre.drop_last() =~= orig.subrange(0, j as int));
                assert(pre.last() == node);
                assert(rest@ =~= orig.subrange(j + 1, orig.len() as int));
                lemma_kept_positions(orig.subrange(0, j as int), uuid);
                let kp = kept_positions(orig.subrange(0, j as int), uuid);
                assert forall|k: int| 0 <= k < kp.len() implies orig.subrange(0, j as int)[#[trigger] kp[k]] == orig[kp[k]] by {}
            }
            if node.uuid() != uuid {
                let s2 = strip_node(node, uuid);
                kept.push(s2);
            }
            j = j + 1;
            proof {
                let kp = kept_positions(orig.subrange(0, j as int), uuid);
                lemma_kept_positions(orig.subrange(0, j as int), uuid);
                assert forall|k: int| 0 <= k < kept@.len() implies stripped(orig[#[trigger] kp[k]], kept@[k], uuid) by {
                    assert(orig.subrange(0, j as int)[kp[k]] == orig[kp[k]]);
                }
            }
        }
        proof {
            assert(orig.subrange(0, j as int) =~= orig);
        }
        self.media = kept;
        self.comps_order = without_id(self.comps_order.as_slice(), uuid);
        self.selection = without_id(self.selection.as_slice(), uuid);
    }

    /// Same as `del_node`.
    pub fn del_comp(&mut self, uuid: u128)
        ensures
            spec_del_node(*old(self), *final(self), uuid),
    {
        self.del_node(uuid);
    }

    fn walk_from(&self, u: u128, depth: i32, max: i32, out: &mut Vec<NodeIterItem>)
        requires
            0 <= depth <= max,
        ensures
            final(out)@ == old(out)@ + preorder(self.media@, u, depth as int, max as int),
        decreases max - depth,
    {
        let ch = children_in(self.media.as_slice(), u);
        let ghost base = old(out)@;
        let item = NodeIterItem { uuid: u, depth, is_leaf: ch.len() == 0 };
        out.push(item);
        if depth < max {
            let mut i: usize = 0;
            proof {
                assert(ch@.subrange(0, 0) =~= Seq::<u128>::empty());
                assert(out@ =~= base + seq![item] + preorder_list(self.media@, ch@.subrange(0, 0), depth + 1, max as int));
            }
            while i < ch.len()
                invariant
                    0 <= depth < max,
                    i <= ch@.len(),
                    ch@ == children(self.media@, u),
                    out@ == base + seq![item] + preorder_list(self.media@, ch@.subrange(0, i as int), depth + 1, max as int),
                decreases ch@.len() - i,
            {
                let ghost before = out@;
                self.walk_from(ch[i], depth + 1, max, out);
                proof {
                    let pre = ch@.subrange(0, i + 1);
                    assert(pre.drop_last() =~= ch@.subrange(0, i as int));
                    assert(pre.last() == ch@[i as int]);
                    assert(out@ =~= base + seq![item] + preorder_list(self.media@, pre, depth + 1, max as int));
                }
                i = i + 1;
            }
            proof {
                assert(ch@.subrange(0, i as int) =~= ch@);
                assert(out@ =~= base + preorder(self.media@, u, depth as int, max as int));
            }
        } else {
            proof {
                assert(out@ =~= base + preorder(self.media@, u, depth as int, max as int));
            }
        }
    }

    /// Depth-first walk of the node graph from `root`, children in layer
    /// order, descending while the depth is below `depth` (no limit for a
    /// negative `depth`; see `walk_limit`).
    pub fn iter_node(&self, root: u128, depth: i32) -> (r: Vec<NodeIterItem>)
        ensures
            r@ == preorder(self.media@, root, 0, walk_limit(depth as int, self.media@.len() as int)),
    {
        let max: i32 = if depth >= 0 {
            depth
        } else if self.media.len() > 0x7FFF_FFFF {
            0x7FFF_FFFF
        } else {
            self.media.len() as i32
        };
        let mut out: Vec<NodeIterItem> = Vec::new();
        self.walk_from(root, 0, max, &mut out);
        proof {
            assert(out@ =~= preorder(self.media@, root, 0, walk_limit(depth as int, self.media@.len() as int)));
        }
        out
    }

    /// All node uuids reachable from `root`, the root first, in walk order.
    pub fn descendants(&self, root: u128) -> (r: Vec<u128>)
        ensures
            r@ == preorder(self.media@, root, 0, walk_limit(-1, self.media@.len() as int)).map_values(
                |it: NodeIterItem| it.uuid,
            ),
    {
        let items = self.iter_node(root, -1);
        let mut out: Vec<u128> = Vec::new();
        let mut i: usize = 0;
        while i < items.len()
            invariant
                i <= items@.len(),
                out@ == items@.subrange(0, i as int).map_values(|it: NodeIterItem| it.uuid),
            decreases items@.len() - i,
        {
            out.push(items[i].uuid);
            i = i + 1;
            proof {
                assert(out@ =~= items@.subrange(0, i as int).map_values(|it: NodeIterItem| it.uuid));
            }
        }
        proof {
            assert(items@.subrange(0, i as int) =~= items@);
        }
        out
    }

    /// Whether `descendant` is `ancestor` itself or occurs in the walk from
    /// `ancestor` below the root.
    pub fn is_ancestor(&self, ancestor: u128, descendant: u128) -> (r: bool)
        ensures
            r == (ancestor == descendant || exists|k: int|
                1 <= k < preorder(self.media@, ancestor, 0, walk_limit(-1, self.media@.len() as int)).len()
                    && (#[trigger] preorder(self.media@, ancestor, 0, walk_limit(-1, self.media@.len() as int))[k]).uuid
                    == descendant),
    {
        if ancestor == descendant {
            return true;
        }
        let items = self.iter_node(ancestor, -1);
        let mut i: usize = 1;
        while i < items.len()
            invariant
                1 <= i,
                items@ == preorder(self.media@, ancestor, 0, walk_limit(-1, self.media@.len() as int)),
                forall|k: int| 1 <= k < i && k < items@.len() ==> (#[trigger] items@[k]).uuid != descendant,
            decreases items@.len() - i,
        {
            if items[i].uuid == descendant {
                return true;
            }
            i = i + 1;
        }
        false
    }
}


/// The uuids a search from `start` can meet: `start` and every input.
pub open spec fn search_space(media: Seq<NodeKind>, start: u128) -> Seq<u128> {
    seq![start] + all_inputs(media)
}

/// Whether some layer has the given source.
pub open spec fn has_layer_source(ls: Seq<Layer>, src: u128) -> bool {
    exists|i: int| 0 <= i < ls.len() && (#[trigger] ls[i]).source_uuid == src
}

/// Whether `target` can be reached from `start` along inputs: a
/// breadth-first search over the pool.
pub fn reaches(media: &[NodeKind], start: u128, target: u128) -> (r: bool)
    ensures
        r == reachable(media@, start, target),
{
    if start == target {
        proof {
            let p = seq![start];
            assert(is_path(media@, p));
            assert(p[0] == start && p.last() == target);
        }
        return true;
    }
    let ghost space = search_space(media@, start);
    let mut visited: Vec<u128> = Vec::new();
    visited.push(start);
    proof {
        let p = seq![start];
        assert(is_path(media@, p));
        assert(p[0] == start && p.last() == start);
        assert(space[0] == start);
        assert(reachable(media@, start, visited@[0]));
    }
    let mut i: usize = 0;
    while i < visited.len()
        invariant
            start != target,
            space == search_space(media@, start),
            visited@.len() >= 1,
            visited@[0] == start,
            i <= visited@.len(),
            forall|k: int| 0 <= k < visited@.len() ==> space.contains(#[trigger] visited@[k]),
            forall|k: int| 0 <= k < visited@.len() ==> reachable(media@, start, #[trigger] visited@[k]),
            forall|k: int, c: u128| 0 <= k < i && #[trigger] children(media@, visited@[k]).contains(c) ==> #[trigger] visited@.contains(c),
            !visited@.contains(target),
        decreases count_missing(space, visited@), visited@.len() - i,
    {
        let cur = visited[i];
        let ch = children_in(media, cur);
        let ghost vis0 = visited@;
        let mut j: usize = 0;
        while j < ch.len()
            invariant
                start != target,
                space == search_space(media@, start),
                ch@ == children(media@, cur),
                cur == visited@[i as int],
                i < visited@.len(),
                visited@.len() >= vis0.len(),
                forall|k: int| 0 <= k < vis0.len() ==> visited@[k] == vis0[k],
                visited@[0] == start,
                j <= ch@.len(),
                reachable(media@, start, cur),
                forall|k: int| 0 <= k < visited@.len() ==> space.contains(#[trigger] visited@[k]),
                forall|k: int| 0 <= k < visited@.len() ==> reachable(media@, start, #[trigger] visited@[k]),
                forall|k: int, c: u128| 0 <= k < i && #[trigger] children(media@, visited@[k]).contains(c) ==> #[trigger] visited@.contains(c),
                forall|m: int| 0 <= m < j ==> visited@.contains(#[trigger] ch@[m]),
                !visited@.contains(target),
                count_missing(space, visited@) <= count_missing(space, vis0),
                visited@.len() > vis0.len() ==> count_missing(space, visited@) < count_missing(space, vis0),
            decreases ch@.len() - j,
        {
            let c = ch[j];
            proof {
                assert(children(media@, cur).contains(c)) by {
                    assert(ch@[j as int] == c);
                }
                let p = choose|p: Seq<u128>| is_path(media@, p) && p[0] == start && p.last() == cur;
                let q = p.push(c);
                assert(is_path(media@, q)) by {
                    assert forall|k: int| 0 <= k < q.len() - 1 implies children(media@, #[trigger] q[k]).contains(q[k + 1]) by {
                        if k < p.len() - 1 {
                            assert(q[k] == p[k] && q[k + 1] == p[k + 1]);
                        } else {
                            assert(q[k] == cur && q[k + 1] == c);
                        }
                    }
                }
                assert(q[0] == start && q.last() == c);
                assert(reachable(media@, start, c));
            }
            if c == target {
                return true;
            }
            let seen = crate::ids::contains_id(visited.as_slice(), c);
            if !seen {
                let ghost before = visited@;
                proof {
                    lemma_children_in_all_inputs(media@, cur, c);
                    let a = all_inputs(media@);
                    let m = choose|m: int| 0 <= m < a.len() && a[m] == c;
                    assert(space[m + 1] == c);
                    lemma_count_missing(space, before, c);
                }
                visited.push(c);
                proof {
                    assert(visited@[before.len() as int] == c);
                    assert forall|k: int, d: u128| 0 <= k < i && #[trigger] children(media@, visited@[k]).contains(d) implies #[trigger] visited@.contains(d) by {
                        assert(visited@[k] == before[k]);
                        assert(before.contains(d));
                        let w = choose|w: int| 0 <= w < before.len() && before[w] == d;
                        assert(visited@[w] == d);
                    }
                    assert forall|m: int| 0 <= m < j + 1 implies visited@.contains(#[trigger] ch@[m]) by {
                        if m < j {
                            let w = choose|w: int| 0 <= w < before.len() && before[w] == ch@[m];
                            assert(visited@[w] == ch@[m]);
                        }
                    }
                    assert(!visited@.contains(target)) by {
                        if visited@.contains(target) {
                            let w = choose|w: int| 0 <= w < visited@.len() && visited@[w] == target;
                            if w < before.len() {
                                assert(before[w] == target);
                            }
                        }
                    }
                }
            }
            j = j + 1;
        }
        proof {
            assert forall|k: int, d: u128| 0 <= k < i + 1 && #[trigger] children(media@, visited@[k]).contains(d) implies #[trigger] visited@.contains(d) by {
                if k == i {
                    let m = choose|m: int| 0 <= m < ch@.len() && ch@[m] == d;
                    assert(visited@.contains(ch@[m]));
                }
            }
        }
        i = i + 1;
    }
    proof {
        assert forall|v: u128, d: u128| visited@.contains(v) && #[trigger] children(media@, v).contains(d) implies #[trigger] visited@.contains(d) by {
            let k = choose|k: int| 0 <= k < visited@.len() && visited@[k] == v;
            assert(children(media@, visited@[k]).contains(d));
        }
        if reachable(media@, start, target) {
            let p = choose|p: Seq<u128>| is_path(media@, p) && p[0] == start && p.last() == target;
            assert(visited@.contains(p[0])) by {
                assert(visited@[0] == p[0]);
            }
            lemma_closed_holds_path(media@, visited@, p, p.len() - 1);
        }
    }
    false
}

impl CompNode {
    /// Whether adding a layer with source `potential_child` to this comp
    /// would collide: the child is the comp itself; or, without `hier`, a
    /// layer already has that source; or, with `hier`, the comp can be
    /// reached from the child along the pool's inputs (a cycle).
    pub fn check_collisions(&self, potential_child: u128, media: &[NodeKind], hier: bool) -> (r: bool)
        ensures
            r == (potential_child == self.uuid || (!hier && has_layer_source(self.layers@, potential_child)) || (hier
                && reachable(media@, potential_child, self.uuid))),
    {
        if potential_child == self.uuid {
            return true;
        }
        if !hier {
            let mut i: usize = 0;
            while i < self.layers.len()
                invariant
                    !hier,
                    potential_child != self.uuid,
                    i <= self.layers@.len(),
                    forall|k: int| 0 <= k < i ==> (#[trigger] self.layers@[k]).source_uuid != potential_child,
                decreases self.layers@.len() - i,
            {
                if self.layers[i].source_uuid == potential_child {
                    proof {
                        assert(self.layers@[i as int].source_uuid == potential_child);
                    }
                    return true;
                }
                i = i + 1;
            }
            return false;
        }
        reaches(media, potential_child, self.uuid)
    }
}

/// After deleting a node nothing refers to it: it is out of the pool,
/// no layer has it as source, and it is neither listed nor selected.
pub proof fn law_del_node_removes_references(old: Project, new: Project, u: u128)
    requires
        spec_del_node(old, new, u),
    ensures
        !has_node(new.media@, u),
        forall|i: int| 0 <= i < new.media@.len() ==> !(#[trigger] new.media@[i]).spec_inputs().contains(u),
        !new.comps_order@.contains(u),
        !new.selection@.contains(u),
{
    let kept = kept_positions(old.media@, u);
    lemma_kept_positions(old.media@, u);
    lemma_node_index(new.media@, u);
    assert forall|i: int| 0 <= i < new.media@.len() implies (#[trigger] new.media@[i]).spec_uuid() != u
        && !new.media@[i].spec_inputs().contains(u) by {
        let a = old.media@[kept[i]];
        assert(stripped(a, new.media@[i], u));
        match a {
            NodeKind::Comp(c) => {
                let d = new.media@[i]->Comp_0;
                lemma_layers_without(c.layers@, u);
                let srcs = d.layers@.map_values(|l: Layer| l.source_uuid);
                if srcs.contains(u) {
                    let m = choose|m: int| 0 <= m < srcs.len() && #[trigger] srcs[m] == u;
                    assert(d.layers@[m].source_uuid == u);
                }
            },
            NodeKind::File(_) => {},
        }
    }
    lemma_ids_without(old.comps_order@, u);
    lemma_ids_without(old.selection@, u);
}

/// Putting a node into a pool with one node per uuid keeps one node per uuid.
pub proof fn law_update_node_keeps_unique(media: Seq<NodeKind>, node: NodeKind)
    requires
        unique_uuids(media),
    ensures
        unique_uuids(
            if node_index(media, node.spec_uuid()) >= 0 {
                media.update(node_index(media, node.spec_uuid()), node)
            } else {
                media.push(node)
            },
        ),
{
    lemma_node_index(media, node.spec_uuid());
    let k = node_index(media, node.spec_uuid());
    let m2 = if k >= 0 { media.update(k, node) } else { media.push(node) };
    assert forall|i: int, j: int| 0 <= i < j < m2.len() implies (#[trigger] m2[i]).spec_uuid() != (#[trigger] m2[j]).spec_uuid() by {
        if k >= 0 {
            if i == k {
                assert(media[j].spec_uuid() != media[k].spec_uuid());
            } else if j == k {
                assert(media[i].spec_uuid() != media[k].spec_uuid());
            } else {
                assert(m2[i] == media[i] && m2[j] == media[j]);
            }
        } else {
            if j == media.len() {
                assert(media[i].spec_uuid() != node.spec_uuid());
            } else {
                assert(m2[i] == media[i] && m2[j] == media[j]);
            }
        }
    }
}

/// Deleting a node from a pool with one node per uuid keeps one node per uuid.
pub proof fn law_del_node_keeps_unique(old: Project, new: Project, u: u128)
    requires
        spec_del_node(old, new, u),
        unique_uuids(old.media@),
    ensures
        unique_uuids(new.media@),
{
    let kept = kept_positions(old.media@, u);
    lemma_kept_positions(old.media@, u);
    assert forall|i: int, j: int| 0 <= i < j < new.media@.len() implies (#[trigger] new.media@[i]).spec_uuid() != (
    #[trigger] new.media@[j]).spec_uuid() by {
        assert(stripped(old.media@[kept[i]], new.media@[i], u));
        assert(stripped(old.media@[kept[j]], new.media@[j], u));
        assert(kept[i] < kept[j]);
        assert(old.media@[kept[i]].spec_uuid() != old.media@[kept[j]].spec_uuid());
        match old.media@[kept[i]] {
            NodeKind::Comp(_) => {},
            NodeKind::File(_) => {},
        }
        match old.media@[kept[j]] {
            NodeKind::Comp(_) => {},
            NodeKind::File(_) => {},
        }
    }
}

} // verus!
