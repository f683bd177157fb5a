//! Putting a source node into a composition as a new layer.

use vstd::prelude::*;
use crate::comp::{fits, max_int, CompError, CompNode, Layer};
use crate::node::NodeKind;
use crate::project::{children, has_node, lemma_node_index, node_index, spec_gen_name, Project};

verus! {

/// The frames a node plays: its work area.
pub open spec fn play_range_of(n: NodeKind) -> (int, int) {
    match n {
        NodeKind::File(f) => f.spec_work_area(),
        NodeKind::Comp(c) => c.spec_work_area(),
    }
}

/// The size a node is shown at, each side at least 1.
pub open spec fn dim_of(n: NodeKind) -> (usize, usize) {
    match n {
        NodeKind::File(f) => (max_int(f.width as int, 1) as usize, max_int(f.height as int, 1) as usize),
        NodeKind::Comp(c) => (max_int(c.width as int, 1) as usize, max_int(c.height as int, 1) as usize),
    }
}

/// Length, size and name of a new layer for `src`: its play range (at
/// least one frame), its size and a fresh name derived from its name; for a
/// source that is not in the pool one frame, 64x64 and `layer_1`.
pub open spec fn new_layer_info(media: Seq<NodeKind>, src: u128) -> (int, (usize, usize), Seq<char>) {
    if has_node(media, src) {
        let s = media[node_index(media, src)];
        let (a, b) = play_range_of(s);
        (max_int(b - a + 1, 1), dim_of(s), spec_gen_name(media, s.spec_name()))
    } else {
        (1, (64usize, 64usize), "layer_1"@)
    }
}

/// Why a layer for `src` cannot be added to `comp` at `start`, if it cannot:
/// no node `comp`; `comp` is a file node; positions of the source, of the
/// composition or of the new layer's last frame out of `i32`.
pub open spec fn add_layer_error(media: Seq<NodeKind>, comp: u128, src: u128, start: i32) -> Option<CompError> {
    if !has_node(media, comp) {
        Some(CompError::NodeNotFound)
    } else if media[node_index(media, comp)] is File {
        Some(CompError::NotAComposition)
    } else if has_node(media, src) && !media[node_index(media, src)].wf() {
        Some(CompError::OutOfRange)
    } else if !fits(new_layer_info(media, src).0) || !media[node_index(media, comp)].wf()
        || !fits(start + new_layer_info(media, src).0 - 1) {
        Some(CompError::OutOfRange)
    } else {
        None
    }
}

/// `new` is `old` after `add_layer(comp, src, start, insert_idx)` returned
/// `r`: on an error (see `add_layer_error`) nothing changed; otherwise
/// composition `comp` holds a new layer `r` for `src` (see
/// `CompNode::spec_added_child`, with `new_layer_info`), in its own slot of
/// the pool, and nothing else changed.
pub open spec fn spec_add_layer(
    old: Project,
    new: Project,
    comp: u128,
    src: u128,
    start: i32,
    insert_idx: Option<usize>,
    r: Result<u128, CompError>,
) -> bool {
    match add_layer_error(old.media@, comp, src, start) {
        Some(e) => r == Err::<u128, CompError>(e) && new == old,
        None => r is Ok && ({
            let k = node_index(old.media@, comp);
            let info = new_layer_info(old.media@, src);
            &&& new.media@.len() == old.media@.len()
            &&& new.media@ == old.media@.update(k, new.media@[k])
            &&& new.media@[k] is Comp
            &&& new.media@[k].spec_uuid() == comp
            &&& CompNode::spec_added_child(
                old.media@[k]->Comp_0,
                new.media@[k]->Comp_0,
                r->Ok_0,
                src,
                info.2,
                start,
                info.0 as i32,
                insert_idx,
                info.1,
            )
            &&& new == (Project { media: new.media, ..old })
        }),
    }
}

/// Node lookup is unchanged when a node is replaced by one with its uuid.
proof fn lemma_node_index_same_uuid(media: Seq<NodeKind>, k: int, n: NodeKind, u: u128)
    requires
        0 <= k < media.len(),
        n.spec_uuid() == media[k].spec_uuid(),
    ensures
        node_index(media.update(k, n), u) == node_index(media, u),
    decreases media.len(),
{
    let m2 = media.update(k, n);
    if k < media.len() - 1 {
        lemma_node_index_same_uuid(media.drop_last(), k, n, u);
        assert(m2.drop_last() =~= media.drop_last().update(k, n));
    } else {
        assert(m2.drop_last() =~= media.drop_last());
    }
}

/// Adding a layer links its source: after a successful `add_layer` the
/// source is among the composition's inputs (after the inputs it had), and
/// every other node's inputs are as they were.
pub proof fn law_add_layer_links_source(
    old: Project,
    new: Project,
    comp: u128,
    src: u128,
    start: i32,
    insert_idx: Option<usize>,
    r: Result<u128, CompError>,
    u: u128,
)
    requires
        spec_add_layer(old, new, comp, src, start, insert_idx, r),
        r is Ok,
    ensures
        children(new.media@, comp).contains(src),
        children(new.media@, comp).len() == children(old.media@, comp).len() + 1,
        u != comp ==> children(new.media@, u) == children(old.media@, u),
{
    let k = node_index(old.media@, comp);
    lemma_node_index(old.media@, comp);
    lemma_node_index_same_uuid(old.media@, k, new.media@[k], u);
    lemma_node_index_same_uuid(old.media@, k, new.media@[k], comp);
    let c0 = old.media@[k]->Comp_0;
    let c1 = new.media@[k]->Comp_0;
    let n = c0.layers@.len() as int;
    let at = match insert_idx {
        Some(idx) => if idx <= n { idx as int } else { n },
        None => n,
    };
    assert(c1.layers@.map_values(|l: Layer| l.source_uuid)[at] == src);
    if u != comp {
        lemma_node_index(old.media@, u);
        let j = node_index(old.media@, u);
        if j >= 0 {
            assert(j != k);
        }
    }
}

impl Project {
    /// Add a layer for `source_uuid` to composition `comp_uuid`, starting
    /// at `start_frame`, at `insert_idx` (on top when `None`): it lasts the
    /// source's play range, has the source's size and a fresh name (see
    /// `new_layer_info`). Returns the new layer's uuid; on an error (see
    /// `add_layer_error`) the project is unchanged.
    pub fn add_layer(&mut self, comp_uuid: u128, source_uuid: u128, start_frame: i32, insert_idx: Option<usize>) -> (r:
        Result<u128, CompError>)
        ensures
            spec_add_layer(*old(self), *final(self), comp_uuid, source_uuid, start_frame, insert_idx, r),
            old(self).wf() ==> final(self).wf(),
    {
        let ghost media0 = self.media@;
        let k = match self.node_position(comp_uuid) {
            Some(k) => k,
            None => return Err(CompError::NodeNotFound),
        };
        if self.media[k].is_file() {
            return Err(CompError::NotAComposition);
        }
        let (duration, dim, name): (i32, (usize, usize), String) = match self.get_node(source_uuid) {
            Some(s) => {
                if !s.positions_fit() {
                    return Err(CompError::OutOfRange);
                }
                let (a, b) = s.play_range(true);
                let len: i64 = b as i64 - a as i64 + 1;
                let len: i64 = if len < 1 { 1 } else { len };
                if len > i32::MAX as i64 {
                    return Err(CompError::OutOfRange);
                }
                (len as i32, s.dim(), self.gen_name(s.name()))
            },
            None => {
                let mut n = String::new();
                crate::strs::push_str(&mut n, "layer_1");
                proof {
                    assert(n@ =~= "layer_1"@);
                }
                (1, (64, 64), n)
            },
        };
        if !self.media[k].positions_fit() {
            return Err(CompError::OutOfRange);
        }
        if start_frame as i64 + duration as i64 - 1 > i32::MAX as i64 || start_frame as i64 + duration as i64 - 1
            < i32::MIN as i64 {
            return Err(CompError::OutOfRange);
        }
        proof {
            let info = new_layer_info(media0, source_uuid);
            assert(name@ == info.2);
            assert(dim == info.1);
            assert(duration == info.0);
        }
        let r = self.media[k].add_child_layer(source_uuid, name.as_str(), start_frame, duration, insert_idx, dim);
        proof {
            lemma_node_index(media0, comp_uuid);
            assert(self.media@ =~= media0.update(k as int, self.media@[k as int]));
            assert forall|i: int, j: int|
                0 <= i < j < self.media@.len() && media0[i].spec_uuid() != media0[j].spec_uuid()
                    implies #[trigger] self.media@[i].spec_uuid() != #[trigger] self.media@[j].spec_uuid() by {
                assert(i != k ==> self.media@[i] == media0[i]);
                assert(j != k ==> self.media@[j] == media0[j]);
            }
        }
        r
    }
}

} // verus!
