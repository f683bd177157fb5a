//! Decisions the application takes on selection and playhead events: where
//! a shift-click range starts (the selection anchor) and when moving the
//! playhead is a jump that makes earlier preload work stale.

use vstd::prelude::*;
use crate::project::Project;

verus! {

/// Position of the first occurrence of `u` in `s`, or -1.
pub open spec fn first_index(s: Seq<u128>, u: u128) -> int
    decreases s.len(),
{
    if s.len() == 0 {
        -1
    } else if s[0] == u {
        0
    } else {
        let k = first_index(s.drop_first(), u);
        if k < 0 { -1 } else { k + 1 }
    }
}

/// `first_index` as an optional position.
pub open spec fn position_spec(s: Seq<u128>, u: u128) -> Option<usize> {
    if first_index(s, u) >= 0 { Some(first_index(s, u) as usize) } else { None }
}

proof fn lemma_first_index(s: Seq<u128>, u: u128)
    ensures
        -1 <= first_index(s, u) < s.len(),
        first_index(s, u) >= 0 ==> s[first_index(s, u)] == u,
        forall|j: int| 0 <= j < s.len() && (first_index(s, u) < 0 || j < first_index(s, u)) ==> #[trigger] s[j] != u,
    decreases s.len(),
{
    if s.len() > 0 && s[0] != u {
        lemma_first_index(s.drop_first(), u);
        assert forall|j: int| 1 <= j < s.len() implies s[j] == s.drop_first()[j - 1] by {}
    }
}

/// Position of `u` in `v`.
pub fn position_of_id(v: &[u128], u: u128) -> (r: Option<usize>)
    ensures
        r == position_spec(v@, u),
{
    proof {
        lemma_first_index(v@, u);
    }
    let mut i: usize = 0;
    while i < v.len()
        invariant
            i <= v@.len(),
            forall|j: int| 0 <= j < i ==> #[trigger] v@[j] != u,
            -1 <= first_index(v@, u) < v@.len(),
            first_index(v@, u) >= 0 ==> v@[first_index(v@, u)] == u,
            forall|j: int| 0 <= j < v@.len() && (first_index(v@, u) < 0 || j < first_index(v@, u)) ==> #[trigger] v@[j] != u,
        decreases v@.len() - i,
    {
        if v[i] == u {
            return Some(i);
        }
        i = i + 1;
    }
    None
}

/// The anchor a new selection gets: the one given, else the position in
/// the media list of the last selected item.
pub open spec fn selection_anchor_for(order: Seq<u128>, sel: Seq<u128>, anchor: Option<usize>) -> Option<usize> {
    match anchor {
        Some(a) => Some(a),
        None => if sel.len() > 0 { position_spec(order, sel.last()) } else { None },
    }
}

impl Project {
    /// Replace the selection; the shift-click anchor is the given one, else
    /// the last selected item's position in the media list.
    pub fn set_selection_anchored(&mut self, selection: Vec<u128>, anchor: Option<usize>)
        ensures
            final(self).selection@ == selection@,
            final(self).selection_anchor == selection_anchor_for(old(self).comps_order@, selection@, anchor),
            *final(self) == (Project {
                selection: final(self).selection,
                selection_anchor: final(self).selection_anchor,
                ..*old(self)
            }),
    {
        let a = match anchor {
            Some(a) => Some(a),
            None => {
                let n = selection.len();
                if n > 0 {
                    position_of_id(self.comps_order.as_slice(), selection[n - 1])
                } else {
                    None
                }
            },
        };
        self.selection = selection;
        self.selection_anchor = a;
    }

    /// Put the shift-click anchor on an item: its position in the media
    /// list, none when it is not listed.
    pub fn anchor_on(&mut self, uuid: u128)
        ensures
            final(self).selection_anchor == position_spec(old(self).comps_order@, uuid),
            *final(self) == (Project { selection_anchor: final(self).selection_anchor, ..*old(self) }),
    {
        self.selection_anchor = position_of_id(self.comps_order.as_slice(), uuid);
    }
}

/// Moving the playhead from `old_frame` to `new_frame` is a jump (scrub or
/// seek, not playback): more than one frame away. A jump starts a new
/// preload epoch, so work queued for the old position is dropped.
pub fn is_jump(old_frame: i32, new_frame: i32) -> (r: bool)
    ensures
        r == (new_frame - old_frame > 1 || old_frame - new_frame > 1),
{
    let d: i64 = new_frame as i64 - old_frame as i64;
    d > 1 || d < -1
}

} // verus!
