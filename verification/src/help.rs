//! Entries of the context help: a key binding and what it does.

use vstd::prelude::*;

verus! {

/// Single help entry (key binding and description).
#[derive(Clone, Copy, Debug)]
pub struct HelpEntry {
    pub key: &'static str,
    pub desc: &'static str,
}

impl HelpEntry {
    pub fn new(key: &'static str, desc: &'static str) -> (r: Self)
        ensures
            r.key@ == key@,
            r.desc@ == desc@,
    {
        HelpEntry { key, desc }
    }
}

} // verus!
