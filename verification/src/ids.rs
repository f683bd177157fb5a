//! Fresh identifiers for layers and nodes.

use vstd::prelude::*;

verus! {

/// Calls `uuid::Uuid::new_v4` and returns its 128-bit value. The value is
/// random; the crate masks in the version and variant bits
/// (`0x4000_8000_0000_0000_0000`), so it is never the nil (zero) value.
#[verifier::external_body]
pub(crate) fn new_uuid() -> (r: u128)
    ensures
        r != 0,
{
    uuid::Uuid::new_v4().as_u128()
}

} // verus!

verus! {

/// Whether an identifier occurs in a list.
pub fn contains_id(v: &[u128], x: u128) -> (r: bool)
    ensures
        r == v@.contains(x),
{
    let mut i: usize = 0;
    while i < v.len()
        invariant
            i <= v@.len(),
            forall|j: int| 0 <= j < i ==> v@[j] != x,
        decreases v@.len() - i,
    {
        if v[i] == x {
            proof {
                assert(v@[i as int] == x);
            }
            return true;
        }
        i = i + 1;
    }
    false
}

} // verus!
