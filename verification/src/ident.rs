//! Fresh identifiers for workflows and agents.

use vstd::prelude::*;

verus! {

/// A new identifier, from `uuid::Uuid::now_v7` and the `Display` of the
/// `Uuid` it returns: the text of a version 7 UUID in its hyphenated form,
/// which is 36 characters long. The identifier is made from the clock and
/// from random bits, so nothing but its length is claimed of it, and two
/// calls need not agree. The claim is taken from the source of `uuid`, not
/// proved. `now_v7` panics where the system clock stands before 1970.
#[verifier::external_body]
pub(crate) fn fresh_uuid() -> (id: String)
    ensures
        id@.len() == 36,
{
    uuid::Uuid::now_v7().to_string()
}

} // verus!
