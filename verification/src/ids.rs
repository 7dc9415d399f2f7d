//! Where the engine's own ids come from.

use vstd::prelude::*;

verus! {

/// The bits of an id that tell a UUID's version and variant.
pub const UUID_FORM_MASK: u128 = 0x0000_0000_0000_f000_c000_0000_0000_0000;

/// The version and variant bits of a random UUID: version 4, variant 1.
pub const UUID_RANDOM_FORM: u128 = 0x0000_0000_0000_4000_8000_0000_0000_0000;

/// Whether `id` is the value of a random UUID: its version is 4 and its
/// variant is 1.
pub open spec fn is_random_uuid(id: u128) -> bool {
    id & UUID_FORM_MASK == UUID_RANDOM_FORM
}

/// Draws a fresh id: the value of `uuid::Uuid::new_v4()` as given by
/// `Uuid::as_u128`.
///
/// Trusted, not proved: the id is drawn from the operating system's random
/// source, so nothing is claimed of it but the version and variant bits that
/// `new_v4` sets on every id it returns. It is not claimed to differ from any
/// id drawn before; callers test that. The call panics if the operating
/// system cannot supply random bytes.
#[verifier::external_body]
pub(crate) fn fresh_id() -> (id: u128)
    ensures
        is_random_uuid(id),
{
    uuid::Uuid::new_v4().as_u128()
}

} // verus!
