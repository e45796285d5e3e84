pub mod bignum;
pub mod codec;
pub mod fcsr;
pub mod rsa;
pub mod tea;
pub mod transposition;

use vstd::prelude::*;

verus! {

/// Relies on String::from_iter: collecting characters keeps them in order.
#[verifier::external_body]
pub(crate) fn chars_to_string(chars: Vec<char>) -> (r: String)
    ensures
        r@ == chars@,
{
    chars.into_iter().collect()
}

} // verus!
