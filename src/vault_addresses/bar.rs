use vstd::prelude::*;

verus! {

/// The base58 identifier of the second vault.
pub open spec fn spec_id() -> Seq<char> {
    "dummy22222222222222222222222222222222222222"@
}

/// The identifier of the second vault.
pub fn id() -> (r: &'static str)
    ensures
        r@ == spec_id(),
{
    "dummy22222222222222222222222222222222222222"
}

} // verus!
