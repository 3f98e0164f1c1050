use vstd::prelude::*;

verus! {

/// The base58 identifier of the first vault.
pub open spec fn spec_id() -> Seq<char> {
    "dummy11111111111111111111111111111111111111"@
}

/// The identifier of the first vault.
pub fn id() -> (r: &'static str)
    ensures
        r@ == spec_id(),
{
    "dummy11111111111111111111111111111111111111"
}

} // verus!
