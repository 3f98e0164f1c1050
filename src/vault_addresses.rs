//! The vaults whose fixed share is carved out of the validators' inflation.
use vstd::prelude::*;

pub mod bar;
pub mod foo;

verus! {

/// One vault and the fixed rate deducted for it, in units of `RATE_ONE`.
#[derive(Clone, Copy, Debug)]
pub struct VaultAllocation {
    pub address: &'static str,
    pub rate: u64,
}

/// The rates of the vault table, in the order of `vault_allocations`.
pub open spec fn vault_rates() -> Seq<u64> {
    seq![10_000_000u64, 20_000_000u64]
}

/// The sum of a sequence of rates.
pub open spec fn rates_sum(s: Seq<u64>) -> nat
    decreases s.len(),
{
    if s.len() == 0 {
        0
    } else {
        (rates_sum(s.drop_last()) + s.last()) as nat
    }
}

/// The whole rate deducted for the vaults.
pub open spec fn vault_total() -> nat {
    rates_sum(vault_rates())
}

/// The vault table: each well-known vault, once, with its rate.
pub fn vault_allocations() -> (r: Vec<VaultAllocation>)
    ensures
        r@.len() == vault_rates().len(),
        forall|i: int| 0 <= i < r@.len() ==> #[trigger] r@[i].rate == vault_rates()[i],
        r@[0].address@ == foo::spec_id(),
        r@[1].address@ == bar::spec_id(),
        r@[0].address@ != r@[1].address@,
{
    proof {
        reveal_strlit("dummy11111111111111111111111111111111111111");
        reveal_strlit("dummy22222222222222222222222222222222222222");
        assert(foo::spec_id()[5] != bar::spec_id()[5]);
    }
    vec![
        VaultAllocation { address: foo::id(), rate: 10_000_000 },
        VaultAllocation { address: bar::id(), rate: 20_000_000 },
    ]
}

/// The rates of the vault table add up to three percent.
pub proof fn lemma_vault_total()
    ensures
        vault_total() == 30_000_000,
{
    reveal_with_fuel(rates_sum, 3);
    assert(vault_rates().drop_last() =~= seq![10_000_000u64]);
    assert(vault_rates().drop_last().drop_last() =~= Seq::<u64>::empty());
}

} // verus!
