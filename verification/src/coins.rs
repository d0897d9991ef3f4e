//! Greedy coin change over a fixed set of denominations.

use vstd::prelude::*;

verus! {

/// The fixed coin denominations, largest first.
pub open spec fn coin_denominations() -> Seq<u32> {
    seq![100u32, 50u32, 30u32, 20u32, 10u32, 5u32, 2u32, 1u32]
}

/// Number of coins the greedy strategy pays for `amount`, starting at
/// denomination index `i`: it takes as many coins of each denomination as
/// possible before moving to the next smaller one.
pub open spec fn greedy_coin_count(amount: nat, i: nat) -> nat
    decreases coin_denominations().len() - i,
{
    if i >= coin_denominations().len() {
        0
    } else {
        let c = coin_denominations()[i as int] as nat;
        amount / c + greedy_coin_count(amount % c, i + 1)
    }
}

/// Number of coins that greedy selection over the denominations
/// {100, 50, 30, 20, 10, 5, 2, 1} uses to pay `amount` exactly.
pub fn dp_rec_mc(amount: u32) -> (count: u32)
    ensures
        count == greedy_coin_count(amount as nat, 0),
{
    let coins: [u32; 8] = [100, 50, 30, 20, 10, 5, 2, 1];
    let mut remaining: u32 = amount;
    let mut count: u32 = 0;

    assert(coins@ =~= coin_denominations());

    for i in 0..8
        invariant
            coins@ =~= coin_denominations(),
            count + remaining <= amount,
            count + greedy_coin_count(remaining as nat, i as nat)
                == greedy_coin_count(amount as nat, 0),
    {
        let c = coins[i];
        assert(c == coin_denominations()[i as int]);
        assert(c >= 1);
        assert(remaining as int / c as int + remaining as int % c as int <= remaining as int)
            by (nonlinear_arith)
            requires 1 <= c as int;
        count = count + remaining / c;
        remaining = remaining % c;
    }
    assert(greedy_coin_count(remaining as nat, 8) == 0);
    count
}

} // verus!
