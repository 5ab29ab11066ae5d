//! Views of the market state that do not depend on what the state holds.

use vstd::prelude::*;

verus! {

/// `s` without its entry at position `i` (unchanged when `i` is out of
/// range): the rivals' entries, seen from firm `i`.
pub open spec fn without_index<T>(s: Seq<T>, i: int) -> Seq<T> {
    if 0 <= i < s.len() {
        s.take(i) + s.skip(i + 1)
    } else {
        s
    }
}

/// The prices of firm `i`'s rivals, in firm order.
pub fn rival_prices<T: Copy>(prices: &Vec<T>, i: usize) -> (r: Vec<T>)
    ensures
        r@ == without_index(prices@, i as int),
        i < prices@.len() ==> r@.len() == prices@.len() - 1,
        forall|k: int| 0 <= k < i && k < r@.len() ==> r@[k] == prices@[k],
        i < prices@.len() ==> forall|k: int| i <= k < r@.len() ==> r@[k] == prices@[k + 1],
{
    proof {
        lemma_rivals_are_the_others(prices@, i as int);
    }
    let mut r: Vec<T> = Vec::new();
    let mut j: usize = 0;
    while j < prices.len()
        invariant
            0 <= j <= prices@.len(),
            r@ == without_index(prices@.take(j as int), i as int),
        decreases prices@.len() - j,
    {
        let ghost before = prices@.take(j as int);
        assert(prices@.take(j + 1) =~= before.push(prices@[j as int]));
        if j != i {
            r.push(prices[j]);
            proof {
                if i < j {
                    assert(before.push(prices@[j as int]).take(i as int) =~= before.take(i as int));
                    assert(before.push(prices@[j as int]).skip(i + 1) =~= before.skip(i + 1).push(
                        prices@[j as int],
                    ));
                }
            }
        } else {
            assert(before.push(prices@[j as int]).take(i as int) =~= before);
            assert(before.push(prices@[j as int]).skip(i + 1) =~= Seq::<T>::empty());
        }
        j += 1;
    }
    assert(prices@.take(prices@.len() as int) =~= prices@);
    r
}

/// Firm `i`'s rivals are all the other firms, in firm order: one entry
/// fewer than there are firms, the firms before `i` in their places, and
/// the firms after `i` moved up by one; so firm `i`'s own entry is left out
/// for every firm, the last one included.
pub proof fn lemma_rivals_are_the_others<T>(s: Seq<T>, i: int)
    ensures
        0 <= i < s.len() ==> without_index(s, i).len() == s.len() - 1,
        0 <= i < s.len() ==> forall|k: int| 0 <= k < i ==> #[trigger] without_index(s, i)[k] == s[k],
        0 <= i < s.len() ==> forall|k: int|
            i <= k < s.len() - 1 ==> #[trigger] without_index(s, i)[k] == s[k + 1],
        !(0 <= i < s.len()) ==> without_index(s, i) == s,
{
}

/// The round that the clock's tick `t` belongs to: the engine ticks at the
/// start of each step, so its clock runs over `1..=max_rounds` while rounds
/// are numbered from 0.
pub open spec fn round_of_tick(t: nat) -> nat {
    if t > 0 {
        (t - 1) as nat
    } else {
        0
    }
}

/// The current round (from 0) at clock tick `t`.
pub fn current_round(t: u64) -> (r: u64)
    ensures
        r == round_of_tick(t as nat),
{
    t.saturating_sub(1)
}

/// Whether round `round` carries a reflection: every `period` rounds after
/// the first (never when `period` is 0).
pub open spec fn reflection_due_spec(round: nat, period: nat) -> bool {
    period > 0 && round > 0 && round % period == 0
}

/// Whether this round's pricing prompt carries a reflection.
pub fn reflection_due(round: u64, period: usize) -> (r: bool)
    ensures
        r == reflection_due_spec(round as nat, period as nat),
{
    period > 0 && round > 0 && round % (period as u64) == 0
}

/// The marginal costs of `n_firms` firms: firm 0 has `c1`, every other firm
/// `c2`.
pub fn firm_costs<T: Copy>(n_firms: usize, c1: T, c2: T) -> (r: Vec<T>)
    ensures
        r@.len() == n_firms,
        n_firms > 0 ==> r@[0] == c1,
        forall|i: int| 0 < i < n_firms ==> r@[i] == c2,
{
    let mut r: Vec<T> = Vec::new();
    let mut i: usize = 0;
    while i < n_firms
        invariant
            0 <= i <= n_firms,
            r@.len() == i,
            i > 0 ==> r@[0] == c1,
            forall|k: int| 0 < k < i ==> r@[k] == c2,
        decreases n_firms - i,
    {
        if i == 0 {
            r.push(c1);
        } else {
            r.push(c2);
        }
        i += 1;
    }
    r
}

/// Reflections come exactly on the multiples of the period: between two
/// reflection rounds lie `period - 1` rounds without one.
pub proof fn lemma_reflection_every_period(round: nat, period: nat)
    requires
        period > 0,
        reflection_due_spec(round, period),
    ensures
        reflection_due_spec(round + period, period),
        forall|k: nat| 0 < k < period ==> !#[trigger] reflection_due_spec(round + k, period),
{
    assert((round + period) % period == round % period) by (nonlinear_arith)
        requires
            period > 0,
    {
    }
    assert forall|k: nat| 0 < k < period implies !#[trigger] reflection_due_spec(
        round + k,
        period,
    ) by {
        assert((round + k) % period == k) by (nonlinear_arith)
            requires
                period > 0,
                round % period == 0,
                0 < k < period,
        {
        }
    }
}

} // verus!
