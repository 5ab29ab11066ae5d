//! The bookkeeping of runs: the time budget of a run, how a run ended, the
//! names under which metrics and firms are recorded, the firms that appear
//! in a run's rows, and which model gateway answered.

use vstd::prelude::*;

use crate::world::round_of_tick;
use crate::text::{
    chars_of, contains_chars, decimal, has_infix, push_all, push_decimal, starts_with_chars,
    string_of,
};

verus! {

// ---------------------------------------------------------------------------
// Rounds and outcomes
// ---------------------------------------------------------------------------

/// The largest round number of a run of `max_rounds` rounds: the clock runs
/// over `1..=max_rounds` and rounds are numbered from 0, so this is
/// `max_rounds - 1`, and 0 for a run of no rounds.
pub fn round_budget(max_rounds: usize) -> (r: u64)
    ensures
        r == if max_rounds > 0 {
            max_rounds - 1
        } else {
            0
        },
{
    max_rounds.saturating_sub(1) as u64
}

/// How a run ended.
#[derive(Clone, Copy, Debug, PartialEq, Eq, Structural)]
pub enum RunOutcome {
    /// The stationarity test stopped the run before its budget ran out.
    Stationary,
    /// The run used all of its rounds (the run is censored).
    BudgetExhausted,
}

/// The outcome of a run whose clock ended at `final_round`, out of
/// `max_rounds` rounds: the budget is exhausted exactly when the clock
/// reached `max_rounds`.
pub open spec fn outcome_of(final_round: nat, max_rounds: nat) -> RunOutcome {
    if final_round >= max_rounds {
        RunOutcome::BudgetExhausted
    } else {
        RunOutcome::Stationary
    }
}

/// The label under which an outcome is recorded.
pub open spec fn outcome_label(o: RunOutcome) -> Seq<char> {
    match o {
        RunOutcome::Stationary => "stationary"@,
        RunOutcome::BudgetExhausted => "budget-exhausted"@,
    }
}

impl RunOutcome {
    /// The outcome of a run whose clock ended at `final_round`.
    pub fn of_run(final_round: usize, max_rounds: usize) -> (r: RunOutcome)
        ensures
            r == outcome_of(final_round as nat, max_rounds as nat),
    {
        if final_round >= max_rounds {
            RunOutcome::BudgetExhausted
        } else {
            RunOutcome::Stationary
        }
    }

    /// Whether the run was cut off by its budget.
    pub fn censored(&self) -> (r: bool)
        ensures
            r == (*self == RunOutcome::BudgetExhausted),
    {
        match self {
            RunOutcome::Stationary => false,
            RunOutcome::BudgetExhausted => true,
        }
    }

    /// The label under which this outcome is recorded.
    pub fn label(&self) -> (r: &'static str)
        ensures
            r@ == outcome_label(*self),
    {
        match self {
            RunOutcome::Stationary => "stationary",
            RunOutcome::BudgetExhausted => "budget-exhausted",
        }
    }
}

/// The round budget is the largest round number that a run can record:
/// every tick of a run of `max_rounds` rounds falls in a round at most the
/// budget, and the last tick falls exactly on it.  So a run that ends on its
/// budget (a censored run) ends on the budget round.
pub proof fn lemma_budget_is_last_round(max_rounds: nat, t: nat)
    requires
        1 <= t <= max_rounds,
    ensures
        round_of_tick(t) <= (if max_rounds > 0 { max_rounds - 1 } else { 0 }),
        t == max_rounds ==> round_of_tick(t) == max_rounds - 1,
        outcome_of(t, max_rounds) == RunOutcome::BudgetExhausted ==> round_of_tick(t) == max_rounds
            - 1,
{
}

// ---------------------------------------------------------------------------
// Names
// ---------------------------------------------------------------------------

/// The name of a metric: `<prefix>_<base>` when the run holds several
/// scenarios, `<base>` otherwise.
pub open spec fn metric_name_text(prefix: Option<Seq<char>>, base: Seq<char>) -> Seq<char> {
    match prefix {
        Some(p) => p + "_"@ + base,
        None => base,
    }
}

/// The unit id of a firm: `<prefix>-firm-<id>` or `firm-<id>`.
pub open spec fn firm_unit_text(prefix: Option<Seq<char>>, firm_id: u64) -> Seq<char> {
    match prefix {
        Some(p) => p + "-firm-"@ + decimal(firm_id as nat),
        None => "firm-"@ + decimal(firm_id as nat),
    }
}

/// The view of an optional text.
pub open spec fn opt_text(s: Option<&str>) -> Option<Seq<char>> {
    match s {
        Some(t) => Some(t@),
        None => None,
    }
}

/// The name of a metric, prefixed by the scenario when there is one.
pub fn metric_name(prefix: Option<&str>, base: &str) -> (r: String)
    ensures
        r@ == metric_name_text(opt_text(prefix), base@),
{
    let mut out: Vec<char> = Vec::new();
    if let Some(p) = prefix {
        push_all(&mut out, &chars_of(p));
        push_all(&mut out, &chars_of("_"));
    }
    push_all(&mut out, &chars_of(base));
    string_of(&out)
}

/// The unit id under which a firm's observations are recorded.
pub fn firm_unit(prefix: Option<&str>, firm_id: u64) -> (r: String)
    ensures
        r@ == firm_unit_text(opt_text(prefix), firm_id),
{
    let mut out: Vec<char> = Vec::new();
    match prefix {
        Some(p) => {
            push_all(&mut out, &chars_of(p));
            push_all(&mut out, &chars_of("-firm-"));
        },
        None => {
            push_all(&mut out, &chars_of("firm-"));
        },
    }
    push_decimal(&mut out, firm_id);
    string_of(&out)
}

proof fn lemma_tails_equal(h: Seq<char>, x: Seq<char>, y: Seq<char>)
    requires
        h + x == h + y,
    ensures
        x == y,
{
    assert((h + x).skip(h.len() as int) =~= x);
    assert((h + y).skip(h.len() as int) =~= y);
}

/// Different firms get different unit ids, within a scenario or without
/// one.
pub proof fn lemma_firm_units_distinct(prefix: Option<Seq<char>>, a: u64, b: u64)
    requires
        a != b,
    ensures
        firm_unit_text(prefix, a) != firm_unit_text(prefix, b),
{
    let h = match prefix {
        Some(p) => p + "-firm-"@,
        None => "firm-"@,
    };
    if firm_unit_text(prefix, a) == firm_unit_text(prefix, b) {
        assert(firm_unit_text(prefix, a) == h + decimal(a as nat));
        assert(firm_unit_text(prefix, b) == h + decimal(b as nat));
        lemma_tails_equal(h, decimal(a as nat), decimal(b as nat));
        crate::text::lemma_decimal_injective(a as nat, b as nat);
    }
}

/// Different trials of a condition get different unit ids.
pub proof fn lemma_trial_units_distinct(a: nat, b: nat)
    requires
        a != b,
    ensures
        trial_unit_text(a) != trial_unit_text(b),
{
    if trial_unit_text(a) == trial_unit_text(b) {
        lemma_tails_equal("trial-"@, decimal(a), decimal(b));
        crate::text::lemma_decimal_injective(a, b);
    }
}

/// The unit id of a sweep trial: `trial-<index>`.
pub open spec fn trial_unit_text(run_idx: nat) -> Seq<char> {
    "trial-"@ + decimal(run_idx)
}

/// The unit id under which a sweep trial is recorded.
pub fn trial_unit(run_idx: usize) -> (r: String)
    ensures
        r@ == trial_unit_text(run_idx as nat),
{
    let mut out: Vec<char> = chars_of("trial-");
    push_decimal(&mut out, run_idx as u64);
    string_of(&out)
}

// ---------------------------------------------------------------------------
// Firms of a run
// ---------------------------------------------------------------------------

/// `s` is in strictly increasing order.
pub open spec fn strictly_increasing(s: Seq<u64>) -> bool {
    forall|a: int, b: int| 0 <= a < b < s.len() ==> s[a] < s[b]
}

/// The firm ids that occur in the firm-id column of a run's rows, each once,
/// in increasing order.
pub fn result_firm_ids(firm_ids: &Vec<u64>) -> (r: Vec<u64>)
    ensures
        strictly_increasing(r@),
        forall|x: u64| r@.contains(x) <==> firm_ids@.contains(x),
{
    let mut r: Vec<u64> = Vec::new();
    let mut i: usize = 0;
    while i < firm_ids.len()
        invariant
            0 <= i <= firm_ids@.len(),
            strictly_increasing(r@),
            forall|x: u64| r@.contains(x) <==> firm_ids@.take(i as int).contains(x),
        decreases firm_ids@.len() - i,
    {
        let id = firm_ids[i];
        let mut p: usize = 0;
        while p < r.len() && r[p] < id
            invariant
                0 <= p <= r@.len(),
                strictly_increasing(r@),
                forall|k: int| 0 <= k < p ==> r@[k] < id,
            decreases r@.len() - p,
        {
            p += 1;
        }
        let ghost before = r@;
        if p < r.len() && r[p] == id {
        } else {
            r.insert(p, id);
            assert forall|a: int, b: int| 0 <= a < b < r@.len() implies r@[a] < r@[b] by {
                if b < p {
                    assert(r@[a] == before[a] && r@[b] == before[b]);
                } else if b == p {
                    assert(r@[a] == before[a]);
                } else if a < p {
                    assert(r@[a] == before[a] && r@[b] == before[b - 1]);
                    assert(before[b - 1] >= id);
                } else if a == p {
                    assert(r@[b] == before[b - 1]);
                    assert(before[p as int] >= id);
                    assert(before[p as int] <= before[b - 1]);
                } else {
                    assert(r@[a] == before[a - 1] && r@[b] == before[b - 1]);
                }
            }
        }
        assert forall|x: u64| r@.contains(x) <==> firm_ids@.take(i + 1).contains(x) by {
            let t = firm_ids@.take(i as int);
            assert(firm_ids@.take(i + 1) =~= t.push(id));
            if t.push(id).contains(x) {
                let k = choose|k: int| 0 <= k < t.push(id).len() && t.push(id)[k] == x;
                if k < t.len() {
                    assert(t[k] == x);
                }
            }
            if t.contains(x) {
                let k = choose|k: int| 0 <= k < t.len() && t[k] == x;
                assert(t.push(id)[k] == x);
            }
            if x == id {
                assert(t.push(id)[t.len() as int] == id);
            }
            if r@.contains(x) && x != id {
                let k = choose|k: int| 0 <= k < r@.len() && r@[k] == x;
                if p < before.len() && before[p as int] == id {
                    assert(before.contains(x));
                } else if k < p {
                    assert(before[k] == x);
                } else {
                    assert(k != p);
                    assert(before[k - 1] == x);
                }
            }
            if before.contains(x) {
                let k = choose|k: int| 0 <= k < before.len() && before[k] == x;
                if p < before.len() && before[p as int] == id {
                    assert(r@[k] == x);
                } else if k < p {
                    assert(r@[k] == x);
                } else {
                    assert(r@[k + 1] == x);
                }
            }
            if x == id {
                if p < before.len() && before[p as int] == id {
                    assert(r@[p as int] == x);
                } else {
                    assert(r@[p as int] == x);
                }
            }
        }
        i += 1;
    }
    assert(firm_ids@.take(firm_ids@.len() as int) =~= firm_ids@);
    r
}

/// Row `k` is firm `firm`'s row of round `round`.
pub open spec fn is_row_of(firm_ids: Seq<u64>, rounds: Seq<u64>, k: int, firm: u64, round: u64) -> bool {
    firm_ids[k] == firm && rounds[k] == round
}

/// The position of firm `firm`'s row of round `round` among a run's rows,
/// given the rows' firm-id and round columns: the last such row, none when
/// there is none.
pub fn final_row_index(firm_ids: &Vec<u64>, rounds: &Vec<u64>, firm: u64, round: u64) -> (r:
    Option<usize>)
    requires
        firm_ids@.len() == rounds@.len(),
    ensures
        match r {
            Some(k) => k < firm_ids@.len() && is_row_of(firm_ids@, rounds@, k as int, firm, round)
                && forall|j: int|
                k < j < firm_ids@.len() ==> !#[trigger] is_row_of(firm_ids@, rounds@, j, firm, round),
            None => forall|j: int|
                0 <= j < firm_ids@.len() ==> !#[trigger] is_row_of(firm_ids@, rounds@, j, firm, round),
        },
{
    let mut k: usize = firm_ids.len();
    while k > 0
        invariant
            0 <= k <= firm_ids@.len(),
            firm_ids@.len() == rounds@.len(),
            forall|j: int|
                k <= j < firm_ids@.len() ==> !#[trigger] is_row_of(firm_ids@, rounds@, j, firm, round),
        decreases k,
    {
        if firm_ids[k - 1] == firm && rounds[k - 1] == round {
            return Some(k - 1);
        }
        k -= 1;
    }
    None
}

// ---------------------------------------------------------------------------
// Summaries of a condition's trials
// ---------------------------------------------------------------------------

/// The number of `true` entries of `s`.
pub open spec fn count_true(s: Seq<bool>) -> nat
    decreases s.len(),
{
    if s.len() == 0 {
        0
    } else {
        count_true(s.drop_last()) + if s.last() {
            1nat
        } else {
            0nat
        }
    }
}

/// The number of trials that stopped as stationary.
pub fn count_stationary(stationary: &Vec<bool>) -> (r: usize)
    ensures
        r == count_true(stationary@),
{
    let mut n: usize = 0;
    let mut i: usize = 0;
    while i < stationary.len()
        invariant
            0 <= i <= stationary@.len(),
            n == count_true(stationary@.take(i as int)),
            n <= i,
        decreases stationary@.len() - i,
    {
        assert(stationary@.take(i + 1).drop_last() =~= stationary@.take(i as int));
        if stationary[i] {
            n += 1;
        }
        i += 1;
    }
    assert(stationary@.take(stationary@.len() as int) =~= stationary@);
    n
}

/// Counting stationary trials adds up over runs of trials, one for each
/// stationary trial and none for the others.
pub proof fn lemma_count_true_concat(a: Seq<bool>, b: Seq<bool>)
    ensures
        count_true(a + b) == count_true(a) + count_true(b),
        count_true(seq![true]) == 1,
        count_true(seq![false]) == 0,
        count_true(a) <= a.len(),
    decreases b.len(),
{
    assert(seq![true].drop_last() =~= Seq::<bool>::empty());
    assert(seq![false].drop_last() =~= Seq::<bool>::empty());
    assert(count_true(Seq::<bool>::empty()) == 0);
    lemma_count_true_bounded(a);
    if b.len() == 0 {
        assert(a + b =~= a);
    } else {
        lemma_count_true_concat(a, b.drop_last());
        assert((a + b).drop_last() =~= a + b.drop_last());
        assert((a + b).last() == b.last());
    }
}

proof fn lemma_count_true_bounded(a: Seq<bool>)
    ensures
        count_true(a) <= a.len(),
    decreases a.len(),
{
    if a.len() > 0 {
        lemma_count_true_bounded(a.drop_last());
    }
}

/// Sums add up over concatenation, and a single value sums to itself.
pub proof fn lemma_total_concat(a: Seq<u64>, b: Seq<u64>)
    ensures
        total(a + b) == total(a) + total(b),
        forall|x: u64| #[trigger] total(seq![x]) == x,
    decreases b.len(),
{
    assert forall|x: u64| #[trigger] total(seq![x]) == x by {
        assert(seq![x].drop_last() =~= Seq::<u64>::empty());
        assert(total(Seq::<u64>::empty()) == 0);
    }
    if b.len() == 0 {
        assert(a + b =~= a);
    } else {
        lemma_total_concat(a, b.drop_last());
        assert((a + b).drop_last() =~= a + b.drop_last());
        assert((a + b).last() == b.last());
    }
}

/// The rounds at which the trials that reached stability reached it, in
/// trial order; the trials that never did are left out.
pub open spec fn reached(rs: Seq<Option<u64>>) -> Seq<u64>
    decreases rs.len(),
{
    if rs.len() == 0 {
        Seq::empty()
    } else {
        match rs.last() {
            Some(r) => reached(rs.drop_last()).push(r),
            None => reached(rs.drop_last()),
        }
    }
}

/// The number of trials in `rs` that reached stability.
pub open spec fn count_reached(rs: Seq<Option<u64>>) -> nat
    decreases rs.len(),
{
    if rs.len() == 0 {
        0
    } else {
        count_reached(rs.drop_last()) + if rs.last() is Some {
            1nat
        } else {
            0nat
        }
    }
}

/// Every trial that reached stability counts once, in trial order, equal
/// values included: the rounds of two runs of trials are those of the
/// first run followed by those of the second, a trial that reached
/// stability at round `x` contributes exactly `x`, and one that did not
/// contributes nothing.
pub proof fn lemma_reached_concat(a: Seq<Option<u64>>, b: Seq<Option<u64>>)
    ensures
        reached(a + b) == reached(a) + reached(b),
    decreases b.len(),
{
    if b.len() == 0 {
        assert(a + b =~= a);
        assert(reached(a) + reached(b) =~= reached(a));
    } else {
        lemma_reached_concat(a, b.drop_last());
        assert((a + b).drop_last() =~= a + b.drop_last());
        assert((a + b).last() == b.last());
        match b.last() {
            Some(r) => {
                assert(reached(a) + reached(b.drop_last()).push(r) =~= (reached(a) + reached(
                    b.drop_last(),
                )).push(r));
            },
            None => {},
        }
    }
}

/// One trial alone: its round when it reached stability, nothing
/// otherwise.
pub proof fn lemma_reached_single(x: Option<u64>)
    ensures
        reached(seq![x]) == match x {
            Some(r) => seq![r],
            None => Seq::<u64>::empty(),
        },
{
    assert(seq![x].drop_last() =~= Seq::<Option<u64>>::empty());
    assert(reached(Seq::<Option<u64>>::empty()) == Seq::<u64>::empty());
    assert(seq![x].last() == x);
    match x {
        Some(r) => {
            assert(Seq::<u64>::empty().push(r) =~= seq![r]);
        },
        None => {},
    }
}

/// There are as many rounds as trials that reached stability, and the
/// `k`-th of them belongs to the `k`-th such trial: trial `i`, when it
/// reached stability, is found at the position counted by the trials
/// before it that did.
pub proof fn lemma_reached_counts(rs: Seq<Option<u64>>)
    ensures
        reached(rs).len() == count_reached(rs),
        forall|i: int|
            0 <= i < rs.len() && #[trigger] rs[i] is Some ==> count_reached(rs.take(i))
                < count_reached(rs) && reached(rs)[count_reached(rs.take(i)) as int] == rs[i]->0,
    decreases rs.len(),
{
    if rs.len() > 0 {
        let p = rs.drop_last();
        lemma_reached_counts(p);
        assert forall|i: int| 0 <= i < rs.len() && #[trigger] rs[i] is Some implies count_reached(
            rs.take(i),
        ) < count_reached(rs) && reached(rs)[count_reached(rs.take(i)) as int] == rs[i]->0 by {
            if i < p.len() {
                assert(rs.take(i) =~= p.take(i));
                assert(p[i] == rs[i]);
                assert(p[i] is Some);
            } else {
                assert(rs.take(i) =~= p);
            }
        }
    }
}

/// The rounds to stability of the trials that reached it.
pub fn stable_rounds(rounds_to_stable: &Vec<Option<u64>>) -> (r: Vec<u64>)
    ensures
        r@ == reached(rounds_to_stable@),
        r@.len() == count_reached(rounds_to_stable@),
{
    proof {
        lemma_reached_counts(rounds_to_stable@);
    }
    let mut out: Vec<u64> = Vec::new();
    let mut i: usize = 0;
    while i < rounds_to_stable.len()
        invariant
            0 <= i <= rounds_to_stable@.len(),
            out@ == reached(rounds_to_stable@.take(i as int)),
        decreases rounds_to_stable@.len() - i,
    {
        assert(rounds_to_stable@.take(i + 1).drop_last() =~= rounds_to_stable@.take(i as int));
        if let Some(r) = rounds_to_stable[i] {
            out.push(r);
        }
        i += 1;
    }
    assert(rounds_to_stable@.take(rounds_to_stable@.len() as int) =~= rounds_to_stable@);
    out
}

/// The sum of `s`.
pub open spec fn total(s: Seq<u64>) -> nat
    decreases s.len(),
{
    if s.len() == 0 {
        0
    } else {
        total(s.drop_last()) + s.last() as nat
    }
}

proof fn lemma_total_bound(s: Seq<u64>)
    ensures
        total(s) <= s.len() * 0xffff_ffff_ffff_ffff,
    decreases s.len(),
{
    if s.len() > 0 {
        lemma_total_bound(s.drop_last());
    }
}

/// The sum of `values`, without overflow.
pub fn sum_rounds(values: &Vec<u64>) -> (r: u128)
    ensures
        r == total(values@),
{
    let mut acc: u128 = 0;
    let mut i: usize = 0;
    while i < values.len()
        invariant
            0 <= i <= values@.len(),
            acc == total(values@.take(i as int)),
        decreases values@.len() - i,
    {
        let ghost next = values@.take(i + 1);
        assert(next.drop_last() =~= values@.take(i as int));
        proof {
            lemma_total_bound(next);
            assert(next.len() <= usize::MAX);
            assert(next.len() * 0xffff_ffff_ffff_ffff <= 0xffff_ffff_ffff_ffff_ffff_ffff_ffff_ffff)
                by (nonlinear_arith)
                requires
                    next.len() <= 0xffff_ffff_ffff_ffff,
            ;
        }
        acc = acc + values[i] as u128;
        i += 1;
    }
    assert(values@.take(values@.len() as int) =~= values@);
    acc
}

// ---------------------------------------------------------------------------
// Model gateways
// ---------------------------------------------------------------------------

/// The gateway that answered, told from the endpoint that the client
/// reports: `mock` for the offline scripted client (`mock://...`), `openai`
/// when the endpoint mentions `openai`, `ollama` otherwise.
pub open spec fn provider_of(endpoint: Seq<char>) -> Seq<char> {
    if "mock://"@.is_prefix_of(endpoint) {
        "mock"@
    } else if has_infix(endpoint, "openai"@) {
        "openai"@
    } else {
        "ollama"@
    }
}

/// The gateway that answered, told from its endpoint.
pub fn llm_provider(endpoint: &str) -> (r: &'static str)
    ensures
        r@ == provider_of(endpoint@),
{
    let e = chars_of(endpoint);
    if starts_with_chars(&e, &chars_of("mock://")) {
        "mock"
    } else if contains_chars(&e, &chars_of("openai")) {
        "openai"
    } else {
        "ollama"
    }
}

} // verus!
