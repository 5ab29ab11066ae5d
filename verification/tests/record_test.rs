use sabm_simulation::record::{
    count_stationary, final_row_index, firm_unit, llm_provider, metric_name, result_firm_ids,
    round_budget, stable_rounds, sum_rounds, trial_unit, RunOutcome,
};
use sabm_simulation::world::current_round;

#[test]
fn budget_is_the_largest_round_number() {
    assert_eq!(round_budget(400), 399);
    assert_eq!(round_budget(1), 0);
    assert_eq!(round_budget(0), 0);
}

#[test]
fn last_tick_falls_on_the_budget_round() {
    for max_rounds in [1usize, 2, 60, 400] {
        assert_eq!(current_round(max_rounds as u64), round_budget(max_rounds));
        assert!(current_round(1) <= round_budget(max_rounds));
    }
    assert_eq!(current_round(0), 0);
}

#[test]
fn outcome_follows_the_final_round() {
    let done = RunOutcome::of_run(400, 400);
    assert_eq!(done, RunOutcome::BudgetExhausted);
    assert!(done.censored());
    assert_eq!(done.label(), "budget-exhausted");
    let early = RunOutcome::of_run(41, 400);
    assert_eq!(early, RunOutcome::Stationary);
    assert!(!early.censored());
    assert_eq!(early.label(), "stationary");
}

#[test]
fn metric_names_carry_the_scenario() {
    assert_eq!(metric_name(None, "avg_price"), "avg_price");
    assert_eq!(
        metric_name(Some("no_communication"), "avg_price"),
        "no_communication_avg_price"
    );
    assert_eq!(metric_name(Some("anchor"), "no_comm_collusion_index"), "anchor_no_comm_collusion_index");
}

#[test]
fn firm_units() {
    assert_eq!(firm_unit(None, 0), "firm-0");
    assert_eq!(firm_unit(None, 12), "firm-12");
    assert_eq!(firm_unit(Some("communication"), 1), "communication-firm-1");
    assert_eq!(firm_unit(None, u64::MAX), format!("firm-{}", u64::MAX));
}

#[test]
fn firm_ids_sorted_and_distinct() {
    assert_eq!(result_firm_ids(&vec![1, 0, 1, 0, 2, 2]), vec![0, 1, 2]);
    assert_eq!(result_firm_ids(&vec![]), Vec::<u64>::new());
    assert_eq!(result_firm_ids(&vec![7, 3, 7, 5, 3]), vec![3, 5, 7]);
}

#[test]
fn provider_from_endpoint() {
    assert_eq!(llm_provider("mock://scripted"), "mock");
    assert_eq!(llm_provider("https://api.openai.com/v1"), "openai");
    assert_eq!(llm_provider("http://localhost:11434"), "ollama");
    assert_eq!(llm_provider("http://mock://x"), "ollama");
    assert_eq!(llm_provider(""), "ollama");
}

#[test]
fn final_row_is_the_last_row_of_the_firm_and_round() {
    let firms = vec![0, 1, 0, 1, 0];
    let rounds = vec![0, 0, 1, 1, 1];
    assert_eq!(final_row_index(&firms, &rounds, 0, 1), Some(4));
    assert_eq!(final_row_index(&firms, &rounds, 1, 1), Some(3));
    assert_eq!(final_row_index(&firms, &rounds, 1, 0), Some(1));
    assert_eq!(final_row_index(&firms, &rounds, 2, 1), None);
    assert_eq!(final_row_index(&firms, &rounds, 0, 7), None);
    assert_eq!(final_row_index(&Vec::new(), &Vec::new(), 0, 0), None);
}

#[test]
fn condition_summary_counts() {
    assert_eq!(count_stationary(&vec![true, false, true, true]), 3);
    assert_eq!(count_stationary(&Vec::new()), 0);
    assert_eq!(stable_rounds(&vec![Some(40), None, Some(55), None]), vec![40, 55]);
    assert_eq!(stable_rounds(&vec![None, None]), Vec::<u64>::new());
    assert_eq!(sum_rounds(&vec![40, 55]), 95);
    assert_eq!(sum_rounds(&vec![u64::MAX, u64::MAX]), 2 * (u64::MAX as u128));
    assert_eq!(sum_rounds(&Vec::new()), 0);
}

#[test]
fn trial_units() {
    assert_eq!(trial_unit(0), "trial-0");
    assert_eq!(trial_unit(12), "trial-12");
}
