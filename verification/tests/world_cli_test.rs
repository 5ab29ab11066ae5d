use sabm_simulation::cli::split_csv;
use sabm_simulation::world::{firm_costs, reflection_due, rival_prices};

#[test]
fn split_csv_trims_and_drops_blanks() {
    assert_eq!(split_csv("0.0,0.25, 0.5 ,,1.0"), vec!["0.0", "0.25", "0.5", "1.0"]);
    assert_eq!(split_csv("2,3"), vec!["2", "3"]);
    assert_eq!(split_csv(""), Vec::<String>::new());
    assert_eq!(split_csv(" , ,"), Vec::<String>::new());
    assert_eq!(split_csv("a b , c"), vec!["a b", "c"]);
}

#[test]
fn rivals_exclude_own_price() {
    assert_eq!(rival_prices(&vec![6.0, 6.5], 0), vec![6.5]);
    assert_eq!(rival_prices(&vec![6.0, 6.5, 7.0], 1), vec![6.0, 7.0]);
    assert_eq!(rival_prices(&vec![6.0, 6.5], 5), vec![6.0, 6.5]);
}

#[test]
fn reflection_every_period() {
    assert!(!reflection_due(0, 20));
    assert!(!reflection_due(19, 20));
    assert!(reflection_due(20, 20));
    assert!(!reflection_due(21, 20));
    assert!(reflection_due(40, 20));
    assert!(!reflection_due(40, 0));
}

#[test]
fn costs_by_firm() {
    assert_eq!(firm_costs(2, 2.0, 5.0), vec![2.0, 5.0]);
    assert_eq!(firm_costs(3, 2.0, 5.0), vec![2.0, 5.0, 5.0]);
    assert_eq!(firm_costs(0, 2.0, 5.0), Vec::<f64>::new());
}
