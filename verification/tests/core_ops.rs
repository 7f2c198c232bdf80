use fractran::ast::to_prime_product;
use fractran::engine::{run, step, to_names, Frac, RunStatus};
use fractran::util::{get_n_primes, try_get_n_primes};

fn fruit_names() -> Vec<String> {
    ["flour", "sugar", "apples", "apple-cake", "oranges", "cherries"]
        .iter()
        .map(|s| s.to_string())
        .collect::<Vec<_>>()
}

// Decoding one of the canonical examples:
// "ACC 21450 flour sugar apples apples oranges cherries"
#[test]
pub fn test_to_names() {
    let prime_product = 21450;
    let names = fruit_names();

    let result = ["flour", "sugar", "apples", "apples", "oranges", "cherries"]
        .iter()
        .map(|s| s.to_string())
        .collect::<Vec<_>>();

    assert_eq!(to_names(prime_product, &names), result);
}

// Decompiling one of the canonical examples:
// ":: 7/30 flour.2 sugar.3 apples.5 > apple-cake.7"
#[test]
pub fn test_to_rule() {
    let frac = Frac::new(7, 30);
    let names = fruit_names();

    let left = ["flour", "sugar", "apples"]
        .iter()
        .map(|s| s.to_string())
        .collect::<Vec<_>>();

    let right = ["apple-cake"].iter().map(|s| s.to_string()).collect::<Vec<_>>();

    let rule = frac.to_rule(&names);

    assert_eq!(rule.left, left);
    assert_eq!(rule.right, right);
}

#[test]
fn get_12_primes() {
    let result = get_n_primes(12);
    assert_eq!(result, vec![2, 3, 5, 7, 11, 13, 17, 19, 23, 29, 31, 37]);
}

#[test]
fn get_zero_primes() {
    let result = get_n_primes(0);
    assert!(result.is_empty());
}

#[test]
fn try_get_primes_small() {
    assert_eq!(try_get_n_primes(5).unwrap(), vec![2, 3, 5, 7, 11]);
}

#[test]
fn encode_fruit_multiset() {
    let names = fruit_names();
    let left = ["flour", "sugar", "apples"]
        .iter()
        .map(|s| s.to_string())
        .collect::<Vec<_>>();
    assert_eq!(to_prime_product(&left, &names), 30);
    let cake = vec!["apple-cake".to_string()];
    assert_eq!(to_prime_product(&cake, &names), 7);
}

#[test]
fn encode_empty_multiset_is_one() {
    let names = fruit_names();
    let empty: Vec<String> = Vec::new();
    assert_eq!(to_prime_product(&empty, &names), 1);
}

#[test]
fn encode_ignores_order() {
    let names = fruit_names();
    let a = vec!["sugar".to_string(), "flour".to_string(), "sugar".to_string()];
    let b = vec!["sugar".to_string(), "sugar".to_string(), "flour".to_string()];
    assert_eq!(to_prime_product(&a, &names), to_prime_product(&b, &names));
    assert_eq!(to_prime_product(&a, &names), 18);
}

#[test]
fn round_trip_reorders_to_alphabet_order() {
    let names = fruit_names();
    let m = vec!["sugar".to_string(), "flour".to_string(), "sugar".to_string()];
    let v = to_prime_product(&m, &names);
    let decoded = to_names(v, &names);
    let expected = vec!["flour".to_string(), "sugar".to_string(), "sugar".to_string()];
    assert_eq!(decoded, expected);
}

#[test]
fn step_applies_first_matching_fraction() {
    let fracs = vec![Frac::new(5, 4), Frac::new(5, 2)];
    let (acc, applied) = step(6, &fracs);
    assert_eq!(acc, 15);
    assert_eq!(applied, Some(Frac::new(5, 2)));

    let (acc2, applied2) = step(4, &fracs);
    assert_eq!(acc2, 5);
    assert_eq!(applied2, Some(Frac::new(5, 4)));
}

#[test]
fn step_without_match_returns_unchanged() {
    let fracs = vec![Frac::new(5, 4), Frac::new(5, 2)];
    let (acc, applied) = step(7, &fracs);
    assert_eq!(acc, 7);
    assert_eq!(applied, None);
}

#[test]
fn run_halts_at_stuck_state() {
    let fracs = vec![Frac::new(3, 2)];
    let (final_acc, trace, status) = run(2, &fracs, 10);
    assert_eq!(final_acc, 3);
    assert_eq!(trace.len(), 1);
    assert_eq!(trace[0].before, 2);
    assert_eq!(trace[0].frac, Frac::new(3, 2));
    assert_eq!(trace[0].after, 3);
    assert_eq!(status, RunStatus::Halted);
}

#[test]
fn run_respects_step_ceiling() {
    let fracs = vec![Frac::new(4, 2)];
    let (final_acc, trace, status) = run(2, &fracs, 3);
    assert_eq!(final_acc, 16);
    assert_eq!(trace.len(), 3);
    assert_eq!(status, RunStatus::StepLimit);
}
