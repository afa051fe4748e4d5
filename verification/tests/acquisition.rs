use ennx::acquisition::{select_top, AcquisitionError, RandomAcquisition};
use rand::rngs::StdRng;
use rand::SeedableRng;

#[test]
fn test_random_acquisition() {
    let random = RandomAcquisition::new();
    let mut rng = StdRng::seed_from_u64(42);
    let selected = random.select(10, 3, &mut rng).unwrap();
    assert_eq!(selected.len(), 3);
    assert!(selected.iter().all(|&i| i < 10));
}

#[test]
fn random_arms_are_distinct_and_capped() {
    let random = RandomAcquisition::default();
    let mut rng = StdRng::seed_from_u64(7);
    let mut all = random.select(6, 100, &mut rng).unwrap();
    assert_eq!(all.len(), 6);
    all.sort();
    assert_eq!(all, vec![0, 1, 2, 3, 4, 5]);
    assert!(random.select(6, 0, &mut rng).unwrap().is_empty());
    assert_eq!(random.select(0, 3, &mut rng), Err(AcquisitionError::NoCandidates));
    assert_eq!(AcquisitionError::NoCandidates.to_string(), "No candidates available");
    assert_eq!(
        AcquisitionError::InvalidParameter("x".to_string()).to_string(),
        "Invalid parameter: x"
    );
}

fn key(x: f64) -> i64 {
    ennx::acquisition::order_key(x.to_bits())
}

#[test]
fn order_keys_follow_total_cmp() {
    let values = [f64::NEG_INFINITY, -3.5, -1.0, -0.0, 0.0, 1e-300, 2.0, 7.25, f64::INFINITY];
    for a in values {
        for b in values {
            assert_eq!(key(a).cmp(&key(b)), a.total_cmp(&b), "{a} vs {b}");
        }
    }
    assert_eq!(key(0.0), 0);
    assert_eq!(key(-0.0), -1);
    assert_eq!(key(1.0), 0x3ff0_0000_0000_0000);
}

#[test]
fn top_arms_are_best_first() {
    assert_eq!(select_top(&[5, 1, 9, 3, 9], 3), Ok(vec![2, 4, 0]));
    assert_eq!(select_top(&[5, 1, 9], 10), Ok(vec![2, 0, 1]));
    assert_eq!(select_top(&[4, 4, 4, 4], 2), Ok(vec![0, 1]));
    assert_eq!(select_top(&[-3, -1, -2], 1), Ok(vec![1]));
    assert_eq!(select_top(&[1, 2], 0), Ok(vec![]));
    assert_eq!(select_top(&[], 3), Err(AcquisitionError::NoCandidates));
}

#[test]
fn ucb_scores_pick_the_highest_bounds() {
    // Upper confidence bounds mu + 2 sigma of five candidates.
    let mu = [1.0, 2.0, 3.0, 4.0, 5.0];
    let sigma = [0.1, 0.2, 0.3, 0.4, 0.5];
    let scores: Vec<i64> = mu
        .iter()
        .zip(sigma.iter())
        .map(|(m, s): (&f64, &f64)| key(2.0f64.mul_add(*s, *m)))
        .collect();
    let selected = select_top(&scores, 3).unwrap();
    assert_eq!(selected, vec![4, 3, 2]);
}

#[test]
fn thompson_and_pareto_optimizers_construct() {
    let _ = ennx::acquisition::ThompsonAcquisition::new();
    let _ = ennx::acquisition::ThompsonAcquisition::default();
    let _ = ennx::pareto::ParetoAcquisition::new();
    let _ = ennx::pareto::ParetoAcquisition::default();
}
