use ennx::acquisition::{order_key, AcquisitionError};
use ennx::pareto::{non_domin_sort, Objectives, ParetoAcquisition};
use rand::rngs::StdRng;
use rand::SeedableRng;

fn objectives(rows: &[&[f64]]) -> Objectives {
    let cols = rows.first().map_or(0, |r| r.len());
    Objectives {
        cols,
        rows: rows
            .iter()
            .map(|r| r.iter().map(|x| order_key((x + 0.0).to_bits())).collect())
            .collect(),
    }
}

#[test]
fn test_non_domin_sort_2d_three_fronts_golden() {
    let pareto = ParetoAcquisition::new();
    let objectives = objectives(&[&[3.0, 1.0], &[2.0, 2.0], &[1.0, 3.0], &[0.5, 0.5]]);
    let fronts = pareto.non_domin_sort(&objectives);
    assert_eq!(fronts.len(), 2);
    assert_eq!(fronts[0], vec![0, 1, 2]);
    assert_eq!(fronts[1], vec![3]);
}

#[test]
fn test_non_domin_sort_2d_with_ties() {
    let pareto = ParetoAcquisition::new();
    // Points 0 and 1 are identical and both should be on first front.
    let objectives = objectives(&[&[2.0, 2.0], &[2.0, 2.0], &[1.0, 1.0], &[0.0, 3.0]]);
    let fronts = pareto.non_domin_sort(&objectives);
    assert!(!fronts.is_empty());
    assert!(fronts[0].contains(&0));
    assert!(fronts[0].contains(&1));
    assert!(fronts[0].contains(&3));
    assert_eq!(fronts, vec![vec![0, 1, 3], vec![2]]);
}

#[test]
fn test_pareto_multi_objective() {
    let pareto = ParetoAcquisition::new();
    let mu = objectives(&[&[1.0, 1.0], &[2.0, 0.5], &[0.5, 2.0], &[1.5, 1.5], &[3.0, 3.0]]);
    let mut rng = StdRng::seed_from_u64(42);
    let selected = pareto.select(&mu, 5, 2, 3, &mut rng).unwrap();
    assert_eq!(selected.len(), 3);
    assert!(selected.contains(&4));
    assert_eq!(selected[0], 4);
    assert!(selected[1..].iter().all(|i| [1, 2, 3].contains(i)));
    assert_ne!(selected[1], selected[2]);
}

#[test]
fn three_objectives_sort_by_domination_counts() {
    let m = objectives(&[
        &[1.0, 1.0, 1.0],
        &[3.0, 3.0, 3.0],
        &[2.0, 2.0, 2.0],
        &[3.0, 1.0, 0.0],
        &[0.0, 0.0, 0.0],
    ]);
    let fronts = non_domin_sort(&m);
    // 1 dominates every other row; 2 dominates 0 and 4; 3 and 0 dominate 4.
    assert_eq!(fronts, vec![vec![1], vec![2, 3], vec![0], vec![4]]);
}

#[test]
fn later_fronts_follow_the_release_order() {
    // Candidate 0 dominates all others; candidate 3 also dominates 1.
    let m = objectives(&[&[5.0, 5.0, 5.0], &[1.0, 1.0, 1.0], &[4.0, 4.0, 0.0], &[2.0, 2.0, 2.0]]);
    let fronts = non_domin_sort(&m);
    assert_eq!(fronts, vec![vec![0], vec![2, 3], vec![1]]);
}

#[test]
fn one_objective_column_counts_and_single_rows() {
    assert_eq!(non_domin_sort(&objectives(&[])), Vec::<Vec<usize>>::new());
    let m = objectives(&[&[7.0, 1.0]]);
    assert_eq!(non_domin_sort(&m), vec![vec![0]]);
    let none = Objectives { cols: 0, rows: vec![vec![], vec![], vec![]] };
    assert_eq!(non_domin_sort(&none), vec![vec![0, 1, 2]]);
}

#[test]
fn pareto_select_fills_whole_fronts_first() {
    let pareto = ParetoAcquisition::default();
    let mu = objectives(&[&[3.0, 1.0], &[2.0, 2.0], &[1.0, 3.0], &[0.5, 0.5]]);
    let mut rng = StdRng::seed_from_u64(1);
    assert_eq!(pareto.select(&mu, 4, 2, 4, &mut rng), Ok(vec![0, 1, 2, 3]));
    assert_eq!(pareto.select(&mu, 4, 2, 10, &mut rng), Ok(vec![0, 1, 2, 3]));
    assert_eq!(pareto.select(&mu, 4, 2, 3, &mut rng), Ok(vec![0, 1, 2]));
    assert_eq!(pareto.select(&mu, 4, 2, 0, &mut rng), Ok(vec![]));
    let two = pareto.select(&mu, 4, 2, 2, &mut rng).unwrap();
    assert_eq!(two.len(), 2);
    assert!(two.iter().all(|i| [0, 1, 2].contains(i)));
    assert_ne!(two[0], two[1]);
}

#[test]
fn pareto_select_errors() {
    let pareto = ParetoAcquisition::new();
    let mut rng = StdRng::seed_from_u64(3);
    let empty = objectives(&[]);
    assert_eq!(pareto.select(&empty, 0, 0, 2, &mut rng), Err(AcquisitionError::NoCandidates));
    let mu = objectives(&[&[1.0, 2.0], &[2.0, 1.0], &[0.0, 0.0]]);
    assert_eq!(
        pareto.select(&mu, 3, 1, 2, &mut rng),
        Err(AcquisitionError::InvalidParameter(
            "mu shape [3, 2] does not match se shape [3, 1]".to_string()
        ))
    );
}

#[test]
fn later_fronts_follow_their_last_dominator() {
    let m = objectives(&[
        &[10.0, 0.0, 0.0],
        &[0.0, 10.0, 0.0],
        &[0.0, 5.0, 0.0],
        &[5.0, 0.0, 0.0],
        &[0.0, 0.0, -1.0],
    ]);
    let fronts = non_domin_sort(&m);
    assert_eq!(fronts, vec![vec![0, 1], vec![3, 2], vec![4]]);
}
