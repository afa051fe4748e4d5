use ennx::schedule::{first_best, median_time, schedule_choice, Race, RaceStart, ScheduleCache};

#[test]
fn medians_of_timings() {
    assert_eq!(median_time(&vec![7]), 7);
    assert_eq!(median_time(&vec![9, 1, 5]), 5);
    assert_eq!(median_time(&vec![4, 1, 3, 2]), 3);
    assert_eq!(median_time(&vec![2, 2, 1, 2]), 2);
}

#[test]
fn fastest_schedule_is_the_first_minimum() {
    assert_eq!(first_best(&[Some(5), None, Some(3), Some(3)]), Some(2));
    assert_eq!(first_best(&[None, None]), None);
    assert_eq!(schedule_choice(&[None, Some(9), Some(4)], "gemm", &vec![2, 64]), Ok(2));
    assert_eq!(
        schedule_choice(&[None, None], "gemm", &vec![2, 64]).unwrap_err(),
        "no valid Apple GPU schedule for gemm [2, 64]"
    );
}

#[test]
fn races_rotate_and_drop_failed_candidates() {
    assert_eq!(
        Race::new(0, 3).err().unwrap(),
        "Apple GPU race must have candidates and rounds"
    );
    let mut race = Race::new(3, 2).unwrap();
    let mut order = Vec::new();
    while let Some(candidate) = race.next() {
        order.push(candidate);
        let elapsed = match candidate {
            0 => Some(30),
            1 => None,
            _ => Some(20),
        };
        race.record(candidate, elapsed);
    }
    // Round 0 starts at candidate 0, round 1 at candidate 1, which has dropped out.
    assert_eq!(order, vec![0, 1, 2, 2, 0]);
    assert_eq!(race.winner("knn", &vec![8]), Ok(2));
}

#[test]
fn race_without_timings_has_no_winner() {
    let mut race = Race::new(2, 1).unwrap();
    while let Some(candidate) = race.next() {
        race.record(candidate, None);
    }
    assert_eq!(race.winner("tile", &vec![]).unwrap_err(), "no valid Apple GPU race for tile []");
}

#[test]
fn finished_race_times_every_survivor_each_round() {
    let mut race = Race::new(3, 2).unwrap();
    let mut calls = Vec::new();
    while let Some(c) = race.next() {
        calls.push(c);
        let outcome = match c {
            0 => Some(5 + 2 * race.times[0].len() as u128),
            1 => None,
            _ => Some(3 + 6 * race.times[2].len() as u128),
        };
        race.record(c, outcome);
    }
    assert_eq!(calls, vec![0, 1, 2, 2, 0]);
    assert_eq!(race.times[0], vec![5, 7]);
    assert_eq!(race.times[2], vec![3, 9]);
    assert!(race.times[1].is_empty());
    assert_eq!(race.winner("knn", &vec![4]), Ok(0));
}

#[test]
fn remembered_choice_is_reused_without_timing() {
    let mut cache = ScheduleCache::new();
    assert_eq!(cache.lookup(7), None);
    let mut race = match cache.start_race(7, 2, 3).unwrap() {
        RaceStart::Run(race) => race,
        RaceStart::Cached(_) => panic!("nothing is remembered yet"),
    };
    let mut calls = 0;
    while let Some(c) = race.next() {
        calls += 1;
        race.record(c, Some(if c == 1 { 4 } else { 9 }));
    }
    assert_eq!(calls, 6);
    assert_eq!(cache.finish_race(7, &race, "gemm", &vec![2]), Ok(1));
    assert_eq!(cache.lookup(7), Some(1));
    // A later race for the same kernel starts from the remembered choice,
    // even with other candidates and rounds, and an empty race is not refused.
    assert!(matches!(cache.start_race(7, 5, 1), Ok(RaceStart::Cached(1))));
    assert!(matches!(cache.start_race(7, 0, 0), Ok(RaceStart::Cached(1))));
    assert_eq!(
        cache.start_race(8, 0, 2).err().unwrap(),
        "Apple GPU race must have candidates and rounds"
    );
    assert_eq!(cache.finish_schedule(8, &[Some(6), Some(2)], "tile", &vec![]), Ok(1));
    assert_eq!(cache.finish_schedule(9, &[None], "tile", &vec![]).unwrap_err(), "no valid Apple GPU schedule for tile []");
    assert_eq!(cache.lookup(9), None);
    assert_eq!(cache.lookup(8), Some(1));
    assert_eq!(cache.lookup(7), Some(1));
}
