use ennx::bf16_search::{check_search, check_tell, free_slots, ParamBlock, PendingTrials, Proposal};

fn block(offset: usize, len: usize) -> ParamBlock {
    ParamBlock::new(1, offset, len, 0.5f32.to_bits(), 1.0f32.to_bits()).unwrap()
}

#[test]
fn param_blocks() {
    assert_eq!(
        ParamBlock::new(1, 0, 0, 1.0f32.to_bits(), 1.0f32.to_bits()).unwrap_err(),
        "BF16 block length must be positive"
    );
    assert_eq!(
        ParamBlock::new(1, 0, 2, 1.0f32.to_bits(), 0.0f32.to_bits()).unwrap_err(),
        "BF16 block scale and weight must be positive"
    );
    assert_eq!(block(3, 4).len, 4);
}

#[test]
fn search_settings() {
    let ok = 1.0f32.to_bits();
    let blocks = [block(0, 3), block(3, 5)];
    assert_eq!(check_search(8, ok, 0, &blocks, 4, 2), Ok(8));
    assert_eq!(
        check_search(8, f32::NAN.to_bits(), 0, &blocks, 4, 2).unwrap_err(),
        "BF16 base value and variance are invalid"
    );
    assert_eq!(
        check_search(8, ok, (-1.0f32).to_bits(), &blocks, 4, 2).unwrap_err(),
        "BF16 base value and variance are invalid"
    );
    assert_eq!(check_search(8, ok, (-0.0f32).to_bits(), &blocks, 4, 2), Ok(8));
    assert_eq!(
        check_search(8, ok, 0, &blocks, 0, 2).unwrap_err(),
        "BF16 history capacity must be in 1..=128"
    );
    assert_eq!(
        check_search(8, ok, 0, &blocks, 129, 2).unwrap_err(),
        "BF16 history capacity must be in 1..=128"
    );
    assert_eq!(
        check_search(8, ok, 0, &blocks, 4, 33).unwrap_err(),
        "BF16 pending capacity must be in 1..=32"
    );
    assert_eq!(
        check_search(8, ok, 0, &[block(0, 3), block(4, 5)], 4, 2).unwrap_err(),
        "BF16 blocks must form a contiguous layout"
    );
    assert_eq!(
        check_search(9, ok, 0, &blocks, 4, 2).unwrap_err(),
        "BF16 blocks cover 8 weights, expected 9"
    );
    assert_eq!(
        check_search(0, ok, 0, &[], 4, 2).unwrap_err(),
        "BF16 blocks cover 0 weights, expected 0"
    );
    let huge = [block(0, usize::MAX), block(usize::MAX, 1)];
    assert_eq!(check_search(8, ok, 0, &huge, 4, 2).unwrap_err(), "BF16 block layout overflow");
}

#[test]
fn told_batches() {
    let one = 1.0f32.to_bits();
    assert_eq!(check_tell(2, &[one, one], &[0, one]), Ok(()));
    assert_eq!(
        check_tell(0, &[], &[]).unwrap_err(),
        "BF16 trials, values, and variances must have equal non-zero length"
    );
    assert_eq!(
        check_tell(2, &[one], &[0, 0]).unwrap_err(),
        "BF16 trials, values, and variances must have equal non-zero length"
    );
    assert_eq!(
        check_tell(1, &[f32::INFINITY.to_bits()], &[0]).unwrap_err(),
        "BF16 values and variances must be finite"
    );
    assert_eq!(
        check_tell(1, &[one], &[(-0.5f32).to_bits()]).unwrap_err(),
        "BF16 values and variances must be finite"
    );
}

#[test]
fn free_model_slots() {
    // History slots 0..=4, pending slots 5..=7.
    assert_eq!(free_slots(4, 3, &[], 2), Ok(vec![5, 6]));
    assert_eq!(free_slots(4, 3, &[5, 7], 1), Ok(vec![6]));
    assert_eq!(free_slots(4, 3, &[6], 2), Ok(vec![5, 7]));
    assert_eq!(free_slots(4, 3, &[5, 6, 7], 0), Ok(vec![]));
    assert_eq!(free_slots(4, 3, &[5, 6], 2).unwrap_err(), "not enough free BF16 model slots");
    assert_eq!(
        free_slots(usize::MAX, 1, &[], 1).unwrap_err(),
        "BF16 resident slot count overflow"
    );
}

#[test]
fn pending_round_lifecycle() {
    let mut ledger = PendingTrials::new(4, 3);
    let slots = ledger.start_round(2, 5).unwrap();
    assert_eq!(slots, vec![5, 6]);
    let round = ledger.record_round(&slots);
    assert_eq!(round.arms(), 2);
    assert_eq!(round.trials[0].id, 0);
    assert_eq!(round.trials[1].id, 1);
    assert_eq!(round.trials[1].slot, 6);
    assert_eq!(ledger.next_id, 2);
    assert_eq!(ledger.pending.len(), 2);
    assert!(ledger.check_trials(&round.trials).is_ok());
    assert_eq!(PendingTrials::trial_slots(&round.trials), vec![5, 6]);
    assert_eq!(
        ledger.start_round(1, 1).unwrap_err(),
        "tell must finish the outstanding BF16 round"
    );
    ledger.finish_tell(&round.trials[..1]);
    assert_eq!(ledger.pending, vec![round.trials[1]]);
    assert_eq!(
        ledger.check_trials(&round.trials[..1]).unwrap_err(),
        "BF16 trial does not match an outstanding ask"
    );
    assert_eq!(
        ledger.check_trials(&[round.trials[1], round.trials[1]]).unwrap_err(),
        "BF16 tell batch contains a duplicate trial"
    );
    ledger.queue_round(2);
    assert!(ledger.pending.is_empty());
    assert_eq!(ledger.queued, Some(2));
}

#[test]
fn pending_ask_shapes() {
    let mut ledger = PendingTrials::new(2, 4);
    let seeds = [10u64, 11, 12, 13, 14, 15];
    assert_eq!(ledger.start_ask(&seeds, 0).unwrap_err(), "BF16 batch shape exceeds pending capacity");
    assert_eq!(ledger.start_ask(&seeds, 4).unwrap_err(), "BF16 batch shape exceeds pending capacity");
    assert_eq!(ledger.start_ask(&[], 1).unwrap_err(), "BF16 batch shape exceeds pending capacity");
    let (candidates, slots) = ledger.start_ask(&seeds, 3).unwrap();
    assert_eq!(candidates, 2);
    assert_eq!(slots, vec![3, 4, 5]);
    let trials = ledger.record_ask(&slots, &seeds, &[(1, 7), (4, 8), (5, 9)], 0x3f80_0000);
    assert_eq!(trials.len(), 3);
    assert_eq!(trials[1].index, 4);
    assert_eq!(trials[1].seed, 14);
    assert_eq!(trials[1].score_bits, 8);
    assert_eq!(trials[2].length_bits, 0x3f80_0000);
    assert_eq!(trials[2].id, 2);
    assert_eq!(
        ledger.start_ask(&seeds, 1).unwrap_err(),
        "tell must finish outstanding BF16 trials before ask"
    );
    let forged = Proposal { id: 9, ..trials[0] };
    assert!(ledger.pending_for(forged).is_err());
    assert_eq!(ledger.pending_for(trials[0]).unwrap(), trials[0]);
    ledger.finish_tell(&trials);
    assert!(ledger.pending.is_empty());
    assert_eq!(
        PendingTrials::new(usize::MAX, 1).start_round(1, 1).unwrap_err(),
        "BF16 resident slot count overflow"
    );
    assert_eq!(
        PendingTrials::new(0, 2).start_round(2, usize::MAX).unwrap_err(),
        "BF16 round shape exceeds pending capacity"
    );
}

#[test]
fn pending_ids_wrap() {
    let mut ledger = PendingTrials::new(0, 2);
    ledger.next_id = u64::MAX;
    let round = ledger.record_round(&[1, 2]);
    assert_eq!(round.trials[0].id, u64::MAX);
    assert_eq!(round.trials[1].id, 0);
    assert_eq!(ledger.next_id, 1);
    assert!(ledger.check_trials(&round.trials).is_ok());
}
