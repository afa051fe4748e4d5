use ennx::dense::{
    bf16_encode, bf16_next, bf16_pick, bf16_validate, mix64, pack_nibbles, sign_positive, slot_count, tensor_key,
    dense_validate, linear_validate, tiles, validate_eval, validate_leaves, validate_model, validate_terms, DenseLeaf, DenseTerm, DenseTile, DenseView,
    TILE_ELEMENTS,
};

#[test]
fn tensor_keys_are_stable() {
    assert_eq!(tensor_key("blk.27.attn_q.weight"), 3_843_877_851_495_245_630);
}

#[test]
fn tensor_key_of_empty_name_is_the_offset_basis() {
    assert_eq!(tensor_key(""), 1_469_598_103_934_665_603);
    assert_ne!(tensor_key("a"), tensor_key("b"));
}

#[test]
fn mixer_known_values() {
    assert_eq!(mix64(0), 0xe220_a839_7b1d_cdaf);
    assert_ne!(mix64(1), mix64(2));
}

#[test]
fn bf16_steps() {
    assert_eq!(bf16_next(0, true), 1);
    assert_eq!(bf16_next(0x8000, false), 0x8001);
    assert_eq!(bf16_next(0x3f80, true), 0x3f81);
    assert_eq!(bf16_next(0x3f80, false), 0x3f7f);
    assert_eq!(bf16_next(0xbf80, false), 0xbf81);
    assert_eq!(bf16_next(0x7f7f, true), 0x7f7e);
    assert_eq!(bf16_next(0xff7f, false), 0xff7e);
}

#[test]
fn slots() {
    assert_eq!(slot_count(4, 2), Ok(7));
    assert_eq!(
        slot_count(usize::MAX, 0).unwrap_err(),
        "BF16 resident slot count overflow"
    );
}

#[test]
fn nibbles() {
    assert_eq!(pack_nibbles(&[0, 1, 2]), vec![0x10, 0x02]);
    assert_eq!(pack_nibbles(&[2, 0, 4]), vec![0x02, 0x04]);
    assert_eq!(pack_nibbles(&[0xff, 0x1f]), vec![0xff]);
    assert_eq!(pack_nibbles(&[]), Vec::<u8>::new());
}

fn leaves() -> [DenseLeaf; 2] {
    [
        DenseLeaf::new(11, 0, 4, 0.5f32.to_bits()).unwrap(),
        DenseLeaf::new(29, 4, 4, 1.25f32.to_bits()).unwrap(),
    ]
}

#[test]
fn signs_match_the_zig_contract() {
    let expected = [
        1.0, 1.0, 1.0, -1.0, 1.0, 1.0, 1.0, -1.0, -1.0, 1.0, -1.0, 1.0, 1.0, 1.0, 1.0, -1.0,
    ];
    for (element, expected) in expected.into_iter().enumerate() {
        let sign: f32 = if sign_positive(0x1234_5678_9abc_def0, 11, element as u64) { 1.0 } else { -1.0 };
        assert_eq!(sign, expected);
    }
}

#[test]
fn next_value_stays_finite_at_the_bf16_limits() {
    let decode = |v: u16| f32::from_bits(u32::from(v) << 16);
    assert!(decode(bf16_next(0x7f7f, true)).is_finite());
    assert!(decode(bf16_next(0xff7f, false)).is_finite());
}

#[test]
fn leaf_and_term_construction() {
    assert_eq!(
        DenseLeaf::new(1, 0, 0, 1.0f32.to_bits()).unwrap_err(),
        "dense leaf length must be positive"
    );
    for scale in [0.0f32, -1.0, f32::INFINITY, f32::NAN, -0.0] {
        assert_eq!(
            DenseLeaf::new(1, 0, 3, scale.to_bits()).unwrap_err(),
            "dense leaf scale must be finite and positive"
        );
    }
    assert_eq!(
        DenseLeaf::new(5, 2, 3, 0.5f32.to_bits()),
        Ok(DenseLeaf { key: 5, offset: 2, len: 3, scale_bits: 0.5f32.to_bits() })
    );
    assert!(DenseTerm::new(9, (-2.5f32).to_bits()).is_ok());
    assert_eq!(
        DenseTerm::new(9, f32::NAN.to_bits()).unwrap_err(),
        "dense coefficient must be finite"
    );
    assert!(validate_terms(&[DenseTerm { seed: 1, coefficient_bits: 0 }]).is_ok());
    assert_eq!(
        validate_terms(&[DenseTerm { seed: 1, coefficient_bits: f32::INFINITY.to_bits() }]).unwrap_err(),
        "dense coefficients must be finite"
    );
}

#[test]
fn leaf_layouts() {
    assert_eq!(validate_leaves(&leaves(), Some(8)), Ok(()));
    assert_eq!(validate_leaves(&leaves(), None), Ok(()));
    assert_eq!(
        validate_leaves(&leaves(), Some(9)).unwrap_err(),
        "dense leaves cover 8 parameters, expected 9"
    );
    assert_eq!(validate_leaves(&[], None).unwrap_err(), "at least one dense leaf is required");
    let gap = [leaves()[0], DenseLeaf { offset: 5, ..leaves()[1] }];
    assert_eq!(
        validate_leaves(&gap, None).unwrap_err(),
        "dense leaf offset 5 does not continue parameter offset 4"
    );
    let empty = [DenseLeaf { len: 0, ..leaves()[0] }];
    assert_eq!(
        validate_leaves(&empty, None).unwrap_err(),
        "dense leaves require positive lengths and scales"
    );
    let huge = [DenseLeaf { len: usize::MAX, ..leaves()[0] }, DenseLeaf { offset: usize::MAX, ..leaves()[1] }];
    assert_eq!(validate_leaves(&huge, None).unwrap_err(), "dense parameter count overflow");
}

#[test]
fn leaves_split_into_tiles() {
    let long = DenseLeaf { key: 3, offset: 0, len: TILE_ELEMENTS + 5, scale_bits: 1.0f32.to_bits() };
    let short = DenseLeaf { key: 4, offset: TILE_ELEMENTS + 5, len: 7, scale_bits: 1.0f32.to_bits() };
    assert_eq!(
        tiles(&[long, short]).unwrap(),
        vec![
            DenseTile { leaf: 0, start: 0, len: 65_536, pad: 0 },
            DenseTile { leaf: 0, start: 65_536, len: 5, pad: 0 },
            DenseTile { leaf: 1, start: 0, len: 7, pad: 0 },
        ]
    );
    assert_eq!(tiles(&[]).unwrap(), vec![]);
}

#[test]
fn bf16_rounding_and_validation() {
    assert_eq!(bf16_encode(1.0f32.to_bits()), 0x3f80);
    assert_eq!(bf16_encode((-2.0f32).to_bits()), 0xc000);
    // Ties go to the even upper half.
    assert_eq!(bf16_encode(0x3f80_8000), 0x3f80);
    assert_eq!(bf16_encode(0x3f81_8000), 0x3f82);
    assert_eq!(bf16_encode(0x3f80_8001), 0x3f81);
    assert_eq!(bf16_encode(0xffff_ffff), 0);
    assert_eq!(bf16_encode(0xfffe_7fff), 0xfffe);
    assert_eq!(bf16_validate(&[0x3f80; 8], &leaves()), Ok(()));
    assert_eq!(bf16_validate(&[], &leaves()).unwrap_err(), "BF16 pytree base cannot be empty");
    assert_eq!(
        bf16_validate(&[0x3f80, 0x7f80], &leaves()).unwrap_err(),
        "BF16 pytree base values must be finite"
    );
    assert_eq!(
        bf16_validate(&[0x3f80; 3], &leaves()).unwrap_err(),
        "dense leaves cover 8 parameters, expected 3"
    );
}

#[test]
fn linear_models() {
    let one = 1.0f32.to_bits();
    let view = DenseView::new(3, 10, one).unwrap();
    assert_eq!(
        DenseView::new(3, 10, 0).unwrap_err(),
        "dense view scale must be finite and positive"
    );
    let weight = [one; 6];
    assert_eq!(validate_model(&weight, 3, None, view, None), Ok(2));
    assert_eq!(validate_model(&weight, 3, Some(&[one, one]), view, Some(view)), Ok(2));
    assert_eq!(
        validate_model(&weight, 4, None, view, None).unwrap_err(),
        "dense linear weight must contain complete non-empty rows"
    );
    assert_eq!(
        validate_model(&weight, 0, None, view, None).unwrap_err(),
        "dense linear weight must contain complete non-empty rows"
    );
    assert_eq!(
        validate_model(&weight, 3, Some(&[one]), view, Some(view)).unwrap_err(),
        "dense linear bias length must equal the weight row count"
    );
    assert_eq!(
        validate_model(&weight, 3, Some(&[one, one]), view, None).unwrap_err(),
        "dense linear bias and bias view must be supplied together"
    );
    assert_eq!(
        validate_model(&[one, f32::NAN.to_bits()], 2, None, view, None).unwrap_err(),
        "dense linear weights must be finite"
    );
    let bad = DenseView { key: 3, start: 10, scale_bits: 0 };
    assert_eq!(
        validate_model(&weight, 3, None, bad, None).unwrap_err(),
        "dense linear weight scale must be finite and positive"
    );
    assert_eq!(
        validate_model(&weight, 3, Some(&[one, one]), view, Some(bad)).unwrap_err(),
        "dense linear bias scale must be finite and positive"
    );
    let far = DenseView { key: 3, start: u64::MAX - 2, scale_bits: one };
    assert_eq!(
        validate_model(&weight, 3, None, far, None).unwrap_err(),
        "dense linear weight coordinates overflow u64"
    );
    let edge = DenseView { key: 3, start: u64::MAX - 1, scale_bits: one };
    assert_eq!(
        validate_model(&weight, 3, Some(&[one, one]), view, Some(edge)).unwrap_err(),
        "dense linear bias coordinates overflow u64"
    );
}

#[test]
fn dense_checks_run_in_order() {
    let base: Vec<u32> = [0.5f32; 8].iter().map(|v| v.to_bits()).collect();
    let terms = [DenseTerm::new(7, 0.5f32.to_bits()).unwrap()];
    assert_eq!(dense_validate(&base, &leaves(), &terms, true), Ok(()));
    assert_eq!(
        dense_validate(&[], &leaves(), &terms, true).unwrap_err(),
        "dense base cannot be empty"
    );
    let mut bad = base.clone();
    bad[3] = f32::NAN.to_bits();
    assert_eq!(
        dense_validate(&bad, &leaves(), &terms, false).unwrap_err(),
        "dense base values must be finite"
    );
    assert_eq!(
        dense_validate(&base[..6], &leaves(), &terms, true),
        validate_leaves(&leaves(), Some(6))
    );
    assert_eq!(
        dense_validate(&base, &leaves(), &terms, false).unwrap_err(),
        "dense terms cancel to zero"
    );
}

#[test]
fn dense_eval_inputs() {
    let input: Vec<u32> = [1.0f32, -2.0, 3.5].iter().map(|v| v.to_bits()).collect();
    let terms = [DenseTerm::new(7, 0.5f32.to_bits()).unwrap()];
    assert_eq!(validate_eval(&input, 3, &terms, true), Ok(()));
    assert_eq!(
        validate_eval(&input, 4, &terms, true).unwrap_err(),
        "dense linear input must contain 4 finite values"
    );
    let mut bad = input.clone();
    bad[0] = f32::INFINITY.to_bits();
    assert_eq!(
        validate_eval(&bad, 3, &terms, true).unwrap_err(),
        "dense linear input must contain 3 finite values"
    );
    assert_eq!(
        validate_eval(&input, 3, &[], true).unwrap_err(),
        "dense linear requires finite perturbation terms"
    );
    assert_eq!(
        validate_eval(&input, 3, &terms, false).unwrap_err(),
        "dense linear terms cancel to zero"
    );
}

#[test]
fn linear_checks_layer_before_input() {
    let weight: Vec<u32> = [1.0f32; 6].iter().map(|v| v.to_bits()).collect();
    let input: Vec<u32> = [1.0f32, 2.0, 3.0].iter().map(|v| v.to_bits()).collect();
    let view = DenseView::new(3, 0, 1.0f32.to_bits()).unwrap();
    let terms = [DenseTerm::new(7, 0.5f32.to_bits()).unwrap()];
    assert_eq!(linear_validate(&input, &weight, None, view, None, &terms, true), Ok(2));
    assert_eq!(
        linear_validate(&input[..2], &weight[..5], None, view, None, &terms, false).unwrap_err(),
        "dense linear weight must contain complete non-empty rows"
    );
    let mut bad = input.clone();
    bad[2] = f32::NAN.to_bits();
    assert_eq!(
        linear_validate(&bad, &weight, None, view, None, &terms, true).unwrap_err(),
        "dense linear input must contain 3 finite values"
    );
    assert_eq!(
        linear_validate(&input, &weight, None, view, None, &terms, false).unwrap_err(),
        "dense linear terms cancel to zero"
    );
}

#[test]
fn sub_ulp_perturbations_still_change_the_weight() {
    let one = bf16_encode(1.0f32.to_bits());
    assert_eq!(bf16_pick(one, one, false, true), one + 1);
    assert_eq!(bf16_pick(one, one, false, false), one - 1);
    assert_eq!(bf16_pick(one, one + 5, true, true), one + 1);
    assert_eq!(bf16_pick(one, one + 5, false, true), one + 5);
    let zero = 0u16;
    assert_eq!(bf16_pick(zero, zero, true, false), 0x8001);
    for base in [0x3f80u16, 0xc000, 0x0000, 0x8000, 0x7f7f, 0xff7f] {
        for positive in [true, false] {
            assert_ne!(bf16_pick(base, base, false, positive), base);
        }
    }
}
