use ennx::forward_program::KdaPackedLinear;
use ennx::packed_model::{LeafSpan, PackedModel};

fn linear(byte_offset: usize, element_offset: usize, input_width: usize, output_width: usize) -> KdaPackedLinear {
    KdaPackedLinear {
        byte_offset,
        scale_offset: 0,
        bias_offset: 0,
        input_width,
        output_width,
        bits: 8,
        group_size: 2,
        element_offset,
        perturb_whole: 0,
        perturb_threshold: 0,
    }
}

fn bits(values: &[f32]) -> Vec<u32> {
    values.iter().map(|v| v.to_bits()).collect()
}

#[test]
fn opens_python() {
    let model = PackedModel::from_parts(
        vec![1, 2, 3, 4],
        bits(&[2.0, 3.0]),
        bits(&[0.0, 1.0]),
        vec![("layer.decay".to_string(), linear(0, 0, 4, 1))],
    )
    .unwrap();
    let decay = model.vector_linear("layer.decay").unwrap();
    assert_eq!(decay.input_width, 4);
    let leaves = model.trial_leaves().unwrap();
    assert_eq!(leaves.len(), 1);
    assert_eq!(leaves[0].length, 4);
}

#[test]
fn package_checks() {
    let arena = vec![0u8; 16];
    let scales = bits(&[1.0; 8]);
    let biases = bits(&[0.0; 8]);
    let over = PackedModel::from_parts(
        arena.clone(),
        scales.clone(),
        biases.clone(),
        vec![("big".to_string(), linear(10, 0, 4, 2))],
    );
    assert_eq!(over.err().unwrap(), "linear \"big\" exceeds weights arena");
    let groups = PackedModel::from_parts(
        arena.clone(),
        bits(&[1.0]),
        biases.clone(),
        vec![("wide".to_string(), linear(0, 0, 4, 2))],
    );
    assert_eq!(groups.err().unwrap(), "linear \"wide\" exceeds scale or bias arena");
    let twice = PackedModel::from_parts(
        arena.clone(),
        scales.clone(),
        biases.clone(),
        vec![("a".to_string(), linear(0, 0, 2, 1)), ("a".to_string(), linear(2, 2, 2, 1))],
    );
    assert_eq!(twice.err().unwrap(), "duplicate linear name \"a\"");
    let mut bad = linear(0, 0, 2, 1);
    bad.bits = 3;
    let invalid = PackedModel::from_parts(arena.clone(), scales.clone(), biases.clone(), vec![("q".to_string(), bad)]);
    assert_eq!(invalid.err().unwrap(), "packed KDA linear bits must be 4 or 8, got 3");

    let model = PackedModel::from_parts(
        arena,
        scales,
        biases,
        vec![("b".to_string(), linear(4, 4, 2, 2)), ("a".to_string(), linear(0, 0, 2, 2))],
    )
    .unwrap();
    assert_eq!(
        model.trial_leaves().unwrap(),
        vec![
            LeafSpan { offset: 0, length: 4, bits: 8 },
            LeafSpan { offset: 4, length: 4, bits: 8 },
        ]
    );
    assert_eq!(model.linear("b").unwrap().byte_offset, 4);
    assert_eq!(model.linear("c").unwrap_err(), "model package has no linear \"c\"");
    assert_eq!(model.vector_linear("a").unwrap_err(), "\"a\" must be a one-row INT8 linear");
}

#[test]
fn layout_gaps_are_refused() {
    let arena = vec![0u8; 16];
    let scales = bits(&[1.0; 8]);
    let biases = bits(&[0.0; 8]);
    let gap = PackedModel::from_parts(
        arena.clone(),
        scales.clone(),
        biases.clone(),
        vec![("a".to_string(), linear(0, 0, 2, 2)), ("b".to_string(), linear(4, 5, 2, 2))],
    )
    .unwrap();
    assert_eq!(
        gap.trial_leaves().unwrap_err(),
        "linear element offset 5 does not continue parameter offset 4"
    );
    let bytes = PackedModel::from_parts(
        arena.clone(),
        scales.clone(),
        biases.clone(),
        vec![("a".to_string(), linear(0, 0, 2, 2)), ("b".to_string(), linear(6, 4, 2, 2))],
    )
    .unwrap();
    assert_eq!(
        bytes.trial_leaves().unwrap_err(),
        "linear byte offset 6 does not continue packed byte offset 4"
    );
    // Two linears at one element offset: the one whose name sorts first is laid out first.
    let tie = PackedModel::from_parts(
        arena,
        scales,
        biases,
        vec![("z".to_string(), linear(0, 0, 2, 2)), ("m".to_string(), linear(8, 0, 2, 2))],
    )
    .unwrap();
    assert_eq!(
        tie.trial_leaves().unwrap_err(),
        "linear byte offset 8 does not continue packed byte offset 0"
    );
}
