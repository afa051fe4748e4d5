use ennx::forward_program::{
    ForwardOp, ForwardProgram, KdaControlRequest, KdaDispatch, KdaEncoder, KdaForwardRequest,
    KdaMoeDispatch, KdaMoeLayerRequest, KdaPackedLinear, KdaTensorLayout, KernelPlan,
    PackedAffinePlan, ResidentRound, ResidentRounds, WorkAxis, WorkGrid, WorkTile,
};
use ennx::bf16_search::Proposal;

fn linear(input_width: usize, output_width: usize, bits: u8) -> KdaPackedLinear {
    KdaPackedLinear {
        byte_offset: 0,
        scale_offset: 0,
        bias_offset: 0,
        input_width,
        output_width,
        bits,
        group_size: 64,
        element_offset: 0,
        perturb_whole: 0,
        perturb_threshold: 0,
    }
}

fn layer() -> KdaMoeLayerRequest {
    let tensor = KdaTensorLayout::new(1, 16_384, 8, 128, 128).unwrap();
    let hidden = 1_024;
    let expert = 576;
    let kda = KdaForwardRequest {
        tensor,
        qkv: linear(hidden, hidden * 3, 4),
        control: linear(hidden, 264, 4),
        output: linear(hidden, hidden, 4),
        seed: 7,
    };
    KdaMoeLayerRequest {
        kda,
        attention_norm: linear(hidden, 1, 4),
        moe_norm: linear(hidden, 1, 4),
        router: linear(hidden, 32, 4),
        expert_gate: vec![linear(hidden, expert, 4); 32],
        expert_up: vec![linear(hidden, expert, 4); 32],
        expert_down: vec![linear(expert, hidden, 4); 32],
        top_k: 4,
        residual_scale_bits: 0.22f32.to_bits(),
        rms_epsilon_bits: 1.0e-6f32.to_bits(),
    }
}

#[test]
fn kda_program_is_a_valid_fused_program() {
    let program = ForwardProgram::kda().unwrap();
    assert_eq!(program.version(), ForwardProgram::VERSION);
    assert!(program.ops().contains(&ForwardOp::KdaStateUpdate));
}

#[test]
fn kda_16k_layout_has_resident_state_shape() {
    let layout = KdaTensorLayout::new(1, 16_384, 8, 128, 128).unwrap();
    assert_eq!(layout.qkv_elements(), 16_777_216);
    assert_eq!(layout.value_elements(), 16_777_216);
    assert_eq!(layout.state_elements(), 131_072);
}

#[test]
fn kda_forward_request_validates_packed_projection_layout() {
    let tensor = KdaTensorLayout::new(1, 16_384, 8, 128, 128).unwrap();
    let linear = linear(1024, 1024, 8);
    let request = KdaForwardRequest {
        tensor,
        qkv: KdaPackedLinear {
            output_width: 3 * 8 * 128,
            ..linear
        },
        control: linear,
        output: linear,
        seed: 7,
    };
    request.validate().unwrap();
    assert_eq!(request.qkv.packed_bytes(), 3 * 8 * 128 * 1024);
    let dispatches = KdaEncoder::new(request).unwrap().encode();
    assert_eq!(
        dispatches[0],
        KdaDispatch::ProjectQkv {
            threads: 50_331_648
        }
    );
    assert_eq!(
        dispatches[1],
        KdaDispatch::SplitQkv {
            threads: 16_777_216
        }
    );
    assert_eq!(dispatches[2], KdaDispatch::Recur { threads: 1_024 });
}

#[test]
fn kda_moe_layer_encodes_a_resident_decoder_schedule() {
    let dispatches = layer().encode().unwrap();
    assert_eq!(dispatches.len(), 10);
    assert!(matches!(
        dispatches[6],
        KdaMoeDispatch::RouteExperts { threads: 16_384 }
    ));
    assert!(matches!(dispatches[7], KdaMoeDispatch::ExpertGateUp { .. }));
}

#[test]
fn kda_moe_layer_exposes_backend_kernel_plans() {
    let plans = layer().kernel_plans(PackedAffinePlan::apple_simd()).unwrap();
    assert_eq!(plans.len(), 10);
    assert_eq!(plans[1].kernel, "kda_project_packed_16k");
    assert_eq!(plans[1].grid.threads_per_group, 256);
    assert!(plans[1]
        .tiles
        .iter()
        .any(|tile| tile.axis == WorkAxis::Input && tile.items == 64));
    assert_eq!(plans[3].kernel, "kda_recurrence_16k");
    assert!(plans[3]
        .tiles
        .iter()
        .any(|tile| tile.axis == WorkAxis::Token && tile.items == 16_384));
}

#[test]
fn program_requires_its_three_stages_in_order_of_report() {
    let err = ForwardProgram::new(vec![ForwardOp::Matmul]).unwrap_err();
    assert_eq!(err, "forward program must perturb packed weights");
    let err = ForwardProgram::new(vec![ForwardOp::PerturbPackedWeights]).unwrap_err();
    assert_eq!(err, "forward program must contain a matrix multiply");
    let err =
        ForwardProgram::new(vec![ForwardOp::PerturbPackedWeights, ForwardOp::Matmul]).unwrap_err();
    assert_eq!(err, "forward program must reduce an objective");
    let ok = ForwardProgram::new(vec![
        ForwardOp::ReduceObjective,
        ForwardOp::Matmul,
        ForwardOp::PerturbPackedWeights,
    ])
    .unwrap();
    assert_eq!(ok.ops().len(), 3);
    assert_eq!(ok.version(), 1);
    let copy = ok.clone();
    assert_eq!(copy, ok);
}

#[test]
fn tiles_and_grids_reject_empty_dimensions() {
    assert_eq!(WorkTile::new(WorkAxis::Head, 0).unwrap_err(), "kernel tile size must be positive");
    assert_eq!(
        WorkGrid::new(0, 4).unwrap_err(),
        "kernel work grid dimensions must be positive"
    );
    assert_eq!(
        WorkGrid::new(4, 0).unwrap_err(),
        "kernel work grid dimensions must be positive"
    );
    assert_eq!(WorkGrid::new(10, 4).unwrap().groups(), 3);
    assert_eq!(WorkGrid::new(12, 4).unwrap().groups(), 3);
    assert_eq!(WorkGrid::new(1, 256).unwrap().groups(), 1);
}

#[test]
fn kernel_plan_builder_appends_tiles() {
    let plan = KernelPlan::new("k", 10, 2)
        .unwrap()
        .with_tile(WorkAxis::Token, 3)
        .unwrap()
        .with_scratch_bytes(9);
    assert_eq!(plan.kernel, "k");
    assert_eq!(plan.grid, WorkGrid { items: 10, threads_per_group: 2 });
    assert_eq!(plan.tiles, vec![WorkTile { axis: WorkAxis::Token, items: 3 }]);
    assert_eq!(plan.scratch_bytes, 9);
    let err = KernelPlan::new("k", 10, 2).unwrap().with_tile(WorkAxis::Token, 0).unwrap_err();
    assert_eq!(err, "kernel tile size must be positive");
}

#[test]
fn packed_linear_rules_and_sizes() {
    let mut l = linear(100, 3, 4);
    l.validate().unwrap();
    assert_eq!(l.packed_bytes(), 150);
    assert_eq!(l.groups_per_row(), 2);
    l.bits = 5;
    assert_eq!(l.validate().unwrap_err(), "packed KDA linear bits must be 4 or 8, got 5");
    l.group_size = 0;
    assert_eq!(l.validate().unwrap_err(), "packed KDA linear dimensions must be positive");
    let odd = linear(3, 2, 4);
    assert_eq!(odd.packed_bytes(), 4);
}

#[test]
fn affine_plan_rules() {
    let affine = PackedAffinePlan::apple_simd();
    let bad = linear(100, 8, 4);
    assert_eq!(
        affine.validate(bad).unwrap_err(),
        "packed affine input width must be divisible by input tile"
    );
    let zero = PackedAffinePlan { token_tile: 0, ..affine };
    assert_eq!(
        zero.validate(linear(128, 8, 4)).unwrap_err(),
        "packed affine schedule dimensions must be positive"
    );
    let plan = affine.kernel_plan("proj", 3, linear(128, 8, 4)).unwrap();
    assert_eq!(plan.grid, WorkGrid { items: 24, threads_per_group: 256 });
    assert_eq!(plan.tiles.len(), 3);
    assert_eq!(
        affine.kernel_plan("proj", usize::MAX, linear(128, 8, 4)).unwrap_err(),
        "packed affine dispatch size overflow"
    );
    assert_eq!(
        affine.kernel_plan("proj", 0, linear(128, 8, 4)).unwrap_err(),
        "kernel work grid dimensions must be positive"
    );
}

#[test]
fn forward_request_reports_output_width() {
    let tensor = KdaTensorLayout::new(1, 4, 2, 8, 8).unwrap();
    let request = KdaForwardRequest {
        tensor,
        qkv: linear(64, 47, 8),
        control: linear(64, 64, 8),
        output: linear(64, 64, 8),
        seed: 1,
    };
    assert_eq!(
        request.validate().unwrap_err(),
        "KDA QKV output width must be 48, got 47"
    );
    let mismatch = KdaForwardRequest {
        output: linear(32, 64, 8),
        ..request
    };
    assert_eq!(mismatch.validate().unwrap_err(), "KDA projection input widths do not match");
    assert_eq!(request.qkv_output_width(), 48);
    assert_eq!(request.projection_dispatch_threads(), 192);
    assert_eq!(request.recurrence_dispatch_threads(), 16);
    assert_eq!(
        KdaTensorLayout::new(1, 0, 2, 8, 8).unwrap_err(),
        "KDA tensor dimensions must be positive"
    );
}

#[test]
fn encoder_keeps_its_request() {
    let tensor = KdaTensorLayout::new(2, 3, 4, 5, 6).unwrap();
    let request = KdaForwardRequest {
        tensor,
        qkv: linear(64, 60, 8),
        control: linear(64, 64, 8),
        output: linear(64, 64, 8),
        seed: 9,
    };
    let encoder = KdaEncoder::new(request).unwrap();
    assert_eq!(encoder.request(), request);
    let d = encoder.encode();
    assert_eq!(d[0], KdaDispatch::ProjectQkv { threads: 360 });
    assert_eq!(d[1], KdaDispatch::SplitQkv { threads: 120 });
    assert_eq!(d[2], KdaDispatch::Recur { threads: 48 });
}

#[test]
fn control_request_shapes() {
    let tensor = KdaTensorLayout::new(1, 4, 2, 8, 8).unwrap();
    let width = 16;
    let hidden = 64;
    let mut conv = linear(4, 3 * width, 8);
    conv.group_size = 4;
    let control = KdaControlRequest {
        qkv_conv: conv,
        control: linear(hidden, 2 * 5 + 2, 8),
        forget: linear(5, width, 8),
        output_gate: linear(5, width, 8),
        decay: linear(2, 1, 8),
        time_bias: linear(width, 1, 8),
        output_norm: linear(8, 1, 8),
        output: linear(width, hidden, 8),
        gate_rank: 5,
    };
    control.validate(tensor, hidden).unwrap();
    let bad = KdaControlRequest { gate_rank: 4, ..control };
    assert_eq!(
        bad.validate(tensor, hidden).unwrap_err(),
        "KDA control projection shape is invalid"
    );
    let bad_conv = KdaControlRequest { qkv_conv: linear(4, 3 * width, 8), ..control };
    assert_eq!(
        bad_conv.validate(tensor, hidden).unwrap_err(),
        "KDA QKV convolution must contain four INT8 taps per channel"
    );
}

#[test]
fn moe_layer_rules() {
    let mut l = layer();
    l.top_k = 9;
    assert_eq!(l.validate().unwrap_err(), "KDA-MoE top_k must be in 1..=min(experts, 8)");
    let mut l = layer();
    l.rms_epsilon_bits = (-1.0e-6f32).to_bits();
    assert_eq!(l.validate().unwrap_err(), "KDA-MoE RMS epsilon must be positive");
    let mut l = layer();
    l.rms_epsilon_bits = 0.0f32.to_bits();
    assert_eq!(l.validate().unwrap_err(), "KDA-MoE RMS epsilon must be positive");
    let mut l = layer();
    l.residual_scale_bits = f32::NAN.to_bits();
    assert_eq!(l.validate().unwrap_err(), "KDA-MoE numeric parameters must be finite");
    let mut l = layer();
    l.rms_epsilon_bits = f32::INFINITY.to_bits();
    assert_eq!(l.validate().unwrap_err(), "KDA-MoE numeric parameters must be finite");
    let mut l = layer();
    l.expert_up.pop();
    assert_eq!(
        l.validate().unwrap_err(),
        "KDA-MoE expert descriptor lists must be non-empty and equal in length"
    );
    let mut l = layer();
    l.expert_down[5] = linear(576, 512, 4);
    assert_eq!(
        l.validate().unwrap_err(),
        "expert down projection must map expert width to hidden width"
    );
    let l = layer();
    assert_eq!(l.hidden_elements(), 16_384 * 1_024);
    assert_eq!(l.expert_activation_elements(), 16_384 * 4 * 576);
}

#[test]
fn moe_dispatch_plans() {
    let affine = PackedAffinePlan::apple_simd();
    let p = KdaMoeDispatch::RouteExperts { threads: 5 }.kernel_plan(affine).unwrap();
    assert_eq!(p.kernel, "moe_router_topk");
    assert_eq!(p.grid, WorkGrid { items: 5, threads_per_group: 1 });
    let p = KdaMoeDispatch::MoeResidual { threads: 5 }.kernel_plan(affine).unwrap();
    assert_eq!(p.kernel, "decoder_residual");
    assert_eq!(p.tiles, vec![WorkTile { axis: WorkAxis::Input, items: 256 }]);
    assert!(KdaMoeDispatch::AttentionNorm { threads: 0 }.kernel_plan(affine).is_err());
    let p = KdaDispatch::Recur { threads: 7 }.kernel_plan(affine).unwrap();
    assert_eq!(p.scratch_bytes, 0);
    assert_eq!(p.tiles[1], WorkTile { axis: WorkAxis::Token, items: 16_384 });
}

fn trial(id: u64) -> Proposal {
    Proposal { id, slot: 1, index: 0, seed: 7, score_bits: 0, length_bits: 0 }
}

#[test]
fn resident_rounds_are_told_once() {
    let mut rounds = ResidentRounds::new(3);
    assert_eq!(rounds.check_ask(), Ok(()));
    let round = rounds.record_ask(trial(1));
    assert_eq!(round, ResidentRound { trial: trial(1), program_version: 3 });
    assert_eq!(
        rounds.check_ask().unwrap_err(),
        "tell must finish the resident forward round before ask"
    );
    assert_eq!(rounds.check_pending(round), Ok(()));
    let other = ResidentRound { trial: trial(2), program_version: 3 };
    assert_eq!(
        rounds.check_pending(other).unwrap_err(),
        "resident forward round does not match pending trial"
    );
    assert_eq!(
        rounds.take_for_tell(other).unwrap_err(),
        "resident forward round does not match pending trial"
    );
    assert_eq!(rounds.pending, Some(round));
    assert_eq!(rounds.take_for_tell(round), Ok(()));
    assert_eq!(rounds.pending, None);
    assert_eq!(rounds.take_for_tell(round).unwrap_err(), "no resident forward round is pending");
    assert_eq!(rounds.check_pending(round).unwrap_err(), "no resident forward round is pending");
    assert_eq!(rounds.check_ask(), Ok(()));
}
