use ennx::forward_metal::{
    check_causal_head, check_decode_inputs, check_hidden_input, check_kda_vectors, check_norms, check_resident_row,
    check_token, decode_layer_dispatches, kda_prefill_dispatches, moe_dispatches, norm_shape, prepare_dispatches,
    NormShape, metal_linears, DecoderShape, HeadShape,
    KdaMoeMetalMemory, MetalPackedLinear,
    MetalSeed,
};
use ennx::forward_program::{KdaForwardRequest, KdaMoeLayerRequest, KdaPackedLinear, KdaTensorLayout};

fn linear(input_width: usize, output_width: usize) -> KdaPackedLinear {
    KdaPackedLinear {
        byte_offset: 3,
        scale_offset: 5,
        bias_offset: 7,
        input_width,
        output_width,
        bits: 4,
        group_size: 64,
        element_offset: 11,
        perturb_whole: 13,
        perturb_threshold: 17,
    }
}

#[test]
fn seeds_split_into_halves() {
    let s = MetalSeed::from(0x0123_4567_89ab_cdef_u64);
    assert_eq!(s.low, 0x89ab_cdef);
    assert_eq!(s.high, 0x0123_4567);
    assert_eq!(s.enabled, 1);
    assert_eq!(MetalSeed::disabled().enabled, 0);
}

#[test]
fn device_descriptors_keep_fields() {
    let d = metal_linears(&[linear(8, 2), linear(16, 4)]);
    assert_eq!(d.len(), 2);
    assert_eq!(d[1].input_width, 16);
    assert_eq!(d[0].bits, 4);
    assert_eq!(d[0].element_offset, 11);
    assert_eq!(MetalPackedLinear::from_linear(linear(8, 2)), d[0]);
}

fn layer_request() -> KdaMoeLayerRequest {
    let tensor = KdaTensorLayout::new(2, 3, 4, 5, 6).unwrap();
    KdaMoeLayerRequest {
        kda: KdaForwardRequest {
            tensor,
            qkv: linear(64, 60),
            control: linear(64, 64),
            output: linear(64, 64),
            seed: 1,
        },
        attention_norm: linear(64, 1),
        moe_norm: linear(64, 1),
        router: linear(64, 2),
        expert_gate: vec![linear(64, 10); 2],
        expert_up: vec![linear(64, 10); 2],
        expert_down: vec![linear(10, 64); 2],
        top_k: 2,
        residual_scale_bits: 1.0f32.to_bits(),
        rms_epsilon_bits: 1.0e-5f32.to_bits(),
    }
}

#[test]
fn memory_sizes() {
    let request = layer_request();
    let m = KdaMoeMetalMemory::for_layer(&request).unwrap();
    assert_eq!(m.hidden_elements, 384);
    assert_eq!(m.qkv_elements, 1152);
    assert_eq!(m.recurrence_state_elements, 240);
    assert_eq!(m.route_elements, 12);
    assert_eq!(m.expert_activation_elements, 120);
}

#[test]
fn decode_layer_dispatch_plan() {
    let shape = DecoderShape {
        batch: 1,
        length: 1,
        hidden_width: 2048,
        experts: 64,
        top_k: 8,
        expert_width: 512,
        heads: 16,
        key_width: 128,
        value_width: 128,
        gate_rank: 64,
    };
    let plan = decode_layer_dispatches(shape).unwrap();
    assert_eq!(plan.len(), 19);
    assert_eq!((plan[0].kernel, plan[0].size, plan[0].group), ("decoder_rms_norm", 1, 1));
    assert_eq!((plan[1].kernel, plan[1].size), ("decoder_project_packed_simd", 196_608));
    assert_eq!((plan[3].kernel, plan[3].size), ("kda_split_qkv_16k", 2048));
    assert_eq!((plan[4].size, plan[4].group), (16, 32));
    assert_eq!(plan[6].size, 144);
    assert_eq!(plan[10].size, 2048);
    assert!(plan[15].whole_groups);
    assert_eq!((plan[15].kernel, plan[15].size, plan[15].group), ("moe_router_topk_simd", 1, 512));
    assert_eq!(plan[16].size, 131_072);
    assert_eq!((plan[18].kernel, plan[18].size), ("decoder_residual", 2048));
    assert_eq!(
        decode_layer_dispatches(DecoderShape { batch: 2, ..shape }).unwrap_err(),
        "resident layer decode currently requires shape [1, 1, hidden]"
    );
}

#[test]
fn decoder_shapes_narrow_to_u32() {
    let request = layer_request();
    let shape = DecoderShape::for_layer(&request, 7).unwrap();
    assert_eq!(
        shape,
        DecoderShape {
            batch: 2,
            length: 3,
            hidden_width: 64,
            experts: 2,
            top_k: 2,
            expert_width: 10,
            heads: 4,
            key_width: 5,
            value_width: 6,
            gate_rank: 7,
        }
    );
    let mut wide = layer_request();
    wide.top_k = 1 << 40;
    wide.kda.tensor.heads = 1 << 40;
    assert_eq!(DecoderShape::for_layer(&wide, 7).unwrap_err(), "top_k exceeds u32");
    assert_eq!(
        DecoderShape::for_layer(&request, 1 << 33).unwrap_err(),
        "KDA gate rank exceeds u32"
    );
    assert_eq!(check_kda_vectors(4, 64, 6, request.kda.tensor, 64), Ok(()));
    assert_eq!(
        check_kda_vectors(4, 63, 6, request.kda.tensor, 64).unwrap_err(),
        "KDA vector dimensions do not match the tensor layout"
    );
}

#[test]
fn causal_head_checks() {
    let head = check_causal_head(linear(64, 1000), linear(64, 1), 1.0f32.to_bits(), 64).unwrap();
    assert_eq!(head, HeadShape { vocab_size: 1000, hidden_width: 64 });
    assert_eq!(
        check_causal_head(linear(32, 1000), linear(64, 1), 1.0f32.to_bits(), 64).unwrap_err(),
        "embedding hidden width does not match decoder"
    );
    assert_eq!(
        check_causal_head(linear(64, 1000), linear(64, 2), 1.0f32.to_bits(), 64).unwrap_err(),
        "final norm must be a hidden-width vector"
    );
    assert_eq!(
        check_causal_head(linear(64, 1000), linear(64, 1), f32::INFINITY.to_bits(), 64).unwrap_err(),
        "embedding scale must be finite"
    );
    let mut bad = linear(64, 1000);
    bad.bits = 2;
    assert_eq!(
        check_causal_head(bad, linear(64, 1), 1.0f32.to_bits(), 64).unwrap_err(),
        "packed KDA linear bits must be 4 or 8, got 2"
    );
    assert_eq!(check_token(Some(head), 999), Ok(()));
    assert_eq!(check_token(Some(head), 1000).unwrap_err(), "token 1000 exceeds the model vocabulary");
    assert_eq!(check_token(None, 0).unwrap_err(), "resident KDA-MoE model has no causal head");
}

#[test]
fn resident_inputs_are_checked() {
    assert_eq!(check_resident_row(64, 64, 128, 192), Ok(()));
    assert_eq!(
        check_resident_row(32, 64, 0, 1024).unwrap_err(),
        "resident row has 32 bytes, needs at least 64"
    );
    assert_eq!(
        check_resident_row(64, 64, 2, 1024).unwrap_err(),
        "resident row offset must be four-byte aligned"
    );
    assert_eq!(
        check_resident_row(usize::MAX, 64, usize::MAX - 3, usize::MAX).unwrap_err(),
        "resident row offset overflow"
    );
    assert_eq!(
        check_resident_row(64, 64, 132, 192).unwrap_err(),
        "resident row exceeds the search model arena"
    );
    assert_eq!(check_hidden_input(8, 8, true), Ok(()));
    assert_eq!(
        check_hidden_input(7, 8, true).unwrap_err(),
        "model hidden input has 7 elements, expected 8"
    );
    assert_eq!(check_hidden_input(7, 8, false).unwrap_err(), "hidden input has 7 elements, expected 8");
    assert_eq!(check_norms(16, 16, 16), Ok(()));
    assert_eq!(check_norms(16, 15, 16).unwrap_err(), "decoder norm vectors need 16 elements");
    let shape = DecoderShape {
        batch: 1,
        length: 1,
        hidden_width: 32,
        experts: 2,
        top_k: 1,
        expert_width: 8,
        heads: 2,
        key_width: 4,
        value_width: 3,
        gate_rank: 2,
    };
    assert_eq!(check_decode_inputs(shape, 8, 8, 6, 8, 2), Ok(()));
    assert_eq!(
        check_decode_inputs(shape, 8, 7, 6, 8, 2).unwrap_err(),
        "single-token query, key, and gate need 8 elements"
    );
    assert_eq!(check_decode_inputs(shape, 8, 8, 5, 8, 2).unwrap_err(), "single-token value needs 6 elements");
    assert_eq!(check_decode_inputs(shape, 8, 8, 6, 8, 1).unwrap_err(), "single-token beta needs 2 elements");
}

#[test]
fn prefill_and_expert_dispatch_plans() {
    let shape = DecoderShape {
        batch: 2,
        length: 16_384,
        hidden_width: 64,
        experts: 8,
        top_k: 2,
        expert_width: 16,
        heads: 4,
        key_width: 8,
        value_width: 16,
        gate_rank: 3,
    };
    let kda = kda_prefill_dispatches(shape).unwrap();
    assert_eq!(kda.len(), 11);
    assert_eq!((kda[0].kernel, kda[0].size), ("kda_project_packed_16k", 2 * 16_384 * 4 * 8 * 3));
    assert_eq!((kda[1].kernel, kda[1].size), ("kda_project_packed_16k", 2 * 16_384 * 10));
    assert_eq!((kda[2].kernel, kda[2].size), ("kda_split_qkv_16k", 2 * 16_384 * 4 * 8));
    assert_eq!((kda[7].kernel, kda[7].size), ("kda_recurrence_16k", 2 * 4 * 16));
    assert_eq!((kda[10].kernel, kda[10].size, kda[10].group), ("decoder_residual", 2 * 16_384 * 64, 256));
    assert_eq!(
        kda_prefill_dispatches(DecoderShape { length: 8, ..shape }).unwrap_err(),
        "the current fused KDA projection kernel requires sequence length 16384"
    );
    let moe = moe_dispatches(DecoderShape { length: 3, ..shape });
    assert_eq!(moe.len(), 4);
    assert_eq!((moe[0].kernel, moe[0].size, moe[0].group), ("moe_router_topk_simd", 6, 512));
    assert!(moe[0].whole_groups);
    assert_eq!((moe[1].kernel, moe[1].size), ("moe_gate_up_simd", 6 * 2 * 16 * 32));
    assert_eq!((moe[2].kernel, moe[2].size), ("moe_down_simd", 6 * 64 * 32));
    assert_eq!((moe[3].kernel, moe[3].size), ("decoder_residual", 6 * 64));
}

#[test]
fn rms_norm_shapes() {
    assert_eq!(
        norm_shape(384, 64, 2, 3).unwrap(),
        NormShape { batch: 2, length: 3, hidden_width: 64 }
    );
    assert_eq!(norm_shape(384, 63, 2, 3).unwrap_err(), "RMSNorm has 63 elements, expected 64");
    assert_eq!(
        norm_shape(385, 64, 2, 3).unwrap_err(),
        "RMSNorm shape does not match resident hidden buffer"
    );
}

#[test]
fn candidate_preparation() {
    let shape = DecoderShape {
        batch: 1,
        length: 1,
        hidden_width: 64,
        experts: 2,
        top_k: 1,
        expert_width: 8,
        heads: 4,
        key_width: 8,
        value_width: 16,
        gate_rank: 2,
    };
    let plan = prepare_dispatches(shape);
    let sizes: Vec<u64> = plan.iter().map(|d| d.size).collect();
    assert_eq!(sizes, vec![64, 64, 4, 64, 16]);
    assert_eq!(plan[0].kernel, "packed_dequantize_row_half");
    assert_eq!(plan[2].kernel, "packed_dequantize_row_float");
    assert_eq!(MetalSeed::for_layer(true, 42), MetalSeed::disabled());
    assert_eq!(MetalSeed::for_layer(false, 42), MetalSeed::from(42u64));
}
