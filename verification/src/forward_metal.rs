//! Device-side records of the resident KDA-MoE forward path: buffer sizes,
//! the packed-projection descriptors the kernels read, the seed block, and the
//! dispatches that decode one token through a layer.

use vstd::prelude::*;

use crate::forward_program::{
    f32_bits_finite, fits3, fits4, linear_error, moe_expert_elements, moe_hidden, KdaMoeLayerRequest,
    KdaPackedLinear, KdaTensorLayout,
};
use crate::text::{decimal, push_decimal};

verus! {

/// Sizes of the device-resident forward buffers.
#[derive(Debug, Clone, Copy, PartialEq, Eq, Structural)]
pub struct KdaMoeMetalMemory {
    pub hidden_elements: usize,
    pub qkv_elements: usize,
    pub recurrence_state_elements: usize,
    pub route_elements: usize,
    pub expert_activation_elements: usize,
}

impl KdaMoeMetalMemory {
    /// Buffer sizes of a validated decoder layer.
    pub fn for_layer(request: &KdaMoeLayerRequest) -> (r: Result<Self, String>)
        requires
            request.expert_gate@.len() > 0,
            fits3(
                request.kda.tensor.batch,
                request.kda.tensor.sequence_length,
                request.kda.qkv.input_width,
            ),
            fits4(
                request.kda.tensor.batch,
                request.kda.tensor.heads,
                request.kda.tensor.key_width,
                request.kda.tensor.value_width,
            ),
            fits4(
                request.kda.tensor.batch,
                request.kda.tensor.sequence_length,
                request.top_k,
                request.expert_gate@[0].output_width,
            ),
        ensures
            ({
                let t = request.kda.tensor;
                if moe_hidden(*request) * 3 > usize::MAX {
                    r matches Err(e) && e@ == "KDA-MoE QKV buffer size overflow"@
                } else if t.batch * t.sequence_length * request.top_k > usize::MAX {
                    r matches Err(e) && e@ == "KDA-MoE route buffer size overflow"@
                } else {
                    r matches Ok(m) && m == (KdaMoeMetalMemory {
                        hidden_elements: moe_hidden(*request) as usize,
                        qkv_elements: (moe_hidden(*request) * 3) as usize,
                        recurrence_state_elements: (t.batch * t.heads * t.key_width
                            * t.value_width) as usize,
                        route_elements: (t.batch * t.sequence_length * request.top_k) as usize,
                        expert_activation_elements: moe_expert_elements(*request) as usize,
                    })
                }
            }),
    {
        let tensor = request.kda.tensor;
        let hidden_elements = request.hidden_elements();
        let qkv_elements = match hidden_elements.checked_mul(3) {
            Some(n) => n,
            None => return Err(String::from_str("KDA-MoE QKV buffer size overflow")),
        };
        let recurrence_state_elements = tensor.state_elements();
        let route_elements = match tensor.batch.checked_mul(tensor.sequence_length) {
            Some(n) => match n.checked_mul(request.top_k) {
                Some(n) => n,
                None => return Err(String::from_str("KDA-MoE route buffer size overflow")),
            },
            None => return Err(String::from_str("KDA-MoE route buffer size overflow")),
        };
        let expert_activation_elements = request.expert_activation_elements();
        Ok(KdaMoeMetalMemory {
            hidden_elements,
            qkv_elements,
            recurrence_state_elements,
            route_elements,
            expert_activation_elements,
        })
    }
}

/// The 32-bit packed-projection descriptor that the Metal kernels read.
#[derive(Debug, Clone, Copy, PartialEq, Eq, Structural)]
pub struct MetalPackedLinear {
    pub byte_offset: u32,
    pub scale_offset: u32,
    pub bias_offset: u32,
    pub input_width: u32,
    pub output_width: u32,
    pub bits: u32,
    pub group_size: u32,
    pub element_offset: u32,
    pub perturb_whole: u32,
    pub perturb_threshold: u32,
}

/// Every offset and width of `l` fits the 32-bit device descriptor.
pub open spec fn fits_device(l: KdaPackedLinear) -> bool {
    &&& l.byte_offset <= u32::MAX
    &&& l.scale_offset <= u32::MAX
    &&& l.bias_offset <= u32::MAX
    &&& l.input_width <= u32::MAX
    &&& l.output_width <= u32::MAX
    &&& l.group_size <= u32::MAX
    &&& l.element_offset <= u32::MAX
}

/// The device descriptor with the same fields as `l`.
pub open spec fn device_linear(l: KdaPackedLinear) -> MetalPackedLinear {
    MetalPackedLinear {
        byte_offset: l.byte_offset as u32,
        scale_offset: l.scale_offset as u32,
        bias_offset: l.bias_offset as u32,
        input_width: l.input_width as u32,
        output_width: l.output_width as u32,
        bits: l.bits as u32,
        group_size: l.group_size as u32,
        element_offset: l.element_offset as u32,
        perturb_whole: l.perturb_whole,
        perturb_threshold: l.perturb_threshold,
    }
}

impl MetalPackedLinear {
    /// Narrows a packed projection to its device descriptor.
    pub fn from_linear(value: KdaPackedLinear) -> (r: Self)
        requires
            fits_device(value),
        ensures
            r == device_linear(value),
    {
        Self {
            byte_offset: value.byte_offset as u32,
            scale_offset: value.scale_offset as u32,
            bias_offset: value.bias_offset as u32,
            input_width: value.input_width as u32,
            output_width: value.output_width as u32,
            bits: value.bits as u32,
            group_size: value.group_size as u32,
            element_offset: value.element_offset as u32,
            perturb_whole: value.perturb_whole,
            perturb_threshold: value.perturb_threshold,
        }
    }
}

/// Device descriptors of a list of packed projections, in order.
pub fn metal_linears(linears: &[KdaPackedLinear]) -> (r: Vec<MetalPackedLinear>)
    requires
        forall|i: int| 0 <= i < linears@.len() ==> fits_device(#[trigger] linears@[i]),
    ensures
        r@.len() == linears@.len(),
        forall|i: int| 0 <= i < linears@.len() ==> #[trigger] r@[i] == device_linear(linears@[i]),
{
    let mut out: Vec<MetalPackedLinear> = Vec::with_capacity(linears.len());
    let mut i: usize = 0;
    while i < linears.len()
        invariant
            i <= linears@.len(),
            forall|j: int| 0 <= j < linears@.len() ==> fits_device(#[trigger] linears@[j]),
            out@.len() == i,
            forall|j: int| 0 <= j < i ==> #[trigger] out@[j] == device_linear(linears@[j]),
        decreases linears@.len() - i,
    {
        out.push(MetalPackedLinear::from_linear(linears[i]));
        i = i + 1;
    }
    out
}

/// Seed block handed to the perturbation kernels: the 64-bit seed split into
/// halves, and whether perturbation is enabled.
#[derive(Clone, Copy, Debug, PartialEq, Eq, Structural)]
pub struct MetalSeed {
    pub low: u32,
    pub high: u32,
    pub enabled: u32,
    pub padding: u32,
}

/// The enabled seed block for `value`: its low and high 32-bit halves.
pub open spec fn seed_block(value: u64) -> MetalSeed {
    MetalSeed {
        low: (value % 0x1_0000_0000) as u32,
        high: (value / 0x1_0000_0000) as u32,
        enabled: 1,
        padding: 0,
    }
}

impl From<u64> for MetalSeed {
    fn from(value: u64) -> (r: Self) {
        Self {
            low: (value % 0x1_0000_0000) as u32,
            high: (value / 0x1_0000_0000) as u32,
            enabled: 1,
            padding: 0,
        }
    }
}

impl vstd::std_specs::convert::FromSpecImpl<u64> for MetalSeed {
    open spec fn obeys_from_spec() -> bool {
        true
    }

    open spec fn from_spec(value: u64) -> MetalSeed {
        seed_block(value)
    }
}

impl MetalSeed {
    /// A seed block that turns perturbation off.
    pub fn disabled() -> (r: Self)
        ensures
            r == (MetalSeed { low: 0, high: 0, enabled: 0, padding: 0 }),
    {
        Self { low: 0, high: 0, enabled: 0, padding: 0 }
    }

    /// The seed block a layer perturbs with: none when its weights come from
    /// a resident search row (the row already holds the candidate), else the
    /// block of `value`.
    pub fn for_layer(resident_row: bool, value: u64) -> (r: Self)
        ensures
            r == if resident_row {
                MetalSeed { low: 0, high: 0, enabled: 0, padding: 0 }
            } else {
                seed_block(value)
            },
    {
        if resident_row {
            MetalSeed::disabled()
        } else {
            MetalSeed::from(value)
        }
    }
}

/// The shape parameters a resident decoder layer runs with: the batch and
/// sequence length, the hidden width, the expert count, the routing fan-out
/// and expert width, and the attention heads with their key and value widths
/// and gate rank.
#[derive(Debug, Clone, Copy, PartialEq, Eq, Structural)]
pub struct DecoderShape {
    pub batch: u32,
    pub length: u32,
    pub hidden_width: u32,
    pub experts: u32,
    pub top_k: u32,
    pub expert_width: u32,
    pub heads: u32,
    pub key_width: u32,
    pub value_width: u32,
    pub gate_rank: u32,
}

/// One compute dispatch: the kernel, the number of threads (of threadgroups
/// when `whole_groups`), and the threads per group.
#[derive(Debug, Clone, Copy, PartialEq, Eq)]
pub struct MetalDispatch {
    pub kernel: &'static str,
    pub size: u64,
    pub group: u64,
    pub whole_groups: bool,
}

/// A dispatch as plain values: kernel name, size, group width and whether
/// the size counts whole groups.
pub open spec fn dispatch_view(d: MetalDispatch) -> (Seq<char>, int, int, bool) {
    (d.kernel@, d.size as int, d.group as int, d.whole_groups)
}

/// The dispatches that decode one token through a layer of shape `s`, in
/// order: attention norm, the QKV projection, short convolution, split and
/// normalisation, the control projection and split, the forget and output
/// gate projections, gate and beta, the recurrent step, post-processing, the
/// output projection and residual; then the MoE norm, routing, expert gate-up
/// and down projections and the second residual. Each packed projection runs
/// 32 threads per output value.
pub open spec fn decode_layer_plan(s: DecoderShape) -> Seq<(Seq<char>, int, int, bool)> {
    let hidden = s.hidden_width as int;
    let qkv = 3 * s.heads * s.key_width;
    let control = 2 * s.gate_rank + s.heads;
    seq![
        ("decoder_rms_norm"@, 1int, 1int, false),
        ("decoder_project_packed_simd"@, qkv * 32, 256int, false),
        ("kda_short_conv_decode"@, qkv, 256int, false),
        ("kda_split_qkv_16k"@, s.heads * s.key_width, 256int, false),
        ("kda_normalize_qk"@, s.heads as int, 32int, false),
        ("decoder_project_packed_simd"@, control * 32, 256int, false),
        ("kda_split_control_16k"@, control, 256int, false),
        ("decoder_project_packed_simd"@, hidden * 32, 256int, false),
        ("decoder_project_packed_simd"@, hidden * 32, 256int, false),
        ("kda_make_gate_beta_16k"@, hidden, 256int, false),
        ("kda_decode_step"@, s.heads * s.value_width, 256int, false),
        ("kda_postprocess_16k"@, hidden, 256int, false),
        ("decoder_project_packed_simd"@, hidden * 32, 256int, false),
        ("decoder_residual"@, hidden, 256int, false),
        ("decoder_rms_norm"@, 1int, 1int, false),
        ("moe_router_topk_simd"@, 1int, 512int, true),
        ("moe_gate_up_simd"@, s.top_k * s.expert_width * 32, 256int, false),
        ("moe_down_simd"@, hidden * 32, 256int, false),
        ("decoder_residual"@, hidden, 256int, false),
    ]
}

/// A dispatch of `size` threads, `group` to a group.
fn threads(kernel: &'static str, size: u64, group: u64) -> (r: MetalDispatch)
    ensures
        r == (MetalDispatch { kernel, size, group, whole_groups: false }),
{
    MetalDispatch { kernel, size, group, whole_groups: false }
}

/// The dispatches that decode one token through a layer of shape `s`. Only a
/// single token of a single sequence can be decoded in place.
pub fn decode_layer_dispatches(s: DecoderShape) -> (r: Result<Vec<MetalDispatch>, String>)
    requires
        s.batch == 1 && s.length == 1 ==> 3 * s.heads * s.key_width * 32 <= u64::MAX,
        s.batch == 1 && s.length == 1 ==> s.top_k * s.expert_width * 32 <= u64::MAX,
    ensures
        match r {
            Ok(plan) => {
                &&& s.batch == 1
                &&& s.length == 1
                &&& plan@.map_values(|d: MetalDispatch| dispatch_view(d)) == decode_layer_plan(s)
            },
            Err(e) => (s.batch != 1 || s.length != 1) && e@
                == "resident layer decode currently requires shape [1, 1, hidden]"@,
        },
{
    if s.batch != 1 || s.length != 1 {
        return Err(String::from_str("resident layer decode currently requires shape [1, 1, hidden]"));
    }
    assert(s.batch as u64 == 1 && s.length as u64 == 1);
    let tokens: u64 = s.batch as u64 * s.length as u64;
    let hidden: u64 = tokens * s.hidden_width as u64;
    proof {
        assert(s.heads * s.key_width * 3 * 32 <= u64::MAX && s.heads * s.key_width <= u64::MAX) by (nonlinear_arith)
            requires
                3 * s.heads * s.key_width * 32 <= u64::MAX,
        ;
        assert(s.heads * s.value_width <= 0xffff_ffff * 0xffff_ffffint) by (nonlinear_arith)
            requires
                s.heads <= 0xffff_ffff,
                s.value_width <= 0xffff_ffff,
        ;
    }
    let qkv_width: u64 = s.heads as u64 * s.key_width as u64 * 3;
    let qkv_elements: u64 = qkv_width / 3;
    let control_width: u64 = 2 * s.gate_rank as u64 + s.heads as u64;
    let recurrence_columns: u64 = s.batch as u64 * s.heads as u64 * s.value_width as u64;
    proof {
        assert(s.top_k * s.expert_width <= s.top_k * s.expert_width * 32) by (nonlinear_arith);
    }
    let expert_activations: u64 = tokens * s.top_k as u64 * s.expert_width as u64;
    let mut plan: Vec<MetalDispatch> = Vec::new();
    plan.push(threads("decoder_rms_norm", tokens, 1));
    plan.push(threads("decoder_project_packed_simd", tokens * qkv_width * 32, 256));
    plan.push(threads("kda_short_conv_decode", qkv_width, 256));
    plan.push(threads("kda_split_qkv_16k", qkv_elements, 256));
    plan.push(threads("kda_normalize_qk", s.batch as u64 * s.heads as u64, 32));
    plan.push(threads("decoder_project_packed_simd", tokens * control_width * 32, 256));
    plan.push(threads("kda_split_control_16k", tokens * control_width, 256));
    plan.push(threads("decoder_project_packed_simd", hidden * 32, 256));
    plan.push(threads("decoder_project_packed_simd", hidden * 32, 256));
    plan.push(threads("kda_make_gate_beta_16k", hidden, 256));
    plan.push(threads("kda_decode_step", recurrence_columns, 256));
    plan.push(threads("kda_postprocess_16k", hidden, 256));
    plan.push(threads("decoder_project_packed_simd", hidden * 32, 256));
    plan.push(threads("decoder_residual", hidden, 256));
    plan.push(threads("decoder_rms_norm", tokens, 1));
    plan.push(MetalDispatch { kernel: "moe_router_topk_simd", size: tokens, group: 512, whole_groups: true });
    plan.push(threads("moe_gate_up_simd", expert_activations * 32, 256));
    plan.push(threads("moe_down_simd", hidden * 32, 256));
    plan.push(threads("decoder_residual", hidden, 256));
    proof {
        assert(qkv_width == 3 * s.heads * s.key_width) by (nonlinear_arith)
            requires
                qkv_width == s.heads * s.key_width * 3,
        ;
        assert(qkv_elements == s.heads * s.key_width);
        assert(recurrence_columns == s.heads * s.value_width) by (nonlinear_arith)
            requires
                recurrence_columns == s.batch * s.heads * s.value_width,
                s.batch == 1,
        ;
        assert(expert_activations == s.top_k * s.expert_width) by (nonlinear_arith)
            requires
                expert_activations == tokens * s.top_k * s.expert_width,
                tokens == 1,
        ;
        assert(hidden == s.hidden_width);
        let v = plan@.map_values(|d: MetalDispatch| dispatch_view(d));
        let w = decode_layer_plan(s);
        assert(v.len() == w.len());
        assert forall|i: int| 0 <= i < v.len() implies v[i] == w[i] by {
            assert(v[i] == dispatch_view(plan@[i]));
        }
        assert(v =~= w);
    }
    Ok(plan)
}

/// Narrows `value` to 32 bits, or refuses with `message`.
fn narrow(value: usize, message: &str) -> (r: Result<u32, String>)
    ensures
        match r {
            Ok(v) => value <= u32::MAX && v == value,
            Err(e) => value > u32::MAX && e@ == message@,
        },
{
    if value <= 4_294_967_295 {
        Ok(value as u32)
    } else {
        Err(String::from_str(message))
    }
}

/// The checks that narrow a layer's dimensions to the device parameters, in
/// order: each value with the message that refuses it when it exceeds 32
/// bits.
pub open spec fn shape_checks(request: KdaMoeLayerRequest, gate_rank: usize) -> Seq<(usize, Seq<char>)> {
    let t = request.kda.tensor;
    seq![
        (t.batch, "batch exceeds u32"@),
        (t.sequence_length, "sequence length exceeds u32"@),
        (request.kda.qkv.input_width, "hidden width exceeds u32"@),
        (request.expert_gate@.len() as usize, "expert count exceeds u32"@),
        (request.top_k, "top_k exceeds u32"@),
        (request.expert_gate@[0].output_width, "expert width exceeds u32"@),
        (t.heads, "head count exceeds u32"@),
        (t.key_width, "key width exceeds u32"@),
        (t.value_width, "value width exceeds u32"@),
        (gate_rank, "KDA gate rank exceeds u32"@),
    ]
}

/// The message of the first check of `checks` that fails, if one does.
pub open spec fn first_too_wide(checks: Seq<(usize, Seq<char>)>) -> Option<Seq<char>>
    decreases checks.len(),
{
    if checks.len() == 0 {
        None
    } else if checks[0].0 > u32::MAX {
        Some(checks[0].1)
    } else {
        first_too_wide(checks.drop_first())
    }
}

impl DecoderShape {
    /// The device parameters of a decoder layer with gate rank `gate_rank`:
    /// every dimension must fit in 32 bits, and the first that does not
    /// decides the error.
    pub fn for_layer(request: &KdaMoeLayerRequest, gate_rank: usize) -> (r: Result<Self, String>)
        requires
            request.expert_gate@.len() > 0,
        ensures
            match r {
                Ok(s) => {
                    &&& first_too_wide(shape_checks(*request, gate_rank)) is None
                    &&& s.batch == request.kda.tensor.batch
                    &&& s.length == request.kda.tensor.sequence_length
                    &&& s.hidden_width == request.kda.qkv.input_width
                    &&& s.experts == request.expert_gate@.len()
                    &&& s.top_k == request.top_k
                    &&& s.expert_width == request.expert_gate@[0].output_width
                    &&& s.heads == request.kda.tensor.heads
                    &&& s.key_width == request.kda.tensor.key_width
                    &&& s.value_width == request.kda.tensor.value_width
                    &&& s.gate_rank == gate_rank
                },
                Err(e) => first_too_wide(shape_checks(*request, gate_rank)) == Some(e@),
            },
    {
        let ghost c = shape_checks(*request, gate_rank);
        proof {
            reveal_with_fuel(first_too_wide, 11);
        }
        let t = request.kda.tensor;
        let batch = match narrow(t.batch, "batch exceeds u32") {
            Ok(v) => v,
            Err(e) => {
                return Err(e);
            },
        };
        let length = match narrow(t.sequence_length, "sequence length exceeds u32") {
            Ok(v) => v,
            Err(e) => {
                return Err(e);
            },
        };
        let hidden_width = match narrow(request.kda.qkv.input_width, "hidden width exceeds u32") {
            Ok(v) => v,
            Err(e) => {
                return Err(e);
            },
        };
        let experts = match narrow(request.expert_gate.len(), "expert count exceeds u32") {
            Ok(v) => v,
            Err(e) => {
                return Err(e);
            },
        };
        let top_k = match narrow(request.top_k, "top_k exceeds u32") {
            Ok(v) => v,
            Err(e) => {
                return Err(e);
            },
        };
        let expert_width = match narrow(request.expert_gate[0].output_width, "expert width exceeds u32") {
            Ok(v) => v,
            Err(e) => {
                return Err(e);
            },
        };
        let heads = match narrow(t.heads, "head count exceeds u32") {
            Ok(v) => v,
            Err(e) => {
                return Err(e);
            },
        };
        let key_width = match narrow(t.key_width, "key width exceeds u32") {
            Ok(v) => v,
            Err(e) => {
                return Err(e);
            },
        };
        let value_width = match narrow(t.value_width, "value width exceeds u32") {
            Ok(v) => v,
            Err(e) => {
                return Err(e);
            },
        };
        let gate_rank32 = match narrow(gate_rank, "KDA gate rank exceeds u32") {
            Ok(v) => v,
            Err(e) => {
                return Err(e);
            },
        };
        Ok(DecoderShape {
            batch,
            length,
            hidden_width,
            experts,
            top_k,
            expert_width,
            heads,
            key_width,
            value_width,
            gate_rank: gate_rank32,
        })
    }
}

/// Checks the lengths of the per-head decay, the per-channel time bias and
/// the output norm against the tensor layout and hidden width.
pub fn check_kda_vectors(
    decay_len: usize,
    time_bias_len: usize,
    output_norm_len: usize,
    tensor: KdaTensorLayout,
    hidden: usize,
) -> (r: Result<(), String>)
    ensures
        match r {
            Ok(()) => decay_len == tensor.heads && time_bias_len == hidden && output_norm_len == tensor.value_width,
            Err(e) => !(decay_len == tensor.heads && time_bias_len == hidden && output_norm_len == tensor.value_width)
                && e@ == "KDA vector dimensions do not match the tensor layout"@,
        },
{
    if decay_len != tensor.heads || time_bias_len != hidden || output_norm_len != tensor.value_width {
        return Err(String::from_str("KDA vector dimensions do not match the tensor layout"));
    }
    Ok(())
}

/// The device parameters of a causal head: vocabulary size and hidden width.
#[derive(Debug, Clone, Copy, PartialEq, Eq, Structural)]
pub struct HeadShape {
    pub vocab_size: u32,
    pub hidden_width: u32,
}

/// Why a causal head with embedding `embedding`, final norm `final_norm` and
/// embedding scale bits `scale_bits` cannot sit on a decoder of
/// `hidden` elements, if it cannot.
pub open spec fn head_error(
    embedding: KdaPackedLinear,
    final_norm: KdaPackedLinear,
    scale_bits: u32,
    hidden: usize,
) -> Option<Seq<char>> {
    if linear_error(embedding) is Some {
        linear_error(embedding)
    } else if linear_error(final_norm) is Some {
        linear_error(final_norm)
    } else if embedding.input_width != hidden {
        Some("embedding hidden width does not match decoder"@)
    } else if final_norm.input_width != hidden || final_norm.output_width != 1 {
        Some("final norm must be a hidden-width vector"@)
    } else if !f32_bits_finite(scale_bits) {
        Some("embedding scale must be finite"@)
    } else if embedding.output_width > u32::MAX {
        Some("vocabulary exceeds u32"@)
    } else if hidden > u32::MAX {
        Some("hidden width exceeds u32"@)
    } else {
        None
    }
}

/// Checks a causal head for a decoder of `hidden` elements: both
/// projections valid, the embedding reading and the final norm holding one
/// hidden-width row, a finite embedding scale, and sizes that fit in 32 bits.
pub fn check_causal_head(
    embedding: KdaPackedLinear,
    final_norm: KdaPackedLinear,
    scale_bits: u32,
    hidden: usize,
) -> (r: Result<HeadShape, String>)
    ensures
        match r {
            Ok(h) => head_error(embedding, final_norm, scale_bits, hidden) is None && h.vocab_size
                == embedding.output_width && h.hidden_width == hidden,
            Err(e) => head_error(embedding, final_norm, scale_bits, hidden) == Some(e@),
        },
{
    match embedding.validate() {
        Ok(()) => {},
        Err(e) => {
            return Err(e);
        },
    }
    match final_norm.validate() {
        Ok(()) => {},
        Err(e) => {
            return Err(e);
        },
    }
    if embedding.input_width != hidden {
        return Err(String::from_str("embedding hidden width does not match decoder"));
    }
    if final_norm.input_width != hidden || final_norm.output_width != 1 {
        return Err(String::from_str("final norm must be a hidden-width vector"));
    }
    if scale_bits % 0x8000_0000 >= 0x7f80_0000 {
        return Err(String::from_str("embedding scale must be finite"));
    }
    let vocab_size = match narrow(embedding.output_width, "vocabulary exceeds u32") {
        Ok(v) => v,
        Err(e) => {
            return Err(e);
        },
    };
    let hidden_width = match narrow(hidden, "hidden width exceeds u32") {
        Ok(v) => v,
        Err(e) => {
            return Err(e);
        },
    };
    Ok(HeadShape { vocab_size, hidden_width })
}

/// The message that refuses token `token`.
pub open spec fn token_message(token: u32) -> Seq<char> {
    "token "@ + decimal(token as nat) + " exceeds the model vocabulary"@
}

/// Checks a token to decode against the causal head, if one is attached.
pub fn check_token(head: Option<HeadShape>, token: u32) -> (r: Result<(), String>)
    ensures
        match r {
            Ok(()) => head is Some && token < head->0.vocab_size,
            Err(e) => match head {
                None => e@ == "resident KDA-MoE model has no causal head"@,
                Some(h) => token >= h.vocab_size && e@ == token_message(token),
            },
        },
{
    let h = match head {
        Some(h) => h,
        None => {
            return Err(String::from_str("resident KDA-MoE model has no causal head"));
        },
    };
    if token >= h.vocab_size {
        let mut msg = String::from_str("token ");
        push_decimal(&mut msg, token as u64);
        msg.append(" exceeds the model vocabulary");
        proof {
            reveal_strlit("token ");
            reveal_strlit(" exceeds the model vocabulary");
            assert(msg@ =~= token_message(token));
        }
        return Err(msg);
    }
    Ok(())
}

/// Why a packed row of `row_bytes` bytes at byte `offset` of an arena of
/// `arena_len` bytes cannot stand in for weights of `packed_bytes` bytes, if
/// it cannot.
pub open spec fn resident_row_error(row_bytes: usize, packed_bytes: usize, offset: usize, arena_len: usize) -> Option<
    Seq<char>,
> {
    if row_bytes < packed_bytes {
        Some("resident row has "@ + decimal(row_bytes as nat) + " bytes, needs at least "@ + decimal(
            packed_bytes as nat,
        ))
    } else if offset % 4 != 0 {
        Some("resident row offset must be four-byte aligned"@)
    } else if offset + packed_bytes > usize::MAX {
        Some("resident row offset overflow"@)
    } else if offset + packed_bytes > arena_len {
        Some("resident row exceeds the search model arena"@)
    } else {
        None
    }
}

/// Checks a resident search row before a layer reads its weights from it.
pub fn check_resident_row(row_bytes: usize, packed_bytes: usize, offset: usize, arena_len: usize) -> (r: Result<
    (),
    String,
>)
    ensures
        match r {
            Ok(()) => resident_row_error(row_bytes, packed_bytes, offset, arena_len) is None,
            Err(e) => resident_row_error(row_bytes, packed_bytes, offset, arena_len) == Some(e@),
        },
{
    if row_bytes < packed_bytes {
        let mut msg = String::from_str("resident row has ");
        push_decimal(&mut msg, row_bytes as u64);
        msg.append(" bytes, needs at least ");
        push_decimal(&mut msg, packed_bytes as u64);
        proof {
            reveal_strlit("resident row has ");
            reveal_strlit(" bytes, needs at least ");
            assert(msg@ =~= "resident row has "@ + decimal(row_bytes as nat) + " bytes, needs at least "@ + decimal(
                packed_bytes as nat,
            ));
        }
        return Err(msg);
    }
    if offset % 4 != 0 {
        return Err(String::from_str("resident row offset must be four-byte aligned"));
    }
    let end = match offset.checked_add(packed_bytes) {
        Some(end) => end,
        None => {
            return Err(String::from_str("resident row offset overflow"));
        },
    };
    if end > arena_len {
        return Err(String::from_str("resident row exceeds the search model arena"));
    }
    Ok(())
}

/// The message that refuses a hidden input of `len` elements where
/// `expected` are needed, for a whole model or a single layer.
pub open spec fn hidden_input_message(len: nat, expected: nat, whole_model: bool) -> Seq<char> {
    (if whole_model {
        "model hidden input has "@
    } else {
        "hidden input has "@
    }) + decimal(len) + " elements, expected "@ + decimal(expected)
}

/// Checks the length of a hidden input for a whole model or a single layer.
pub fn check_hidden_input(len: usize, expected: usize, whole_model: bool) -> (r: Result<(), String>)
    ensures
        match r {
            Ok(()) => len == expected,
            Err(e) => len != expected && e@ == hidden_input_message(len as nat, expected as nat, whole_model),
        },
{
    if len != expected {
        let mut msg = if whole_model {
            String::from_str("model hidden input has ")
        } else {
            String::from_str("hidden input has ")
        };
        push_decimal(&mut msg, len as u64);
        msg.append(" elements, expected ");
        push_decimal(&mut msg, expected as u64);
        proof {
            reveal_strlit("model hidden input has ");
            reveal_strlit("hidden input has ");
            reveal_strlit(" elements, expected ");
            assert(msg@ =~= hidden_input_message(len as nat, expected as nat, whole_model));
        }
        return Err(msg);
    }
    Ok(())
}

/// Checks that both decoder norm vectors hold `width` elements.
pub fn check_norms(attention_len: usize, moe_len: usize, width: u32) -> (r: Result<(), String>)
    ensures
        match r {
            Ok(()) => attention_len == width && moe_len == width,
            Err(e) => !(attention_len == width && moe_len == width) && e@ == "decoder norm vectors need "@ + decimal(
                width as nat,
            ) + " elements"@,
        },
{
    if attention_len != width as usize || moe_len != width as usize {
        let mut msg = String::from_str("decoder norm vectors need ");
        push_decimal(&mut msg, width as u64);
        msg.append(" elements");
        proof {
            reveal_strlit("decoder norm vectors need ");
            reveal_strlit(" elements");
            assert(msg@ =~= "decoder norm vectors need "@ + decimal(width as nat) + " elements"@);
        }
        return Err(msg);
    }
    Ok(())
}

/// Why single-token recurrence inputs of these lengths do not fit a layer of
/// shape `s`, if they do not: query, key and gate need `batch * heads *
/// key_width` values, the value `batch * heads * value_width`, and beta
/// `batch * heads`.
pub open spec fn decode_inputs_error(
    s: DecoderShape,
    query: nat,
    key: nat,
    value: nat,
    gate: nat,
    beta: nat,
) -> Option<Seq<char>> {
    let qkv = s.batch * s.heads * s.key_width;
    let values = s.batch * s.heads * s.value_width;
    let rates = s.batch * s.heads;
    if query != qkv || key != qkv || gate != qkv {
        Some("single-token query, key, and gate need "@ + decimal(qkv as nat) + " elements"@)
    } else if value != values {
        Some("single-token value needs "@ + decimal(values as nat) + " elements"@)
    } else if beta != rates {
        Some("single-token beta needs "@ + decimal(rates as nat) + " elements"@)
    } else {
        None
    }
}

/// Checks the lengths of single-token recurrence inputs for a layer of shape
/// `s`.
pub fn check_decode_inputs(
    s: DecoderShape,
    query: usize,
    key: usize,
    value: usize,
    gate: usize,
    beta: usize,
) -> (r: Result<(), String>)
    requires
        s.batch * s.heads <= usize::MAX,
        s.batch * s.heads * s.key_width <= usize::MAX,
        s.batch * s.heads * s.value_width <= usize::MAX,
    ensures
        match r {
            Ok(()) => decode_inputs_error(s, query as nat, key as nat, value as nat, gate as nat, beta as nat) is None,
            Err(e) => decode_inputs_error(s, query as nat, key as nat, value as nat, gate as nat, beta as nat) == Some(
                e@,
            ),
        },
{
    let rates = s.batch as usize * s.heads as usize;
    let qkv = rates * s.key_width as usize;
    let values = rates * s.value_width as usize;
    if query != qkv || key != qkv || gate != qkv {
        return Err(count_message("single-token query, key, and gate need ", qkv));
    }
    if value != values {
        return Err(count_message("single-token value needs ", values));
    }
    if beta != rates {
        return Err(count_message("single-token beta needs ", rates));
    }
    Ok(())
}

/// `prefix`, the decimal rendering of `n` and " elements".
fn count_message(prefix: &str, n: usize) -> (r: String)
    ensures
        r@ == prefix@ + decimal(n as nat) + " elements"@,
{
    let mut msg = String::from_str(prefix);
    push_decimal(&mut msg, n as u64);
    msg.append(" elements");
    proof {
        reveal_strlit(" elements");
    }
    msg
}

/// The dispatches of the routed expert block over all tokens of shape `s`:
/// routing by whole groups, the expert gate-up and down projections at 32
/// threads per output value, and the residual.
pub open spec fn moe_plan(s: DecoderShape) -> Seq<(Seq<char>, int, int, bool)> {
    let tokens = s.batch * s.length;
    let hidden = tokens * s.hidden_width;
    seq![
        ("moe_router_topk_simd"@, tokens, 512int, true),
        ("moe_gate_up_simd"@, tokens * s.top_k * s.expert_width * 32, 256int, false),
        ("moe_down_simd"@, hidden * 32, 256int, false),
        ("decoder_residual"@, hidden, 256int, false),
    ]
}

/// The dispatches of the routed expert block over all tokens of shape `s`.
pub fn moe_dispatches(s: DecoderShape) -> (r: Vec<MetalDispatch>)
    requires
        s.batch * s.length * s.top_k <= u64::MAX,
        s.batch * s.length * s.top_k * s.expert_width * 32 <= u64::MAX,
        s.batch * s.length * s.hidden_width * 32 <= u64::MAX,
    ensures
        r@.map_values(|d: MetalDispatch| dispatch_view(d)) == moe_plan(s),
{
    proof {
        assert(s.batch * s.length <= 0xffff_ffff * 0xffff_ffffint) by (nonlinear_arith)
            requires
                s.batch <= 0xffff_ffff,
                s.length <= 0xffff_ffff,
        ;
        let e = s.batch * s.length * s.top_k * s.expert_width;
        let h = s.batch * s.length * s.hidden_width;
        assert(e <= e * 32 && h <= h * 32) by (nonlinear_arith)
            requires
                e >= 0,
                h >= 0,
        ;
    }
    let tokens: u64 = s.batch as u64 * s.length as u64;
    let activations: u64 = tokens * s.top_k as u64 * s.expert_width as u64;
    let hidden: u64 = tokens * s.hidden_width as u64;
    let mut plan: Vec<MetalDispatch> = Vec::new();
    plan.push(MetalDispatch { kernel: "moe_router_topk_simd", size: tokens, group: 512, whole_groups: true });
    plan.push(threads("moe_gate_up_simd", activations * 32, 256));
    plan.push(threads("moe_down_simd", hidden * 32, 256));
    plan.push(threads("decoder_residual", hidden, 256));
    proof {
        let v = plan@.map_values(|d: MetalDispatch| dispatch_view(d));
        assert forall|i: int| 0 <= i < v.len() implies v[i] == moe_plan(s)[i] by {
            assert(v[i] == dispatch_view(plan@[i]));
        }
        assert(v =~= moe_plan(s));
    }
    plan
}

/// The sequence length the fused attention projection kernel runs at.
pub const KDA_PREFILL_LENGTH: u32 = 16_384;

/// The dispatches of the fused attention block over a whole sequence of shape
/// `s`: the QKV and control projections, their splits, the forget and output
/// gate projections, gate and beta, the recurrence over all heads, the
/// post-processing, the output projection and the residual.
pub open spec fn kda_prefill_plan(s: DecoderShape) -> Seq<(Seq<char>, int, int, bool)> {
    let tokens = s.batch * s.length;
    let qkv = tokens * s.heads * s.key_width;
    let hidden = tokens * s.hidden_width;
    let control = 2 * s.gate_rank + s.heads;
    seq![
        ("kda_project_packed_16k"@, qkv * 3, 256int, false),
        ("kda_project_packed_16k"@, tokens * control, 256int, false),
        ("kda_split_qkv_16k"@, qkv, 256int, false),
        ("kda_split_control_16k"@, tokens * control, 256int, false),
        ("kda_project_packed_16k"@, hidden, 256int, false),
        ("kda_project_packed_16k"@, hidden, 256int, false),
        ("kda_make_gate_beta_16k"@, hidden, 256int, false),
        ("kda_recurrence_16k"@, s.batch * s.heads * s.value_width, 256int, false),
        ("kda_postprocess_16k"@, hidden, 256int, false),
        ("kda_project_packed_16k"@, hidden, 256int, false),
        ("decoder_residual"@, hidden, 256int, false),
    ]
}

/// The dispatches of the fused attention block over a whole sequence of shape
/// `s`; the fused projection kernel only runs at `KDA_PREFILL_LENGTH`.
pub fn kda_prefill_dispatches(s: DecoderShape) -> (r: Result<Vec<MetalDispatch>, String>)
    requires
        s.length == KDA_PREFILL_LENGTH ==> {
            &&& s.batch * s.length * s.heads <= u64::MAX
            &&& s.batch * s.length * s.heads * s.key_width * 3 <= u64::MAX
            &&& s.batch * s.heads * s.value_width <= u64::MAX
            &&& s.batch * s.length * s.hidden_width <= u64::MAX
            &&& s.batch * s.length * (2 * s.gate_rank + s.heads) <= u64::MAX
        },
    ensures
        match r {
            Ok(plan) => s.length == KDA_PREFILL_LENGTH && plan@.map_values(|d: MetalDispatch| dispatch_view(d))
                == kda_prefill_plan(s),
            Err(e) => s.length != KDA_PREFILL_LENGTH && e@
                == "the current fused KDA projection kernel requires sequence length 16384"@,
        },
{
    if s.length != KDA_PREFILL_LENGTH {
        return Err(String::from_str("the current fused KDA projection kernel requires sequence length 16384"));
    }
    proof {
        assert(s.batch * s.length <= 0xffff_ffff * 0xffff_ffffint) by (nonlinear_arith)
            requires
                s.batch <= 0xffff_ffff,
                s.length <= 0xffff_ffff,
        ;
        assert(s.batch * s.heads <= 0xffff_ffff * 0xffff_ffffint) by (nonlinear_arith)
            requires
                s.batch <= 0xffff_ffff,
                s.heads <= 0xffff_ffff,
        ;
        let q = s.batch * s.length * s.heads * s.key_width;
        assert(q <= q * 3) by (nonlinear_arith)
            requires
                q >= 0,
        ;
    }
    let tokens: u64 = s.batch as u64 * s.length as u64;
    let qkv_threads: u64 = s.batch as u64 * s.length as u64 * s.heads as u64 * s.key_width as u64 * 3;
    let qkv_elements: u64 = qkv_threads / 3;
    let recurrence: u64 = s.batch as u64 * s.heads as u64 * s.value_width as u64;
    let hidden: u64 = tokens * s.hidden_width as u64;
    let control: u64 = 2 * s.gate_rank as u64 + s.heads as u64;
    let mut plan: Vec<MetalDispatch> = Vec::new();
    plan.push(threads("kda_project_packed_16k", qkv_threads, 256));
    plan.push(threads("kda_project_packed_16k", tokens * control, 256));
    plan.push(threads("kda_split_qkv_16k", qkv_elements, 256));
    plan.push(threads("kda_split_control_16k", tokens * control, 256));
    plan.push(threads("kda_project_packed_16k", hidden, 256));
    plan.push(threads("kda_project_packed_16k", hidden, 256));
    plan.push(threads("kda_make_gate_beta_16k", hidden, 256));
    plan.push(threads("kda_recurrence_16k", recurrence, 256));
    plan.push(threads("kda_postprocess_16k", hidden, 256));
    plan.push(threads("kda_project_packed_16k", hidden, 256));
    plan.push(threads("decoder_residual", hidden, 256));
    proof {
        let v = plan@.map_values(|d: MetalDispatch| dispatch_view(d));
        assert forall|i: int| 0 <= i < v.len() implies v[i] == kda_prefill_plan(s)[i] by {
            assert(v[i] == dispatch_view(plan@[i]));
        }
        assert(v =~= kda_prefill_plan(s));
    }
    Ok(plan)
}

/// The device shape of an RMS norm over a resident hidden buffer of
/// `hidden` elements: batch, sequence length and hidden width.
#[derive(Debug, Clone, Copy, PartialEq, Eq, Structural)]
pub struct NormShape {
    pub batch: u32,
    pub length: u32,
    pub hidden_width: u32,
}

/// Why a norm vector of `norm_len` elements over `batch` sequences of
/// `length` tokens does not fit a hidden buffer of `hidden` elements, if it
/// does not. The hidden width is the buffer divided among the tokens.
pub open spec fn norm_error(hidden: nat, norm_len: nat, batch: nat, length: nat) -> Option<Seq<char>> {
    let width = hidden / (batch * length);
    if norm_len != width {
        Some("RMSNorm has "@ + decimal(norm_len) + " elements, expected "@ + decimal(width))
    } else if batch == 0 || length == 0 || batch * length * width != hidden {
        Some("RMSNorm shape does not match resident hidden buffer"@)
    } else if batch > u32::MAX {
        Some("batch exceeds u32"@)
    } else if length > u32::MAX {
        Some("sequence length exceeds u32"@)
    } else if width > u32::MAX {
        Some("hidden width exceeds u32"@)
    } else {
        None
    }
}

/// Checks a norm vector against the resident hidden buffer and gives the
/// device shape of the norm.
pub fn norm_shape(hidden: usize, norm_len: usize, batch: usize, length: usize) -> (r: Result<NormShape, String>)
    requires
        batch * length > 0,
        batch * length <= usize::MAX,
    ensures
        match r {
            Ok(n) => {
                &&& norm_error(hidden as nat, norm_len as nat, batch as nat, length as nat) is None
                &&& n.batch == batch
                &&& n.length == length
                &&& n.hidden_width == (hidden as nat) / (batch as nat * length as nat)
            },
            Err(e) => norm_error(hidden as nat, norm_len as nat, batch as nat, length as nat) == Some(e@),
        },
{
    let tokens = batch * length;
    let width = hidden / tokens;
    if norm_len != width {
        let mut msg = String::from_str("RMSNorm has ");
        push_decimal(&mut msg, norm_len as u64);
        msg.append(" elements, expected ");
        push_decimal(&mut msg, width as u64);
        proof {
            reveal_strlit("RMSNorm has ");
            reveal_strlit(" elements, expected ");
            assert(msg@ =~= "RMSNorm has "@ + decimal(norm_len as nat) + " elements, expected "@ + decimal(
                width as nat,
            ));
        }
        return Err(msg);
    }
    proof {
        assert(tokens * width <= hidden) by (nonlinear_arith)
            requires
                tokens > 0,
                width == hidden / tokens,
        ;
        assert(batch * length * width == tokens * width);
    }
    if batch == 0 || length == 0 || tokens * width != hidden {
        return Err(String::from_str("RMSNorm shape does not match resident hidden buffer"));
    }
    let b = match narrow(batch, "batch exceeds u32") {
        Ok(v) => v,
        Err(e) => {
            return Err(e);
        },
    };
    let l = match narrow(length, "sequence length exceeds u32") {
        Ok(v) => v,
        Err(e) => {
            return Err(e);
        },
    };
    let w = match narrow(width, "hidden width exceeds u32") {
        Ok(v) => v,
        Err(e) => {
            return Err(e);
        },
    };
    Ok(NormShape { batch: b, length: l, hidden_width: w })
}

/// The dispatches that dequantize a candidate's norm and decay vectors for a
/// layer of shape `s`, one thread per element: the attention and MoE norms
/// (half precision), then the decay, time bias and output norm (single
/// precision).
pub open spec fn prepare_plan(s: DecoderShape) -> Seq<(Seq<char>, int, int, bool)> {
    seq![
        ("packed_dequantize_row_half"@, s.hidden_width as int, 256int, false),
        ("packed_dequantize_row_half"@, s.hidden_width as int, 256int, false),
        ("packed_dequantize_row_float"@, s.heads as int, 256int, false),
        ("packed_dequantize_row_float"@, s.hidden_width as int, 256int, false),
        ("packed_dequantize_row_float"@, s.value_width as int, 256int, false),
    ]
}

/// The dispatches that prepare a candidate's vectors for a layer of shape
/// `s`.
pub fn prepare_dispatches(s: DecoderShape) -> (r: Vec<MetalDispatch>)
    ensures
        r@.map_values(|d: MetalDispatch| dispatch_view(d)) == prepare_plan(s),
{
    let mut plan: Vec<MetalDispatch> = Vec::new();
    plan.push(threads("packed_dequantize_row_half", s.hidden_width as u64, 256));
    plan.push(threads("packed_dequantize_row_half", s.hidden_width as u64, 256));
    plan.push(threads("packed_dequantize_row_float", s.heads as u64, 256));
    plan.push(threads("packed_dequantize_row_float", s.hidden_width as u64, 256));
    plan.push(threads("packed_dequantize_row_float", s.value_width as u64, 256));
    proof {
        let v = plan@.map_values(|d: MetalDispatch| dispatch_view(d));
        assert forall|i: int| 0 <= i < v.len() implies v[i] == prepare_plan(s)[i] by {
            assert(v[i] == dispatch_view(plan@[i]));
        }
        assert(v =~= prepare_plan(s));
    }
    plan
}

} // verus!
