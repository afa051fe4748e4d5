//! Contract for resident, fused model evaluation: the operation list of a
//! forward program, packed-projection descriptors, and the kernel schedules
//! (grids and tiles) that a KDA-MoE decoder layer dispatches.

use vstd::prelude::*;

use crate::bf16_search::Proposal;
use crate::text::{decimal, message_with, push_decimal};

verus! {

/// One stage of a fused forward program.
#[derive(Debug, Clone, Copy, PartialEq, Eq, Structural)]
pub enum ForwardOp {
    EmbeddingLookup,
    PerturbPackedWeights,
    Dequantize,
    Matmul,
    KdaStateUpdate,
    RouteExperts,
    Activation,
    Normalize,
    Residual,
    ReduceObjective,
}

/// The program version that every constructed program carries.
pub open spec fn program_version() -> u32 {
    1
}

/// A valid program perturbs packed weights, multiplies, and reduces an objective.
pub open spec fn program_complete(ops: Seq<ForwardOp>) -> bool {
    &&& ops.contains(ForwardOp::PerturbPackedWeights)
    &&& ops.contains(ForwardOp::Matmul)
    &&& ops.contains(ForwardOp::ReduceObjective)
}

/// The first rule that `ops` breaks, as the message `ForwardProgram::new` reports.
pub open spec fn program_error(ops: Seq<ForwardOp>) -> Option<Seq<char>> {
    if !ops.contains(ForwardOp::PerturbPackedWeights) {
        Some("forward program must perturb packed weights"@)
    } else if !ops.contains(ForwardOp::Matmul) {
        Some("forward program must contain a matrix multiply"@)
    } else if !ops.contains(ForwardOp::ReduceObjective) {
        Some("forward program must reduce an objective"@)
    } else {
        None
    }
}

/// The operation list of the KDA program.
pub open spec fn kda_ops() -> Seq<ForwardOp> {
    seq![
        ForwardOp::EmbeddingLookup,
        ForwardOp::PerturbPackedWeights,
        ForwardOp::Dequantize,
        ForwardOp::Matmul,
        ForwardOp::KdaStateUpdate,
        ForwardOp::Activation,
        ForwardOp::Residual,
        ForwardOp::ReduceObjective,
    ]
}

/// The outcome of a check that returns `Result<(), String>`: the message, if any.
pub open spec fn failure(r: Result<(), String>) -> Option<Seq<char>> {
    match r {
        Ok(_) => None,
        Err(e) => Some(e@),
    }
}

/// `a` if it reports a failure, otherwise `b`.
pub open spec fn or_else(a: Option<Seq<char>>, b: Option<Seq<char>>) -> Option<Seq<char>> {
    if a is Some {
        a
    } else {
        b
    }
}

/// A validated list of fused forward operations.
#[derive(Debug, PartialEq, Eq)]
pub struct ForwardProgram {
    ops: Vec<ForwardOp>,
    version: u32,
}

fn has_op(ops: &Vec<ForwardOp>, op: ForwardOp) -> (found: bool)
    ensures
        found == ops@.contains(op),
{
    let mut i: usize = 0;
    while i < ops.len()
        invariant
            i <= ops@.len(),
            forall|j: int| 0 <= j < i ==> ops@[j] != op,
        decreases ops@.len() - i,
    {
        if ops[i] == op {
            assert(ops@[i as int] == op);
            return true;
        }
        i = i + 1;
    }
    false
}

impl Clone for ForwardProgram {
    fn clone(&self) -> (r: Self)
        ensures
            r.ops_view() == self.ops_view(),
            r.version_view() == self.version_view(),
    {
        proof {
            use_type_invariant(self);
        }
        let mut ops: Vec<ForwardOp> = Vec::with_capacity(self.ops.len());
        let mut i: usize = 0;
        while i < self.ops.len()
            invariant
                i <= self.ops@.len(),
                ops@ == self.ops@.subrange(0, i as int),
            decreases self.ops@.len() - i,
        {
            ops.push(self.ops[i]);
            i = i + 1;
        }
        assert(ops@ == self.ops@);
        Self { ops, version: self.version }
    }
}

impl ForwardProgram {
    pub const VERSION: u32 = 1;

    /// The operations of the program, in order.
    pub closed spec fn ops_view(self) -> Seq<ForwardOp> {
        self.ops@
    }

    /// The version the program was built with.
    pub closed spec fn version_view(self) -> u32 {
        self.version
    }

    #[verifier::type_invariant]
    closed spec fn well_formed(self) -> bool {
        &&& program_complete(self.ops@)
        &&& self.version == program_version()
    }

    pub fn new(ops: Vec<ForwardOp>) -> (r: Result<Self, String>)
        ensures
            match r {
                Ok(program) => {
                    &&& program_error(ops@) is None
                    &&& program.ops_view() == ops@
                    &&& program.version_view() == program_version()
                },
                Err(e) => program_error(ops@) == Some(e@),
            },
    {
        if !has_op(&ops, ForwardOp::PerturbPackedWeights) {
            return Err(String::from_str("forward program must perturb packed weights"));
        }
        if !has_op(&ops, ForwardOp::Matmul) {
            return Err(String::from_str("forward program must contain a matrix multiply"));
        }
        if !has_op(&ops, ForwardOp::ReduceObjective) {
            return Err(String::from_str("forward program must reduce an objective"));
        }
        Ok(Self { ops, version: Self::VERSION })
    }

    pub fn kda() -> (r: Result<Self, String>)
        ensures
            r matches Ok(program) && program.ops_view() == kda_ops()
                && program.version_view() == program_version(),
    {
        let ops = vec![
            ForwardOp::EmbeddingLookup,
            ForwardOp::PerturbPackedWeights,
            ForwardOp::Dequantize,
            ForwardOp::Matmul,
            ForwardOp::KdaStateUpdate,
            ForwardOp::Activation,
            ForwardOp::Residual,
            ForwardOp::ReduceObjective,
        ];
        proof {
            assert(ops@ == kda_ops());
            assert(kda_ops()[1] == ForwardOp::PerturbPackedWeights);
            assert(kda_ops()[3] == ForwardOp::Matmul);
            assert(kda_ops()[7] == ForwardOp::ReduceObjective);
        }
        Self::new(ops)
    }

    pub fn ops(&self) -> (r: &[ForwardOp])
        ensures
            r@ == self.ops_view(),
            program_complete(r@),
    {
        proof {
            use_type_invariant(self);
        }
        self.ops.as_slice()
    }

    pub fn version(&self) -> (r: u32)
        ensures
            r == self.version_view(),
            r == program_version(),
    {
        proof {
            use_type_invariant(self);
        }
        self.version
    }
}

/// Axis along which a kernel tile partitions its work.
#[derive(Debug, Clone, Copy, PartialEq, Eq, Structural)]
pub enum WorkAxis {
    Token,
    Output,
    Input,
    Head,
    Expert,
    State,
}

/// A positive number of items along one axis.
#[derive(Debug, Clone, Copy, PartialEq, Eq, Structural)]
pub struct WorkTile {
    pub axis: WorkAxis,
    pub items: usize,
}

pub open spec fn tile_error() -> Seq<char> {
    "kernel tile size must be positive"@
}

pub open spec fn grid_error() -> Seq<char> {
    "kernel work grid dimensions must be positive"@
}

impl WorkTile {
    pub fn new(axis: WorkAxis, items: usize) -> (r: Result<Self, String>)
        ensures
            match r {
                Ok(t) => items > 0 && t == (WorkTile { axis, items }),
                Err(e) => items == 0 && e@ == tile_error(),
            },
    {
        if items == 0 {
            return Err(String::from_str("kernel tile size must be positive"));
        }
        Ok(Self { axis, items })
    }
}

/// A dispatch of `items` work items in groups of `threads_per_group`.
#[derive(Debug, Clone, Copy, PartialEq, Eq, Structural)]
pub struct WorkGrid {
    pub items: usize,
    pub threads_per_group: usize,
}

/// `a / b` rounded up.
pub open spec fn ceil_div(a: int, b: int) -> int {
    if a % b == 0 {
        a / b
    } else {
        a / b + 1
    }
}

impl WorkGrid {
    pub fn new(items: usize, threads_per_group: usize) -> (r: Result<Self, String>)
        ensures
            match r {
                Ok(g) => items > 0 && threads_per_group > 0 && g == (WorkGrid {
                    items,
                    threads_per_group,
                }),
                Err(e) => (items == 0 || threads_per_group == 0) && e@ == grid_error(),
            },
    {
        if items == 0 || threads_per_group == 0 {
            return Err(String::from_str("kernel work grid dimensions must be positive"));
        }
        Ok(Self { items, threads_per_group })
    }

    /// Number of thread groups needed to cover every item.
    pub fn groups(&self) -> (r: usize)
        requires
            self.threads_per_group > 0,
        ensures
            r == ceil_div(self.items as int, self.threads_per_group as int),
    {
        let whole = self.items / self.threads_per_group;
        if self.items % self.threads_per_group == 0 {
            whole
        } else {
            proof {
                assert(whole * self.threads_per_group <= self.items) by (nonlinear_arith)
                    requires
                        whole == self.items / self.threads_per_group,
                        self.threads_per_group > 0,
                ;
                assert(whole < self.items) by (nonlinear_arith)
                    requires
                        whole * self.threads_per_group <= self.items,
                        self.threads_per_group > 0,
                        self.items % self.threads_per_group != 0,
                        whole == self.items / self.threads_per_group,
                ;
            }
            whole + 1
        }
    }
}

/// A named kernel dispatch: its grid, its tiles, and its scratch memory.
#[derive(Debug, Clone, PartialEq, Eq)]
pub struct KernelPlan {
    pub kernel: &'static str,
    pub grid: WorkGrid,
    pub tiles: Vec<WorkTile>,
    pub scratch_bytes: usize,
}

/// The schedule a dispatch asks for, before its dimensions are checked.
pub struct PlanShape {
    pub kernel: Seq<char>,
    pub items: usize,
    pub threads_per_group: usize,
    pub tiles: Seq<WorkTile>,
    pub scratch_bytes: usize,
}

pub open spec fn shape(
    kernel: Seq<char>,
    items: usize,
    threads_per_group: usize,
    tiles: Seq<WorkTile>,
) -> PlanShape {
    PlanShape { kernel, items, threads_per_group, tiles, scratch_bytes: 0 }
}

pub open spec fn tile(axis: WorkAxis, items: usize) -> WorkTile {
    WorkTile { axis, items }
}

/// Why the shape cannot be planned: an empty grid first, then an empty tile.
pub open spec fn plan_error(s: PlanShape) -> Option<Seq<char>> {
    if s.items == 0 || s.threads_per_group == 0 {
        Some(grid_error())
    } else if exists|i: int| 0 <= i < s.tiles.len() && (#[trigger] s.tiles[i]).items == 0 {
        Some(tile_error())
    } else {
        None
    }
}

/// `p` is exactly the plan for shape `s`.
pub open spec fn plan_matches(p: KernelPlan, s: PlanShape) -> bool {
    &&& p.kernel@ == s.kernel
    &&& p.grid == (WorkGrid { items: s.items, threads_per_group: s.threads_per_group })
    &&& p.tiles@ == s.tiles
    &&& p.scratch_bytes == s.scratch_bytes
}

/// `r` is what planning shape `s` yields.
pub open spec fn planned(r: Result<KernelPlan, String>, s: PlanShape) -> bool {
    match plan_error(s) {
        Some(e) => r matches Err(m) && m@ == e,
        None => r matches Ok(p) && plan_matches(p, s),
    }
}

impl KernelPlan {
    pub fn new(kernel: &'static str, items: usize, threads_per_group: usize) -> (r: Result<
        Self,
        String,
    >)
        ensures
            planned(r, shape(kernel@, items, threads_per_group, seq![])),
    {
        let grid = match WorkGrid::new(items, threads_per_group) {
            Ok(grid) => grid,
            Err(e) => return Err(e),
        };
        let r = Self { kernel, grid, tiles: Vec::new(), scratch_bytes: 0 };
        proof {
            assert(r.tiles@ =~= Seq::<WorkTile>::empty());
        }
        Ok(r)
    }

    pub fn with_tile(self, axis: WorkAxis, items: usize) -> (r: Result<Self, String>)
        ensures
            match r {
                Ok(p) => {
                    &&& items > 0
                    &&& p.kernel == self.kernel
                    &&& p.grid == self.grid
                    &&& p.tiles@ == self.tiles@.push(tile(axis, items))
                    &&& p.scratch_bytes == self.scratch_bytes
                },
                Err(e) => items == 0 && e@ == tile_error(),
            },
    {
        let mut plan = self;
        let t = match WorkTile::new(axis, items) {
            Ok(t) => t,
            Err(e) => return Err(e),
        };
        plan.tiles.push(t);
        Ok(plan)
    }

    pub fn with_scratch_bytes(self, bytes: usize) -> (r: Self)
        ensures
            r.kernel == self.kernel,
            r.grid == self.grid,
            r.tiles@ == self.tiles@,
            r.scratch_bytes == bytes,
    {
        let mut plan = self;
        plan.scratch_bytes = bytes;
        plan
    }
}

/// Kernel plan for `kernel` with two tiles, checking dimensions in the order
/// the builder chain does.
fn plan2(
    kernel: &'static str,
    items: usize,
    threads_per_group: usize,
    a1: WorkAxis,
    n1: usize,
    a2: WorkAxis,
    n2: usize,
) -> (r: Result<KernelPlan, String>)
    ensures
        planned(r, shape(kernel@, items, threads_per_group, seq![tile(a1, n1), tile(a2, n2)])),
{
    let ghost s = shape(kernel@, items, threads_per_group, seq![tile(a1, n1), tile(a2, n2)]);
    let p = match KernelPlan::new(kernel, items, threads_per_group) {
        Ok(p) => p,
        Err(e) => return Err(e),
    };
    let p = match p.with_tile(a1, n1) {
        Ok(p) => p,
        Err(e) => {
            assert(s.tiles[0].items == 0);
            return Err(e);
        },
    };
    let p = match p.with_tile(a2, n2) {
        Ok(p) => p,
        Err(e) => {
            assert(s.tiles[1].items == 0);
            return Err(e);
        },
    };
    proof {
        assert(p.tiles@ =~= s.tiles);
        assert forall|i: int| 0 <= i < s.tiles.len() implies (#[trigger] s.tiles[i]).items != 0 by {
            if i == 0 {
            } else {
            }
        }
    }
    Ok(p)
}

/// Kernel plan for `kernel` with three tiles, checking dimensions in the
/// order the builder chain does.
fn plan3(
    kernel: &'static str,
    items: usize,
    threads_per_group: usize,
    a1: WorkAxis,
    n1: usize,
    a2: WorkAxis,
    n2: usize,
    a3: WorkAxis,
    n3: usize,
) -> (r: Result<KernelPlan, String>)
    ensures
        planned(
            r,
            shape(
                kernel@,
                items,
                threads_per_group,
                seq![tile(a1, n1), tile(a2, n2), tile(a3, n3)],
            ),
        ),
{
    let ghost s = shape(
        kernel@,
        items,
        threads_per_group,
        seq![tile(a1, n1), tile(a2, n2), tile(a3, n3)],
    );
    let p = match plan2(kernel, items, threads_per_group, a1, n1, a2, n2) {
        Ok(p) => p,
        Err(e) => {
            proof {
                let s2 = shape(kernel@, items, threads_per_group, seq![tile(a1, n1), tile(a2, n2)]);
                if !(items == 0 || threads_per_group == 0) {
                    let i = choose|i: int| 0 <= i < s2.tiles.len() && (#[trigger] s2.tiles[i]).items == 0;
                    assert(s.tiles[i].items == 0);
                }
            }
            return Err(e);
        },
    };
    let p = match p.with_tile(a3, n3) {
        Ok(p) => p,
        Err(e) => {
            assert(s.tiles[2].items == 0);
            return Err(e);
        },
    };
    proof {
        assert(p.tiles@ =~= s.tiles);
        assert forall|i: int| 0 <= i < s.tiles.len() implies (#[trigger] s.tiles[i]).items != 0 by {
            if i < 2 {
                let s2 = shape(kernel@, items, threads_per_group, seq![tile(a1, n1), tile(a2, n2)]);
                assert(s2.tiles[i] == s.tiles[i]);
            }
        }
    }
    Ok(p)
}

/// Packed affine schedule: tile sizes and group width for quantized projections.
#[derive(Debug, Clone, Copy, PartialEq, Eq, Structural)]
pub struct PackedAffinePlan {
    pub token_tile: usize,
    pub output_tile: usize,
    pub input_tile: usize,
    pub threads_per_group: usize,
}

/// Layout of a KDA tensor batch.
#[derive(Debug, Clone, Copy, PartialEq, Eq, Structural)]
pub struct KdaTensorLayout {
    pub batch: usize,
    pub sequence_length: usize,
    pub heads: usize,
    pub key_width: usize,
    pub value_width: usize,
}

/// Descriptor of one packed, quantized projection inside the weight arena.
#[derive(Debug, Clone, Copy, PartialEq, Eq, Structural)]
pub struct KdaPackedLinear {
    pub byte_offset: usize,
    pub scale_offset: usize,
    pub bias_offset: usize,
    pub input_width: usize,
    pub output_width: usize,
    pub bits: u8,
    pub group_size: usize,
    pub element_offset: usize,
    pub perturb_whole: u32,
    pub perturb_threshold: u32,
}

pub open spec fn linear_dims_error() -> Seq<char> {
    "packed KDA linear dimensions must be positive"@
}

pub open spec fn linear_bits_prefix() -> Seq<char> {
    "packed KDA linear bits must be 4 or 8, got "@
}

/// Why `l` is not a usable packed projection, if it is not.
pub open spec fn linear_error(l: KdaPackedLinear) -> Option<Seq<char>> {
    if l.input_width == 0 || l.output_width == 0 || l.group_size == 0 {
        Some(linear_dims_error())
    } else if l.bits != 4 && l.bits != 8 {
        Some(linear_bits_prefix() + decimal(l.bits as nat))
    } else {
        None
    }
}

/// Bytes that `l` occupies: every row is packed to whole bytes.
pub open spec fn packed_size(l: KdaPackedLinear) -> int {
    ceil_div(l.input_width * l.bits, 8) * l.output_width
}

impl KdaPackedLinear {
    pub fn validate(&self) -> (r: Result<(), String>)
        ensures
            failure(r) == linear_error(*self),
    {
        if self.input_width == 0 || self.output_width == 0 || self.group_size == 0 {
            return Err(String::from_str("packed KDA linear dimensions must be positive"));
        }
        if self.bits != 4 && self.bits != 8 {
            return Err(message_with("packed KDA linear bits must be 4 or 8, got ", self.bits as u64));
        }
        Ok(())
    }

    pub fn packed_bytes(&self) -> (r: usize)
        requires
            self.input_width * self.bits <= usize::MAX,
            packed_size(*self) <= usize::MAX,
        ensures
            r == packed_size(*self),
    {
        let bits = self.input_width * self.bits as usize;
        let rows = if bits % 8 == 0 {
            bits / 8
        } else {
            bits / 8 + 1
        };
        rows * self.output_width
    }

    pub fn groups_per_row(&self) -> (r: usize)
        requires
            self.group_size > 0,
        ensures
            r == ceil_div(self.input_width as int, self.group_size as int),
    {
        let whole = self.input_width / self.group_size;
        if self.input_width % self.group_size == 0 {
            whole
        } else {
            proof {
                assert(whole * self.group_size <= self.input_width) by (nonlinear_arith)
                    requires
                        whole == self.input_width / self.group_size,
                        self.group_size > 0,
                ;
                assert(whole < self.input_width) by (nonlinear_arith)
                    requires
                        whole * self.group_size <= self.input_width,
                        self.group_size > 0,
                        self.input_width % self.group_size != 0,
                        whole == self.input_width / self.group_size,
                ;
            }
            whole + 1
        }
    }
}

pub open spec fn affine_dims_error() -> Seq<char> {
    "packed affine schedule dimensions must be positive"@
}

pub open spec fn affine_divisible_error() -> Seq<char> {
    "packed affine input width must be divisible by input tile"@
}

/// Why schedule `a` cannot run projection `l`, if it cannot.
pub open spec fn affine_error(a: PackedAffinePlan, l: KdaPackedLinear) -> Option<Seq<char>> {
    if linear_error(l) is Some {
        linear_error(l)
    } else if a.token_tile == 0 || a.output_tile == 0 || a.input_tile == 0
        || a.threads_per_group == 0 {
        Some(affine_dims_error())
    } else if l.input_width % a.input_tile != 0 {
        Some(affine_divisible_error())
    } else {
        None
    }
}

/// The schedule of a packed affine projection over `items` outputs.
pub open spec fn affine_shape(kernel: Seq<char>, items: usize, a: PackedAffinePlan) -> PlanShape {
    shape(
        kernel,
        items,
        a.threads_per_group,
        seq![
            tile(WorkAxis::Token, a.token_tile),
            tile(WorkAxis::Output, a.output_tile),
            tile(WorkAxis::Input, a.input_tile),
        ],
    )
}

impl PackedAffinePlan {
    pub fn apple_simd() -> (r: Self)
        ensures
            r == (PackedAffinePlan {
                token_tile: 1,
                output_tile: 16,
                input_tile: 64,
                threads_per_group: 256,
            }),
    {
        Self { token_tile: 1, output_tile: 16, input_tile: 64, threads_per_group: 256 }
    }

    pub fn validate(&self, linear: KdaPackedLinear) -> (r: Result<(), String>)
        ensures
            failure(r) == affine_error(*self, linear),
    {
        match linear.validate() {
            Ok(()) => {},
            Err(e) => return Err(e),
        }
        if self.token_tile == 0 || self.output_tile == 0 || self.input_tile == 0
            || self.threads_per_group == 0 {
            return Err(String::from_str("packed affine schedule dimensions must be positive"));
        }
        if !linear.input_width.is_multiple_of(self.input_tile) {
            return Err(
                String::from_str("packed affine input width must be divisible by input tile"),
            );
        }
        Ok(())
    }

    pub fn kernel_plan(&self, kernel: &'static str, tokens: usize, linear: KdaPackedLinear) -> (r:
        Result<KernelPlan, String>)
        ensures
            match affine_error(*self, linear) {
                Some(e) => r matches Err(m) && m@ == e,
                None => if tokens * linear.output_width > usize::MAX {
                    r matches Err(m) && m@ == "packed affine dispatch size overflow"@
                } else {
                    planned(
                        r,
                        affine_shape(
                            kernel@,
                            (tokens * linear.output_width) as usize,
                            *self,
                        ),
                    )
                },
            },
    {
        match self.validate(linear) {
            Ok(()) => {},
            Err(e) => return Err(e),
        }
        let items = match tokens.checked_mul(linear.output_width) {
            Some(items) => items,
            None => return Err(String::from_str("packed affine dispatch size overflow")),
        };
        plan3(
            kernel,
            items,
            self.threads_per_group,
            WorkAxis::Token,
            self.token_tile,
            WorkAxis::Output,
            self.output_tile,
            WorkAxis::Input,
            self.input_tile,
        )
    }
}

pub open spec fn tensor_error() -> Seq<char> {
    "KDA tensor dimensions must be positive"@
}

impl KdaTensorLayout {
    pub fn new(
        batch: usize,
        sequence_length: usize,
        heads: usize,
        key_width: usize,
        value_width: usize,
    ) -> (r: Result<Self, String>)
        ensures
            match r {
                Ok(t) => {
                    &&& batch > 0 && sequence_length > 0 && heads > 0 && key_width > 0
                        && value_width > 0
                    &&& t == (KdaTensorLayout {
                        batch,
                        sequence_length,
                        heads,
                        key_width,
                        value_width,
                    })
                },
                Err(e) => {
                    &&& (batch == 0 || sequence_length == 0 || heads == 0 || key_width == 0
                        || value_width == 0)
                    &&& e@ == tensor_error()
                },
            },
    {
        if batch == 0 || sequence_length == 0 || heads == 0 || key_width == 0 || value_width == 0 {
            return Err(String::from_str("KDA tensor dimensions must be positive"));
        }
        Ok(Self { batch, sequence_length, heads, key_width, value_width })
    }

    pub fn qkv_elements(&self) -> (r: usize)
        requires
            fits4(self.batch, self.sequence_length, self.heads, self.key_width),
        ensures
            r == self.batch * self.sequence_length * self.heads * self.key_width,
    {
        self.batch * self.sequence_length * self.heads * self.key_width
    }

    pub fn value_elements(&self) -> (r: usize)
        requires
            fits4(self.batch, self.sequence_length, self.heads, self.value_width),
        ensures
            r == self.batch * self.sequence_length * self.heads * self.value_width,
    {
        self.batch * self.sequence_length * self.heads * self.value_width
    }

    pub fn state_elements(&self) -> (r: usize)
        requires
            fits4(self.batch, self.heads, self.key_width, self.value_width),
        ensures
            r == self.batch * self.heads * self.key_width * self.value_width,
    {
        self.batch * self.heads * self.key_width * self.value_width
    }
}

/// The left-nested products `a*b`, `a*b*c` and `a*b*c*d` all fit in a `usize`.
pub open spec fn fits4(a: usize, b: usize, c: usize, d: usize) -> bool {
    &&& a * b <= usize::MAX
    &&& a * b * c <= usize::MAX
    &&& a * b * c * d <= usize::MAX
}

/// The left-nested products `a*b` and `a*b*c` both fit in a `usize`.
pub open spec fn fits3(a: usize, b: usize, c: usize) -> bool {
    &&& a * b <= usize::MAX
    &&& a * b * c <= usize::MAX
}

/// Packed projections of one KDA attention update.
#[derive(Debug, Clone, Copy, PartialEq, Eq, Structural)]
pub struct KdaForwardRequest {
    pub tensor: KdaTensorLayout,
    pub qkv: KdaPackedLinear,
    pub control: KdaPackedLinear,
    pub output: KdaPackedLinear,
    pub seed: u64,
}

/// Width of the fused query/key/value projection output.
pub open spec fn qkv_width(r: KdaForwardRequest) -> int {
    3 * r.tensor.heads * r.tensor.key_width
}

/// Every size that a request's dispatches multiply out stays within `usize`.
pub open spec fn request_fits(r: KdaForwardRequest) -> bool {
    &&& fits3(3, r.tensor.heads, r.tensor.key_width)
    &&& fits3(r.tensor.batch, r.tensor.sequence_length, (3 * r.tensor.heads * r.tensor.key_width) as usize)
    &&& fits3(r.tensor.batch, r.tensor.heads, r.tensor.value_width)
    &&& fits4(r.tensor.batch, r.tensor.sequence_length, r.tensor.heads, r.tensor.key_width)
}

pub open spec fn input_mismatch_error() -> Seq<char> {
    "KDA projection input widths do not match"@
}

/// Why `r` is not a consistent KDA request, if it is not.
pub open spec fn forward_error(r: KdaForwardRequest) -> Option<Seq<char>> {
    if linear_error(r.qkv) is Some {
        linear_error(r.qkv)
    } else if linear_error(r.control) is Some {
        linear_error(r.control)
    } else if linear_error(r.output) is Some {
        linear_error(r.output)
    } else if r.qkv.input_width != r.output.input_width {
        Some(input_mismatch_error())
    } else if r.qkv.output_width != qkv_width(r) {
        Some(
            "KDA QKV output width must be "@ + decimal(qkv_width(r) as nat) + ", got "@ + decimal(
                r.qkv.output_width as nat,
            ),
        )
    } else {
        None
    }
}

impl KdaForwardRequest {
    pub fn qkv_output_width(&self) -> (r: usize)
        requires
            fits3(3, self.tensor.heads, self.tensor.key_width),
        ensures
            r == qkv_width(*self),
    {
        3 * self.tensor.heads * self.tensor.key_width
    }

    pub fn projection_dispatch_threads(&self) -> (r: usize)
        requires
            request_fits(*self),
        ensures
            r == self.tensor.batch * self.tensor.sequence_length * qkv_width(*self),
    {
        self.tensor.batch * self.tensor.sequence_length * self.qkv_output_width()
    }

    pub fn recurrence_dispatch_threads(&self) -> (r: usize)
        requires
            fits3(self.tensor.batch, self.tensor.heads, self.tensor.value_width),
        ensures
            r == self.tensor.batch * self.tensor.heads * self.tensor.value_width,
    {
        self.tensor.batch * self.tensor.heads * self.tensor.value_width
    }

    pub fn validate(&self) -> (r: Result<(), String>)
        requires
            fits3(3, self.tensor.heads, self.tensor.key_width),
        ensures
            failure(r) == forward_error(*self),
    {
        match self.qkv.validate() {
            Ok(()) => {},
            Err(e) => return Err(e),
        }
        match self.control.validate() {
            Ok(()) => {},
            Err(e) => return Err(e),
        }
        match self.output.validate() {
            Ok(()) => {},
            Err(e) => return Err(e),
        }
        let expected_qkv = self.qkv_output_width();
        if self.qkv.input_width != self.output.input_width {
            return Err(String::from_str("KDA projection input widths do not match"));
        }
        if self.qkv.output_width != expected_qkv {
            let mut message = message_with("KDA QKV output width must be ", expected_qkv as u64);
            message.append(", got ");
            push_decimal(&mut message, self.qkv.output_width as u64);
            return Err(message);
        }
        Ok(())
    }
}

/// One of the three kernels of a KDA attention update.
#[derive(Debug, Clone, Copy, PartialEq, Eq, Structural)]
pub enum KdaDispatch {
    ProjectQkv { threads: usize },
    SplitQkv { threads: usize },
    Recur { threads: usize },
}

/// The schedule of a KDA kernel under packed schedule `a`.
pub open spec fn kda_shape(d: KdaDispatch, a: PackedAffinePlan) -> PlanShape {
    match d {
        KdaDispatch::ProjectQkv { threads } => affine_shape(
            "kda_project_packed_16k"@,
            threads,
            a,
        ),
        KdaDispatch::SplitQkv { threads } => shape(
            "kda_split_qkv_16k"@,
            threads,
            256,
            seq![tile(WorkAxis::Head, 1), tile(WorkAxis::Input, 256)],
        ),
        KdaDispatch::Recur { threads } => shape(
            "kda_recurrence_16k"@,
            threads,
            256,
            seq![tile(WorkAxis::State, 1), tile(WorkAxis::Token, 16384)],
        ),
    }
}

impl KdaDispatch {
    pub fn kernel_plan(&self, affine: PackedAffinePlan) -> (r: Result<KernelPlan, String>)
        ensures
            planned(r, kda_shape(*self, affine)),
    {
        match *self {
            KdaDispatch::ProjectQkv { threads } => plan3(
                "kda_project_packed_16k",
                threads,
                affine.threads_per_group,
                WorkAxis::Token,
                affine.token_tile,
                WorkAxis::Output,
                affine.output_tile,
                WorkAxis::Input,
                affine.input_tile,
            ),
            KdaDispatch::SplitQkv { threads } => plan2(
                "kda_split_qkv_16k",
                threads,
                256,
                WorkAxis::Head,
                1,
                WorkAxis::Input,
                256,
            ),
            KdaDispatch::Recur { threads } => {
                match plan2(
                    "kda_recurrence_16k",
                    threads,
                    256,
                    WorkAxis::State,
                    1,
                    WorkAxis::Token,
                    16_384,
                ) {
                    Ok(plan) => Ok(plan.with_scratch_bytes(0)),
                    Err(e) => Err(e),
                }
            },
        }
    }
}

/// The three dispatches that encode request `r`.
pub open spec fn kda_dispatches(r: KdaForwardRequest) -> Seq<KdaDispatch> {
    seq![
        KdaDispatch::ProjectQkv {
            threads: (r.tensor.batch * r.tensor.sequence_length * qkv_width(r)) as usize,
        },
        KdaDispatch::SplitQkv {
            threads: (r.tensor.batch * r.tensor.sequence_length * r.tensor.heads
                * r.tensor.key_width) as usize,
        },
        KdaDispatch::Recur {
            threads: (r.tensor.batch * r.tensor.heads * r.tensor.value_width) as usize,
        },
    ]
}

/// Encoder for a validated KDA request.
pub struct KdaEncoder {
    request: KdaForwardRequest,
}

impl KdaEncoder {
    /// The request this encoder encodes.
    pub closed spec fn request_view(self) -> KdaForwardRequest {
        self.request
    }

    #[verifier::type_invariant]
    closed spec fn request_valid(self) -> bool {
        forward_error(self.request) is None
    }

    pub fn new(request: KdaForwardRequest) -> (r: Result<Self, String>)
        requires
            fits3(3, request.tensor.heads, request.tensor.key_width),
        ensures
            match r {
                Ok(encoder) => forward_error(request) is None && encoder.request_view() == request,
                Err(e) => forward_error(request) == Some(e@),
            },
    {
        match request.validate() {
            Ok(()) => {},
            Err(e) => return Err(e),
        }
        Ok(Self { request })
    }

    pub fn request(&self) -> (r: KdaForwardRequest)
        ensures
            r == self.request_view(),
            forward_error(r) is None,
    {
        proof {
            use_type_invariant(self);
        }
        self.request
    }

    pub fn encode(&self) -> (r: [KdaDispatch; 3])
        requires
            request_fits(self.request_view()),
        ensures
            r@ == kda_dispatches(self.request_view()),
    {
        let r = [
            KdaDispatch::ProjectQkv { threads: self.request.projection_dispatch_threads() },
            KdaDispatch::SplitQkv { threads: self.request.tensor.qkv_elements() },
            KdaDispatch::Recur { threads: self.request.recurrence_dispatch_threads() },
        ];
        assert(r@ =~= kda_dispatches(self.request_view()));
        r
    }
}

/// Remaining packed projections and vectors needed to turn a KDA recurrence
/// into a complete attention update.
#[derive(Debug, Clone, Copy, PartialEq, Eq, Structural)]
pub struct KdaControlRequest {
    pub qkv_conv: KdaPackedLinear,
    pub control: KdaPackedLinear,
    pub forget: KdaPackedLinear,
    pub output_gate: KdaPackedLinear,
    pub decay: KdaPackedLinear,
    pub time_bias: KdaPackedLinear,
    pub output_norm: KdaPackedLinear,
    pub output: KdaPackedLinear,
    pub gate_rank: usize,
}

/// The eight projections of a control request, in checking order.
pub open spec fn control_linears(c: KdaControlRequest) -> Seq<KdaPackedLinear> {
    seq![
        c.qkv_conv,
        c.control,
        c.forget,
        c.output_gate,
        c.decay,
        c.time_bias,
        c.output_norm,
        c.output,
    ]
}

/// The first projection error among `ls[i..]`, if any.
pub open spec fn first_linear_error(ls: Seq<KdaPackedLinear>, i: int) -> Option<Seq<char>>
    decreases ls.len() - i,
{
    if i < 0 || i >= ls.len() {
        None
    } else {
        or_else(linear_error(ls[i]), first_linear_error(ls, i + 1))
    }
}

/// Control-request sizes that validation multiplies out stay within `usize`.
pub open spec fn control_fits(c: KdaControlRequest, t: KdaTensorLayout) -> bool {
    &&& t.heads * t.value_width <= usize::MAX
    &&& 3 * (t.heads * t.value_width) <= usize::MAX
    &&& 2 * c.gate_rank + t.heads <= usize::MAX
}

/// Why control request `c` does not fit tensor `t` and hidden width `h`, if it does not.
pub open spec fn control_error(c: KdaControlRequest, t: KdaTensorLayout, h: usize) -> Option<
    Seq<char>,
> {
    let width = t.heads * t.value_width;
    if first_linear_error(control_linears(c), 0) is Some {
        first_linear_error(control_linears(c), 0)
    } else if c.qkv_conv.input_width != 4 || c.qkv_conv.output_width != 3 * width
        || c.qkv_conv.bits != 8 || c.qkv_conv.group_size != 4 {
        Some("KDA QKV convolution must contain four INT8 taps per channel"@)
    } else if c.control.input_width != h || c.control.output_width != 2 * c.gate_rank + t.heads {
        Some("KDA control projection shape is invalid"@)
    } else if c.forget.input_width != c.gate_rank || c.forget.output_width != width {
        Some("KDA forget projection shape is invalid"@)
    } else if c.output_gate.input_width != c.gate_rank || c.output_gate.output_width != width {
        Some("KDA output-gate projection shape is invalid"@)
    } else if c.output.input_width != width || c.output.output_width != h {
        Some("KDA output projection shape is invalid"@)
    } else if c.decay.input_width != t.heads || c.decay.output_width != 1
        || c.time_bias.input_width != width || c.time_bias.output_width != 1
        || c.output_norm.input_width != t.value_width || c.output_norm.output_width != 1 {
        Some("KDA recurrent vector shapes are invalid"@)
    } else {
        None
    }
}

/// Checks projections in order and reports the first one that fails.
fn validate_all(ls: &[KdaPackedLinear]) -> (r: Result<(), String>)
    ensures
        failure(r) == first_linear_error(ls@, 0),
{
    let mut i: usize = 0;
    while i < ls.len()
        invariant
            i <= ls@.len(),
            first_linear_error(ls@, 0) == first_linear_error(ls@, i as int),
        decreases ls@.len() - i,
    {
        match ls[i].validate() {
            Ok(()) => {},
            Err(e) => return Err(e),
        }
        i = i + 1;
    }
    Ok(())
}

impl KdaControlRequest {
    pub fn validate(&self, tensor: KdaTensorLayout, hidden_width: usize) -> (r: Result<
        (),
        String,
    >)
        requires
            control_fits(*self, tensor),
        ensures
            failure(r) == control_error(*self, tensor, hidden_width),
    {
        let linears = [
            self.qkv_conv,
            self.control,
            self.forget,
            self.output_gate,
            self.decay,
            self.time_bias,
            self.output_norm,
            self.output,
        ];
        assert(linears@ =~= control_linears(*self));
        match validate_all(linears.as_slice()) {
            Ok(()) => {},
            Err(e) => return Err(e),
        }
        let width = tensor.heads * tensor.value_width;
        if self.qkv_conv.input_width != 4 || self.qkv_conv.output_width != 3 * width
            || self.qkv_conv.bits != 8 || self.qkv_conv.group_size != 4 {
            return Err(
                String::from_str("KDA QKV convolution must contain four INT8 taps per channel"),
            );
        }
        if self.control.input_width != hidden_width || self.control.output_width != 2
            * self.gate_rank + tensor.heads {
            return Err(String::from_str("KDA control projection shape is invalid"));
        }
        if self.forget.input_width != self.gate_rank || self.forget.output_width != width {
            return Err(String::from_str("KDA forget projection shape is invalid"));
        }
        if self.output_gate.input_width != self.gate_rank || self.output_gate.output_width
            != width {
            return Err(String::from_str("KDA output-gate projection shape is invalid"));
        }
        if self.output.input_width != width || self.output.output_width != hidden_width {
            return Err(String::from_str("KDA output projection shape is invalid"));
        }
        if self.decay.input_width != tensor.heads || self.decay.output_width != 1
            || self.time_bias.input_width != width || self.time_bias.output_width != 1
            || self.output_norm.input_width != tensor.value_width || self.output_norm.output_width
            != 1 {
            return Err(String::from_str("KDA recurrent vector shapes are invalid"));
        }
        Ok(())
    }
}

/// One of the ten kernels of a KDA-MoE decoder layer.
#[derive(Debug, Clone, Copy, PartialEq, Eq, Structural)]
pub enum KdaMoeDispatch {
    AttentionNorm { threads: usize },
    Kda(KdaDispatch),
    AttentionResidual { threads: usize },
    MoeNorm { threads: usize },
    RouteExperts { threads: usize },
    ExpertGateUp { threads: usize },
    ExpertDown { threads: usize },
    MoeResidual { threads: usize },
}

/// The schedule of a decoder-layer kernel under packed schedule `a`.
pub open spec fn moe_shape(d: KdaMoeDispatch, a: PackedAffinePlan) -> PlanShape {
    match d {
        KdaMoeDispatch::AttentionNorm { threads } => shape(
            "decoder_rms_norm"@,
            threads,
            256,
            seq![tile(WorkAxis::Token, 1), tile(WorkAxis::Input, 256)],
        ),
        KdaMoeDispatch::Kda(k) => kda_shape(k, a),
        KdaMoeDispatch::AttentionResidual { threads } => shape(
            "decoder_residual"@,
            threads,
            256,
            seq![tile(WorkAxis::Input, 256)],
        ),
        KdaMoeDispatch::MoeResidual { threads } => shape(
            "decoder_residual"@,
            threads,
            256,
            seq![tile(WorkAxis::Input, 256)],
        ),
        KdaMoeDispatch::MoeNorm { threads } => shape(
            "decoder_rms_norm"@,
            threads,
            256,
            seq![tile(WorkAxis::Token, 1), tile(WorkAxis::Input, 256)],
        ),
        KdaMoeDispatch::RouteExperts { threads } => shape(
            "moe_router_topk"@,
            threads,
            1,
            seq![tile(WorkAxis::Token, 1)],
        ),
        KdaMoeDispatch::ExpertGateUp { threads } => shape(
            "moe_gate_up"@,
            threads,
            a.threads_per_group,
            seq![
                tile(WorkAxis::Token, a.token_tile),
                tile(WorkAxis::Expert, 1),
                tile(WorkAxis::Input, a.input_tile),
            ],
        ),
        KdaMoeDispatch::ExpertDown { threads } => affine_shape("moe_down"@, threads, a),
    }
}

/// Kernel plan for `kernel` with one tile.
fn plan1(kernel: &'static str, items: usize, threads_per_group: usize, a1: WorkAxis, n1: usize) -> (r:
    Result<KernelPlan, String>)
    ensures
        planned(r, shape(kernel@, items, threads_per_group, seq![tile(a1, n1)])),
{
    let ghost s = shape(kernel@, items, threads_per_group, seq![tile(a1, n1)]);
    let p = match KernelPlan::new(kernel, items, threads_per_group) {
        Ok(p) => p,
        Err(e) => return Err(e),
    };
    let p = match p.with_tile(a1, n1) {
        Ok(p) => p,
        Err(e) => {
            assert(s.tiles[0].items == 0);
            return Err(e);
        },
    };
    assert(p.tiles@ =~= s.tiles);
    Ok(p)
}

impl KdaMoeDispatch {
    pub fn kernel_plan(&self, affine: PackedAffinePlan) -> (r: Result<KernelPlan, String>)
        ensures
            planned(r, moe_shape(*self, affine)),
    {
        match *self {
            KdaMoeDispatch::AttentionNorm { threads } => plan2(
                "decoder_rms_norm",
                threads,
                256,
                WorkAxis::Token,
                1,
                WorkAxis::Input,
                256,
            ),
            KdaMoeDispatch::Kda(dispatch) => dispatch.kernel_plan(affine),
            KdaMoeDispatch::AttentionResidual { threads } | KdaMoeDispatch::MoeResidual {
                threads,
            } => plan1("decoder_residual", threads, 256, WorkAxis::Input, 256),
            KdaMoeDispatch::MoeNorm { threads } => plan2(
                "decoder_rms_norm",
                threads,
                256,
                WorkAxis::Token,
                1,
                WorkAxis::Input,
                256,
            ),
            KdaMoeDispatch::RouteExperts { threads } => plan1(
                "moe_router_topk",
                threads,
                1,
                WorkAxis::Token,
                1,
            ),
            KdaMoeDispatch::ExpertGateUp { threads } => plan3(
                "moe_gate_up",
                threads,
                affine.threads_per_group,
                WorkAxis::Token,
                affine.token_tile,
                WorkAxis::Expert,
                1,
                WorkAxis::Input,
                affine.input_tile,
            ),
            KdaMoeDispatch::ExpertDown { threads } => plan3(
                "moe_down",
                threads,
                affine.threads_per_group,
                WorkAxis::Token,
                affine.token_tile,
                WorkAxis::Output,
                affine.output_tile,
                WorkAxis::Input,
                affine.input_tile,
            ),
        }
    }
}

/// Packed descriptors for one complete KDA-MoE decoder layer.
///
/// The two scalar parameters are held as IEEE-754 single-precision bit
/// patterns (`f32::to_bits`), so that every rule on them is a rule on integers.
#[derive(Debug, Clone, PartialEq, Eq)]
pub struct KdaMoeLayerRequest {
    pub kda: KdaForwardRequest,
    pub attention_norm: KdaPackedLinear,
    pub moe_norm: KdaPackedLinear,
    pub router: KdaPackedLinear,
    pub expert_gate: Vec<KdaPackedLinear>,
    pub expert_up: Vec<KdaPackedLinear>,
    pub expert_down: Vec<KdaPackedLinear>,
    pub top_k: usize,
    pub residual_scale_bits: u32,
    pub rms_epsilon_bits: u32,
}

/// The single-precision value with bit pattern `bits` is finite: its exponent
/// field is not all ones.
pub open spec fn f32_bits_finite(bits: u32) -> bool {
    bits % 0x8000_0000 < 0x7f80_0000
}

/// The single-precision value with bit pattern `bits` is finite and greater
/// than zero: the sign is clear and the magnitude is neither zero nor infinite.
pub open spec fn f32_bits_positive(bits: u32) -> bool {
    0 < bits < 0x7f80_0000
}

/// Why the experts at position `i` break the layer shape, if they do.
pub open spec fn expert_error_at(
    gate: KdaPackedLinear,
    up: KdaPackedLinear,
    down: KdaPackedLinear,
    hidden: usize,
) -> Option<Seq<char>> {
    or_else(
        linear_error(gate),
        or_else(
            linear_error(up),
            or_else(
                linear_error(down),
                if gate.input_width != hidden || up.input_width != hidden || gate.output_width
                    != up.output_width {
                    Some("expert gate and up projections must share hidden input and expert width"@)
                } else if down.input_width != gate.output_width || down.output_width != hidden {
                    Some("expert down projection must map expert width to hidden width"@)
                } else {
                    None
                },
            ),
        ),
    )
}

/// The first expert error at positions `i..`, walking the three lists together.
pub open spec fn experts_error_from(
    gate: Seq<KdaPackedLinear>,
    up: Seq<KdaPackedLinear>,
    down: Seq<KdaPackedLinear>,
    hidden: usize,
    i: int,
) -> Option<Seq<char>>
    decreases gate.len() - i,
{
    if i < 0 || i >= gate.len() {
        None
    } else {
        or_else(
            expert_error_at(gate[i], up[i], down[i], hidden),
            experts_error_from(gate, up, down, hidden, i + 1),
        )
    }
}

/// Why layer `m` is not a consistent decoder layer, if it is not.
pub open spec fn moe_error(m: KdaMoeLayerRequest) -> Option<Seq<char>> {
    let hidden = m.kda.qkv.input_width;
    let experts = m.expert_gate@.len();
    if forward_error(m.kda) is Some {
        forward_error(m.kda)
    } else if first_linear_error(seq![m.attention_norm, m.moe_norm, m.router], 0) is Some {
        first_linear_error(seq![m.attention_norm, m.moe_norm, m.router], 0)
    } else if m.attention_norm.input_width != hidden || m.attention_norm.output_width != 1 {
        Some("attention norm must be a hidden-width vector"@)
    } else if m.moe_norm.input_width != hidden || m.moe_norm.output_width != 1 {
        Some("MoE norm must be a hidden-width vector"@)
    } else if experts == 0 || m.expert_up@.len() != experts || m.expert_down@.len() != experts {
        Some("KDA-MoE expert descriptor lists must be non-empty and equal in length"@)
    } else if m.top_k == 0 || m.top_k > experts || m.top_k > 8 {
        Some("KDA-MoE top_k must be in 1..=min(experts, 8)"@)
    } else if !f32_bits_finite(m.residual_scale_bits) || !f32_bits_finite(m.rms_epsilon_bits) {
        Some("KDA-MoE numeric parameters must be finite"@)
    } else if !f32_bits_positive(m.rms_epsilon_bits) {
        Some("KDA-MoE RMS epsilon must be positive"@)
    } else if m.router.input_width != hidden || m.router.output_width != experts {
        Some("router dimensions must be hidden_width by num_experts"@)
    } else {
        experts_error_from(m.expert_gate@, m.expert_up@, m.expert_down@, hidden, 0)
    }
}

/// Tokens processed by the layer.
pub open spec fn moe_tokens(m: KdaMoeLayerRequest) -> int {
    m.kda.tensor.batch * m.kda.tensor.sequence_length
}

/// Hidden-state elements of the layer.
pub open spec fn moe_hidden(m: KdaMoeLayerRequest) -> int {
    m.kda.tensor.batch * m.kda.tensor.sequence_length * m.kda.qkv.input_width
}

/// Expert activation elements of the layer.
pub open spec fn moe_expert_elements(m: KdaMoeLayerRequest) -> int {
    m.kda.tensor.batch * m.kda.tensor.sequence_length * m.top_k * m.expert_gate@[0].output_width
}

/// Every size that encoding the layer multiplies out stays within `usize`.
pub open spec fn moe_fits(m: KdaMoeLayerRequest) -> bool {
    &&& request_fits(m.kda)
    &&& fits3(m.kda.tensor.batch, m.kda.tensor.sequence_length, m.kda.qkv.input_width)
    &&& m.expert_gate@.len() > 0 ==> fits4(
        m.kda.tensor.batch,
        m.kda.tensor.sequence_length,
        m.top_k,
        m.expert_gate@[0].output_width,
    )
}

/// The ten dispatches of a layer, in execution order.
pub open spec fn moe_dispatches(m: KdaMoeLayerRequest) -> Seq<KdaMoeDispatch> {
    let tokens = moe_tokens(m) as usize;
    let hidden = moe_hidden(m) as usize;
    let kda = kda_dispatches(m.kda);
    seq![
        KdaMoeDispatch::AttentionNorm { threads: tokens },
        KdaMoeDispatch::Kda(kda[0]),
        KdaMoeDispatch::Kda(kda[1]),
        KdaMoeDispatch::Kda(kda[2]),
        KdaMoeDispatch::AttentionResidual { threads: hidden },
        KdaMoeDispatch::MoeNorm { threads: tokens },
        KdaMoeDispatch::RouteExperts { threads: tokens },
        KdaMoeDispatch::ExpertGateUp { threads: moe_expert_elements(m) as usize },
        KdaMoeDispatch::ExpertDown { threads: hidden },
        KdaMoeDispatch::MoeResidual { threads: hidden },
    ]
}

/// The first schedule error among the affine checks of `ls[i..]`.
pub open spec fn first_affine_error(a: PackedAffinePlan, ls: Seq<KdaPackedLinear>, i: int) -> Option<
    Seq<char>,
>
    decreases ls.len() - i,
{
    if i < 0 || i >= ls.len() {
        None
    } else {
        or_else(affine_error(a, ls[i]), first_affine_error(a, ls, i + 1))
    }
}

/// The first planning error among the dispatches `ds[i..]`.
pub open spec fn first_plan_error(ds: Seq<KdaMoeDispatch>, a: PackedAffinePlan, i: int) -> Option<
    Seq<char>,
>
    decreases ds.len() - i,
{
    if i < 0 || i >= ds.len() {
        None
    } else {
        or_else(plan_error(moe_shape(ds[i], a)), first_plan_error(ds, a, i + 1))
    }
}

/// Why schedule `a` cannot plan layer `m`, if it cannot.
pub open spec fn layer_plan_error(m: KdaMoeLayerRequest, a: PackedAffinePlan) -> Option<Seq<char>> {
    or_else(
        moe_error(m),
        or_else(
            affine_error(a, m.kda.qkv),
            or_else(
                affine_error(a, m.router),
                or_else(
                    first_affine_error(a, m.expert_gate@ + m.expert_up@ + m.expert_down@, 0),
                    first_plan_error(moe_dispatches(m), a, 0),
                ),
            ),
        ),
    )
}

fn affine_all(affine: PackedAffinePlan, ls: &Vec<KdaPackedLinear>) -> (r: Result<(), String>)
    ensures
        failure(r) == first_affine_error(affine, ls@, 0),
{
    let mut i: usize = 0;
    while i < ls.len()
        invariant
            i <= ls@.len(),
            first_affine_error(affine, ls@, 0) == first_affine_error(affine, ls@, i as int),
        decreases ls@.len() - i,
    {
        match affine.validate(ls[i]) {
            Ok(()) => {},
            Err(e) => return Err(e),
        }
        i = i + 1;
    }
    Ok(())
}

/// An affine check over a concatenation fails where its first part fails, and
/// otherwise where its second part fails.
proof fn lemma_affine_concat(a: PackedAffinePlan, x: Seq<KdaPackedLinear>, y: Seq<KdaPackedLinear>, i: int)
    requires
        0 <= i <= x.len(),
    ensures
        first_affine_error(a, x + y, i) == or_else(
            first_affine_error(a, x, i),
            first_affine_error(a, y, 0),
        ),
    decreases x.len() - i,
{
    if i == x.len() {
        lemma_affine_shift(a, x, y, 0);
    } else {
        lemma_affine_concat(a, x, y, i + 1);
        assert((x + y)[i] == x[i]);
    }
}

proof fn lemma_affine_shift(a: PackedAffinePlan, x: Seq<KdaPackedLinear>, y: Seq<KdaPackedLinear>, j: int)
    requires
        0 <= j <= y.len(),
    ensures
        first_affine_error(a, x + y, x.len() + j) == first_affine_error(a, y, j),
    decreases y.len() - j,
{
    if j < y.len() {
        lemma_affine_shift(a, x, y, j + 1);
        assert((x + y)[x.len() + j] == y[j]);
    }
}

impl KdaMoeLayerRequest {
    pub fn validate(&self) -> (r: Result<(), String>)
        requires
            fits3(3, self.kda.tensor.heads, self.kda.tensor.key_width),
        ensures
            failure(r) == moe_error(*self),
    {
        match self.kda.validate() {
            Ok(()) => {},
            Err(e) => return Err(e),
        }
        let norms = [self.attention_norm, self.moe_norm, self.router];
        assert(norms@ =~= seq![self.attention_norm, self.moe_norm, self.router]);
        match validate_all(norms.as_slice()) {
            Ok(()) => {},
            Err(e) => return Err(e),
        }
        let hidden = self.kda.qkv.input_width;
        if self.attention_norm.input_width != hidden || self.attention_norm.output_width != 1 {
            return Err(String::from_str("attention norm must be a hidden-width vector"));
        }
        if self.moe_norm.input_width != hidden || self.moe_norm.output_width != 1 {
            return Err(String::from_str("MoE norm must be a hidden-width vector"));
        }
        let experts = self.expert_gate.len();
        if experts == 0 || self.expert_up.len() != experts || self.expert_down.len() != experts {
            return Err(
                String::from_str(
                    "KDA-MoE expert descriptor lists must be non-empty and equal in length",
                ),
            );
        }
        if self.top_k == 0 || self.top_k > experts || self.top_k > 8 {
            return Err(String::from_str("KDA-MoE top_k must be in 1..=min(experts, 8)"));
        }
        if self.residual_scale_bits % 0x8000_0000 >= 0x7f80_0000 || self.rms_epsilon_bits
            % 0x8000_0000 >= 0x7f80_0000 {
            return Err(String::from_str("KDA-MoE numeric parameters must be finite"));
        }
        if !(0 < self.rms_epsilon_bits && self.rms_epsilon_bits < 0x7f80_0000) {
            return Err(String::from_str("KDA-MoE RMS epsilon must be positive"));
        }
        if self.router.input_width != hidden || self.router.output_width != experts {
            return Err(String::from_str("router dimensions must be hidden_width by num_experts"));
        }
        let mut i: usize = 0;
        while i < experts
            invariant
                experts == self.expert_gate@.len(),
                experts == self.expert_up@.len(),
                experts == self.expert_down@.len(),
                hidden == self.kda.qkv.input_width,
                i <= experts,
                moe_error(*self) == experts_error_from(
                    self.expert_gate@,
                    self.expert_up@,
                    self.expert_down@,
                    hidden,
                    i as int,
                ),
            decreases experts - i,
        {
            let gate = self.expert_gate[i];
            let up = self.expert_up[i];
            let down = self.expert_down[i];
            match gate.validate() {
                Ok(()) => {},
                Err(e) => return Err(e),
            }
            match up.validate() {
                Ok(()) => {},
                Err(e) => return Err(e),
            }
            match down.validate() {
                Ok(()) => {},
                Err(e) => return Err(e),
            }
            if gate.input_width != hidden || up.input_width != hidden || gate.output_width
                != up.output_width {
                return Err(
                    String::from_str(
                        "expert gate and up projections must share hidden input and expert width",
                    ),
                );
            }
            if down.input_width != gate.output_width || down.output_width != hidden {
                return Err(
                    String::from_str("expert down projection must map expert width to hidden width"),
                );
            }
            i = i + 1;
        }
        Ok(())
    }

    pub fn hidden_elements(&self) -> (r: usize)
        requires
            fits3(self.kda.tensor.batch, self.kda.tensor.sequence_length, self.kda.qkv.input_width),
        ensures
            r == moe_hidden(*self),
    {
        self.kda.tensor.batch * self.kda.tensor.sequence_length * self.kda.qkv.input_width
    }

    pub fn expert_activation_elements(&self) -> (r: usize)
        requires
            self.expert_gate@.len() > 0,
            fits4(
                self.kda.tensor.batch,
                self.kda.tensor.sequence_length,
                self.top_k,
                self.expert_gate@[0].output_width,
            ),
        ensures
            r == moe_expert_elements(*self),
    {
        self.kda.tensor.batch * self.kda.tensor.sequence_length * self.top_k
            * self.expert_gate[0].output_width
    }

    pub fn encode(&self) -> (r: Result<Vec<KdaMoeDispatch>, String>)
        requires
            moe_fits(*self),
        ensures
            match r {
                Ok(ds) => moe_error(*self) is None && ds@ == moe_dispatches(*self),
                Err(e) => moe_error(*self) == Some(e@),
            },
    {
        match self.validate() {
            Ok(()) => {},
            Err(e) => return Err(e),
        }
        let kda = match KdaEncoder::new(self.kda) {
            Ok(kda) => kda,
            Err(e) => return Err(e),
        };
        let tokens = self.kda.tensor.batch * self.kda.tensor.sequence_length;
        let hidden = self.hidden_elements();
        let steps = kda.encode();
        let ds = vec![
            KdaMoeDispatch::AttentionNorm { threads: tokens },
            KdaMoeDispatch::Kda(steps[0]),
            KdaMoeDispatch::Kda(steps[1]),
            KdaMoeDispatch::Kda(steps[2]),
            KdaMoeDispatch::AttentionResidual { threads: hidden },
            KdaMoeDispatch::MoeNorm { threads: tokens },
            KdaMoeDispatch::RouteExperts { threads: tokens },
            KdaMoeDispatch::ExpertGateUp { threads: self.expert_activation_elements() },
            KdaMoeDispatch::ExpertDown { threads: hidden },
            KdaMoeDispatch::MoeResidual { threads: hidden },
        ];
        assert(ds@ =~= moe_dispatches(*self));
        Ok(ds)
    }

    pub fn kernel_plans(&self, affine: PackedAffinePlan) -> (r: Result<Vec<KernelPlan>, String>)
        requires
            moe_fits(*self),
        ensures
            match r {
                Ok(plans) => {
                    &&& layer_plan_error(*self, affine) is None
                    &&& plans@.len() == 10
                    &&& forall|i: int|
                        0 <= i < 10 ==> plan_matches(
                            #[trigger] plans@[i],
                            moe_shape(moe_dispatches(*self)[i], affine),
                        )
                },
                Err(e) => layer_plan_error(*self, affine) == Some(e@),
            },
    {
        match self.validate() {
            Ok(()) => {},
            Err(e) => return Err(e),
        }
        match affine.validate(self.kda.qkv) {
            Ok(()) => {},
            Err(e) => return Err(e),
        }
        match affine.validate(self.router) {
            Ok(()) => {},
            Err(e) => return Err(e),
        }
        let ghost all = self.expert_gate@ + self.expert_up@ + self.expert_down@;
        proof {
            lemma_affine_concat(affine, self.expert_gate@ + self.expert_up@, self.expert_down@, 0);
            lemma_affine_concat(affine, self.expert_gate@, self.expert_up@, 0);
        }
        match affine_all(affine, &self.expert_gate) {
            Ok(()) => {},
            Err(e) => return Err(e),
        }
        match affine_all(affine, &self.expert_up) {
            Ok(()) => {},
            Err(e) => return Err(e),
        }
        match affine_all(affine, &self.expert_down) {
            Ok(()) => {},
            Err(e) => return Err(e),
        }
        let dispatches = match self.encode() {
            Ok(ds) => ds,
            Err(e) => return Err(e),
        };
        let ghost ds = moe_dispatches(*self);
        let mut plans: Vec<KernelPlan> = Vec::with_capacity(10);
        let mut i: usize = 0;
        while i < dispatches.len()
            invariant
                dispatches@ == ds,
                ds.len() == 10,
                i <= 10,
                plans@.len() == i,
                layer_plan_error(*self, affine) == first_plan_error(ds, affine, i as int),
                forall|j: int|
                    0 <= j < i ==> plan_matches(#[trigger] plans@[j], moe_shape(ds[j], affine)),
            decreases 10 - i,
        {
            let plan = match dispatches[i].kernel_plan(affine) {
                Ok(plan) => plan,
                Err(e) => return Err(e),
            };
            plans.push(plan);
            i = i + 1;
        }
        Ok(plans)
    }
}

/// One round of a resident forward session: the trial the search handed out
/// and the version of the program that evaluates it.
#[derive(Debug, Clone, Copy, PartialEq, Eq, Structural)]
pub struct ResidentRound {
    pub trial: Proposal,
    pub program_version: u32,
}

/// The round bookkeeping of a resident BO session: the version of its
/// program and the round handed out and not yet told.
#[derive(Debug)]
pub struct ResidentRounds {
    pub program_version: u32,
    pub pending: Option<ResidentRound>,
}

/// The refusal of an ask while a round is pending.
pub open spec fn ask_pending_error() -> Seq<char> {
    "tell must finish the resident forward round before ask"@
}

/// The refusal of a tell or a bind with no round pending.
pub open spec fn no_round_error() -> Seq<char> {
    "no resident forward round is pending"@
}

/// The refusal of a tell or a bind of a round other than the pending one.
pub open spec fn round_mismatch_error() -> Seq<char> {
    "resident forward round does not match pending trial"@
}

/// What telling `round` does to the pending round: with none pending it is
/// refused; with a different one pending it is refused and that one stays;
/// with `round` pending it is taken.
pub open spec fn tell_step(pending: Option<ResidentRound>, round: ResidentRound) -> (
    Option<ResidentRound>,
    Result<(), Seq<char>>,
) {
    match pending {
        None => (None, Err(no_round_error())),
        Some(p) => if p == round {
            (None, Ok(()))
        } else {
            (pending, Err(round_mismatch_error()))
        },
    }
}

impl ResidentRounds {
    /// A session running program version `program_version`, no round pending.
    pub fn new(program_version: u32) -> (r: Self)
        ensures
            r.program_version == program_version,
            r.pending is None,
    {
        ResidentRounds { program_version, pending: None }
    }

    /// Checks that an ask may start: refused while a round is pending.
    pub fn check_ask(&self) -> (r: Result<(), String>)
        ensures
            match r {
                Ok(()) => self.pending is None,
                Err(e) => self.pending is Some && e@ == ask_pending_error(),
            },
    {
        if self.pending.is_some() {
            return Err(String::from_str("tell must finish the resident forward round before ask"));
        }
        Ok(())
    }

    /// Records the round of `trial`, which the search just handed out, as
    /// pending, and returns it.
    pub fn record_ask(&mut self, trial: Proposal) -> (round: ResidentRound)
        requires
            old(self).pending is None,
        ensures
            round == (ResidentRound { trial, program_version: old(self).program_version }),
            final(self).pending == Some(round),
            final(self).program_version == old(self).program_version,
    {
        let round = ResidentRound { trial, program_version: self.program_version };
        self.pending = Some(round);
        round
    }

    /// Takes the pending round for a tell of `round`: refused, leaving the
    /// session as it was, unless `round` is the pending one.
    pub fn take_for_tell(&mut self, round: ResidentRound) -> (r: Result<(), String>)
        ensures
            final(self).pending == tell_step(old(self).pending, round).0,
            match r {
                Ok(()) => tell_step(old(self).pending, round).1 is Ok,
                Err(e) => tell_step(old(self).pending, round).1 == Err::<(), Seq<char>>(e@),
            },
            final(self).program_version == old(self).program_version,
    {
        match self.pending {
            None => Err(String::from_str("no resident forward round is pending")),
            Some(p) => {
                if p == round {
                    self.pending = None;
                    Ok(())
                } else {
                    Err(String::from_str("resident forward round does not match pending trial"))
                }
            },
        }
    }

    /// Checks that `round` is the pending one before its row is bound.
    pub fn check_pending(&self, round: ResidentRound) -> (r: Result<(), String>)
        ensures
            match r {
                Ok(()) => self.pending == Some(round),
                Err(e) => match self.pending {
                    None => e@ == no_round_error(),
                    Some(p) => p != round && e@ == round_mismatch_error(),
                },
            },
    {
        match self.pending {
            None => Err(String::from_str("no resident forward round is pending")),
            Some(p) => {
                if p == round {
                    Ok(())
                } else {
                    Err(String::from_str("resident forward round does not match pending trial"))
                }
            },
        }
    }
}

/// A round is told once: telling the pending round takes it, after which a
/// second tell of it is refused and a new ask may start; a tell of another
/// round leaves the pending one in place.
pub proof fn lemma_round_told_once(pending: ResidentRound, round: ResidentRound)
    ensures
        tell_step(Some(pending), pending) == (None::<ResidentRound>, Ok::<(), Seq<char>>(())),
        tell_step(tell_step(Some(pending), pending).0, pending).1 == Err::<(), Seq<char>>(no_round_error()),
        round != pending ==> tell_step(Some(pending), round) == (
            Some(pending),
            Err::<(), Seq<char>>(round_mismatch_error()),
        ),
{
}

} // verus!
