//! Execution diagrams of the accelerated exact nearest-neighbour search, and
//! the sizing rules of its scratch buffers and tiles.

use vstd::arithmetic::power2::{lemma_pow2_unfold, pow2};
use vstd::prelude::*;

use crate::index::{to_u32, IndexDriver, IndexError};
use crate::text::{decimal, push_decimal, search};

verus! {

/// KNN execution diagram requested by a caller.
#[derive(Clone, Copy, Debug, Eq, PartialEq, Structural)]
pub enum KnnPlan {
    /// Validate equivalent diagrams and retain the fastest measured plan.
    Measured,
    /// Materialize tile distances before selecting local neighbors.
    Split,
    /// Fuse tile distance and local top-k computation.
    Fused,
    /// Batch fused tile scans and reduce their neighbor lists as a tree.
    Tree,
    /// Use shared query tiles inside the fused tree scan.
    Tiled,
    /// Cooperatively reduce dimensions before tree top-k selection.
    Simd,
    /// Tile the Gram identity across query and row blocks before tree selection.
    Gram,
    /// Fuse general tile top-k and pairwise-reduce lists through `k=2048`.
    Wide,
}

/// A concrete diagram that a device runs.
#[derive(Clone, Copy, Debug, Eq, PartialEq, Structural)]
pub enum Plan {
    Split,
    Fused,
    Tree,
    Tiled,
    Simd,
    Gram,
    Wide,
}

/// A buffer of the diagram.
#[derive(Clone, Copy, Debug, Eq, PartialEq, Structural)]
pub enum Obj {
    Input,
    Dist,
    Lists,
    Result,
}

/// A stage of the diagram.
#[derive(Clone, Copy, Debug, Eq, PartialEq, Structural)]
pub enum Op {
    Init,
    L2,
    Topk,
    Fuse,
    Merge,
    Batch,
    Tile,
    Simd,
    Gram,
    Reduce,
    Fold,
}

/// One edge of a diagram: a stage reading one buffer and writing another.
#[derive(Clone, Copy, Debug, Eq, PartialEq, Structural)]
pub struct Step {
    pub from: Obj,
    pub op: Op,
    pub to: Obj,
}

/// A diagram: its steps in execution order.
#[derive(Clone, Copy, Debug)]
pub struct Graph(&'static [Step]);

/// The edges that a stage may form.
pub open spec fn step_allowed(s: Step) -> bool {
    match (s.from, s.op, s.to) {
        (Obj::Input, Op::Init, Obj::Result) => true,
        (Obj::Input, Op::L2, Obj::Dist) => true,
        (Obj::Dist, Op::Topk, Obj::Lists) => true,
        (Obj::Input, Op::Fuse, Obj::Lists) => true,
        (Obj::Lists, Op::Merge, Obj::Result) => true,
        (Obj::Input, Op::Batch, Obj::Lists) => true,
        (Obj::Input, Op::Tile, Obj::Lists) => true,
        (Obj::Input, Op::Simd, Obj::Lists) => true,
        (Obj::Input, Op::Gram, Obj::Lists) => true,
        (Obj::Lists, Op::Reduce, Obj::Result) => true,
        (Obj::Lists, Op::Fold, Obj::Result) => true,
        _ => false,
    }
}

/// A diagram is valid when it is non-empty, every step is an allowed edge,
/// and the last step writes the result.
pub open spec fn graph_valid(steps: Seq<Step>) -> bool {
    &&& steps.len() > 0
    &&& forall|i: int| 0 <= i < steps.len() ==> step_allowed(#[trigger] steps[i])
    &&& steps.last().to == Obj::Result
}

/// The name under which a diagram is reported.
pub open spec fn plan_name(p: Plan) -> Seq<char> {
    match p {
        Plan::Split => "split"@,
        Plan::Fused => "fused"@,
        Plan::Tree => "tree"@,
        Plan::Tiled => "tiled"@,
        Plan::Simd => "simd"@,
        Plan::Gram => "gram"@,
        Plan::Wide => "wide"@,
    }
}

impl Graph {
    /// The steps of the diagram.
    pub closed spec fn steps(&self) -> Seq<Step> {
        self.0@
    }

    pub fn valid(&self) -> (r: bool)
        ensures
            r == graph_valid(self.steps()),
    {
        let steps = self.0;
        if steps.len() == 0 {
            return false;
        }
        let mut i: usize = 0;
        while i < steps.len()
            invariant
                steps@ == self.steps(),
                i <= steps@.len(),
                forall|j: int| 0 <= j < i ==> step_allowed(#[trigger] steps@[j]),
            decreases steps@.len() - i,
        {
            if !allowed(steps[i]) {
                return false;
            }
            i = i + 1;
        }
        match steps[steps.len() - 1].to {
            Obj::Result => true,
            _ => false,
        }
    }
}

fn allowed(s: Step) -> (r: bool)
    ensures
        r == step_allowed(s),
{
    match (s.from, s.op, s.to) {
        (Obj::Input, Op::Init, Obj::Result)
        | (Obj::Input, Op::L2, Obj::Dist)
        | (Obj::Dist, Op::Topk, Obj::Lists)
        | (Obj::Input, Op::Fuse, Obj::Lists)
        | (Obj::Lists, Op::Merge, Obj::Result)
        | (Obj::Input, Op::Batch, Obj::Lists)
        | (Obj::Input, Op::Tile, Obj::Lists)
        | (Obj::Input, Op::Simd, Obj::Lists)
        | (Obj::Input, Op::Gram, Obj::Lists)
        | (Obj::Lists, Op::Reduce, Obj::Result)
        | (Obj::Lists, Op::Fold, Obj::Result) => true,
        _ => false,
    }
}

impl Plan {
    /// The diagram of the plan. Every diagram is valid.
    pub fn graph(self) -> (r: &'static Graph)
        ensures
            graph_valid(r.steps()),
    {
        let g: &'static Graph = match self {
            Plan::Split => &Graph(
                &[
                    Step { from: Obj::Input, op: Op::Init, to: Obj::Result },
                    Step { from: Obj::Input, op: Op::L2, to: Obj::Dist },
                    Step { from: Obj::Dist, op: Op::Topk, to: Obj::Lists },
                    Step { from: Obj::Lists, op: Op::Merge, to: Obj::Result },
                ],
            ),
            Plan::Fused => &Graph(
                &[
                    Step { from: Obj::Input, op: Op::Init, to: Obj::Result },
                    Step { from: Obj::Input, op: Op::Fuse, to: Obj::Lists },
                    Step { from: Obj::Lists, op: Op::Merge, to: Obj::Result },
                ],
            ),
            Plan::Tree => &Graph(
                &[
                    Step { from: Obj::Input, op: Op::Batch, to: Obj::Lists },
                    Step { from: Obj::Lists, op: Op::Reduce, to: Obj::Result },
                ],
            ),
            Plan::Tiled => &Graph(
                &[
                    Step { from: Obj::Input, op: Op::Tile, to: Obj::Lists },
                    Step { from: Obj::Lists, op: Op::Reduce, to: Obj::Result },
                ],
            ),
            Plan::Simd => &Graph(
                &[
                    Step { from: Obj::Input, op: Op::Simd, to: Obj::Lists },
                    Step { from: Obj::Lists, op: Op::Reduce, to: Obj::Result },
                ],
            ),
            Plan::Gram => &Graph(
                &[
                    Step { from: Obj::Input, op: Op::Gram, to: Obj::Lists },
                    Step { from: Obj::Lists, op: Op::Reduce, to: Obj::Result },
                ],
            ),
            Plan::Wide => &Graph(
                &[
                    Step { from: Obj::Input, op: Op::Batch, to: Obj::Lists },
                    Step { from: Obj::Lists, op: Op::Fold, to: Obj::Result },
                ],
            ),
        };
        assert(graph_valid(g.steps()));
        g
    }

    pub fn name(self) -> (r: &'static str)
        ensures
            r@ == plan_name(self),
    {
        match self {
            Plan::Split => "split",
            Plan::Fused => "fused",
            Plan::Tree => "tree",
            Plan::Tiled => "tiled",
            Plan::Simd => "simd",
            Plan::Gram => "gram",
            Plan::Wide => "wide",
        }
    }
}

/// Rows scanned by one distance tile.
pub const TILE_ROWS: usize = 1024;

/// Rows scanned by one Gram-identity tile.
pub const GRAM_ROWS: usize = 64;

/// `a / b` rounded up.
pub open spec fn ceil_div(a: int, b: int) -> int {
    if a % b == 0 {
        a / b
    } else {
        a / b + 1
    }
}

fn div_ceil(a: usize, b: usize) -> (r: usize)
    requires
        b > 0,
    ensures
        r == ceil_div(a as int, b as int),
{
    let whole = a / b;
    if a % b == 0 {
        whole
    } else {
        proof {
            assert(whole * b <= a) by (nonlinear_arith)
                requires whole == a / b, b > 0;
            assert(whole < a) by (nonlinear_arith)
                requires whole * b <= a, b > 0, a % b != 0, whole == a / b;
        }
        whole + 1
    }
}

/// `r` is the capacity for `value` items: the smallest power of two that holds
/// them (at least one item), or the count itself when no such power fits in a
/// `usize`.
pub open spec fn capacity_for(value: int, r: int) -> bool {
    let v = if value < 1 {
        1
    } else {
        value
    };
    if v <= usize::MAX / 2 + 1 {
        &&& exists|e: nat| r == pow2(e)
        &&& v <= r < 2 * v
    } else {
        r == v
    }
}

/// Capacity for `value` items: the smallest power of two that holds them (at
/// least one item), or the count itself when no such power fits in a `usize`.
pub fn next_capacity(value: usize) -> (r: usize)
    ensures
        capacity_for(value as int, r as int),
{
    let v = if value < 1 { 1 } else { value };
    if v > usize::MAX / 2 + 1 {
        return v;
    }
    let mut p: usize = 1;
    let ghost mut e: nat = 0;
    assert(pow2(0) == 1) by {
        vstd::arithmetic::power2::lemma2_to64();
    }
    while p < v
        invariant
            v <= usize::MAX / 2 + 1,
            1 <= v,
            p == pow2(e),
            1 <= p < 2 * v,
        decreases 2 * v - p,
    {
        proof {
            lemma_pow2_unfold(e + 1);
            e = e + 1;
        }
        p = p * 2;
    }
    p
}

/// Number of neighbour lists a plan produces over `rows` rows.
pub fn plan_lists(plan: Plan, rows: usize) -> (r: usize)
    ensures
        r == if plan == Plan::Gram {
            ceil_div(rows as int, GRAM_ROWS as int)
        } else {
            ceil_div(rows as int, TILE_ROWS as int)
        },
{
    if plan == Plan::Gram {
        div_ceil(rows, GRAM_ROWS)
    } else {
        div_ceil(rows, TILE_ROWS)
    }
}

/// Lists merged per reduction step when selecting `k` neighbours.
pub fn plan_fan(k: usize) -> (r: usize)
    requires
        k > 0,
    ensures
        r == if k <= 16 {
            TILE_ROWS / k
        } else {
            2
        },
{
    if k <= 16 {
        TILE_ROWS / k
    } else {
        2
    }
}

/// `a * b`, capped at `usize::MAX`.
pub open spec fn capped_product(a: int, b: int) -> int {
    if a * b > usize::MAX {
        usize::MAX as int
    } else {
        a * b
    }
}

/// The base-two logarithm of `x`, rounded down (zero below two).
pub open spec fn floor_log2(x: nat) -> nat
    decreases x,
{
    if x < 2 {
        0
    } else {
        1 + floor_log2(x / 2)
    }
}

/// The work bucket in which the automatic driver remembers whether the CPU or
/// the GPU answered faster: the base-two logarithm of rows times queries times
/// dimensions (each product capped at `usize::MAX`, at least one).
pub fn bucket(rows: usize, queries: usize, dims: usize) -> (r: u32)
    ensures
        ({
            let work = capped_product(capped_product(rows as int, queries as int), dims as int);
            r == floor_log2(if work < 1 {
                1nat
            } else {
                work as nat
            })
        }),
{
    let first = match rows.checked_mul(queries) {
        Some(n) => n,
        None => usize::MAX,
    };
    let work = match first.checked_mul(dims) {
        Some(n) => n,
        None => usize::MAX,
    };
    let mut x = if work < 1 {
        1
    } else {
        work
    };
    let ghost start = x as nat;
    let mut r: u32 = 0;
    proof {
        vstd::arithmetic::power2::lemma2_to64();
    }
    while x >= 2
        invariant
            x >= 1,
            r as nat + floor_log2(x as nat) == floor_log2(start),
            r < 64,
            x as nat * pow2(r as nat) <= start,
            start <= usize::MAX,
        decreases x,
    {
        proof {
            vstd::arithmetic::power2::lemma_pow2_unfold((r + 1) as nat);
            assert((x / 2) as nat * pow2((r + 1) as nat) <= x as nat * pow2(r as nat)) by (nonlinear_arith)
                requires
                    pow2((r + 1) as nat) == 2 * pow2(r as nat),
                    x >= 2,
            ;
            assert(pow2((r + 1) as nat) <= start) by (nonlinear_arith)
                requires
                    (x / 2) as nat * pow2((r + 1) as nat) <= start,
                    x >= 2,
            ;
            vstd::arithmetic::power2::lemma2_to64();
            if r + 1 < 64 {
                vstd::arithmetic::power2::lemma_pow2_strictly_increases((r + 1) as nat, 64);
            }
        }
        x = x / 2;
        r = r + 1;
    }
    r
}

/// The accelerated index implementations a build carries.
#[derive(Clone, Copy, Debug, Eq, PartialEq, Structural)]
pub struct Accelerators {
    /// Apple Metal (macOS builds with the metal feature).
    pub metal: bool,
    /// USearch HNSW (the usearch or usearch-native feature).
    pub usearch: bool,
    /// OpenCL (the opencl feature).
    pub opencl: bool,
    /// CUDA (Linux x86_64 builds with the cuda feature).
    pub cuda: bool,
}

/// The index implementation that serves a driver.
#[derive(Clone, Copy, Debug, Eq, PartialEq, Structural)]
pub enum KnnBackendKind {
    Exact,
    Auto,
    Agx,
    USearch,
    Metal,
    OpenCl,
    Cuda,
}

/// Which implementation serves `driver` with `plan` in a build carrying
/// `built`, or why none does.
pub open spec fn backend_choice(driver: IndexDriver, plan: KnnPlan, built: Accelerators) -> Result<
    KnnBackendKind,
    Seq<char>,
> {
    if plan != KnnPlan::Measured && !(driver == IndexDriver::Metal || driver == IndexDriver::Agx) {
        Err("explicit KNN plans require the Metal or AGX driver"@)
    } else {
        match driver {
            IndexDriver::Exact => Ok(KnnBackendKind::Exact),
            IndexDriver::Auto => if built.metal {
                Ok(KnnBackendKind::Auto)
            } else {
                Ok(KnnBackendKind::Exact)
            },
            IndexDriver::Agx => if built.metal {
                Ok(KnnBackendKind::Agx)
            } else {
                Err("AGX index is unavailable; build on macOS with the metal feature"@)
            },
            IndexDriver::USearch => if built.usearch {
                Ok(KnnBackendKind::USearch)
            } else {
                Err("USearch index is unavailable; build with the usearch or usearch-native feature"@)
            },
            IndexDriver::Metal => if built.metal {
                Ok(KnnBackendKind::Metal)
            } else {
                Err("Metal index is unavailable; build on macOS with the metal feature"@)
            },
            IndexDriver::OpenCl => if built.opencl {
                Ok(KnnBackendKind::OpenCl)
            } else {
                Err("OpenCL index is unavailable; build with the opencl feature"@)
            },
            IndexDriver::Cuda => if built.cuda {
                Ok(KnnBackendKind::Cuda)
            } else {
                Err("CUDA index is unavailable; build on Linux x86_64 with the cuda feature"@)
            },
            IndexDriver::BpAnnDisk => Err("IndexDriver::BpAnnDisk is disk-only; use DiskBpannEnnBackend"@),
        }
    }
}

/// Chooses the implementation that serves `driver` with `plan`: explicit
/// plans need a Metal or AGX driver, the automatic driver falls back to the
/// exact index without Metal, and an accelerator the build lacks is an error.
pub fn backend_for(driver: IndexDriver, plan: KnnPlan, built: Accelerators) -> (r: Result<
    KnnBackendKind,
    IndexError,
>)
    ensures
        match backend_choice(driver, plan, built) {
            Ok(kind) => r == Ok::<KnnBackendKind, IndexError>(kind),
            Err(m) => r matches Err(IndexError::InvalidParameter(e)) && e@ == m,
        },
{
    let unavailable = |m: &str| -> (e: IndexError)
        ensures
            e matches IndexError::InvalidParameter(x) && x@ == m@,
        { IndexError::InvalidParameter(String::from_str(m)) };
    if plan != KnnPlan::Measured && !(driver == IndexDriver::Metal || driver == IndexDriver::Agx) {
        return Err(unavailable("explicit KNN plans require the Metal or AGX driver"));
    }
    match driver {
        IndexDriver::Exact => Ok(KnnBackendKind::Exact),
        IndexDriver::Auto => if built.metal {
            Ok(KnnBackendKind::Auto)
        } else {
            Ok(KnnBackendKind::Exact)
        },
        IndexDriver::Agx => if built.metal {
            Ok(KnnBackendKind::Agx)
        } else {
            Err(unavailable("AGX index is unavailable; build on macOS with the metal feature"))
        },
        IndexDriver::USearch => if built.usearch {
            Ok(KnnBackendKind::USearch)
        } else {
            Err(unavailable("USearch index is unavailable; build with the usearch or usearch-native feature"))
        },
        IndexDriver::Metal => if built.metal {
            Ok(KnnBackendKind::Metal)
        } else {
            Err(unavailable("Metal index is unavailable; build on macOS with the metal feature"))
        },
        IndexDriver::OpenCl => if built.opencl {
            Ok(KnnBackendKind::OpenCl)
        } else {
            Err(unavailable("OpenCL index is unavailable; build with the opencl feature"))
        },
        IndexDriver::Cuda => if built.cuda {
            Ok(KnnBackendKind::Cuda)
        } else {
            Err(unavailable("CUDA index is unavailable; build on Linux x86_64 with the cuda feature"))
        },
        IndexDriver::BpAnnDisk => Err(unavailable("IndexDriver::BpAnnDisk is disk-only; use DiskBpannEnnBackend")),
    }
}

/// Each accelerated driver is served by its own index in a build that
/// carries it, and refused in one that does not; the exact driver is served
/// by the exact index, and the automatic driver by the calibrated race with
/// Metal and by the exact index without it.
pub proof fn lemma_drivers_served_by_own_index(plan: KnnPlan, built: Accelerators)
    ensures
        backend_choice(IndexDriver::Metal, plan, built) == (if built.metal {
            Ok::<KnnBackendKind, Seq<char>>(KnnBackendKind::Metal)
        } else {
            Err("Metal index is unavailable; build on macOS with the metal feature"@)
        }),
        backend_choice(IndexDriver::Agx, plan, built) == (if built.metal {
            Ok::<KnnBackendKind, Seq<char>>(KnnBackendKind::Agx)
        } else {
            Err("AGX index is unavailable; build on macOS with the metal feature"@)
        }),
        built.cuda ==> backend_choice(IndexDriver::Cuda, KnnPlan::Measured, built) == Ok::<
            KnnBackendKind,
            Seq<char>,
        >(KnnBackendKind::Cuda),
        built.opencl ==> backend_choice(IndexDriver::OpenCl, KnnPlan::Measured, built) == Ok::<
            KnnBackendKind,
            Seq<char>,
        >(KnnBackendKind::OpenCl),
        built.usearch ==> backend_choice(IndexDriver::USearch, KnnPlan::Measured, built) == Ok::<
            KnnBackendKind,
            Seq<char>,
        >(KnnBackendKind::USearch),
        !built.cuda ==> backend_choice(IndexDriver::Cuda, plan, built) is Err,
        !built.opencl ==> backend_choice(IndexDriver::OpenCl, plan, built) is Err,
        !built.usearch ==> backend_choice(IndexDriver::USearch, plan, built) is Err,
        backend_choice(IndexDriver::Exact, KnnPlan::Measured, built) == Ok::<KnnBackendKind, Seq<char>>(
            KnnBackendKind::Exact,
        ),
        backend_choice(IndexDriver::Auto, KnnPlan::Measured, built) == Ok::<KnnBackendKind, Seq<char>>(
            if built.metal {
                KnnBackendKind::Auto
            } else {
                KnnBackendKind::Exact
            },
        ),
        backend_choice(IndexDriver::BpAnnDisk, plan, built) is Err,
{
}

/// The exact CPU index serves a request only when the exact driver, or the
/// automatic driver in a build without Metal, asks for measured plans; an
/// explicit plan is refused unless a Metal or AGX driver takes it.
pub proof fn lemma_exact_index_only_when_asked(driver: IndexDriver, plan: KnnPlan, built: Accelerators)
    ensures
        (backend_choice(driver, plan, built) == Ok::<KnnBackendKind, Seq<char>>(KnnBackendKind::Exact)) <==> (
        plan == KnnPlan::Measured && (driver == IndexDriver::Exact || (driver == IndexDriver::Auto
            && !built.metal))),
        plan != KnnPlan::Measured && driver != IndexDriver::Metal && driver != IndexDriver::Agx
            ==> backend_choice(driver, plan, built) is Err,
{
}

/// The plan name a non-Metal, non-CUDA implementation reports.
pub fn backend_plan_name(kind: KnnBackendKind) -> (r: Option<&'static str>)
    ensures
        match kind {
            KnnBackendKind::Exact => r matches Some(s) && s@ == "exact"@,
            KnnBackendKind::Auto => r matches Some(s) && s@ == "auto"@,
            KnnBackendKind::USearch => r matches Some(s) && s@ == "usearch"@,
            KnnBackendKind::OpenCl => r matches Some(s) && s@ == "opencl"@,
            _ => r is None,
        },
{
    match kind {
        KnnBackendKind::Exact => Some("exact"),
        KnnBackendKind::Auto => Some("auto"),
        KnnBackendKind::USearch => Some("usearch"),
        KnnBackendKind::OpenCl => Some("opencl"),
        _ => None,
    }
}

/// Fewest queries for which the Gram-identity plan is raced.
pub const GRAM_QUERIES: usize = 8;

/// Most neighbours a Metal search returns.
pub const MAX_K: usize = 2048;

/// Rounds of the race among measured plans.
pub const PLAN_RACE_ROUNDS: usize = 5;

/// Checks the neighbour count of a Metal search.
pub fn check_neighbors(k_eff: usize) -> (r: Result<(), IndexError>)
    ensures
        match r {
            Ok(()) => 1 <= k_eff <= MAX_K,
            Err(e) => (k_eff == 0 || k_eff > MAX_K) && (e matches IndexError::InvalidParameter(m) && m@
                == "Metal index supports 1..="@ + decimal(MAX_K as nat) + " neighbors, got "@ + decimal(
                k_eff as nat,
            )),
        },
{
    if k_eff == 0 || k_eff > MAX_K {
        let mut m = String::from_str("Metal index supports 1..=");
        push_decimal(&mut m, MAX_K as u64);
        m.append(" neighbors, got ");
        push_decimal(&mut m, k_eff as u64);
        proof {
            reveal_strlit("Metal index supports 1..=");
            reveal_strlit(" neighbors, got ");
            assert(m@ =~= "Metal index supports 1..="@ + decimal(MAX_K as nat) + " neighbors, got "@ + decimal(
                k_eff as nat,
            ));
        }
        return Err(IndexError::InvalidParameter(m));
    }
    Ok(())
}

/// Most neighbours an OpenCL search returns.
pub const OPENCL_MAX_K: usize = 1024;

/// Checks the neighbour count of an OpenCL search.
pub fn check_opencl_neighbors(k_eff: usize) -> (r: Result<(), IndexError>)
    ensures
        match r {
            Ok(()) => 1 <= k_eff <= OPENCL_MAX_K,
            Err(e) => (k_eff == 0 || k_eff > OPENCL_MAX_K) && (e matches IndexError::InvalidParameter(m) && m@
                == "OpenCL index supports 1..="@ + decimal(OPENCL_MAX_K as nat) + " neighbors, got "@ + decimal(
                k_eff as nat,
            )),
        },
{
    if k_eff == 0 || k_eff > OPENCL_MAX_K {
        let mut m = String::from_str("OpenCL index supports 1..=");
        push_decimal(&mut m, OPENCL_MAX_K as u64);
        m.append(" neighbors, got ");
        push_decimal(&mut m, k_eff as u64);
        proof {
            reveal_strlit("OpenCL index supports 1..=");
            reveal_strlit(" neighbors, got ");
            assert(m@ =~= "OpenCL index supports 1..="@ + decimal(OPENCL_MAX_K as nat) + " neighbors, got "@
                + decimal(k_eff as nat));
        }
        return Err(IndexError::InvalidParameter(m));
    }
    Ok(())
}

/// The kernel parameters of one row tile of an OpenCL search.
#[derive(Clone, Copy, Debug, PartialEq, Eq, Structural)]
pub struct OpenClParams {
    pub rows: u32,
    pub dim: u32,
    pub queries: u32,
    pub tile_start: u32,
    pub tile_rows: u32,
    pub k: u32,
}

/// What an OpenCL search runs: nothing but padding when there are no
/// queries or no rows, else the kernels of each row tile with these
/// parameters.
pub enum OpenClSearch {
    Padding,
    Tiles(Vec<OpenClParams>),
}

/// The parameters of `tile` in a search of `queries` queries for `k`
/// neighbours among `rows` rows of `dim` values.
pub open spec fn opencl_tile_params(rows: usize, dim: usize, queries: usize, k: usize, tile: (usize, usize)) -> OpenClParams {
    OpenClParams {
        rows: rows as u32,
        dim: dim as u32,
        queries: queries as u32,
        tile_start: tile.0 as u32,
        tile_rows: tile.1 as u32,
        k: k as u32,
    }
}

/// The message of a count that does not fit the `u32` parameters of the
/// OpenCL kernels: the row count, the dimension and the query count are
/// checked in that order.
pub open spec fn opencl_range_message(rows: usize, dim: usize, queries: usize) -> Seq<char> {
    if rows > u32::MAX {
        "row count exceeds u32 range"@
    } else if dim > u32::MAX {
        "dimension exceeds u32 range"@
    } else {
        "query count exceeds u32 range"@
    }
}

/// Plans an OpenCL search of `queries` queries of `dims` values for `k_eff`
/// neighbours among the `rows` rows of an index of `num_dim` dimensions.
pub fn opencl_search_plan(num_dim: usize, dims: usize, queries: usize, rows: usize, k_eff: usize) -> (r: Result<
    OpenClSearch,
    IndexError,
>)
    ensures
        match r {
            Ok(OpenClSearch::Padding) => dims == num_dim && 1 <= k_eff <= OPENCL_MAX_K && (queries == 0 || rows
                == 0),
            Ok(OpenClSearch::Tiles(p)) => {
                &&& dims == num_dim && 1 <= k_eff <= OPENCL_MAX_K
                &&& queries > 0 && rows > 0
                &&& rows <= u32::MAX && num_dim <= u32::MAX && queries <= u32::MAX
                &&& p@.len() == scan_tiles_of(rows as int).len()
                &&& forall|i: int|
                    0 <= i < p@.len() ==> #[trigger] p@[i] == opencl_tile_params(
                        rows,
                        num_dim,
                        queries,
                        k_eff,
                        scan_tiles_of(rows as int)[i],
                    )
            },
            Err(e) => if dims != num_dim {
                e == (IndexError::InvalidShape { expected: num_dim, got: dims })
            } else if k_eff == 0 || k_eff > OPENCL_MAX_K {
                e matches IndexError::InvalidParameter(m) && m@ == "OpenCL index supports 1..="@ + decimal(
                    OPENCL_MAX_K as nat,
                ) + " neighbors, got "@ + decimal(k_eff as nat)
            } else {
                &&& queries > 0 && rows > 0
                &&& (rows > u32::MAX || num_dim > u32::MAX || queries > u32::MAX)
                &&& e matches IndexError::InvalidParameter(m) && m@ == opencl_range_message(rows, num_dim, queries)
            },
        },
{
    if dims != num_dim {
        return Err(IndexError::InvalidShape { expected: num_dim, got: dims });
    }
    match check_opencl_neighbors(k_eff) {
        Ok(()) => {},
        Err(e) => return Err(e),
    }
    if queries == 0 || rows == 0 {
        return Ok(OpenClSearch::Padding);
    }
    let tiles = scan_tiles(rows);
    let mut params: Vec<OpenClParams> = Vec::with_capacity(tiles.len());
    let mut i: usize = 0;
    while i < tiles.len()
        invariant
            tiles@ == scan_tiles_of(rows as int),
            rows > 0 && queries > 0 && dims == num_dim,
            1 <= k_eff <= OPENCL_MAX_K,
            i <= tiles@.len(),
            params@.len() == i,
            i > 0 ==> rows <= u32::MAX && num_dim <= u32::MAX && queries <= u32::MAX,
            forall|j: int|
                0 <= j < i ==> #[trigger] params@[j] == opencl_tile_params(rows, num_dim, queries, k_eff, tiles@[j]),
        decreases tiles@.len() - i,
    {
        let (tile_start, tile_rows) = tiles[i];
        proof {
            assert(tiles@[i as int].0 == (i * TILE_ROWS) as usize);
            assert(i * TILE_ROWS < rows) by (nonlinear_arith)
                requires
                    i < ceil_div(rows as int, TILE_ROWS as int),
                    TILE_ROWS == 1024,
                    rows > 0,
            {
                if (rows as int) % 1024 == 0 {
                    assert(rows as int == (rows as int / 1024) * 1024);
                } else {
                    assert(rows as int >= (rows as int / 1024) * 1024 + 1);
                }
            }
        }
        let p_rows = match to_u32(rows, "row count") {
            Ok(v) => v,
            Err(e) => {
                proof {
                    reveal_strlit("row count");
                    reveal_strlit(" exceeds u32 range");
                    reveal_strlit("row count exceeds u32 range");
                    assert(("row count"@ + " exceeds u32 range"@) =~= "row count exceeds u32 range"@);
                }
                return Err(e);
            },
        };
        let p_dim = match to_u32(num_dim, "dimension") {
            Ok(v) => v,
            Err(e) => {
                proof {
                    reveal_strlit("dimension");
                    reveal_strlit(" exceeds u32 range");
                    reveal_strlit("dimension exceeds u32 range");
                    assert(("dimension"@ + " exceeds u32 range"@) =~= "dimension exceeds u32 range"@);
                }
                return Err(e);
            },
        };
        let p_queries = match to_u32(queries, "query count") {
            Ok(v) => v,
            Err(e) => {
                proof {
                    reveal_strlit("query count");
                    reveal_strlit(" exceeds u32 range");
                    reveal_strlit("query count exceeds u32 range");
                    assert(("query count"@ + " exceeds u32 range"@) =~= "query count exceeds u32 range"@);
                }
                return Err(e);
            },
        };
        let p_start = match to_u32(tile_start, "tile start") {
            Ok(v) => v,
            Err(e) => return Err(e),
        };
        let p_tile = match to_u32(tile_rows, "tile rows") {
            Ok(v) => v,
            Err(e) => return Err(e),
        };
        let p_k = match to_u32(k_eff, "neighbor count") {
            Ok(v) => v,
            Err(e) => return Err(e),
        };
        params.push(
            OpenClParams {
                rows: p_rows,
                dim: p_dim,
                queries: p_queries,
                tile_start: p_start,
                tile_rows: p_tile,
                k: p_k,
            },
        );
        i = i + 1;
    }
    Ok(OpenClSearch::Tiles(params))
}

/// The plan that a request fixes by itself (`None` when plans are to be
/// measured), or why it cannot serve `k` neighbours.
pub open spec fn direct_choice(request: KnnPlan, k: usize) -> Result<Option<Plan>, Seq<char>> {
    match request {
        KnnPlan::Measured => Ok(None),
        KnnPlan::Split => Ok(Some(Plan::Split)),
        KnnPlan::Wide => Ok(Some(Plan::Wide)),
        _ => if k > 16 {
            Err("specialized KNN plans support at most 16 neighbors"@)
        } else {
            Ok(
                Some(
                    match request {
                        KnnPlan::Fused => Plan::Fused,
                        KnnPlan::Tree => Plan::Tree,
                        KnnPlan::Tiled => Plan::Tiled,
                        KnnPlan::Simd => Plan::Simd,
                        _ => Plan::Gram,
                    },
                ),
            )
        },
    }
}

/// The plan a request fixes by itself, if any.
pub fn direct_plan(request: KnnPlan, k: usize) -> (r: Result<Option<Plan>, IndexError>)
    ensures
        match direct_choice(request, k) {
            Ok(p) => r == Ok::<Option<Plan>, IndexError>(p),
            Err(m) => r matches Err(IndexError::InvalidParameter(e)) && e@ == m,
        },
{
    match request {
        KnnPlan::Measured => Ok(None),
        KnnPlan::Split => Ok(Some(Plan::Split)),
        KnnPlan::Wide => Ok(Some(Plan::Wide)),
        KnnPlan::Fused if k <= 16 => Ok(Some(Plan::Fused)),
        KnnPlan::Tree if k <= 16 => Ok(Some(Plan::Tree)),
        KnnPlan::Tiled if k <= 16 => Ok(Some(Plan::Tiled)),
        KnnPlan::Simd if k <= 16 => Ok(Some(Plan::Simd)),
        KnnPlan::Gram if k <= 16 => Ok(Some(Plan::Gram)),
        _ => Err(
            IndexError::InvalidParameter(String::from_str("specialized KNN plans support at most 16 neighbors")),
        ),
    }
}

/// The plan reduces neighbour lists as a tree, which needs tree scratch.
pub open spec fn is_tree_plan(p: Plan) -> bool {
    p == Plan::Tree || p == Plan::Tiled || p == Plan::Simd || p == Plan::Gram || p == Plan::Wide
}

/// Whether the plan needs tree scratch.
pub fn tree_plan(p: Plan) -> (r: bool)
    ensures
        r == is_tree_plan(p),
{
    match p {
        Plan::Tree | Plan::Tiled | Plan::Simd | Plan::Gram | Plan::Wide => true,
        _ => false,
    }
}

/// Lists merged per reduction step by plan `p` with `k` neighbours.
pub fn tree_fan(p: Plan, k: usize) -> (r: usize)
    requires
        k > 0,
    ensures
        r == if p == Plan::Wide {
            2
        } else if k <= 16 {
            TILE_ROWS / k
        } else {
            2
        },
{
    if p == Plan::Wide {
        2
    } else {
        plan_fan(k)
    }
}

/// What the measured path of a plan choice sets up before racing.
pub struct MeasuredSetup {
    /// The Gram-identity plan is among the candidates.
    pub gram: bool,
    /// Neighbour lists the scan produces.
    pub tree_lists: usize,
    /// Lists merged per reduction step.
    pub fan: usize,
    /// The plans that race, in race order.
    pub candidates: Vec<Plan>,
    /// The schedule family under which the race result is cached.
    pub family: &'static str,
}

/// The measured setup for `rows` stored rows, `queries` queries and `k`
/// neighbours on a Metal (or, with `agx`, AGX) index.
pub fn measured_setup(rows: usize, queries: usize, k: usize, agx: bool) -> (r: MeasuredSetup)
    requires
        k > 0,
    ensures
        r.gram == (k <= 16 && queries >= GRAM_QUERIES),
        r.tree_lists == if r.gram {
            ceil_div(rows as int, GRAM_ROWS as int)
        } else {
            ceil_div(rows as int, TILE_ROWS as int)
        },
        r.fan == if k <= 16 {
            TILE_ROWS / k
        } else {
            2
        },
        r.candidates@ == if r.gram {
            seq![Plan::Split, Plan::Fused, Plan::Tree, Plan::Tiled, Plan::Simd, Plan::Gram]
        } else if k <= 16 {
            seq![Plan::Split, Plan::Fused, Plan::Tree, Plan::Tiled, Plan::Simd]
        } else {
            seq![Plan::Split, Plan::Wide]
        },
        r.family@ == if agx {
            "knn.plan.agx.v5"@
        } else {
            "knn.plan.metal.v5"@
        },
{
    let gram = k <= 16 && queries >= GRAM_QUERIES;
    let tree_lists = if gram {
        div_ceil(rows, GRAM_ROWS)
    } else {
        div_ceil(rows, TILE_ROWS)
    };
    let fan = if k <= 16 {
        plan_fan(k)
    } else {
        2
    };
    let candidates = if gram {
        vec![Plan::Split, Plan::Fused, Plan::Tree, Plan::Tiled, Plan::Simd, Plan::Gram]
    } else if k <= 16 {
        vec![Plan::Split, Plan::Fused, Plan::Tree, Plan::Tiled, Plan::Simd]
    } else {
        vec![Plan::Split, Plan::Wide]
    };
    let family = if agx {
        "knn.plan.agx.v5"
    } else {
        "knn.plan.metal.v5"
    };
    proof {
        assert(candidates@ == if gram {
            seq![Plan::Split, Plan::Fused, Plan::Tree, Plan::Tiled, Plan::Simd, Plan::Gram]
        } else if k <= 16 {
            seq![Plan::Split, Plan::Fused, Plan::Tree, Plan::Tiled, Plan::Simd]
        } else {
            seq![Plan::Split, Plan::Wide]
        });
    }
    MeasuredSetup { gram, tree_lists, fan, candidates, family }
}

/// `needle` occurs somewhere in `text`.
pub open spec fn mentions(text: Seq<char>, needle: Seq<char>) -> bool {
    search(text, needle, 0) is Some
}

/// Where the time of a profiled GPU stage is counted.
#[derive(Clone, Copy, Debug, Eq, PartialEq, Structural)]
pub enum StageClass {
    /// Distance scans.
    Scan,
    /// Top-k selection.
    Select,
    /// Merging and reduction of neighbour lists.
    Reduce,
    /// Any other stage.
    Other,
}

/// The class of a stage by its name.
pub open spec fn stage_class_of(name: Seq<char>) -> StageClass {
    if mentions(name, "distance"@) || mentions(name, "scan"@) || mentions(name, "l2_topk"@) {
        StageClass::Scan
    } else if mentions(name, "topk"@) {
        StageClass::Select
    } else if mentions(name, "merge"@) || mentions(name, "reduce"@) || mentions(name, "fold"@) {
        StageClass::Reduce
    } else {
        StageClass::Other
    }
}

fn mentions_exec(name: &Vec<char>, needle: &str) -> (r: bool)
    ensures
        r == mentions(name@, needle@),
{
    let n = crate::text::chars_of(needle);
    crate::text::find(name, &n).is_some()
}

/// Classifies a profiled stage: distance scans, then top-k selection, then
/// list merging and reduction, by the words its name holds.
pub fn stage_class(name: &str) -> (r: StageClass)
    ensures
        r == stage_class_of(name@),
{
    let chars = crate::text::chars_of(name);
    if mentions_exec(&chars, "distance") || mentions_exec(&chars, "scan") || mentions_exec(&chars, "l2_topk") {
        StageClass::Scan
    } else if mentions_exec(&chars, "topk") {
        StageClass::Select
    } else if mentions_exec(&chars, "merge") || mentions_exec(&chars, "reduce") || mentions_exec(&chars, "fold") {
        StageClass::Reduce
    } else {
        StageClass::Other
    }
}

/// Capacities of the scratch buffers of a Metal index, in queries,
/// neighbours, tiles and reduction groups.
#[derive(Clone, Copy, Debug, Eq, PartialEq, Structural)]
pub struct ScratchSizes {
    pub query_capacity: usize,
    pub k_capacity: usize,
    pub tree_query_capacity: usize,
    pub tree_k_capacity: usize,
    pub tile_capacity: usize,
    pub group_capacity: usize,
}

impl ScratchSizes {
    /// No scratch allocated yet.
    pub fn new() -> (r: Self)
        ensures
            r == (ScratchSizes {
                query_capacity: 0,
                k_capacity: 0,
                tree_query_capacity: 0,
                tree_k_capacity: 0,
                tile_capacity: 0,
                group_capacity: 0,
            }),
    {
        ScratchSizes {
            query_capacity: 0,
            k_capacity: 0,
            tree_query_capacity: 0,
            tree_k_capacity: 0,
            tile_capacity: 0,
            group_capacity: 0,
        }
    }

    /// Makes room for `queries` queries of `k` neighbours. Returns whether the
    /// search buffers must be reallocated; they are then sized to the next
    /// capacities of both counts.
    pub fn ensure(&mut self, queries: usize, k: usize) -> (grown: bool)
        ensures
            if queries <= old(self).query_capacity && k <= old(self).k_capacity {
                !grown && *final(self) == *old(self)
            } else {
                &&& grown
                &&& capacity_for(queries as int, final(self).query_capacity as int)
                &&& capacity_for(k as int, final(self).k_capacity as int)
                &&& final(self).tree_query_capacity == old(self).tree_query_capacity
                &&& final(self).tree_k_capacity == old(self).tree_k_capacity
                &&& final(self).tile_capacity == old(self).tile_capacity
                &&& final(self).group_capacity == old(self).group_capacity
            },
    {
        if queries <= self.query_capacity && k <= self.k_capacity {
            return false;
        }
        self.query_capacity = next_capacity(queries);
        self.k_capacity = next_capacity(k);
        true
    }

    /// Makes room for the reduction tree of `queries` queries of `k`
    /// neighbours over `tiles` lists merged `fan` at a time. Returns whether the
    /// tree buffers must be reallocated; they are then sized to the next
    /// capacities of the four counts.
    pub fn ensure_tree(&mut self, queries: usize, k: usize, tiles: usize, fan: usize) -> (grown: bool)
        requires
            fan > 0,
        ensures
            ({
                let groups = ceil_div(tiles as int, fan as int);
                if queries <= old(self).tree_query_capacity && k <= old(self).tree_k_capacity && tiles
                    <= old(self).tile_capacity && groups <= old(self).group_capacity {
                    !grown && *final(self) == *old(self)
                } else {
                    &&& grown
                    &&& capacity_for(queries as int, final(self).tree_query_capacity as int)
                    &&& capacity_for(k as int, final(self).tree_k_capacity as int)
                    &&& capacity_for(tiles as int, final(self).tile_capacity as int)
                    &&& capacity_for(groups, final(self).group_capacity as int)
                    &&& final(self).query_capacity == old(self).query_capacity
                    &&& final(self).k_capacity == old(self).k_capacity
                }
            }),
    {
        let groups = div_ceil(tiles, fan);
        if queries <= self.tree_query_capacity && k <= self.tree_k_capacity && tiles <= self.tile_capacity
            && groups <= self.group_capacity {
            return false;
        }
        self.tree_query_capacity = next_capacity(queries);
        self.tree_k_capacity = next_capacity(k);
        self.tile_capacity = next_capacity(tiles);
        self.group_capacity = next_capacity(groups);
        true
    }
}

/// The row tiles a distance scan visits over `rows` rows: the start and the
/// row count of each, `TILE_ROWS` rows apart.
pub open spec fn scan_tiles_of(rows: int) -> Seq<(usize, usize)> {
    Seq::new(
        ceil_div(rows, TILE_ROWS as int) as nat,
        |q: int|
            (
                (q * TILE_ROWS) as usize,
                (if rows - q * TILE_ROWS < TILE_ROWS {
                    rows - q * TILE_ROWS
                } else {
                    TILE_ROWS as int
                }) as usize,
            ),
    )
}

/// The row tiles of a distance scan over `rows` rows.
pub fn scan_tiles(rows: usize) -> (r: Vec<(usize, usize)>)
    ensures
        r@ == scan_tiles_of(rows as int),
{
    let count = div_ceil(rows, TILE_ROWS);
    let mut out: Vec<(usize, usize)> = Vec::with_capacity(count);
    let mut q: usize = 0;
    proof {
        assert(count * TILE_ROWS >= rows) by (nonlinear_arith)
            requires
                count == ceil_div(rows as int, TILE_ROWS as int),
        ;
        assert(count == 0 || (count - 1) * TILE_ROWS < rows) by (nonlinear_arith)
            requires
                count == ceil_div(rows as int, TILE_ROWS as int),
        ;
    }
    while q < count
        invariant
            count == ceil_div(rows as int, TILE_ROWS as int),
            count == 0 || (count - 1) * TILE_ROWS < rows,
            q <= count,
            out@ == scan_tiles_of(rows as int).subrange(0, q as int),
        decreases count - q,
    {
        let start = q * TILE_ROWS;
        let left = rows - start;
        let len = if left < TILE_ROWS {
            left
        } else {
            TILE_ROWS
        };
        out.push((start, len));
        q = q + 1;
        assert(out@ =~= scan_tiles_of(rows as int).subrange(0, q as int));
    }
    assert(scan_tiles_of(rows as int).subrange(0, count as int) =~= scan_tiles_of(rows as int));
    out
}

/// A buffer pair that a stage of a tree search reads or writes.
#[derive(Clone, Copy, Debug, Eq, PartialEq, Structural)]
pub enum ListBuffer {
    /// The final neighbour lists.
    Result,
    /// The first tree scratch pair.
    Tree,
    /// The second tree scratch pair.
    Alt,
}

/// One reduction pass: `lists` lists merged into `groups`.
#[derive(Clone, Copy, Debug, Eq, PartialEq, Structural)]
pub struct ReducePass {
    pub lists: usize,
    pub groups: usize,
    pub input: ListBuffer,
    pub output: ListBuffer,
}

/// The passes that merge `lists` lists `fan` at a time until one is left,
/// starting from the tree pair when `tree_input` (else the other pair), each
/// pass writing the other pair and the last one the result.
pub open spec fn reduce_passes(lists: int, fan: int, tree_input: bool) -> Seq<ReducePass>
    decreases lists,
{
    if lists <= 1 || fan < 2 {
        Seq::empty()
    } else {
        let groups = ceil_div(lists, fan);
        let pass = ReducePass {
            lists: lists as usize,
            groups: groups as usize,
            input: if tree_input {
                ListBuffer::Tree
            } else {
                ListBuffer::Alt
            },
            output: if groups == 1 {
                ListBuffer::Result
            } else if tree_input {
                ListBuffer::Alt
            } else {
                ListBuffer::Tree
            },
        };
        proof {
            lemma_ceil_div_shrinks(lists, fan);
        }
        seq![pass] + reduce_passes(groups, fan, !tree_input)
    }
}

/// Merging more than one list at least two at a time leaves fewer lists, but
/// at least one.
pub proof fn lemma_ceil_div_shrinks(lists: int, fan: int)
    requires
        lists > 1,
        fan >= 2,
    ensures
        1 <= ceil_div(lists, fan) < lists,
{
    assert(lists / fan < lists) by (nonlinear_arith)
        requires
            lists > 1,
            fan >= 2,
    ;
    assert(lists / fan >= 0) by (nonlinear_arith)
        requires
            lists > 1,
            fan >= 2,
    ;
    if lists % fan == 0 {
        assert(lists / fan >= 1) by (nonlinear_arith)
            requires
                lists > 1,
                fan >= 2,
                lists % fan == 0,
        ;
    } else {
        assert(lists / fan + 1 < lists) by (nonlinear_arith)
            requires
                lists > 1,
                fan >= 2,
                lists % fan != 0,
        ;
    }
}

/// The schedule of a tree search: the scan stage and the reduction passes.
pub struct TreeSchedule {
    /// Name of the scan stage.
    pub scan_name: &'static str,
    /// Neighbour lists the scan writes.
    pub scan_lists: usize,
    /// Where the scan writes: the result when it writes one list.
    pub scan_output: ListBuffer,
    /// Work groups the scan dispatches.
    pub scan_groups: usize,
    /// Name of the reduction passes.
    pub reduce_name: &'static str,
    /// Lists merged per reduction step.
    pub fan: usize,
    /// The reduction passes in order.
    pub passes: Vec<ReducePass>,
}

/// The scan stage name of a tree plan.
pub open spec fn scan_name_of(plan: Plan) -> Seq<char> {
    match plan {
        Plan::Tree => "knn.tree.scan"@,
        Plan::Tiled => "knn.tiled.scan"@,
        Plan::Simd => "knn.simd.scan"@,
        Plan::Gram => "knn.gram.scan"@,
        _ => "knn.wide.scan"@,
    }
}

/// The schedule of tree plan `plan` over `rows` rows for `queries` queries of
/// `k` neighbours.
pub fn tree_schedule(plan: Plan, rows: usize, queries: usize, k: usize) -> (r: TreeSchedule)
    requires
        is_tree_plan(plan),
        k > 0,
        queries * rows <= usize::MAX,
    ensures
        r.scan_name@ == scan_name_of(plan),
        r.scan_lists == if plan == Plan::Gram {
            ceil_div(rows as int, GRAM_ROWS as int)
        } else {
            ceil_div(rows as int, TILE_ROWS as int)
        },
        r.scan_output == if r.scan_lists == 1 {
            ListBuffer::Result
        } else {
            ListBuffer::Tree
        },
        r.scan_groups == if plan == Plan::Gram {
            ceil_div(queries as int, GRAM_QUERIES as int) * r.scan_lists
        } else {
            queries * r.scan_lists
        },
        r.reduce_name@ == if plan == Plan::Wide {
            "knn.wide.fold"@
        } else {
            "knn.tree.reduce"@
        },
        r.fan == if plan == Plan::Wide || k > 16 {
            2
        } else {
            TILE_ROWS / k
        },
        r.passes@ == reduce_passes(r.scan_lists as int, r.fan as int, true),
{
    let scan_lists = plan_lists(plan, rows);
    proof {
        assert(scan_lists <= rows) by (nonlinear_arith)
            requires
                scan_lists == ceil_div(rows as int, GRAM_ROWS as int) || scan_lists == ceil_div(
                    rows as int,
                    TILE_ROWS as int,
                ),
        ;
        assert(queries * scan_lists <= queries * rows) by (nonlinear_arith)
            requires
                scan_lists <= rows,
        ;
    }
    let scan_output = if scan_lists == 1 {
        ListBuffer::Result
    } else {
        ListBuffer::Tree
    };
    let scan_name = match plan {
        Plan::Tree => "knn.tree.scan",
        Plan::Tiled => "knn.tiled.scan",
        Plan::Simd => "knn.simd.scan",
        Plan::Gram => "knn.gram.scan",
        _ => "knn.wide.scan",
    };
    let scan_groups = if plan == Plan::Gram {
        let blocks = div_ceil(queries, GRAM_QUERIES);
        proof {
            assert(blocks <= queries) by (nonlinear_arith)
                requires
                    blocks == ceil_div(queries as int, GRAM_QUERIES as int),
            ;
            assert(blocks * scan_lists <= queries * scan_lists) by (nonlinear_arith)
                requires
                    blocks <= queries,
            ;
        }
        blocks * scan_lists
    } else {
        queries * scan_lists
    };
    let fan = tree_fan(plan, k);
    proof {
        if plan != Plan::Wide && k <= 16 {
            assert(TILE_ROWS / k >= 2) by (nonlinear_arith)
                requires
                    0 < k <= 16,
                    TILE_ROWS == 1024,
            ;
        }
    }
    let reduce_name = if plan == Plan::Wide {
        "knn.wide.fold"
    } else {
        "knn.tree.reduce"
    };
    let mut passes: Vec<ReducePass> = Vec::new();
    let mut lists = scan_lists;
    let mut tree_input = true;
    while lists > 1
        invariant
            fan >= 2,
            lists <= usize::MAX,
            passes@ + reduce_passes(lists as int, fan as int, tree_input) == reduce_passes(
                scan_lists as int,
                fan as int,
                true,
            ),
        decreases lists,
    {
        let groups = div_ceil(lists, fan);
        proof {
            lemma_ceil_div_shrinks(lists as int, fan as int);
        }
        let input = if tree_input {
            ListBuffer::Tree
        } else {
            ListBuffer::Alt
        };
        let output = if groups == 1 {
            ListBuffer::Result
        } else if tree_input {
            ListBuffer::Alt
        } else {
            ListBuffer::Tree
        };
        let ghost before = passes@;
        passes.push(ReducePass { lists, groups, input, output });
        proof {
            let pass = ReducePass { lists, groups, input, output };
            assert(reduce_passes(lists as int, fan as int, tree_input) == seq![pass] + reduce_passes(
                groups as int,
                fan as int,
                !tree_input,
            ));
            assert(passes@ + reduce_passes(groups as int, fan as int, !tree_input) =~= before + reduce_passes(
                lists as int,
                fan as int,
                tree_input,
            ));
        }
        lists = groups;
        tree_input = !tree_input;
    }
    proof {
        assert(passes@ + Seq::<ReducePass>::empty() =~= passes@);
    }
    TreeSchedule { scan_name, scan_lists, scan_output, scan_groups, reduce_name, fan, passes }
}

/// Threads per group of the search kernels.
pub const SEARCH_THREADS: usize = 256;

/// One stage of a serial (split or fused) search: its name and the row tile
/// it covers.
#[derive(Debug, Clone, Copy, PartialEq, Eq)]
pub struct TileStage {
    pub name: &'static str,
    pub tile_start: usize,
    pub tile_rows: usize,
}

/// A stage as plain values.
pub open spec fn stage_view(s: TileStage) -> (Seq<char>, usize, usize) {
    (s.name@, s.tile_start, s.tile_rows)
}

/// The name of a serial search stage: under `knn.plan.` when a plan is being
/// timed, under `knn.` when it answers a search.
pub open spec fn stage_name(timed: bool, stage: Seq<char>) -> Seq<char> {
    if timed {
        "knn.plan."@ + stage
    } else {
        "knn."@ + stage
    }
}

/// The stages of serial plan `plan` over one row tile: distances then the
/// per-tile top-k for the split plan, the fused distance and top-k
/// otherwise; then the merge into the running result.
pub open spec fn tile_stages(plan: Plan, timed: bool, tile: (usize, usize)) -> Seq<(Seq<char>, usize, usize)> {
    if plan == Plan::Split {
        seq![
            (stage_name(timed, "distance"@), tile.0, tile.1),
            (stage_name(timed, "topk"@), tile.0, tile.1),
            (stage_name(timed, "merge"@), tile.0, tile.1),
        ]
    } else {
        seq![(stage_name(timed, "l2_topk"@), tile.0, tile.1), (stage_name(timed, "merge"@), tile.0, tile.1)]
    }
}

/// The stages of serial plan `plan` over the row tiles `tiles`, tile by tile.
pub open spec fn serial_stages(plan: Plan, timed: bool, tiles: Seq<(usize, usize)>) -> Seq<
    (Seq<char>, usize, usize),
>
    decreases tiles.len(),
{
    if tiles.len() == 0 {
        Seq::empty()
    } else {
        serial_stages(plan, timed, tiles.drop_last()) + tile_stages(plan, timed, tiles.last())
    }
}

/// The schedule of a serial search: the stage that resets the results and
/// its threadgroups, the per-tile top-k kernel, and the stages over the row
/// tiles.
pub struct SerialSchedule {
    /// Name of the stage that resets the `queries * k` results.
    pub init_name: &'static str,
    /// Threadgroups of that stage.
    pub init_groups: usize,
    /// Kernel of the per-tile top-k of the split plan.
    pub topk_kernel: &'static str,
    /// The stages, tile by tile.
    pub stages: Vec<TileStage>,
}

/// `plan_name` when timing a plan, `search_name` when answering a search.
fn named(timed: bool, plan_name: &'static str, search_name: &'static str) -> (r: &'static str)
    ensures
        r == if timed {
            plan_name
        } else {
            search_name
        },
{
    if timed {
        plan_name
    } else {
        search_name
    }
}

/// The schedule of serial plan `plan` over `rows` rows for `queries` queries
/// of `k` neighbours, when timing the plan (`timed`) or answering a search.
pub fn serial_schedule(plan: Plan, rows: usize, queries: usize, k: usize, timed: bool) -> (r: SerialSchedule)
    requires
        plan == Plan::Split || plan == Plan::Fused,
        queries * k <= usize::MAX,
    ensures
        r.init_name@ == stage_name(timed, "init"@),
        r.init_groups == ceil_div(queries * k, SEARCH_THREADS as int),
        r.topk_kernel@ == if k <= 16 {
            "topk_16"@
        } else {
            "local_topk"@
        },
        r.stages@.map_values(|s: TileStage| stage_view(s)) == serial_stages(plan, timed, scan_tiles_of(rows as int)),
{
    proof {
        reveal_strlit("knn.plan.");
        reveal_strlit("knn.");
        reveal_strlit("init");
        reveal_strlit("distance");
        reveal_strlit("topk");
        reveal_strlit("l2_topk");
        reveal_strlit("merge");
        reveal_strlit("knn.plan.init");
        reveal_strlit("knn.init");
        reveal_strlit("knn.plan.distance");
        reveal_strlit("knn.distance");
        reveal_strlit("knn.plan.topk");
        reveal_strlit("knn.topk");
        reveal_strlit("knn.plan.l2_topk");
        reveal_strlit("knn.l2_topk");
        reveal_strlit("knn.plan.merge");
        reveal_strlit("knn.merge");
    }
    let init_name = named(timed, "knn.plan.init", "knn.init");
    let distance = named(timed, "knn.plan.distance", "knn.distance");
    let topk = named(timed, "knn.plan.topk", "knn.topk");
    let fused = named(timed, "knn.plan.l2_topk", "knn.l2_topk");
    let merge = named(timed, "knn.plan.merge", "knn.merge");
    assert(init_name@ =~= stage_name(timed, "init"@));
    assert(distance@ =~= stage_name(timed, "distance"@));
    assert(topk@ =~= stage_name(timed, "topk"@));
    assert(fused@ =~= stage_name(timed, "l2_topk"@));
    assert(merge@ =~= stage_name(timed, "merge"@));
    let init_groups = div_ceil(queries * k, SEARCH_THREADS);
    let topk_kernel = if k <= 16 {
        "topk_16"
    } else {
        "local_topk"
    };
    let tiles = scan_tiles(rows);
    let mut stages: Vec<TileStage> = Vec::new();
    let mut q: usize = 0;
    while q < tiles.len()
        invariant
            q <= tiles@.len(),
            plan == Plan::Split || plan == Plan::Fused,
            distance@ == stage_name(timed, "distance"@),
            topk@ == stage_name(timed, "topk"@),
            fused@ == stage_name(timed, "l2_topk"@),
            merge@ == stage_name(timed, "merge"@),
            stages@.map_values(|s: TileStage| stage_view(s)) == serial_stages(
                plan,
                timed,
                tiles@.subrange(0, q as int),
            ),
        decreases tiles@.len() - q,
    {
        let (tile_start, tile_rows) = tiles[q];
        let ghost before = stages@;
        if plan == Plan::Split {
            stages.push(TileStage { name: distance, tile_start, tile_rows });
            stages.push(TileStage { name: topk, tile_start, tile_rows });
        } else {
            stages.push(TileStage { name: fused, tile_start, tile_rows });
        }
        stages.push(TileStage { name: merge, tile_start, tile_rows });
        proof {
            let pre1 = tiles@.subrange(0, q + 1);
            assert(pre1.drop_last() =~= tiles@.subrange(0, q as int));
            assert(pre1.last() == (tile_start, tile_rows));
            assert(stages@.map_values(|s: TileStage| stage_view(s)) =~= before.map_values(
                |s: TileStage| stage_view(s),
            ) + tile_stages(plan, timed, (tile_start, tile_rows)));
        }
        q = q + 1;
    }
    assert(tiles@.subrange(0, q as int) =~= tiles@);
    SerialSchedule { init_name, init_groups, topk_kernel, stages }
}

/// The reduction passes chain: the first merges all `lists` lists, each
/// later pass reads the buffer and the groups the one before wrote, every
/// pass but the last writes more than one group into a scratch pair, and the
/// last leaves a single list in the result buffer.
pub proof fn lemma_reduce_passes_chain(lists: int, fan: int, tree_input: bool)
    requires
        1 < lists <= usize::MAX,
        fan >= 2,
    ensures
        ({
            let p = reduce_passes(lists, fan, tree_input);
            &&& p.len() > 0
            &&& p[0].lists == lists
            &&& p[0].input == if tree_input {
                ListBuffer::Tree
            } else {
                ListBuffer::Alt
            }
            &&& p.last().groups == 1
            &&& p.last().output == ListBuffer::Result
            &&& forall|i: int|
                0 <= i < p.len() - 1 ==> {
                    &&& #[trigger] p[i + 1].input == p[i].output
                    &&& p[i + 1].lists == p[i].groups
                    &&& p[i].groups > 1
                    &&& p[i].output != ListBuffer::Result
                }
        }),
    decreases lists,
{
    lemma_ceil_div_shrinks(lists, fan);
    let groups = ceil_div(lists, fan);
    let p = reduce_passes(lists, fan, tree_input);
    let rest = reduce_passes(groups, fan, !tree_input);
    assert(p == seq![p[0]] + rest);
    if groups > 1 {
        lemma_reduce_passes_chain(groups, fan, !tree_input);
        assert forall|i: int| 0 <= i < p.len() - 1 implies {
            &&& #[trigger] p[i + 1].input == p[i].output
            &&& p[i + 1].lists == p[i].groups
            &&& p[i].groups > 1
            &&& p[i].output != ListBuffer::Result
        } by {
            if i > 0 {
                assert(p[i] == rest[i - 1]);
                assert(p[i + 1] == rest[(i - 1) + 1]);
                assert(rest[(i - 1) + 1].input == rest[i - 1].output);
            } else {
                assert(p[1] == rest[0]);
                assert(rest[0].lists == groups);
                assert(p[0].groups == groups);
            }
        }
    } else {
        assert(rest.len() == 0);
    }
}

/// The scan tiles visit every row once: the first starts at row zero, each
/// holds between one and `TILE_ROWS` rows and ends where the next starts, and
/// the last ends at `rows`.
pub proof fn lemma_scan_tiles_cover(rows: usize)
    ensures
        ({
            let t = scan_tiles_of(rows as int);
            &&& rows == 0 <==> t.len() == 0
            &&& t.len() > 0 ==> t[0].0 == 0 && t.last().0 + t.last().1 == rows
            &&& forall|q: int| 0 <= q < t.len() ==> 0 < (#[trigger] t[q]).1 <= TILE_ROWS
            &&& forall|q: int| 0 <= q < t.len() - 1 ==> #[trigger] t[q].0 + t[q].1 == t[q + 1].0
        }),
{
    let t = scan_tiles_of(rows as int);
    let n = ceil_div(rows as int, TILE_ROWS as int);
    assert(n * TILE_ROWS >= rows) by (nonlinear_arith)
        requires
            n == ceil_div(rows as int, TILE_ROWS as int),
    ;
    assert(n == 0 || (n - 1) * TILE_ROWS < rows) by (nonlinear_arith)
        requires
            n == ceil_div(rows as int, TILE_ROWS as int),
    ;
    assert(rows == 0 <==> n == 0) by (nonlinear_arith)
        requires
            n == ceil_div(rows as int, TILE_ROWS as int),
            n * TILE_ROWS >= rows,
    ;
    assert forall|q: int| 0 <= q < t.len() implies 0 < (#[trigger] t[q]).1 <= TILE_ROWS by {
        assert(q * TILE_ROWS <= (n - 1) * TILE_ROWS) by (nonlinear_arith)
            requires
                q <= n - 1,
        ;
        assert(q * TILE_ROWS <= usize::MAX);
    }
    assert forall|q: int| 0 <= q < t.len() - 1 implies #[trigger] t[q].0 + t[q].1 == t[q + 1].0 by {
        assert((q + 1) * TILE_ROWS <= (n - 1) * TILE_ROWS) by (nonlinear_arith)
            requires
                q + 1 <= n - 1,
        ;
        assert((q + 1) * TILE_ROWS == q * TILE_ROWS + TILE_ROWS) by (nonlinear_arith);
    }
    if n > 0 {
        assert((n - 1) * TILE_ROWS + TILE_ROWS == n * TILE_ROWS) by (nonlinear_arith);
    }
}

} // verus!
