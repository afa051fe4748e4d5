//! Backend capability declarations: which execution backend runs which
//! library operation directly, through a fallback, or not at all.

use vstd::prelude::*;

verus! {

/// Execution backend tracked by the capability matrix.
#[derive(Debug, Clone, Copy, PartialEq, Eq, Hash)]
pub enum Backend {
    Cpu,
    Cuda,
    Metal,
    OpenCl,
}

/// Library operation tracked for backend parity.
#[derive(Debug, Clone, Copy, PartialEq, Eq, Hash)]
pub enum Operation {
    ExactDist,
    AnnIndex,
    Posterior,
    Acquisition,
    Candidate,
    WeightSelect,
    TrialSearch,
    ResidentLoop,
}

/// Capability status for one backend/operation pair.
#[derive(Debug, Clone, Copy, PartialEq, Eq)]
pub enum Support {
    Direct,
    Fallback,
    Missing,
}

/// One row in the backend capability matrix.
#[derive(Debug, Clone, Copy, PartialEq, Eq)]
pub struct Capability {
    pub backend: Backend,
    pub operation: Operation,
    pub support: Support,
}

/// The tracked backends, in matrix order.
pub open spec fn all_backends() -> Seq<Backend> {
    seq![Backend::Cpu, Backend::Cuda, Backend::Metal, Backend::OpenCl]
}

/// The tracked operations, in matrix order.
pub open spec fn all_operations() -> Seq<Operation> {
    seq![
        Operation::ExactDist,
        Operation::AnnIndex,
        Operation::Posterior,
        Operation::Acquisition,
        Operation::Candidate,
        Operation::WeightSelect,
        Operation::TrialSearch,
        Operation::ResidentLoop,
    ]
}

/// The declared support of `operation` on `backend`.
pub open spec fn declared_support(backend: Backend, operation: Operation) -> Support {
    match (backend, operation) {
        (Backend::Cpu, _) => Support::Direct,
        (_, Operation::ExactDist) => Support::Direct,
        (Backend::Cuda, Operation::AnnIndex) => Support::Direct,
        (Backend::Cuda, Operation::TrialSearch) => Support::Direct,
        (Backend::Metal, Operation::AnnIndex) => Support::Direct,
        (Backend::Metal, Operation::TrialSearch) => Support::Direct,
        (Backend::Metal, Operation::WeightSelect) => Support::Direct,
        (Backend::OpenCl, Operation::AnnIndex) => Support::Direct,
        (Backend::OpenCl, Operation::TrialSearch) => Support::Direct,
        (Backend::OpenCl, Operation::WeightSelect) => Support::Direct,
        (_, Operation::Posterior) => Support::Fallback,
        (_, Operation::Acquisition) => Support::Fallback,
        (_, Operation::Candidate) => Support::Fallback,
        (_, Operation::ResidentLoop) => Support::Fallback,
        (_, Operation::WeightSelect) => Support::Missing,
    }
}

/// The matrix row at position `i`: backends vary slowest, operations fastest.
pub open spec fn matrix_row(i: int) -> Capability {
    let backend = all_backends()[i / 8];
    let operation = all_operations()[i % 8];
    Capability { backend, operation, support: declared_support(backend, operation) }
}

/// Returns every backend tracked by the matrix.
pub fn backends() -> (r: &'static [Backend])
    ensures
        r@ == all_backends(),
{
    let r: &'static [Backend] = &[Backend::Cpu, Backend::Cuda, Backend::Metal, Backend::OpenCl];
    assert(r@ == all_backends());
    r
}

/// Returns every operation tracked by the matrix.
pub fn operations() -> (r: &'static [Operation])
    ensures
        r@ == all_operations(),
{
    let r: &'static [Operation] = &[
        Operation::ExactDist,
        Operation::AnnIndex,
        Operation::Posterior,
        Operation::Acquisition,
        Operation::Candidate,
        Operation::WeightSelect,
        Operation::TrialSearch,
        Operation::ResidentLoop,
    ];
    assert(r@ == all_operations());
    r
}

/// Returns the declared support for a backend/operation pair.
pub fn support(backend: Backend, operation: Operation) -> (r: Support)
    ensures
        r == declared_support(backend, operation),
{
    match (backend, operation) {
        (Backend::Cpu, _) => Support::Direct,
        (_, Operation::ExactDist) => Support::Direct,
        (Backend::Cuda, Operation::AnnIndex | Operation::TrialSearch) => Support::Direct,
        (Backend::Metal, Operation::AnnIndex | Operation::TrialSearch | Operation::WeightSelect) => {
            Support::Direct
        },
        (
            Backend::OpenCl,
            Operation::AnnIndex | Operation::TrialSearch | Operation::WeightSelect,
        ) => Support::Direct,
        (_, Operation::Posterior | Operation::Acquisition | Operation::Candidate) => {
            Support::Fallback
        },
        (_, Operation::ResidentLoop) => Support::Fallback,
        (_, _) => Support::Missing,
    }
}

/// Returns the complete capability matrix.
pub fn matrix() -> (rows: Vec<Capability>)
    ensures
        rows@.len() == 32,
        forall|i: int| 0 <= i < 32 ==> #[trigger] rows@[i] == matrix_row(i),
{
    let backends = backends();
    let ops = operations();
    let mut rows: Vec<Capability> = Vec::with_capacity(32);
    let mut b: usize = 0;
    while b < 4
        invariant
            backends@ == all_backends(),
            ops@ == all_operations(),
            b <= 4,
            rows@.len() == 8 * b,
            forall|i: int| 0 <= i < rows@.len() ==> #[trigger] rows@[i] == matrix_row(i),
        decreases 4 - b,
    {
        let mut o: usize = 0;
        while o < 8
            invariant
                backends@ == all_backends(),
                ops@ == all_operations(),
                b < 4,
                o <= 8,
                rows@.len() == 8 * b + o,
                forall|i: int| 0 <= i < rows@.len() ==> #[trigger] rows@[i] == matrix_row(i),
            decreases 8 - o,
        {
            let backend = backends[b];
            let operation = ops[o];
            rows.push(Capability { backend, operation, support: support(backend, operation) });
            proof {
                let i = 8 * b + o;
                assert(i / 8 == b as int) by (nonlinear_arith)
                    requires i == 8 * b + o, o < 8;
                assert(i % 8 == o as int) by (nonlinear_arith)
                    requires i == 8 * b + o, o < 8;
            }
            o = o + 1;
        }
        b = b + 1;
    }
    rows
}

/// Every backend/operation pair appears in the matrix exactly once, with its
/// declared support.
pub proof fn lemma_matrix_complete(backend: Backend, operation: Operation)
    ensures
        exists|i: int| 0 <= i < 32 && #[trigger] matrix_row(i) == (Capability {
            backend,
            operation,
            support: declared_support(backend, operation),
        }),
        forall|i: int, j: int|
            0 <= i < 32 && 0 <= j < 32 && #[trigger] matrix_row(i).backend == matrix_row(j).backend
                && matrix_row(i).operation == #[trigger] matrix_row(j).operation ==> i == j,
{
    let bi: int = match backend {
        Backend::Cpu => 0,
        Backend::Cuda => 1,
        Backend::Metal => 2,
        Backend::OpenCl => 3,
    };
    let oi: int = match operation {
        Operation::ExactDist => 0,
        Operation::AnnIndex => 1,
        Operation::Posterior => 2,
        Operation::Acquisition => 3,
        Operation::Candidate => 4,
        Operation::WeightSelect => 5,
        Operation::TrialSearch => 6,
        Operation::ResidentLoop => 7,
    };
    let i = 8 * bi + oi;
    assert(i / 8 == bi && i % 8 == oi);
    assert(matrix_row(i).backend == backend);
    assert(matrix_row(i).operation == operation);
    assert forall|i: int, j: int|
        0 <= i < 32 && 0 <= j < 32 && #[trigger] matrix_row(i).backend == matrix_row(j).backend
            && matrix_row(i).operation == #[trigger] matrix_row(j).operation implies i == j by {
        assert(0 <= i / 8 < 4 && 0 <= j / 8 < 4);
        assert(all_backends()[i / 8] == all_backends()[j / 8]);
        assert(i / 8 == j / 8);
        assert(i % 8 == j % 8);
    }
}

/// The CPU backend runs every operation directly.
pub proof fn lemma_cpu_direct(operation: Operation)
    ensures
        declared_support(Backend::Cpu, operation) == Support::Direct,
{
}

/// Every backend computes exact distances, builds the nearest-neighbour
/// index and runs the trial search directly.
pub proof fn lemma_search_kernels_everywhere(backend: Backend)
    ensures
        declared_support(backend, Operation::ExactDist) == Support::Direct,
        declared_support(backend, Operation::AnnIndex) == Support::Direct,
        declared_support(backend, Operation::TrialSearch) == Support::Direct,
{
}

/// On an accelerator the host-side work (posterior, acquisition, candidate
/// generation and the resident loop) falls back to the CPU, and weight
/// selection runs directly on Metal and OpenCL and is missing on CUDA.
pub proof fn lemma_accelerator_host_work(backend: Backend)
    requires
        backend != Backend::Cpu,
    ensures
        declared_support(backend, Operation::Posterior) == Support::Fallback,
        declared_support(backend, Operation::Acquisition) == Support::Fallback,
        declared_support(backend, Operation::Candidate) == Support::Fallback,
        declared_support(backend, Operation::ResidentLoop) == Support::Fallback,
        declared_support(backend, Operation::WeightSelect) == if backend == Backend::Cuda {
            Support::Missing
        } else {
            Support::Direct
        },
{
}

/// A backend and an operation get `Missing` only for weight selection on
/// CUDA; every other pair runs, directly or through the CPU.
pub proof fn lemma_only_cuda_weight_select_missing(backend: Backend, operation: Operation)
    ensures
        (declared_support(backend, operation) == Support::Missing) <==> (backend == Backend::Cuda && operation
            == Operation::WeightSelect),
{
}

} // verus!
