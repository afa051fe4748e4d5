use ennx::capability::{backends, matrix, operations, support, Backend, Operation, Support};

#[test]
fn complete() {
    assert_eq!(matrix().len(), backends().len() * operations().len());
}

#[test]
fn cpu_direct() {
    for &operation in operations() {
        assert_eq!(support(Backend::Cpu, operation), Support::Direct);
    }
}

#[test]
fn accel_gaps() {
    for backend in [Backend::Cuda, Backend::Metal, Backend::OpenCl] {
        assert_eq!(support(backend, Operation::Posterior), Support::Fallback);
        assert_eq!(support(backend, Operation::Acquisition), Support::Fallback);
        assert_eq!(support(backend, Operation::Candidate), Support::Fallback);
        assert_eq!(support(backend, Operation::ResidentLoop), Support::Fallback);
    }
}

#[test]
fn matrix_rows_follow_backend_then_operation_order() {
    let rows = matrix();
    assert_eq!(rows.len(), 32);
    for (i, row) in rows.iter().enumerate() {
        assert_eq!(row.backend, backends()[i / 8]);
        assert_eq!(row.operation, operations()[i % 8]);
        assert_eq!(row.support, support(row.backend, row.operation));
    }
}

#[test]
fn every_pair_appears_once() {
    let rows = matrix();
    for &b in backends() {
        for &o in operations() {
            let hits = rows.iter().filter(|r| r.backend == b && r.operation == o).count();
            assert_eq!(hits, 1);
        }
    }
}

#[test]
fn declared_support_table() {
    assert_eq!(support(Backend::Cuda, Operation::ExactDist), Support::Direct);
    assert_eq!(support(Backend::Cuda, Operation::AnnIndex), Support::Direct);
    assert_eq!(support(Backend::Cuda, Operation::TrialSearch), Support::Direct);
    assert_eq!(support(Backend::Cuda, Operation::WeightSelect), Support::Missing);
    assert_eq!(support(Backend::Metal, Operation::WeightSelect), Support::Direct);
    assert_eq!(support(Backend::OpenCl, Operation::WeightSelect), Support::Direct);
    assert_eq!(support(Backend::OpenCl, Operation::AnnIndex), Support::Direct);
}
