//! Verified core of the ENNX epistemic nearest-neighbour toolkit: backend
//! capability tables, fused forward-program schedules, configuration rules,
//! index metadata parsing, arm selection and Pareto fronts, kernel schedule
//! races, row-store geometry, the integer kernels shared by the
//! accelerators, the trial ledger of the resident search and the checks of a
//! packed model package.

pub mod capability;
pub mod text;
pub mod forward_program;
pub mod disk_observation;
pub mod index;
pub mod knn;
pub mod dense;
pub mod apple_gpu;
pub mod forward_metal;
pub mod file_config;
pub mod acquisition;
pub mod pareto;
pub mod bf16_search;
pub mod column_store;
pub mod schedule;
pub mod packed_model;

pub use acquisition::{AcquisitionError, RandomAcquisition, ThompsonAcquisition};
pub use capability::{backends, matrix, operations, support, Backend, Capability, Operation, Support};
pub use disk_observation::ENNError;
pub use file_config::{BpannConfig, ConfigFile};
pub use index::{IndexDriver, IndexError};
pub use pareto::ParetoAcquisition;
