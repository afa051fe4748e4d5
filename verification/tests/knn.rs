use ennx::knn::{opencl_search_plan, OpenClParams, OpenClSearch};
use ennx::IndexError;
use ennx::index::IndexDriver;
use ennx::knn::{
    backend_for, backend_plan_name, bucket, check_neighbors, direct_plan, measured_setup, next_capacity,
    plan_fan, plan_lists, scan_tiles, stage_class, tree_fan, tree_plan, Accelerators, KnnBackendKind,
    KnnPlan, ListBuffer, Plan, ReducePass, ScratchSizes, StageClass, TileStage, serial_schedule, tree_schedule,
};

#[test]
fn graphs() {
    for plan in [
        Plan::Split,
        Plan::Fused,
        Plan::Tree,
        Plan::Tiled,
        Plan::Simd,
        Plan::Gram,
        Plan::Wide,
    ] {
        assert!(plan.graph().valid());
    }
}

#[test]
fn plan_names() {
    assert_eq!(Plan::Split.name(), "split");
    assert_eq!(Plan::Gram.name(), "gram");
    assert_eq!(Plan::Wide.name(), "wide");
}

#[test]
fn capacities_round_up_to_powers_of_two() {
    assert_eq!(next_capacity(0), 1);
    assert_eq!(next_capacity(1), 1);
    assert_eq!(next_capacity(5), 8);
    assert_eq!(next_capacity(1024), 1024);
    assert_eq!(next_capacity(1025), 2048);
    assert_eq!(next_capacity(usize::MAX), usize::MAX);
    assert_eq!(next_capacity(usize::MAX / 2 + 1), usize::MAX / 2 + 1);
    assert_eq!(next_capacity(usize::MAX / 2 + 2), usize::MAX / 2 + 2);
}

#[test]
fn list_and_fan_sizes() {
    assert_eq!(plan_lists(Plan::Gram, 130), 3);
    assert_eq!(plan_lists(Plan::Tree, 1025), 2);
    assert_eq!(plan_lists(Plan::Tree, 0), 0);
    assert_eq!(plan_fan(1), 1024);
    assert_eq!(plan_fan(16), 64);
    assert_eq!(plan_fan(17), 2);
}

#[test]
fn work_buckets() {
    assert_eq!(bucket(0, 5, 5), 0);
    assert_eq!(bucket(1, 1, 1), 0);
    assert_eq!(bucket(2, 1, 1), 1);
    assert_eq!(bucket(1000, 10, 8), 16);
    assert_eq!(bucket(usize::MAX, 2, 2), 63);
}

const PLAIN_BUILD: Accelerators = Accelerators { metal: false, usearch: false, opencl: false, cuda: false };

#[test]
fn knn_backend_bpann_disk_driver_errors() {
    match backend_for(IndexDriver::BpAnnDisk, KnnPlan::Measured, PLAIN_BUILD) {
        Err(e) => assert!(e.to_string().contains("disk-only")),
        Ok(_) => panic!("expected BpAnnDisk on KnnBackend to error"),
    }
}

#[test]
fn knn_backend_usearch_requires_feature() {
    let error = match backend_for(IndexDriver::USearch, KnnPlan::Measured, PLAIN_BUILD) {
        Ok(_) => panic!("expected USearch feature error"),
        Err(error) => error,
    };
    assert!(error.to_string().contains("usearch or usearch-native feature"));
}

#[test]
fn backend_dispatch() {
    assert_eq!(backend_for(IndexDriver::Exact, KnnPlan::Measured, PLAIN_BUILD), Ok(KnnBackendKind::Exact));
    assert_eq!(backend_for(IndexDriver::Auto, KnnPlan::Measured, PLAIN_BUILD), Ok(KnnBackendKind::Exact));
    let mac = Accelerators { metal: true, ..PLAIN_BUILD };
    assert_eq!(backend_for(IndexDriver::Auto, KnnPlan::Measured, mac), Ok(KnnBackendKind::Auto));
    assert_eq!(backend_for(IndexDriver::Metal, KnnPlan::Tree, mac), Ok(KnnBackendKind::Metal));
    assert_eq!(backend_for(IndexDriver::Agx, KnnPlan::Gram, mac), Ok(KnnBackendKind::Agx));
    assert_eq!(
        backend_for(IndexDriver::Exact, KnnPlan::Tree, mac).unwrap_err().to_string(),
        "Invalid search parameter: explicit KNN plans require the Metal or AGX driver"
    );
    assert_eq!(
        backend_for(IndexDriver::Cuda, KnnPlan::Measured, PLAIN_BUILD).unwrap_err().to_string(),
        "Invalid search parameter: CUDA index is unavailable; build on Linux x86_64 with the cuda feature"
    );
    assert_eq!(
        backend_for(IndexDriver::OpenCl, KnnPlan::Measured, PLAIN_BUILD).unwrap_err().to_string(),
        "Invalid search parameter: OpenCL index is unavailable; build with the opencl feature"
    );
    assert_eq!(
        backend_for(IndexDriver::Metal, KnnPlan::Measured, PLAIN_BUILD).unwrap_err().to_string(),
        "Invalid search parameter: Metal index is unavailable; build on macOS with the metal feature"
    );
    assert_eq!(
        backend_for(IndexDriver::Agx, KnnPlan::Measured, PLAIN_BUILD).unwrap_err().to_string(),
        "Invalid search parameter: AGX index is unavailable; build on macOS with the metal feature"
    );
    assert_eq!(backend_plan_name(KnnBackendKind::Exact), Some("exact"));
    assert_eq!(backend_plan_name(KnnBackendKind::OpenCl), Some("opencl"));
    assert_eq!(backend_plan_name(KnnBackendKind::Metal), None);
}

#[test]
fn metal_search_neighbor_counts() {
    assert_eq!(check_neighbors(1), Ok(()));
    assert_eq!(check_neighbors(2048), Ok(()));
    assert_eq!(
        check_neighbors(0).unwrap_err().to_string(),
        "Invalid search parameter: Metal index supports 1..=2048 neighbors, got 0"
    );
    assert_eq!(
        check_neighbors(4096).unwrap_err().to_string(),
        "Invalid search parameter: Metal index supports 1..=2048 neighbors, got 4096"
    );
}

#[test]
fn plan_requests() {
    assert_eq!(direct_plan(KnnPlan::Measured, 8), Ok(None));
    assert_eq!(direct_plan(KnnPlan::Split, 500), Ok(Some(Plan::Split)));
    assert_eq!(direct_plan(KnnPlan::Wide, 500), Ok(Some(Plan::Wide)));
    assert_eq!(direct_plan(KnnPlan::Gram, 16), Ok(Some(Plan::Gram)));
    assert_eq!(
        direct_plan(KnnPlan::Tree, 17).unwrap_err().to_string(),
        "Invalid search parameter: specialized KNN plans support at most 16 neighbors"
    );
    assert!(tree_plan(Plan::Tiled));
    assert!(!tree_plan(Plan::Fused));
    assert_eq!(tree_fan(Plan::Wide, 4), 2);
    assert_eq!(tree_fan(Plan::Tree, 4), 256);
    assert_eq!(tree_fan(Plan::Tree, 40), 2);
}

#[test]
fn measured_plan_setups() {
    let small = measured_setup(5000, 8, 4, false);
    assert!(small.gram);
    assert_eq!(small.tree_lists, 79);
    assert_eq!(small.fan, 256);
    assert_eq!(small.candidates, vec![Plan::Split, Plan::Fused, Plan::Tree, Plan::Tiled, Plan::Simd, Plan::Gram]);
    assert_eq!(small.family, "knn.plan.metal.v5");
    let few = measured_setup(5000, 2, 4, true);
    assert!(!few.gram);
    assert_eq!(few.tree_lists, 5);
    assert_eq!(few.candidates.len(), 5);
    assert_eq!(few.family, "knn.plan.agx.v5");
    let wide = measured_setup(5000, 64, 100, false);
    assert_eq!(wide.fan, 2);
    assert_eq!(wide.candidates, vec![Plan::Split, Plan::Wide]);
}

#[test]
fn profile_stage_classes() {
    assert_eq!(stage_class("knn.distance"), StageClass::Scan);
    assert_eq!(stage_class("knn.l2_topk"), StageClass::Scan);
    assert_eq!(stage_class("knn.tree.scan"), StageClass::Scan);
    assert_eq!(stage_class("knn.topk"), StageClass::Select);
    assert_eq!(stage_class("knn.merge"), StageClass::Reduce);
    assert_eq!(stage_class("knn.fold"), StageClass::Reduce);
    assert_eq!(stage_class("knn.init"), StageClass::Other);
}

#[test]
fn scratch_growth() {
    let mut sizes = ScratchSizes::new();
    assert!(sizes.ensure(5, 3));
    assert_eq!((sizes.query_capacity, sizes.k_capacity), (8, 4));
    assert!(!sizes.ensure(8, 4));
    assert!(sizes.ensure(9, 1));
    assert_eq!((sizes.query_capacity, sizes.k_capacity), (16, 1));
    assert!(sizes.ensure_tree(3, 5, 10, 4));
    assert_eq!(
        (sizes.tree_query_capacity, sizes.tree_k_capacity, sizes.tile_capacity, sizes.group_capacity),
        (4, 8, 16, 4)
    );
    assert!(!sizes.ensure_tree(4, 8, 16, 4));
    assert_eq!(sizes.query_capacity, 16);
}

#[test]
fn distance_scan_tiles() {
    assert_eq!(scan_tiles(0), vec![]);
    assert_eq!(scan_tiles(1000), vec![(0, 1000)]);
    assert_eq!(scan_tiles(2500), vec![(0, 1024), (1024, 1024), (2048, 452)]);
}

#[test]
fn tree_schedules() {
    let single = tree_schedule(Plan::Tree, 5000, 4, 4);
    assert_eq!(single.scan_name, "knn.tree.scan");
    assert_eq!(single.scan_lists, 5);
    assert_eq!(single.scan_output, ListBuffer::Tree);
    assert_eq!(single.scan_groups, 20);
    assert_eq!(single.reduce_name, "knn.tree.reduce");
    assert_eq!(single.fan, 256);
    assert_eq!(
        single.passes,
        vec![ReducePass { lists: 5, groups: 1, input: ListBuffer::Tree, output: ListBuffer::Result }]
    );

    let wide = tree_schedule(Plan::Wide, 5000, 3, 4);
    assert_eq!(wide.scan_name, "knn.wide.scan");
    assert_eq!(wide.reduce_name, "knn.wide.fold");
    assert_eq!(wide.fan, 2);
    assert_eq!(
        wide.passes,
        vec![
            ReducePass { lists: 5, groups: 3, input: ListBuffer::Tree, output: ListBuffer::Alt },
            ReducePass { lists: 3, groups: 2, input: ListBuffer::Alt, output: ListBuffer::Tree },
            ReducePass { lists: 2, groups: 1, input: ListBuffer::Tree, output: ListBuffer::Result },
        ]
    );

    let gram = tree_schedule(Plan::Gram, 64, 10, 8);
    assert_eq!(gram.scan_name, "knn.gram.scan");
    assert_eq!(gram.scan_lists, 1);
    assert_eq!(gram.scan_output, ListBuffer::Result);
    assert_eq!(gram.scan_groups, 2);
    assert!(gram.passes.is_empty());

    let deep = tree_schedule(Plan::Tiled, 3000, 2, 32);
    assert_eq!(deep.fan, 2);
    assert_eq!(deep.passes.len(), 2);
}

#[test]
fn serial_schedules() {
    let split = serial_schedule(Plan::Split, 1500, 3, 4, true);
    assert_eq!(split.init_groups, 1);
    assert_eq!(split.topk_kernel, "topk_16");
    assert_eq!(
        split.stages,
        vec![
            TileStage { name: "knn.plan.distance", tile_start: 0, tile_rows: 1024 },
            TileStage { name: "knn.plan.topk", tile_start: 0, tile_rows: 1024 },
            TileStage { name: "knn.plan.merge", tile_start: 0, tile_rows: 1024 },
            TileStage { name: "knn.plan.distance", tile_start: 1024, tile_rows: 476 },
            TileStage { name: "knn.plan.topk", tile_start: 1024, tile_rows: 476 },
            TileStage { name: "knn.plan.merge", tile_start: 1024, tile_rows: 476 },
        ]
    );
    let fused = serial_schedule(Plan::Fused, 1024, 100, 32, true);
    assert_eq!(fused.init_groups, 13);
    assert_eq!(fused.topk_kernel, "local_topk");
    assert_eq!(
        fused.stages,
        vec![
            TileStage { name: "knn.plan.l2_topk", tile_start: 0, tile_rows: 1024 },
            TileStage { name: "knn.plan.merge", tile_start: 0, tile_rows: 1024 },
        ]
    );
    assert!(serial_schedule(Plan::Fused, 0, 1, 1, true).stages.is_empty());
    assert_eq!(split.init_name, "knn.plan.init");
    let search = serial_schedule(Plan::Split, 100, 2, 20, false);
    assert_eq!(search.init_name, "knn.init");
    assert_eq!(search.topk_kernel, "local_topk");
    let names: Vec<&str> = search.stages.iter().map(|s| s.name).collect();
    assert_eq!(names, vec!["knn.distance", "knn.topk", "knn.merge"]);
    assert_eq!(search.stages[0].tile_rows, 100);
}

#[test]
fn opencl_search_plans_tiles_and_checks() {
    match opencl_search_plan(3, 3, 2, 2500, 5).unwrap() {
        OpenClSearch::Tiles(p) => {
            assert_eq!(p.len(), 3);
            assert_eq!(
                p[0],
                OpenClParams { rows: 2500, dim: 3, queries: 2, tile_start: 0, tile_rows: 1024, k: 5 }
            );
            assert_eq!((p[1].tile_start, p[1].tile_rows), (1024, 1024));
            assert_eq!((p[2].tile_start, p[2].tile_rows), (2048, 452));
        }
        OpenClSearch::Padding => panic!("rows and queries call for kernels"),
    }
    assert!(matches!(opencl_search_plan(3, 3, 0, 10, 1), Ok(OpenClSearch::Padding)));
    assert!(matches!(opencl_search_plan(3, 3, 4, 0, 1), Ok(OpenClSearch::Padding)));
    assert!(matches!(
        opencl_search_plan(3, 4, 1, 1, 1),
        Err(IndexError::InvalidShape { expected: 3, got: 4 })
    ));
    match opencl_search_plan(3, 3, 1, 1, 1025) {
        Err(IndexError::InvalidParameter(m)) => {
            assert_eq!(m, "OpenCL index supports 1..=1024 neighbors, got 1025")
        }
        _ => panic!("too many neighbours"),
    }
    match opencl_search_plan(3, 3, 1, 1, 0) {
        Err(IndexError::InvalidParameter(m)) => {
            assert_eq!(m, "OpenCL index supports 1..=1024 neighbors, got 0")
        }
        _ => panic!("no neighbours"),
    }
    match opencl_search_plan(3, 3, 1usize << 32, 1, 1) {
        Err(IndexError::InvalidParameter(m)) => assert_eq!(m, "query count exceeds u32 range"),
        _ => panic!("too many queries"),
    }
    match opencl_search_plan(1usize << 32, 1usize << 32, 1, 1, 1) {
        Err(IndexError::InvalidParameter(m)) => assert_eq!(m, "dimension exceeds u32 range"),
        _ => panic!("too many dimensions"),
    }
}
