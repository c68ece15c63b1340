use aquatic::cpu_pinning::{
    get_num_cpu_cores, get_worker_cpu_set, get_worker_placement, CpuLocation, CpuPinningConfigAsc,
    CpuPinningConfigDesc, CpuPinningDirection, CpuPinningError, CpuSet, HyperThreadMapping,
    WorkerIndex, WorkerPlacement,
};

fn machine(pairs: &[(usize, usize)]) -> CpuSet {
    CpuSet {
        locations: pairs.iter().map(|&(cpu, core)| CpuLocation { cpu, core }).collect(),
    }
}

/// An eight-CPU, four-core machine with split sibling numbering:
/// cpus 0..4 are the first threads of cores 0..4, cpus 4..8 the seconds.
fn split_machine() -> CpuSet {
    machine(&[(0, 0), (1, 1), (2, 2), (3, 3), (4, 0), (5, 1), (6, 2), (7, 3)])
}

#[test]
fn core_index_ascending_and_clamped() {
    let config = CpuPinningConfigAsc {
        active: true,
        direction: CpuPinningDirection::Ascending,
        hyperthread: HyperThreadMapping::System,
        core_offset: 1,
    };
    assert_eq!(WorkerIndex::SocketWorker(0).get_core_index(&config, 2, 1, 8), 1);
    assert_eq!(WorkerIndex::SocketWorker(1).get_core_index(&config, 2, 1, 8), 2);
    assert_eq!(WorkerIndex::SwarmWorker(0).get_core_index(&config, 2, 1, 8), 3);
    assert_eq!(WorkerIndex::Util.get_core_index(&config, 2, 1, 8), 4);
    // Beyond the last core everything clamps to it.
    assert_eq!(WorkerIndex::SocketWorker(20).get_core_index(&config, 2, 1, 8), 7);
}

#[test]
fn core_index_descending_mirrors() {
    let config = CpuPinningConfigDesc {
        active: true,
        direction: CpuPinningDirection::Descending,
        hyperthread: HyperThreadMapping::System,
        core_offset: 0,
    };
    assert_eq!(WorkerIndex::SocketWorker(0).get_core_index(&config, 1, 0, 8), 7);
    assert_eq!(WorkerIndex::Util.get_core_index(&config, 1, 0, 8), 6);
}

#[test]
fn num_cpu_cores_is_max_core_plus_one() {
    assert_eq!(get_num_cpu_cores(&split_machine()), Ok(4));
    assert_eq!(get_num_cpu_cores(&machine(&[])), Err(CpuPinningError::EmptyCpuSet));
}

#[test]
fn system_mapping_selects_by_core() {
    let config = CpuPinningConfigAsc {
        active: true,
        direction: CpuPinningDirection::Ascending,
        hyperthread: HyperThreadMapping::System,
        core_offset: 0,
    };
    let set = get_worker_cpu_set(&config, &split_machine(), 1, 0, WorkerIndex::SocketWorker(0))
        .unwrap();
    let cpus: Vec<usize> = set.locations.iter().map(|l| l.cpu).collect();
    assert_eq!(cpus, vec![0, 4]);
}

#[test]
fn split_mapping_selects_sibling_pair() {
    let config = CpuPinningConfigAsc {
        active: true,
        direction: CpuPinningDirection::Ascending,
        hyperthread: HyperThreadMapping::Split,
        core_offset: 0,
    };
    // num cores is 4, so worker 1 sits on cpu 1 and its sibling cpu 3.
    let set = get_worker_cpu_set(&config, &split_machine(), 2, 0, WorkerIndex::SocketWorker(1))
        .unwrap();
    let cpus: Vec<usize> = set.locations.iter().map(|l| l.cpu).collect();
    assert_eq!(cpus, vec![1, 3]);
}

#[test]
fn too_many_workers_for_hyperthread_mapping() {
    let config = CpuPinningConfigAsc {
        active: true,
        direction: CpuPinningDirection::Ascending,
        hyperthread: HyperThreadMapping::Split,
        core_offset: 0,
    };
    // Core index 2 reaches the sibling half of a 4-core machine.
    let r = get_worker_cpu_set(&config, &split_machine(), 3, 0, WorkerIndex::SocketWorker(2));
    assert_eq!(r.err(), Some(CpuPinningError::TooManyWorkers));
}

#[test]
fn subsequent_mapping_selects_adjacent_cpus() {
    let config = CpuPinningConfigAsc {
        active: true,
        direction: CpuPinningDirection::Ascending,
        hyperthread: HyperThreadMapping::Subsequent,
        core_offset: 0,
    };
    // Siblings numbered 2k and 2k+1 on a four-core machine.
    let m = machine(&[(0, 0), (1, 0), (2, 1), (3, 1), (4, 2), (5, 2), (6, 3), (7, 3)]);
    let set = get_worker_cpu_set(&config, &m, 2, 0, WorkerIndex::SocketWorker(1)).unwrap();
    let cpus: Vec<usize> = set.locations.iter().map(|l| l.cpu).collect();
    assert_eq!(cpus, vec![2, 3]);
}

#[test]
fn placement_unbound_when_inactive() {
    let config = CpuPinningConfigAsc::default();
    let r = get_worker_placement(&config, &split_machine(), 1, 0, WorkerIndex::Util).unwrap();
    assert!(matches!(r, WorkerPlacement::Unbound));
}

#[test]
fn placement_fenced_when_active() {
    let config = CpuPinningConfigAsc {
        active: true,
        direction: CpuPinningDirection::Ascending,
        hyperthread: HyperThreadMapping::System,
        core_offset: 0,
    };
    let r = get_worker_placement(&config, &split_machine(), 1, 0, WorkerIndex::SocketWorker(0))
        .unwrap();
    match r {
        WorkerPlacement::Fenced(set) => {
            assert_eq!(set.locations.len(), 2);
        },
        WorkerPlacement::Unbound => panic!("expected a fenced placement"),
    }
}

#[test]
fn defaults_match_their_direction() {
    let asc = CpuPinningConfigAsc::default();
    assert!(!asc.active);
    assert_eq!(asc.direction, CpuPinningDirection::Ascending);
    assert_eq!(asc.core_offset, 0);
    let desc = CpuPinningConfigDesc::default();
    assert_eq!(desc.direction, CpuPinningDirection::Descending);
}

#[test]
fn subsequent_ascending_works_on_an_odd_cpu_count() {
    let config = CpuPinningConfigAsc {
        active: true,
        direction: CpuPinningDirection::Ascending,
        hyperthread: HyperThreadMapping::Subsequent,
        core_offset: 0,
    };
    // Three cores, five logical CPUs: the last core lost its sibling.
    let m = machine(&[(0, 0), (1, 0), (2, 1), (3, 1), (4, 2)]);
    let set = get_worker_cpu_set(&config, &m, 1, 0, WorkerIndex::SocketWorker(0)).unwrap();
    let cpus: Vec<usize> = set.locations.iter().map(|l| l.cpu).collect();
    assert_eq!(cpus, vec![0, 1]);
}

#[test]
fn placement_propagates_the_cpu_set_error() {
    let config = CpuPinningConfigAsc {
        active: true,
        direction: CpuPinningDirection::Ascending,
        hyperthread: HyperThreadMapping::Split,
        core_offset: 0,
    };
    // Core index 2 reaches the sibling half of a 4-core machine, so the
    // set computation refuses, and the placement hands that refusal on.
    let r = get_worker_placement(&config, &split_machine(), 3, 0, WorkerIndex::SocketWorker(2));
    assert!(matches!(r, Err(CpuPinningError::TooManyWorkers)));

    let empty = machine(&[]);
    let r = get_worker_placement(&config, &empty, 1, 0, WorkerIndex::SocketWorker(0));
    assert!(matches!(r, Err(CpuPinningError::EmptyCpuSet)));
}
