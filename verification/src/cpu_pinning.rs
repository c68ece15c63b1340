//! Worker pinning arithmetic: maps a logical worker index onto a CPU core
//! set under a configured policy. The operating-system calls that apply
//! the affinity live outside the library; everything here is pure.

use vstd::prelude::*;

verus! {

/// Whether workers are laid out from the first core up or the last down.
#[derive(Clone, Copy, Debug, PartialEq, Eq, Structural)]
pub enum CpuPinningDirection {
    Ascending,
    Descending,
}

impl Default for CpuPinningDirection {
    fn default() -> (r: CpuPinningDirection)
        ensures
            r == CpuPinningDirection::Ascending,
    {
        CpuPinningDirection::Ascending
    }
}

/// How hyperthread siblings are numbered on the machine.
#[derive(Clone, Copy, Debug, PartialEq, Eq, Structural)]
pub enum HyperThreadMapping {
    /// Trust the system's core numbering.
    System,
    /// Siblings are numbered 2k and 2k+1.
    Subsequent,
    /// Siblings are numbered k and k + num_cpus/2.
    Split,
}

impl Default for HyperThreadMapping {
    fn default() -> (r: HyperThreadMapping)
        ensures
            r == HyperThreadMapping::System,
    {
        HyperThreadMapping::System
    }
}

/// The pinning policy a variant's configuration exposes.
pub trait CpuPinningConfig {
    /// Whether pinning is switched on.
    spec fn spec_active(&self) -> bool;

    /// The configured direction.
    spec fn spec_direction(&self) -> CpuPinningDirection;

    /// The configured hyperthread mapping.
    spec fn spec_hyperthread(&self) -> HyperThreadMapping;

    /// The first core index workers may use.
    spec fn spec_core_offset(&self) -> usize;

    fn active(&self) -> (r: bool)
        ensures
            r == self.spec_active(),
    ;

    fn direction(&self) -> (r: CpuPinningDirection)
        ensures
            r == self.spec_direction(),
    ;

    fn hyperthread(&self) -> (r: HyperThreadMapping)
        ensures
            r == self.spec_hyperthread(),
    ;

    fn core_offset(&self) -> (r: usize)
        ensures
            r == self.spec_core_offset(),
    ;
}

/// Pinning settings whose direction defaults to ascending.
#[derive(Clone, Copy, Debug)]
pub struct CpuPinningConfigAsc {
    pub active: bool,
    pub direction: CpuPinningDirection,
    pub hyperthread: HyperThreadMapping,
    pub core_offset: usize,
}

impl Default for CpuPinningConfigAsc {
    fn default() -> (r: CpuPinningConfigAsc)
        ensures
            !r.active,
            r.direction == CpuPinningDirection::Ascending,
            r.hyperthread == HyperThreadMapping::System,
            r.core_offset == 0,
    {
        CpuPinningConfigAsc {
            active: false,
            direction: CpuPinningDirection::Ascending,
            hyperthread: HyperThreadMapping::System,
            core_offset: 0,
        }
    }
}

impl CpuPinningConfig for CpuPinningConfigAsc {
    open spec fn spec_active(&self) -> bool {
        self.active
    }

    open spec fn spec_direction(&self) -> CpuPinningDirection {
        self.direction
    }

    open spec fn spec_hyperthread(&self) -> HyperThreadMapping {
        self.hyperthread
    }

    open spec fn spec_core_offset(&self) -> usize {
        self.core_offset
    }

    fn active(&self) -> bool {
        self.active
    }

    fn direction(&self) -> CpuPinningDirection {
        self.direction
    }

    fn hyperthread(&self) -> HyperThreadMapping {
        self.hyperthread
    }

    fn core_offset(&self) -> usize {
        self.core_offset
    }
}

/// Pinning settings whose direction defaults to descending.
#[derive(Clone, Copy, Debug)]
pub struct CpuPinningConfigDesc {
    pub active: bool,
    pub direction: CpuPinningDirection,
    pub hyperthread: HyperThreadMapping,
    pub core_offset: usize,
}

impl Default for CpuPinningConfigDesc {
    fn default() -> (r: CpuPinningConfigDesc)
        ensures
            !r.active,
            r.direction == CpuPinningDirection::Descending,
            r.hyperthread == HyperThreadMapping::System,
            r.core_offset == 0,
    {
        CpuPinningConfigDesc {
            active: false,
            direction: CpuPinningDirection::Descending,
            hyperthread: HyperThreadMapping::System,
            core_offset: 0,
        }
    }
}

impl CpuPinningConfig for CpuPinningConfigDesc {
    open spec fn spec_active(&self) -> bool {
        self.active
    }

    open spec fn spec_direction(&self) -> CpuPinningDirection {
        self.direction
    }

    open spec fn spec_hyperthread(&self) -> HyperThreadMapping {
        self.hyperthread
    }

    open spec fn spec_core_offset(&self) -> usize {
        self.core_offset
    }

    fn active(&self) -> bool {
        self.active
    }

    fn direction(&self) -> CpuPinningDirection {
        self.direction
    }

    fn hyperthread(&self) -> HyperThreadMapping {
        self.hyperthread
    }

    fn core_offset(&self) -> usize {
        self.core_offset
    }
}

/// A worker's place in the fixed role order: socket workers first, then
/// swarm workers, then the single utility worker.
#[derive(Clone, Copy, Debug)]
pub enum WorkerIndex {
    SocketWorker(usize),
    SwarmWorker(usize),
    Util,
}

/// The worker's position counted from the first pinned core.
pub open spec fn spec_ascending_index(
    core_offset: usize,
    socket_workers: usize,
    swarm_workers: usize,
    w: WorkerIndex,
) -> int {
    match w {
        WorkerIndex::SocketWorker(i) => core_offset + i,
        WorkerIndex::SwarmWorker(i) => core_offset + socket_workers + i,
        WorkerIndex::Util => core_offset + socket_workers + swarm_workers,
    }
}

/// The core a worker is pinned to: its ascending position clamped to the
/// last core, mirrored when the direction is descending.
pub open spec fn spec_core_index(
    core_offset: usize,
    direction: CpuPinningDirection,
    socket_workers: usize,
    swarm_workers: usize,
    w: WorkerIndex,
    num_cores: usize,
) -> int
    recommends
        num_cores >= 1,
{
    let raw = spec_ascending_index(core_offset, socket_workers, swarm_workers, w);
    let asc = if raw <= num_cores - 1 {
        raw
    } else {
        num_cores - 1
    };
    match direction {
        CpuPinningDirection::Ascending => asc,
        CpuPinningDirection::Descending => num_cores - 1 - asc,
    }
}

impl WorkerIndex {
    /// Computes the core this worker is pinned to under `config`.
    pub fn get_core_index<C: CpuPinningConfig>(
        &self,
        config: &C,
        socket_workers: usize,
        swarm_workers: usize,
        num_cores: usize,
    ) -> (r: usize)
        requires
            num_cores >= 1,
            config.spec_core_offset() + socket_workers + swarm_workers <= usize::MAX,
            *self matches WorkerIndex::SocketWorker(i) ==> config.spec_core_offset() + i
                <= usize::MAX,
            *self matches WorkerIndex::SwarmWorker(i) ==> config.spec_core_offset()
                + socket_workers + i <= usize::MAX,
        ensures
            r == spec_core_index(
                config.spec_core_offset(),
                config.spec_direction(),
                socket_workers,
                swarm_workers,
                *self,
                num_cores,
            ),
            r < num_cores,
    {
        let ascending_index = match self {
            WorkerIndex::SocketWorker(index) => config.core_offset() + index,
            WorkerIndex::SwarmWorker(index) => config.core_offset() + socket_workers + index,
            WorkerIndex::Util => config.core_offset() + socket_workers + swarm_workers,
        };
        let max_core_index = num_cores - 1;
        let ascending_index = if ascending_index <= max_core_index {
            ascending_index
        } else {
            max_core_index
        };
        match config.direction() {
            CpuPinningDirection::Ascending => ascending_index,
            CpuPinningDirection::Descending => max_core_index - ascending_index,
        }
    }
}

/// One logical CPU of the machine, as the system reports it: its logical
/// number and the physical core it sits on.
#[derive(Clone, Copy, Debug, PartialEq, Eq, Structural)]
pub struct CpuLocation {
    pub cpu: usize,
    pub core: usize,
}

/// A set of logical CPUs, as reported by the machine or filtered for one
/// worker.
#[derive(Clone, Debug)]
pub struct CpuSet {
    pub locations: Vec<CpuLocation>,
}

/// Where a worker may run.
#[derive(Clone, Debug)]
pub enum WorkerPlacement {
    /// No pinning requested.
    Unbound,
    /// Fenced onto the given CPUs.
    Fenced(CpuSet),
}

/// Why a placement cannot be computed.
#[derive(Clone, Copy, Debug, PartialEq, Eq, Structural)]
pub enum CpuPinningError {
    /// The machine reported no CPUs, or filtering left none.
    EmptyCpuSet,
    /// More workers were configured than the hyperthread mapping admits.
    TooManyWorkers,
}

/// The highest physical core number in a set.
pub open spec fn spec_max_core(s: Seq<CpuLocation>) -> int
    decreases s.len(),
{
    if s.len() == 0 {
        0
    } else if s.last().core >= spec_max_core(s.drop_last()) {
        s.last().core as int
    } else {
        spec_max_core(s.drop_last())
    }
}

/// The highest core number stays under any bound the set's cores respect.
proof fn lemma_max_core_bound(s: Seq<CpuLocation>, b: int)
    requires
        b >= 1,
        forall|i: int| 0 <= i < s.len() ==> (#[trigger] s[i]).core < b,
    ensures
        spec_max_core(s) < b,
    decreases s.len(),
{
    if s.len() > 0 {
        assert(forall|i: int|
            0 <= i < s.len() - 1 ==> #[trigger] s.drop_last()[i] == s[i]);
        lemma_max_core_bound(s.drop_last(), b);
    }
}

/// The number of physical cores: one more than the highest core number.
pub fn get_num_cpu_cores(online: &CpuSet) -> (r: Result<usize, CpuPinningError>)
    requires
        forall|i: int|
            0 <= i < online.locations@.len() ==> (#[trigger] online.locations@[i]).core
                < usize::MAX,
    ensures
        match r {
            Ok(n) => online.locations@.len() > 0 && n == spec_max_core(online.locations@) + 1,
            Err(e) => e == CpuPinningError::EmptyCpuSet && online.locations@.len() == 0,
        },
{
    let n = online.locations.len();
    if n == 0 {
        return Err(CpuPinningError::EmptyCpuSet);
    }
    let mut max: usize = 0;
    for i in 0..n
        invariant
            n == online.locations@.len(),
            forall|k: int|
                0 <= k < n ==> (#[trigger] online.locations@[k]).core < usize::MAX,
            max == spec_max_core(online.locations@.take(i as int)),
    {
        proof {
            assert(online.locations@.take(i + 1).drop_last() =~= online.locations@.take(i as int));
            assert(online.locations@.take(i + 1).last() == online.locations@[i as int]);
        }
        let c = online.locations[i].core;
        if c >= max {
            max = c;
        }
    }
    proof {
        assert(online.locations@.take(online.locations@.len() as int) =~= online.locations@);
        lemma_max_core_bound(online.locations@, usize::MAX as int);
    }
    Ok(max + 1)
}

/// Whether the configuration asks for more workers than the hyperthread
/// mapping leaves room for.
pub open spec fn spec_too_many_workers(
    mapping: HyperThreadMapping,
    direction: CpuPinningDirection,
    core_index: int,
    num_cores: int,
) -> bool {
    match (mapping, direction) {
        (HyperThreadMapping::System, _) => false,
        (_, CpuPinningDirection::Ascending) => core_index >= num_cores / 2,
        (_, CpuPinningDirection::Descending) => core_index < num_cores / 2,
    }
}

/// Whether a logical CPU belongs to the worker pinned at `core_index`.
pub open spec fn spec_location_selected(
    l: CpuLocation,
    mapping: HyperThreadMapping,
    direction: CpuPinningDirection,
    core_index: int,
    num_cores: int,
) -> bool {
    match mapping {
        HyperThreadMapping::System => l.core == core_index,
        HyperThreadMapping::Split => match direction {
            CpuPinningDirection::Ascending => l.cpu == core_index || l.cpu == core_index
                + num_cores / 2,
            CpuPinningDirection::Descending => l.cpu == core_index || l.cpu == core_index
                - num_cores / 2,
        },
        HyperThreadMapping::Subsequent => {
            let base = match direction {
                CpuPinningDirection::Ascending => 2 * core_index,
                CpuPinningDirection::Descending => num_cores - 2 * (num_cores - core_index),
            };
            l.cpu == base || l.cpu == base + 1
        },
    }
}

/// The logical CPUs selected for the worker, in the machine's order.
pub open spec fn spec_selected_locations(
    s: Seq<CpuLocation>,
    mapping: HyperThreadMapping,
    direction: CpuPinningDirection,
    core_index: int,
    num_cores: int,
) -> Seq<CpuLocation>
    decreases s.len(),
{
    if s.len() == 0 {
        Seq::empty()
    } else if spec_location_selected(s.last(), mapping, direction, core_index, num_cores) {
        spec_selected_locations(s.drop_last(), mapping, direction, core_index, num_cores).push(
            s.last(),
        )
    } else {
        spec_selected_locations(s.drop_last(), mapping, direction, core_index, num_cores)
    }
}

/// Computes the CPU set a worker is fenced onto: the machine's CPUs
/// filtered by the hyperthread mapping around the worker's core index.
/// The `Subsequent` mapping laid out downward assumes an even CPU count.
pub fn get_worker_cpu_set<C: CpuPinningConfig>(
    config: &C,
    online: &CpuSet,
    socket_workers: usize,
    swarm_workers: usize,
    worker_index: WorkerIndex,
) -> (r: Result<CpuSet, CpuPinningError>)
    requires
        forall|i: int|
            0 <= i < online.locations@.len() ==> (#[trigger] online.locations@[i]).core
                < usize::MAX / 2,
        config.spec_core_offset() + socket_workers + swarm_workers <= usize::MAX,
        worker_index matches WorkerIndex::SocketWorker(i) ==> config.spec_core_offset() + i
            <= usize::MAX,
        worker_index matches WorkerIndex::SwarmWorker(i) ==> config.spec_core_offset()
            + socket_workers + i <= usize::MAX,
        config.spec_hyperthread() == HyperThreadMapping::Subsequent && config.spec_direction()
            == CpuPinningDirection::Descending ==> (spec_max_core(online.locations@) + 1) % 2
            == 0,
    ensures
        ({
            let num = spec_max_core(online.locations@) + 1;
            let ci = spec_core_index(
                config.spec_core_offset(),
                config.spec_direction(),
                socket_workers,
                swarm_workers,
                worker_index,
                num as usize,
            );
            let selected = spec_selected_locations(
                online.locations@,
                config.spec_hyperthread(),
                config.spec_direction(),
                ci,
                num,
            );
            match r {
                Ok(s) => online.locations@.len() > 0 && !spec_too_many_workers(
                    config.spec_hyperthread(),
                    config.spec_direction(),
                    ci,
                    num,
                ) && s.locations@ == selected && s.locations@.len() > 0,
                Err(CpuPinningError::TooManyWorkers) => online.locations@.len() > 0
                    && spec_too_many_workers(
                    config.spec_hyperthread(),
                    config.spec_direction(),
                    ci,
                    num,
                ),
                Err(CpuPinningError::EmptyCpuSet) => online.locations@.len() == 0 || (
                !spec_too_many_workers(
                    config.spec_hyperthread(),
                    config.spec_direction(),
                    ci,
                    num,
                ) && selected.len() == 0),
            }
        }),
{
    let num_cpu_cores = match get_num_cpu_cores(online) {
        Ok(n) => n,
        Err(e) => {
            return Err(e);
        },
    };
    proof {
        lemma_max_core_bound(online.locations@, usize::MAX as int / 2);
    }
    let core_index = worker_index.get_core_index(config, socket_workers, swarm_workers,
        num_cpu_cores);
    let too_many_workers = match (config.hyperthread(), config.direction()) {
        (HyperThreadMapping::System, _) => false,
        (_, CpuPinningDirection::Ascending) => core_index >= num_cpu_cores / 2,
        (_, CpuPinningDirection::Descending) => core_index < num_cpu_cores / 2,
    };
    if too_many_workers {
        return Err(CpuPinningError::TooManyWorkers);
    }
    let n = online.locations.len();
    let mut selected: Vec<CpuLocation> = Vec::new();
    let ghost mapping = config.spec_hyperthread();
    let ghost direction = config.spec_direction();
    for i in 0..n
        invariant
            n == online.locations@.len(),
            forall|k: int|
                0 <= k < n ==> (#[trigger] online.locations@[k]).core < usize::MAX / 2,
            mapping == config.spec_hyperthread(),
            direction == config.spec_direction(),
            num_cpu_cores == spec_max_core(online.locations@) + 1,
            num_cpu_cores <= usize::MAX / 2,
            core_index < num_cpu_cores,
            mapping == HyperThreadMapping::Subsequent && direction
                == CpuPinningDirection::Descending ==> num_cpu_cores % 2 == 0,
            mapping != HyperThreadMapping::System && direction
                == CpuPinningDirection::Descending ==> core_index >= num_cpu_cores / 2,
            selected@ == spec_selected_locations(
                online.locations@.take(i as int),
                mapping,
                direction,
                core_index as int,
                num_cpu_cores as int,
            ),
    {
        proof {
            assert(online.locations@.take(i + 1).drop_last() =~= online.locations@.take(i as int));
            assert(online.locations@.take(i + 1).last() == online.locations@[i as int]);
        }
        let l = online.locations[i];
        let keep = match config.hyperthread() {
            HyperThreadMapping::System => l.core == core_index,
            HyperThreadMapping::Split => match config.direction() {
                CpuPinningDirection::Ascending => l.cpu == core_index || l.cpu == core_index
                    + num_cpu_cores / 2,
                CpuPinningDirection::Descending => l.cpu == core_index || l.cpu == core_index
                    - num_cpu_cores / 2,
            },
            HyperThreadMapping::Subsequent => {
                let base = match config.direction() {
                    CpuPinningDirection::Ascending => 2 * core_index,
                    CpuPinningDirection::Descending => num_cpu_cores - 2 * (num_cpu_cores
                        - core_index),
                };
                l.cpu == base || (base < usize::MAX && l.cpu == base + 1)
            },
        };
        if keep {
            selected.push(l);
        }
    }
    proof {
        assert(online.locations@.take(online.locations@.len() as int) =~= online.locations@);
    }
    if selected.len() == 0 {
        Err(CpuPinningError::EmptyCpuSet)
    } else {
        Ok(CpuSet { locations: selected })
    }
}

/// Computes the placement for a worker: fenced onto its CPU set when
/// pinning is active, unbound otherwise.
pub fn get_worker_placement<C: CpuPinningConfig>(
    config: &C,
    online: &CpuSet,
    socket_workers: usize,
    swarm_workers: usize,
    worker_index: WorkerIndex,
) -> (r: Result<WorkerPlacement, CpuPinningError>)
    requires
        forall|i: int|
            0 <= i < online.locations@.len() ==> (#[trigger] online.locations@[i]).core
                < usize::MAX / 2,
        config.spec_core_offset() + socket_workers + swarm_workers <= usize::MAX,
        worker_index matches WorkerIndex::SocketWorker(i) ==> config.spec_core_offset() + i
            <= usize::MAX,
        worker_index matches WorkerIndex::SwarmWorker(i) ==> config.spec_core_offset()
            + socket_workers + i <= usize::MAX,
        config.spec_hyperthread() == HyperThreadMapping::Subsequent && config.spec_direction()
            == CpuPinningDirection::Descending ==> (spec_max_core(online.locations@) + 1) % 2
            == 0,
    ensures
        !config.spec_active() ==> (r matches Ok(p) && p is Unbound),
        config.spec_active() ==> ({
            let num = spec_max_core(online.locations@) + 1;
            let ci = spec_core_index(
                config.spec_core_offset(),
                config.spec_direction(),
                socket_workers,
                swarm_workers,
                worker_index,
                num as usize,
            );
            let selected = spec_selected_locations(
                online.locations@,
                config.spec_hyperthread(),
                config.spec_direction(),
                ci,
                num,
            );
            match r {
                Ok(p) => p matches WorkerPlacement::Fenced(s) && online.locations@.len() > 0
                    && !spec_too_many_workers(
                    config.spec_hyperthread(),
                    config.spec_direction(),
                    ci,
                    num,
                ) && s.locations@ == selected && s.locations@.len() > 0,
                Err(CpuPinningError::TooManyWorkers) => online.locations@.len() > 0
                    && spec_too_many_workers(
                    config.spec_hyperthread(),
                    config.spec_direction(),
                    ci,
                    num,
                ),
                Err(CpuPinningError::EmptyCpuSet) => online.locations@.len() == 0 || (
                !spec_too_many_workers(
                    config.spec_hyperthread(),
                    config.spec_direction(),
                    ci,
                    num,
                ) && selected.len() == 0),
            }
        }),
{
    if config.active() {
        match get_worker_cpu_set(config, online, socket_workers, swarm_workers, worker_index) {
            Ok(cpu_set) => Ok(WorkerPlacement::Fenced(cpu_set)),
            Err(e) => Err(e),
        }
    } else {
        Ok(WorkerPlacement::Unbound)
    }
}

} // verus!
