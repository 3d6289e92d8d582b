//! The coordinator's decisions: which robots it runs, what it does with the
//! station's commands, who gets the resource that several robots stand on,
//! and which cells are off-limits to each robot in a tick.

use crate::known::CoordSet;
use crate::map::{replay, DiffRecord, GridView, MapDiff, Tile, WorldMap};
use crate::robot::{spotted, Robot, RobotCmd, RobotView};
use crate::station::{ReportView, RobotReport, StationCmd};
use vstd::prelude::*;

verus! {

/// The id under which the coordinator reports what it picked up itself.
pub const ENVIRONMENT_ID: usize = 0;

/// The outcome of a bulk pickup: the grid after it, the cell changes it
/// caused, and who is credited with which resource, in pickup order.
pub struct PickupView {
    pub grid: GridView,
    pub records: Seq<DiffRecord>,
    pub credits: Seq<(usize, Tile)>,
}

/// The bulk pickup for robots at `positions`, taken in order: a robot that
/// stands on a resource is credited with it and the cell becomes empty, so
/// that a robot that comes later in the order finds nothing there.
pub open spec fn pickups(grid: GridView, positions: Seq<(usize, (usize, usize))>) -> PickupView
    decreases positions.len(),
{
    if positions.len() == 0 {
        PickupView { grid, records: Seq::empty(), credits: Seq::empty() }
    } else {
        let before = pickups(grid, positions.drop_last());
        let (robot_id, at) = positions.last();
        match before.grid.get(at) {
            Some(tile) => if tile.is_resource() {
                PickupView {
                    grid: before.grid.set(at, Tile::Empty),
                    records: before.records.push((at, Some(tile), Tile::Empty)),
                    credits: before.credits.push((robot_id, tile)),
                }
            } else {
                before
            },
            None => before,
        }
    }
}

/// How many credits are for `tile`.
pub open spec fn credits_of(credits: Seq<(usize, Tile)>, tile: Tile) -> nat
    decreases credits.len(),
{
    if credits.len() == 0 {
        0
    } else {
        credits_of(credits.drop_last(), tile) + if credits.last().1 == tile {
            1nat
        } else {
            0nat
        }
    }
}

/// The report of a bulk pickup at `tick`: none where nothing was picked up;
/// else a report under the environment's id with the cell changes and the
/// number of resources of each kind.
pub open spec fn pickup_report(outcome: PickupView, tick: u64) -> Option<ReportView> {
    if outcome.records.len() == 0 {
        None
    } else {
        Some(
            ReportView {
                robot_id: ENVIRONMENT_ID,
                tick,
                diff: outcome.records,
                energy: credits_of(outcome.credits, Tile::Energy) as u32,
                mineral: credits_of(outcome.credits, Tile::Mineral) as u32,
            },
        )
    }
}

/// The cells that hold an obstacle.
pub open spec fn obstacles_of(grid: GridView) -> Set<(usize, usize)> {
    Set::new(|cell: (usize, usize)| grid.get(cell) == Some(Tile::Obstacle))
}

/// The cells that are off-limits to robot `id`: the obstacles, and the cells
/// where another robot was last seen.
pub open spec fn occupancy_of(
    obstacles: Set<(usize, usize)>,
    positions: Seq<(usize, (usize, usize))>,
    id: usize,
) -> Set<(usize, usize)> {
    obstacles.union(Set::new(|cell: (usize, usize)| spotted(positions, id, cell)))
}

/// What a bulk pickup hands back: the report for the station, if anything
/// was picked up, and who is credited with which resource.
#[derive(Debug)]
pub struct Harvest {
    pub report: Option<RobotReport>,
    pub credits: Vec<(usize, Tile)>,
}

/// A bulk pickup credits one robot for each cell change, and no more cell
/// changes than robots.
pub proof fn lemma_pickups_counts(grid: GridView, positions: Seq<(usize, (usize, usize))>)
    ensures
        pickups(grid, positions).records.len() == pickups(grid, positions).credits.len(),
        pickups(grid, positions).records.len() <= positions.len(),
        credits_of(pickups(grid, positions).credits, Tile::Energy) + credits_of(
            pickups(grid, positions).credits,
            Tile::Mineral,
        ) == pickups(grid, positions).records.len(),
    decreases positions.len(),
{
    if positions.len() > 0 {
        lemma_pickups_counts(grid, positions.drop_last());
        let before = pickups(grid, positions.drop_last());
        let after = pickups(grid, positions);
        if after.credits.len() != before.credits.len() {
            assert(after.credits.drop_last() =~= before.credits);
        }
    }
}

/// The cell changes of a bulk pickup say what it did to the grid: replaying
/// them on the grid before gives the grid after.
pub proof fn lemma_pickups_replay(grid: GridView, positions: Seq<(usize, (usize, usize))>)
    ensures
        pickups(grid, positions).grid == replay(grid, pickups(grid, positions).records),
    decreases positions.len(),
{
    if positions.len() > 0 {
        lemma_pickups_replay(grid, positions.drop_last());
        let before = pickups(grid, positions.drop_last());
        let after = pickups(grid, positions);
        if after.records.len() != before.records.len() {
            assert(after.records.drop_last() =~= before.records);
        }
    }
}

/// No resource is picked up twice: every cell that a bulk pickup changed is
/// empty after it, and no two of its cell changes are at one cell.
pub proof fn lemma_pickups_once(grid: GridView, positions: Seq<(usize, (usize, usize))>)
    ensures
        forall|i: int|
            0 <= i < pickups(grid, positions).records.len() ==> pickups(grid, positions).grid.get(
                (#[trigger] pickups(grid, positions).records[i]).0,
            ) == Some(Tile::Empty),
        forall|i: int, j: int|
            0 <= i < j < pickups(grid, positions).records.len() ==> (#[trigger] pickups(
                grid,
                positions,
            ).records[i]).0 != (#[trigger] pickups(grid, positions).records[j]).0,
    decreases positions.len(),
{
    if positions.len() > 0 {
        lemma_pickups_once(grid, positions.drop_last());
        let before = pickups(grid, positions.drop_last());
        let after = pickups(grid, positions);
        if after.records.len() != before.records.len() {
            let at = positions.last().1;
            assert forall|i: int| 0 <= i < after.records.len() implies after.grid.get(
                (#[trigger] after.records[i]).0,
            ) == Some(Tile::Empty) by {
                if i < before.records.len() {
                    assert(after.records[i] == before.records[i]);
                    assert(before.grid.get(before.records[i].0) == Some(Tile::Empty));
                }
            }
            assert forall|i: int, j: int| 0 <= i < j < after.records.len() implies (
            #[trigger] after.records[i]).0 != (#[trigger] after.records[j]).0 by {
                assert(after.records[i] == before.records[i]);
                assert(before.grid.get(before.records[i].0) == Some(Tile::Empty));
                if j < before.records.len() {
                    assert(after.records[j] == before.records[j]);
                }
            }
        }
    }
}

/// The bulk pickup of a tick: for every robot position, in order, that holds
/// a resource, the cell is cleared and the robot credited. All cell changes
/// go into one report under the environment's id.
pub fn collect_at_positions(
    map: &mut WorldMap,
    positions: &[(usize, (usize, usize))],
    tick_count: u64,
) -> (harvest: Harvest)
    requires
        positions@.len() <= u32::MAX,
    ensures
        final(map)@ == pickups(old(map)@, positions@).grid,
        harvest.credits@ == pickups(old(map)@, positions@).credits,
        match harvest.report {
            Some(r) => Some(r@) == pickup_report(pickups(old(map)@, positions@), tick_count),
            None => pickup_report(pickups(old(map)@, positions@), tick_count) is None,
        },
{
    let ghost grid = map@;
    let mut records: Vec<DiffRecord> = Vec::new();
    let mut credits: Vec<(usize, Tile)> = Vec::new();
    let mut energy: u32 = 0;
    let mut mineral: u32 = 0;
    let mut i: usize = 0;
    while i < positions.len()
        invariant
            i <= positions.len(),
            positions@.len() <= u32::MAX,
            map@ == pickups(grid, positions@.take(i as int)).grid,
            records@ == pickups(grid, positions@.take(i as int)).records,
            credits@ == pickups(grid, positions@.take(i as int)).credits,
            energy == credits_of(credits@, Tile::Energy),
            mineral == credits_of(credits@, Tile::Mineral),
        decreases positions.len() - i,
    {
        let (robot_id, at) = positions[i];
        proof {
            assert(positions@.take(i + 1).drop_last() =~= positions@.take(i as int));
            assert(positions@.take(i + 1).last() == positions@[i as int]);
            lemma_pickups_counts(grid, positions@.take(i as int));
        }
        match map.get(at) {
            Some(tile) => {
                if tile.is_resource() {
                    let ghost earlier = credits@;
                    map.set(at, Tile::Empty);
                    records.push((at, Some(tile), Tile::Empty));
                    credits.push((robot_id, tile));
                    proof {
                        assert(credits@.drop_last() =~= earlier);
                    }
                    match tile {
                        Tile::Energy => {
                            energy += 1;
                        },
                        _ => {
                            mineral += 1;
                        },
                    }
                }
            },
            None => {},
        }
        i += 1;
    }
    proof {
        assert(positions@.take(positions.len() as int) =~= positions@);
    }
    let report = if records.len() == 0 {
        None
    } else {
        Some(
            RobotReport {
                robot_id: ENVIRONMENT_ID,
                tick: tick_count,
                map_diff: MapDiff(records),
                energy,
                mineral,
            },
        )
    };
    Harvest { report, credits }
}

/// The cells of the grid that hold an obstacle.
pub fn obstacle_cells(map: &WorldMap) -> (obstacles: CoordSet)
    ensures
        obstacles@ == obstacles_of(map@),
{
    let mut obstacles = CoordSet::new();
    let rows = map.grid.len();
    let mut r: usize = 0;
    while r < rows
        invariant
            r <= rows,
            rows == map.grid@.len(),
            obstacles@ == Set::new(
                |cell: (usize, usize)| map@.get(cell) == Some(Tile::Obstacle) && cell.0 < r,
            ),
        decreases rows - r,
    {
        let width = if map.cols < map.grid[r].len() {
            map.cols
        } else {
            map.grid[r].len()
        };
        let mut c: usize = 0;
        while c < width
            invariant
                r < rows,
                rows == map.grid@.len(),
                c <= width,
                width <= map.cols,
                width <= map.grid@[r as int]@.len(),
                width == map.cols || width == map.grid@[r as int]@.len(),
                obstacles@ == Set::new(
                    |cell: (usize, usize)|
                        map@.get(cell) == Some(Tile::Obstacle) && (cell.0 < r || (cell.0 == r
                            && cell.1 < c)),
                ),
            decreases width - c,
        {
            match map.get((r, c)) {
                Some(Tile::Obstacle) => {
                    obstacles.insert((r, c));
                },
                _ => {},
            }
            proof {
                assert(obstacles@ =~= Set::new(
                    |cell: (usize, usize)|
                        map@.get(cell) == Some(Tile::Obstacle) && (cell.0 < r || (cell.0 == r
                            && cell.1 < c + 1)),
                ));
            }
            c += 1;
        }
        proof {
            assert(obstacles@ =~= Set::new(
                |cell: (usize, usize)| map@.get(cell) == Some(Tile::Obstacle) && cell.0 < r + 1,
            ));
        }
        r += 1;
    }
    proof {
        assert(obstacles@ =~= obstacles_of(map@));
    }
    obstacles
}

/// The cells that are off-limits to robot `id` in a tick: the obstacles and
/// the last-known positions of the other robots. The robot's own position is
/// not among them on its own account.
pub fn occupancy_for(obstacles: &CoordSet, positions: &[(usize, (usize, usize))], id: usize) -> (occupied:
    CoordSet)
    ensures
        occupied@ == occupancy_of(obstacles@, positions@, id),
{
    let mut occupied = obstacles.clone();
    let mut i: usize = 0;
    assert(occupied@ =~= obstacles@.union(
        Set::new(|cell: (usize, usize)| spotted(positions@.take(0), id, cell)),
    ));
    while i < positions.len()
        invariant
            i <= positions.len(),
            occupied@ == obstacles@.union(
                Set::new(|cell: (usize, usize)| spotted(positions@.take(i as int), id, cell)),
            ),
        decreases positions.len() - i,
    {
        let (robot_id, at) = positions[i];
        if robot_id != id {
            occupied.insert(at);
        }
        proof {
            let shorter = positions@.take(i as int);
            let longer = positions@.take(i + 1);
            assert forall|cell: (usize, usize)|
                spotted(longer, id, cell) <==> spotted(shorter, id, cell) || (robot_id != id && at
                    == cell) by {
                if spotted(shorter, id, cell) {
                    let k = choose|k: int|
                        0 <= k < shorter.len() && (#[trigger] shorter[k]).0 != id && shorter[k].1
                            == cell;
                    assert(longer[k] == shorter[k]);
                }
                if robot_id != id && at == cell {
                    assert(longer[i as int] == positions@[i as int]);
                }
                if spotted(longer, id, cell) {
                    let k = choose|k: int|
                        0 <= k < longer.len() && (#[trigger] longer[k]).0 != id && longer[k].1
                            == cell;
                    if k < i {
                        assert(shorter[k] == longer[k]);
                    }
                }
            }
            assert(occupied@ =~= obstacles@.union(
                Set::new(|cell: (usize, usize)| spotted(longer, id, cell)),
            ));
        }
        i += 1;
    }
    proof {
        assert(positions@.take(positions.len() as int) =~= positions@);
    }
    occupied
}

/// The report with which a robot is announced to the station: nothing seen,
/// nothing carried, at tick zero.
pub open spec fn hello_view(robot_id: usize) -> ReportView {
    ReportView { robot_id, tick: 0, diff: Seq::empty(), energy: 0, mineral: 0 }
}

/// The ids with one more robot on the roll; a robot that is on it already
/// is not entered twice.
pub open spec fn enrolled(ids: Seq<usize>, id: usize) -> Seq<usize> {
    if ids.contains(id) {
        ids
    } else {
        ids.push(id)
    }
}

/// What the coordinator is to do about a command of the station.
#[derive(Debug)]
pub enum CoordinatorAction {
    /// Start an actor for the robot, and send its announcement to the
    /// station.
    Launch { robot: Robot, hello: RobotReport },
    /// Pass the command on to the actor of robot `to`.
    Forward { to: usize, cmd: RobotCmd },
    /// The shared grid has been brought up to date; no actor is concerned.
    Applied,
    /// Stop every actor, wait for them, and stop.
    ShutdownAll,
    /// Nothing.
    Ignored,
}

/// The coordinator's roll of the robots whose actors it runs, in the order
/// in which they were started. No robot is on it twice.
#[derive(Debug)]
pub struct RobotCoordinator {
    robot_ids: Vec<usize>,
}

impl RobotCoordinator {
    #[verifier::type_invariant]
    spec fn each_robot_once(&self) -> bool {
        self.robot_ids@.no_duplicates()
    }
}

impl View for RobotCoordinator {
    type V = Seq<usize>;

    closed spec fn view(&self) -> Seq<usize> {
        self.robot_ids@
    }
}

/// Whether an id is on a roll.
fn is_enrolled(ids: &Vec<usize>, id: usize) -> (found: bool)
    ensures
        found == ids@.contains(id),
{
    let mut i: usize = 0;
    while i < ids.len()
        invariant
            i <= ids.len(),
            forall|j: int| 0 <= j < i ==> ids@[j] != id,
        decreases ids.len() - i,
    {
        if ids[i] == id {
            return true;
        }
        i += 1;
    }
    false
}

/// The announcement of a robot to the station.
pub fn hello_report(robot_id: usize) -> (hello: RobotReport)
    ensures
        hello@ == hello_view(robot_id),
{
    RobotReport { robot_id, tick: 0, map_diff: MapDiff(Vec::new()), energy: 0, mineral: 0 }
}

impl RobotCoordinator {
    /// A coordinator with no robot on its roll.
    pub fn new() -> (coordinator: RobotCoordinator)
        ensures
            coordinator@ == Seq::<usize>::empty(),
            coordinator@.no_duplicates(),
    {
        RobotCoordinator { robot_ids: Vec::new() }
    }

    /// How many robots are on the roll.
    pub fn robot_count(&self) -> (n: usize)
        ensures
            n == self@.len(),
    {
        self.robot_ids.len()
    }

    /// Whether the coordinator runs an actor for robot `id`.
    pub fn has_robot(&self, id: usize) -> (found: bool)
        ensures
            found == self@.contains(id),
    {
        is_enrolled(&self.robot_ids, id)
    }

    /// Enters a robot on the roll and says how to start it: with an actor of
    /// its own, and an announcement to the station.
    pub fn spawn_robot_actor(&mut self, robot: Robot) -> (action: CoordinatorAction)
        ensures
            final(self)@ == enrolled(old(self)@, robot.id),
            final(self)@.no_duplicates(),
            ({
                &&& action matches CoordinatorAction::Launch { robot: started, hello }
                &&& started == robot
                &&& hello@ == hello_view(robot.id)
            }),
    {
        proof {
            use_type_invariant(&*self);
        }
        if !is_enrolled(&self.robot_ids, robot.id) {
            let mut ids: Vec<usize> = Vec::new();
            core::mem::swap(&mut self.robot_ids, &mut ids);
            ids.push(robot.id);
            core::mem::swap(&mut self.robot_ids, &mut ids);
        }
        let hello = hello_report(robot.id);
        CoordinatorAction::Launch { robot, hello }
    }

    /// Decides what to do about one command of the station. A spawn enters
    /// a fresh robot on the roll and launches it. A snapshot is replayed on
    /// the shared grid, and passed on to the robot it is addressed to if that
    /// robot is on the roll. A shutdown stops everything. Anything else is
    /// not the coordinator's business.
    pub fn handle_command(&mut self, map: &mut WorldMap, cmd: StationCmd) -> (action:
        CoordinatorAction)
        ensures
            final(self)@.no_duplicates(),
            match cmd {
                StationCmd::Spawn { id, modules, start_pos } => {
                    &&& final(self)@ == enrolled(old(self)@, id)
                    &&& final(map)@ == old(map)@
                    &&& action matches CoordinatorAction::Launch { robot, hello }
                    &&& robot@ == RobotView::fresh(id, start_pos, modules@)
                    &&& hello@ == hello_view(id)
                },
                StationCmd::Snapshot { id, version, diff } => {
                    &&& final(self)@ == old(self)@
                    &&& final(map)@ == replay(old(map)@, diff@)
                    &&& if old(self)@.contains(id as usize) {
                        &&& action matches CoordinatorAction::Forward { to, cmd: passed }
                        &&& to == id
                        &&& passed matches RobotCmd::Snapshot { version: v, diff: d }
                        &&& v == version
                        &&& d@ == diff@
                    } else {
                        action is Applied
                    }
                },
                StationCmd::Shutdown => {
                    &&& final(self)@ == old(self)@
                    &&& final(map)@ == old(map)@
                    &&& action is ShutdownAll
                },
                _ => {
                    &&& final(self)@ == old(self)@
                    &&& final(map)@ == old(map)@
                    &&& action is Ignored
                },
            },
    {
        proof {
            use_type_invariant(&*self);
        }
        match cmd {
            StationCmd::Spawn { id, modules, start_pos } => {
                let robot = Robot::new(id, start_pos, modules);
                self.spawn_robot_actor(robot)
            },
            StationCmd::Snapshot { id, version, diff } => {
                diff.apply(map);
                let to = id as usize;
                if is_enrolled(&self.robot_ids, to) {
                    CoordinatorAction::Forward { to, cmd: RobotCmd::Snapshot { version, diff } }
                } else {
                    CoordinatorAction::Applied
                }
            },
            StationCmd::Shutdown => CoordinatorAction::ShutdownAll,
            _ => CoordinatorAction::Ignored,
        }
    }

    /// The tick commands of one tick: exactly one for every robot on the
    /// roll, in roll order, each with the cells that are off-limits to that
    /// robot.
    pub fn plan_tick(
        &self,
        map: &WorldMap,
        positions: &[(usize, (usize, usize))],
        tick_count: u64,
    ) -> (plan: Vec<(usize, RobotCmd)>)
        ensures
            plan@.len() == self@.len(),
            forall|i: int, j: int|
                0 <= i < j < plan@.len() ==> (#[trigger] plan@[i]).0 != (#[trigger] plan@[j]).0,
            forall|i: int|
                0 <= i < plan@.len() ==> {
                    &&& (#[trigger] plan@[i]).0 == self@[i]
                    &&& plan@[i].1 matches RobotCmd::Tick { tick_count: t, occupied_positions }
                    &&& t == tick_count
                    &&& occupied_positions@ == occupancy_of(
                        obstacles_of(map@),
                        positions@,
                        self@[i],
                    )
                },
    {
        proof {
            use_type_invariant(self);
        }
        let obstacles = obstacle_cells(map);
        let mut plan: Vec<(usize, RobotCmd)> = Vec::new();
        let mut i: usize = 0;
        while i < self.robot_ids.len()
            invariant
                i <= self.robot_ids.len(),
                obstacles@ == obstacles_of(map@),
                plan@.len() == i,
                forall|j: int|
                    0 <= j < i ==> {
                        &&& (#[trigger] plan@[j]).0 == self.robot_ids@[j]
                        &&& plan@[j].1 matches RobotCmd::Tick { tick_count: t, occupied_positions }
                        &&& t == tick_count
                        &&& occupied_positions@ == occupancy_of(
                            obstacles_of(map@),
                            positions@,
                            self.robot_ids@[j],
                        )
                    },
            decreases self.robot_ids.len() - i,
        {
            let id = self.robot_ids[i];
            let occupied_positions = occupancy_for(&obstacles, positions, id);
            plan.push((id, RobotCmd::Tick { tick_count, occupied_positions }));
            i += 1;
        }
        plan
    }
}

} // verus!
