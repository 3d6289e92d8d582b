//! A robot: its position, what it knows of the grid, what it carries, and the
//! two-state goal machine that drives it.

use crate::known::{CoordSet, KnownMap};
use crate::map::{learn, DiffRecord, GridView, MapDiff, Tile, WorldMap};
use crate::pathfinder::{
    explore_target, fallback_step, frontier_step, greedy_step, greedy_target,
    lemma_moves_are_safe, offset, open_cell, shift, step_in,
};
use crate::station::{ReportView, RobotReport};
use vstd::prelude::*;

verus! {

/// How many resources a robot can carry before it heads home.
pub const PAYLOAD_LIMIT: u32 = 10;

/// The row of the base that robots return to.
pub const HOME_ROW: usize = 0;

/// The column of the base that robots return to.
pub const HOME_COL: usize = 0;

/// What a robot is currently after.
#[derive(Debug, PartialEq, Eq, Clone, Copy, Structural)]
pub enum RobotState {
    Exploring,
    Returning,
}

/// A capability that a robot may be equipped with.
#[derive(Debug, PartialEq, Eq, Clone, Copy, Structural)]
pub enum RobotModule {
    Explorer,
    Collector,
    Scanner,
    Sensor,
}

/// Whether a robot's equipment includes a module.
pub fn has_module(modules: &Vec<RobotModule>, wanted: RobotModule) -> (found: bool)
    ensures
        found == modules@.contains(wanted),
{
    let mut i: usize = 0;
    while i < modules.len()
        invariant
            i <= modules.len(),
            forall|j: int| 0 <= j < i ==> modules@[j] != wanted,
        decreases modules.len() - i,
    {
        if modules[i] == wanted {
            return true;
        }
        i += 1;
    }
    false
}

/// The `k`-th cell of the three-by-three window around a position, row by
/// row. Coordinates wrap at the ends of the integer range.
pub open spec fn window_cell(position: (usize, usize), k: int) -> (usize, usize) {
    (shift(position.0, k / 3 - 1), shift(position.1, k % 3 - 1))
}

/// What a scan of the first `n` cells of the window around a position sees:
/// one record for each cell inside the grid, in window order, with nothing
/// seen before and the tile that the grid holds.
pub open spec fn sightings(grid: GridView, position: (usize, usize), n: int) -> Seq<DiffRecord>
    decreases n,
{
    if n <= 0 {
        Seq::empty()
    } else {
        let before = sightings(grid, position, n - 1);
        let cell = window_cell(position, n - 1);
        match grid.get(cell) {
            Some(tile) => before.push((cell, None, tile)),
            None => before,
        }
    }
}

/// `cell` is among the first `n` cells of the window around a position.
pub open spec fn in_window(position: (usize, usize), cell: (usize, usize), n: int) -> bool {
    exists|k: int| 0 <= k < n && #[trigger] window_cell(position, k) == cell
}

/// Some robot other than `id` was last seen at `cell`.
pub open spec fn spotted(
    snapshots: Seq<(usize, (usize, usize))>,
    id: usize,
    cell: (usize, usize),
) -> bool {
    exists|i: int|
        0 <= i < snapshots.len() && (#[trigger] snapshots[i]).0 != id && snapshots[i].1 == cell
}

/// A robot.
#[derive(Debug)]
pub struct Robot {
    pub known_map: KnownMap,
    pub id: usize,
    pub position: (usize, usize),
    pub last_position: Option<(usize, usize)>,
    pub modules: Vec<RobotModule>,
    pub energy_collected: u32,
    pub mineral_collected: u32,
    pub state: RobotState,
    pub dirty_tiles: Vec<DiffRecord>,
}

/// The mathematical model of a [`Robot`].
pub struct RobotView {
    pub known: Map<(usize, usize), Tile>,
    pub id: usize,
    pub position: (usize, usize),
    pub last_position: Option<(usize, usize)>,
    pub modules: Seq<RobotModule>,
    pub energy_collected: u32,
    pub mineral_collected: u32,
    pub state: RobotState,
    pub dirty: Seq<DiffRecord>,
}

impl View for Robot {
    type V = RobotView;

    open spec fn view(&self) -> RobotView {
        RobotView {
            known: self.known_map@,
            id: self.id,
            position: self.position,
            last_position: self.last_position,
            modules: self.modules@,
            energy_collected: self.energy_collected,
            mineral_collected: self.mineral_collected,
            state: self.state,
            dirty: self.dirty_tiles@,
        }
    }
}

impl Clone for Robot {
    fn clone(&self) -> (copy: Robot)
        ensures
            copy@ == self@,
    {
        let mut modules: Vec<RobotModule> = Vec::new();
        let mut i: usize = 0;
        while i < self.modules.len()
            invariant
                i <= self.modules.len(),
                modules@ == self.modules@.take(i as int),
            decreases self.modules.len() - i,
        {
            modules.push(self.modules[i]);
            assert(self.modules@.take(i + 1) =~= self.modules@.take(i as int).push(
                self.modules@[i as int],
            ));
            i += 1;
        }
        let mut dirty_tiles: Vec<DiffRecord> = Vec::new();
        let mut j: usize = 0;
        while j < self.dirty_tiles.len()
            invariant
                j <= self.dirty_tiles.len(),
                dirty_tiles@ == self.dirty_tiles@.take(j as int),
            decreases self.dirty_tiles.len() - j,
        {
            dirty_tiles.push(self.dirty_tiles[j]);
            assert(self.dirty_tiles@.take(j + 1) =~= self.dirty_tiles@.take(j as int).push(
                self.dirty_tiles@[j as int],
            ));
            j += 1;
        }
        assert(self.modules@.take(self.modules.len() as int) =~= self.modules@);
        assert(self.dirty_tiles@.take(self.dirty_tiles.len() as int) =~= self.dirty_tiles@);
        Robot {
            known_map: self.known_map.clone(),
            id: self.id,
            position: self.position,
            last_position: self.last_position,
            modules,
            energy_collected: self.energy_collected,
            mineral_collected: self.mineral_collected,
            state: self.state,
            dirty_tiles,
        }
    }
}

impl RobotView {
    /// A robot fresh from the factory: exploring, knowing and carrying
    /// nothing.
    pub open spec fn fresh(
        id: usize,
        position: (usize, usize),
        modules: Seq<RobotModule>,
    ) -> RobotView {
        RobotView {
            known: Map::empty(),
            id,
            position,
            last_position: None,
            modules,
            energy_collected: 0,
            mineral_collected: 0,
            state: RobotState::Exploring,
            dirty: Seq::empty(),
        }
    }

    /// The robot after scanning the window around it: it knows what it saw,
    /// and has noted each sighting for its next report.
    pub open spec fn scanned(self, grid: GridView) -> RobotView {
        RobotView {
            known: learn(self.known, sightings(grid, self.position, 9)),
            dirty: self.dirty + sightings(grid, self.position, 9),
            ..self
        }
    }

    /// The robot stands on a resource that it is equipped to collect.
    pub open spec fn collects(self, grid: GridView) -> bool {
        &&& self.modules.contains(RobotModule::Collector)
        &&& grid.get(self.position) matches Some(tile)
        &&& tile.is_resource()
    }

    /// The counter that the resource under the robot goes to has room.
    pub open spec fn can_collect(self, grid: GridView) -> bool {
        self.collects(grid) ==> if grid.get(self.position) == Some(Tile::Energy) {
            self.energy_collected < u32::MAX
        } else {
            self.mineral_collected < u32::MAX
        }
    }

    /// The robot after collecting what it stands on, if anything: the
    /// matching counter is one higher and the change is noted for the next
    /// report.
    pub open spec fn collected(self, grid: GridView) -> RobotView {
        if self.collects(grid) {
            let tile = grid.get(self.position)->0;
            RobotView {
                energy_collected: if tile == Tile::Energy {
                    (self.energy_collected + 1) as u32
                } else {
                    self.energy_collected
                },
                mineral_collected: if tile == Tile::Mineral {
                    (self.mineral_collected + 1) as u32
                } else {
                    self.mineral_collected
                },
                dirty: self.dirty.push((self.position, Some(tile), Tile::Empty)),
                ..self
            }
        } else {
            self
        }
    }

    /// The grid after the robot has collected what it stands on, if
    /// anything: the cell is empty.
    pub open spec fn harvested(self, grid: GridView) -> GridView {
        if self.collects(grid) {
            grid.set(self.position, Tile::Empty)
        } else {
            grid
        }
    }

    /// The robot carries as much as it can.
    pub open spec fn is_full(self) -> bool {
        self.energy_collected + self.mineral_collected >= PAYLOAD_LIMIT
    }

    /// The robot after the guard of its goal machine has been evaluated: an
    /// exploring robot that is full turns to returning.
    pub open spec fn guarded(self) -> RobotView {
        if self.state == RobotState::Exploring && self.is_full() {
            RobotView { state: RobotState::Returning, ..self }
        } else {
            self
        }
    }

    /// The robot after an exploring move: where the pathfinder names a cell,
    /// the robot remembers where it was and stands there; else it stays.
    pub open spec fn explored(self, grid: GridView, occupied: Set<(usize, usize)>) -> RobotView {
        match explore_target(grid, self.known, occupied, self.position) {
            Some(cell) => RobotView {
                last_position: Some(self.position),
                position: cell,
                ..self
            },
            None => self,
        }
    }

    /// The robot after a greedy step toward `target`.
    pub open spec fn stepped_towards(
        self,
        target: (usize, usize),
        grid: GridView,
        occupied: Set<(usize, usize)>,
    ) -> RobotView {
        RobotView {
            position: greedy_target(grid, self.known, occupied, self.position, target),
            ..self
        }
    }

    /// The robot after its move of the tick: an exploring robot that is
    /// equipped to explore makes an exploring move, a returning robot a
    /// greedy step toward home.
    pub open spec fn moved(self, grid: GridView, occupied: Set<(usize, usize)>) -> RobotView {
        match self.state {
            RobotState::Exploring => if self.modules.contains(RobotModule::Explorer) {
                self.explored(grid, occupied)
            } else {
                self
            },
            RobotState::Returning => self.stepped_towards((HOME_ROW, HOME_COL), grid, occupied),
        }
    }

    /// The report that the robot would hand in at `tick`.
    pub open spec fn report(self, tick: u64) -> ReportView {
        ReportView {
            robot_id: self.id,
            tick,
            diff: self.dirty,
            energy: self.energy_collected,
            mineral: self.mineral_collected,
        }
    }

    /// The robot after handing in a report: it carries nothing and has
    /// nothing noted.
    pub open spec fn unloaded(self) -> RobotView {
        RobotView { energy_collected: 0, mineral_collected: 0, dirty: Seq::empty(), ..self }
    }

    /// The robot is home with a load to hand in.
    pub open spec fn arrives(self) -> bool {
        self.state == RobotState::Returning && self.position == (HOME_ROW, HOME_COL)
    }

    /// The robot after the hand-in of the tick: a returning robot that is
    /// home unloads and turns to exploring.
    pub open spec fn delivered(self) -> RobotView {
        if self.arrives() {
            RobotView { state: RobotState::Exploring, ..self.unloaded() }
        } else {
            self
        }
    }

    /// The robot before its move of the tick: after the scan, if it is
    /// equipped to scan, the collection and the guard.
    pub open spec fn prepared(self, grid: GridView) -> RobotView {
        let seen = if self.modules.contains(RobotModule::Scanner) {
            self.scanned(grid)
        } else {
            self
        };
        seen.collected(grid).guarded()
    }

    /// The robot after one whole tick on `grid`.
    pub open spec fn ticked(self, grid: GridView, occupied: Set<(usize, usize)>) -> RobotView {
        self.prepared(grid).moved(self.harvested(grid), occupied).delivered()
    }

    /// The report that one whole tick on `grid` produces, if any.
    pub open spec fn tick_report(
        self,
        grid: GridView,
        tick: u64,
        occupied: Set<(usize, usize)>,
    ) -> Option<ReportView> {
        let moved = self.prepared(grid).moved(self.harvested(grid), occupied);
        if moved.arrives() {
            Some(moved.report(tick))
        } else {
            None
        }
    }

    /// The cells next to the robot where another robot was last seen.
    pub open spec fn nearby(self, snapshots: Seq<(usize, (usize, usize))>) -> Set<(usize, usize)> {
        Set::new(
            |cell: (usize, usize)|
                cell != self.position && in_window(self.position, cell, 9) && spotted(
                    snapshots,
                    self.id,
                    cell,
                ),
        )
    }
}

/// Whether some robot other than `id` was last seen at `cell`.
fn is_spotted(snapshots: &[(usize, (usize, usize))], id: usize, cell: (usize, usize)) -> (found:
    bool)
    ensures
        found == spotted(snapshots@, id, cell),
{
    let mut i: usize = 0;
    while i < snapshots.len()
        invariant
            i <= snapshots.len(),
            forall|j: int|
                0 <= j < i ==> !((#[trigger] snapshots@[j]).0 != id && snapshots@[j].1 == cell),
        decreases snapshots.len() - i,
    {
        let (other, at) = snapshots[i];
        if other != id && at.0 == cell.0 && at.1 == cell.1 {
            return true;
        }
        i += 1;
    }
    false
}

/// The `k`-th cell of the window around a position.
fn window_at(position: (usize, usize), k: usize) -> (cell: (usize, usize))
    requires
        k < 9,
    ensures
        cell == window_cell(position, k as int),
{
    (offset(position.0, k / 3), offset(position.1, k % 3))
}

impl Robot {
    /// A robot fresh from the factory.
    pub fn new(id: usize, position: (usize, usize), modules: Vec<RobotModule>) -> (robot: Robot)
        ensures
            robot@ == RobotView::fresh(id, position, modules@),
    {
        Robot {
            known_map: KnownMap::new(),
            id,
            position,
            last_position: None,
            modules,
            energy_collected: 0,
            mineral_collected: 0,
            state: RobotState::Exploring,
            dirty_tiles: Vec::new(),
        }
    }

    /// Scans the three-by-three window around the robot: every cell of it
    /// that lies inside the grid is learned and noted for the next report.
    pub fn scan_surroundings(&mut self, map: &WorldMap)
        ensures
            final(self)@ == old(self)@.scanned(map@),
    {
        let ghost before = self@;
        let mut k: usize = 0;
        assert(self.dirty_tiles@ =~= before.dirty + sightings(map@, before.position, 0));
        while k < 9
            invariant
                k <= 9,
                self@ == (RobotView {
                    known: learn(before.known, sightings(map@, before.position, k as int)),
                    dirty: before.dirty + sightings(map@, before.position, k as int),
                    ..before
                }),
            decreases 9 - k,
        {
            let cell = window_at(self.position, k);
            let ghost seen = sightings(map@, before.position, k as int);
            match map.get(cell) {
                Some(tile) => {
                    self.known_map.insert(cell, tile);
                    self.dirty_tiles.push((cell, None, tile));
                    proof {
                        let record = (cell, None::<Tile>, tile);
                        assert(seen.push(record).drop_last() =~= seen);
                        assert(before.dirty + seen.push(record) =~= (before.dirty + seen).push(
                            record,
                        ));
                    }
                },
                None => {},
            }
            k += 1;
        }
    }

    /// One exploring move: toward the nearest resource that the robot knows
    /// of and the frontier search finds a way to; with none in reach, to a
    /// neighbor by the single-step fallback. With no neighbor to go to the
    /// robot stays. Of `map` only the shape is read.
    pub fn smart_move(&mut self, map: &WorldMap, occupied: &CoordSet)
        ensures
            final(self)@ == old(self)@.explored(map@, occupied@),
    {
        let next = match frontier_step(self.position, map, &self.known_map, occupied) {
            Some(cell) => Some(cell),
            None => fallback_step(self.position, map, &self.known_map, occupied),
        };
        match next {
            Some(cell) => {
                self.last_position = Some(self.position);
                self.position = cell;
            },
            None => {},
        }
    }

    /// The cells next to the robot where another robot was last seen.
    pub fn scan_for_robots(&self, robot_snapshots: &[(usize, (usize, usize))]) -> (nearby:
        CoordSet)
        ensures
            nearby@ == self@.nearby(robot_snapshots@),
    {
        let mut nearby = CoordSet::new();
        let mut k: usize = 0;
        while k < 9
            invariant
                k <= 9,
                nearby@ == Set::new(
                    |cell: (usize, usize)|
                        cell != self.position && in_window(self.position, cell, k as int)
                            && spotted(robot_snapshots@, self.id, cell),
                ),
            decreases 9 - k,
        {
            let cell = window_at(self.position, k);
            if (cell.0 != self.position.0 || cell.1 != self.position.1) && is_spotted(
                robot_snapshots,
                self.id,
                cell,
            ) {
                nearby.insert(cell);
            }
            proof {
                assert(window_cell(self.position, k as int) == cell);
                assert forall|c: (usize, usize)|
                    in_window(self.position, c, k + 1) <==> in_window(self.position, c, k as int)
                        || c == cell by {
                    if in_window(self.position, c, k + 1) {
                        let w = choose|w: int|
                            0 <= w < k + 1 && #[trigger] window_cell(self.position, w) == c;
                        if w < k {
                            assert(in_window(self.position, c, k as int));
                        }
                    }
                    if in_window(self.position, c, k as int) {
                        let w = choose|w: int|
                            0 <= w < k && #[trigger] window_cell(self.position, w) == c;
                        assert(0 <= w < k + 1);
                    }
                }
                assert(nearby@ =~= Set::new(
                    |c: (usize, usize)|
                        c != self.position && in_window(self.position, c, k + 1) && spotted(
                            robot_snapshots@,
                            self.id,
                            c,
                        ),
                ));
            }
            k += 1;
        }
        nearby
    }

    /// Hands what the robot carries and what it has noted over to a report
    /// stamped with `tick`. The robot keeps none of it.
    pub fn make_report(&mut self, tick: u64) -> (report: RobotReport)
        ensures
            report@ == old(self)@.report(tick),
            final(self)@ == old(self)@.unloaded(),
    {
        let mut records: Vec<DiffRecord> = Vec::new();
        core::mem::swap(&mut self.dirty_tiles, &mut records);
        let energy = self.energy_collected;
        let mineral = self.mineral_collected;
        self.energy_collected = 0;
        self.mineral_collected = 0;
        RobotReport { robot_id: self.id, tick, map_diff: MapDiff(records), energy, mineral }
    }

    /// One greedy step toward `target`, keeping off the occupied cells and
    /// the obstacles that the robot knows of. Of `map` only the shape is
    /// read.
    pub fn step_towards(&mut self, target: (usize, usize), map: &WorldMap, occupied: &CoordSet)
        ensures
            final(self)@ == old(self)@.stepped_towards(target, map@, occupied@),
    {
        self.position = greedy_step(self.position, target, map, &self.known_map, occupied);
    }

    /// Collects the resource under the robot, if there is one and the robot
    /// is equipped to collect: the matching counter goes up by one, the cell
    /// becomes empty, and the change is noted for the next report.
    pub fn collect(&mut self, map: &mut WorldMap)
        requires
            old(self)@.can_collect(old(map)@),
        ensures
            final(self)@ == old(self)@.collected(old(map)@),
            final(map)@ == old(self)@.harvested(old(map)@),
    {
        if has_module(&self.modules, RobotModule::Collector) {
            match map.get(self.position) {
                Some(Tile::Energy) => {
                    self.energy_collected += 1;
                    self.dirty_tiles.push((self.position, Some(Tile::Energy), Tile::Empty));
                    map.set(self.position, Tile::Empty);
                },
                Some(Tile::Mineral) => {
                    self.mineral_collected += 1;
                    self.dirty_tiles.push((self.position, Some(Tile::Mineral), Tile::Empty));
                    map.set(self.position, Tile::Empty);
                },
                _ => {},
            }
        }
    }

    /// Whether the counter that the resource under the robot would go to has
    /// room for it.
    pub fn can_collect(&self, map: &WorldMap) -> (ok: bool)
        ensures
            ok == self@.can_collect(map@),
    {
        if has_module(&self.modules, RobotModule::Collector) {
            match map.get(self.position) {
                Some(Tile::Energy) => self.energy_collected < u32::MAX,
                Some(Tile::Mineral) => self.mineral_collected < u32::MAX,
                _ => true,
            }
        } else {
            true
        }
    }

    /// Evaluates the guard of the goal machine: an exploring robot that
    /// carries as much as it can turns to returning.
    pub fn update_state(&mut self)
        ensures
            final(self)@ == old(self)@.guarded(),
    {
        let carried = self.energy_collected as u64 + self.mineral_collected as u64;
        if self.state == RobotState::Exploring && carried >= PAYLOAD_LIMIT as u64 {
            self.state = RobotState::Returning;
        }
    }
}

/// One below the payload limit an exploring robot goes on exploring; at the
/// limit the guard turns it to returning.
pub proof fn lemma_guard_threshold(robot: RobotView)
    requires
        robot.state == RobotState::Exploring,
    ensures
        robot.energy_collected + robot.mineral_collected == PAYLOAD_LIMIT - 1
            ==> robot.guarded().state == RobotState::Exploring,
        robot.energy_collected + robot.mineral_collected == PAYLOAD_LIMIT
            ==> robot.guarded().state == RobotState::Returning,
        robot.guarded().state == RobotState::Returning <==> robot.energy_collected
            + robot.mineral_collected >= PAYLOAD_LIMIT,
{
}

/// A tick never puts a robot on a cell that is closed to it: after the tick
/// the robot stands where it stood, or on a neighbor of that cell that lies
/// inside the grid, is not occupied and is not known to the robot to hold
/// an obstacle.
pub proof fn lemma_tick_moves_safely(
    robot: RobotView,
    grid: GridView,
    occupied: Set<(usize, usize)>,
)
    ensures
        robot.ticked(grid, occupied).position == robot.position || (open_cell(
            robot.harvested(grid),
            robot.prepared(grid).known,
            occupied,
            robot.ticked(grid, occupied).position,
        ) && exists|dir: int|
            0 <= dir < 4 && robot.ticked(grid, occupied).position == #[trigger] step_in(
                robot.position,
                dir,
            )),
{
    let ready = robot.prepared(grid);
    lemma_moves_are_safe(
        robot.harvested(grid),
        ready.known,
        occupied,
        ready.position,
        (HOME_ROW, HOME_COL),
    );
}

/// Whatever a robot carried and had noted, after a report it carries
/// nothing and has nothing noted, and the report holds it all.
pub proof fn lemma_report_takes_all(robot: RobotView, tick: u64)
    ensures
        robot.unloaded().energy_collected == 0,
        robot.unloaded().mineral_collected == 0,
        robot.unloaded().dirty.len() == 0,
        robot.report(tick).energy == robot.energy_collected,
        robot.report(tick).mineral == robot.mineral_collected,
        robot.report(tick).diff == robot.dirty,
        robot.unloaded().report(tick).energy == 0,
        robot.unloaded().report(tick).mineral == 0,
        robot.unloaded().report(tick).diff.len() == 0,
{
}

/// What a robot's actor can be told.
#[derive(Debug)]
pub enum RobotCmd {
    /// Run one tick; the cells named are off-limits for the move.
    Tick { tick_count: u64, occupied_positions: CoordSet },
    /// Learn a diff that the station has reconciled.
    Snapshot { version: u64, diff: MapDiff },
    /// Say who and where the robot is.
    ReportPosition,
    /// Stop.
    Shutdown,
}

/// What a robot's actor answers to a command.
#[derive(Debug)]
pub enum ActorReply {
    /// The tick has run; the report is for the station, if there is one.
    Ticked(Option<RobotReport>),
    /// The diff has been learned.
    Learned,
    /// The robot's id and position.
    Position(usize, (usize, usize)),
    /// The actor stops.
    Stopped,
}

/// The unit that runs one robot: it takes commands one at a time, in the
/// order in which they arrive.
#[derive(Debug)]
pub struct RobotActor {
    robot: Robot,
}

impl View for RobotActor {
    type V = RobotView;

    closed spec fn view(&self) -> RobotView {
        self.robot@
    }
}

impl RobotActor {
    /// An actor for a robot.
    pub fn new(robot: Robot) -> (actor: RobotActor)
        ensures
            actor@ == robot@,
    {
        RobotActor { robot }
    }

    /// The robot that the actor runs.
    pub fn robot(&self) -> (robot: &Robot)
        ensures
            robot@ == self@,
    {
        &self.robot
    }

    /// Whether the robot's counters have room for what a tick on `map` may
    /// collect.
    pub fn can_tick(&self, map: &WorldMap) -> (ok: bool)
        ensures
            ok == self@.can_collect(map@),
    {
        self.robot.can_collect(map)
    }

    /// One tick of the robot on `map`, in fixed order: the scan, if the
    /// robot is equipped to scan; the collection of what it stands on; the
    /// guard of its goal machine; its move, keeping off the occupied cells;
    /// and, for a returning robot that is home, the hand-in of its report.
    pub fn process_tick(&mut self, map: &mut WorldMap, tick_count: u64, occupied: &CoordSet) -> (report:
        Option<RobotReport>)
        requires
            old(self)@.can_collect(old(map)@),
        ensures
            final(self)@ == old(self)@.ticked(old(map)@, occupied@),
            final(map)@ == old(self)@.harvested(old(map)@),
            match report {
                Some(r) => Some(r@) == old(self)@.tick_report(old(map)@, tick_count, occupied@),
                None => old(self)@.tick_report(old(map)@, tick_count, occupied@) is None,
            },
    {
        if has_module(&self.robot.modules, RobotModule::Scanner) {
            self.robot.scan_surroundings(map);
        }
        self.robot.collect(map);
        self.robot.update_state();
        match self.robot.state {
            RobotState::Exploring => {
                if has_module(&self.robot.modules, RobotModule::Explorer) {
                    self.robot.smart_move(map, occupied);
                }
            },
            RobotState::Returning => {
                self.robot.step_towards((HOME_ROW, HOME_COL), map, occupied);
            },
        }
        if self.robot.state == RobotState::Returning && self.robot.position.0 == HOME_ROW
            && self.robot.position.1 == HOME_COL {
            let report = self.robot.make_report(tick_count);
            self.robot.state = RobotState::Exploring;
            Some(report)
        } else {
            None
        }
    }

    /// Takes one command and answers it. A tick runs the robot on `map`; a
    /// snapshot is learned and changes neither the robot's position nor its
    /// state; a position query is answered; a shutdown stops the actor.
    pub fn handle(&mut self, map: &mut WorldMap, cmd: RobotCmd) -> (reply: ActorReply)
        requires
            cmd is Tick ==> old(self)@.can_collect(old(map)@),
        ensures
            match cmd {
                RobotCmd::Tick { tick_count, occupied_positions } => {
                    &&& final(self)@ == old(self)@.ticked(old(map)@, occupied_positions@)
                    &&& final(map)@ == old(self)@.harvested(old(map)@)
                    &&& reply matches ActorReply::Ticked(report)
                    &&& match report {
                        Some(r) => Some(r@) == old(self)@.tick_report(
                            old(map)@,
                            tick_count,
                            occupied_positions@,
                        ),
                        None => old(self)@.tick_report(
                            old(map)@,
                            tick_count,
                            occupied_positions@,
                        ) is None,
                    }
                },
                RobotCmd::Snapshot { version, diff } => {
                    &&& final(self)@ == (RobotView {
                        known: learn(old(self)@.known, diff@),
                        ..old(self)@
                    })
                    &&& final(map)@ == old(map)@
                    &&& reply is Learned
                },
                RobotCmd::ReportPosition => {
                    &&& final(self)@ == old(self)@
                    &&& final(map)@ == old(map)@
                    &&& reply == ActorReply::Position(old(self)@.id, old(self)@.position)
                },
                RobotCmd::Shutdown => {
                    &&& final(self)@ == old(self)@
                    &&& final(map)@ == old(map)@
                    &&& reply is Stopped
                },
            },
    {
        match cmd {
            RobotCmd::Tick { tick_count, occupied_positions } => {
                let report = self.process_tick(map, tick_count, &occupied_positions);
                ActorReply::Ticked(report)
            },
            RobotCmd::Snapshot { version: _, diff } => {
                diff.apply_to_known_map(&mut self.robot.known_map);
                ActorReply::Learned
            },
            RobotCmd::ReportPosition => ActorReply::Position(self.robot.id, self.robot.position),
            RobotCmd::Shutdown => ActorReply::Stopped,
        }
    }
}

} // verus!
