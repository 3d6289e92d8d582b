//! What an operator's screen shows of a simulation: the grid, the robots,
//! the counters and the station's recent log lines, kept up to date from
//! the station's commands.

use crate::map::{learn, replay, DiffRecord, GridView, Tile, WorldMap};
use crate::robot::{Robot, RobotModule, RobotView};
use crate::station::{CmdView, StationCmd};
use std::collections::VecDeque;
use vstd::prelude::*;

verus! {

/// How many log lines are kept.
pub const LOG_CAPACITY: usize = 50;

/// The tick after which a simulation is over.
pub const TICK_LIMIT: u64 = 200;

/// The state behind the screen.
#[derive(Debug)]
pub struct App {
    pub map: WorldMap,
    pub robots: Vec<Robot>,
    pub tick_count: u64,
    pub collected_energy: u32,
    pub collected_mineral: u32,
    pub logs: VecDeque<String>,
    pub robots_scroll: u16,
    pub logs_scroll: u16,
    pub master_version: u64,
}

/// The mathematical model of an [`App`]. The scroll offsets belong to the
/// screen alone and are no part of it.
pub struct AppView {
    pub map: GridView,
    pub robots: Seq<RobotView>,
    pub tick_count: u64,
    pub collected_energy: u32,
    pub collected_mineral: u32,
    pub logs: Seq<Seq<char>>,
    pub master_version: u64,
}

/// The models of a sequence of robots, in the same order.
pub open spec fn robot_views(robots: Seq<Robot>) -> Seq<RobotView> {
    robots.map_values(|r: Robot| r@)
}

/// The texts of a sequence of lines, in the same order.
pub open spec fn line_views(lines: Seq<String>) -> Seq<Seq<char>> {
    lines.map_values(|l: String| l@)
}

impl View for App {
    type V = AppView;

    open spec fn view(&self) -> AppView {
        AppView {
            map: self.map@,
            robots: robot_views(self.robots@),
            tick_count: self.tick_count,
            collected_energy: self.collected_energy,
            collected_mineral: self.collected_mineral,
            logs: line_views(self.logs@),
            master_version: self.master_version,
        }
    }
}

/// The place of the first robot with a given id among some robots; their
/// number where none has it.
pub open spec fn place_of(robots: Seq<RobotView>, id: usize) -> int
    decreases robots.len(),
{
    if robots.len() == 0 {
        0
    } else if robots[0].id == id {
        0
    } else {
        1 + place_of(robots.drop_first(), id)
    }
}

/// The robots after the first one with the given id has learned a diff.
pub open spec fn taught(robots: Seq<RobotView>, id: usize, diff: Seq<DiffRecord>) -> Seq<
    RobotView,
> {
    let i = place_of(robots, id);
    if i < robots.len() {
        robots.update(i, RobotView { known: learn(robots[i].known, diff), ..robots[i] })
    } else {
        robots
    }
}

/// The robots after the first one with the given id has been put at a
/// position.
pub open spec fn placed(robots: Seq<RobotView>, id: usize, position: (usize, usize)) -> Seq<
    RobotView,
> {
    let i = place_of(robots, id);
    if i < robots.len() {
        robots.update(i, RobotView { position, ..robots[i] })
    } else {
        robots
    }
}

/// The robots after each of the reported positions has been taken over, in
/// the order of the reports.
pub open spec fn relocated(robots: Seq<RobotView>, positions: Seq<(usize, (usize, usize))>) -> Seq<
    RobotView,
>
    decreases positions.len(),
{
    if positions.len() == 0 {
        robots
    } else {
        placed(relocated(robots, positions.drop_last()), positions.last().0, positions.last().1)
    }
}

/// The recent log lines with one more: the oldest line makes room where the
/// buffer is full.
pub open spec fn logged(logs: Seq<Seq<char>>, line: Seq<char>) -> Seq<Seq<char>> {
    if logs.len() >= LOG_CAPACITY {
        logs.drop_first().push(line)
    } else {
        logs.push(line)
    }
}

/// What is to be done with a command once the screen's state has taken it
/// in.
#[derive(Debug)]
pub enum AppAction {
    /// Nothing more.
    Nothing,
    /// Pass the command on to the coordinator.
    Forward(StationCmd),
    /// Pass a shutdown on to the coordinator; the simulation is over.
    Stop,
}

impl AppView {
    /// The counters have room for taking a command in.
    pub open spec fn can_apply(self, cmd: CmdView) -> bool {
        cmd matches CmdView::ResourceUpdate { energy, mineral } ==> {
            &&& self.collected_energy + energy <= u32::MAX
            &&& self.collected_mineral + mineral <= u32::MAX
        }
    }

    /// The state after a command of the station has been taken in.
    pub open spec fn applied(self, cmd: CmdView) -> AppView {
        match cmd {
            CmdView::Log(line) => AppView { logs: logged(self.logs, line), ..self },
            CmdView::Spawn { id, modules, start_pos } => AppView {
                robots: self.robots.push(RobotView::fresh(id, start_pos, modules)),
                ..self
            },
            CmdView::Snapshot { id, version, diff } => AppView {
                master_version: version,
                map: replay(self.map, diff),
                robots: taught(self.robots, id as usize, diff),
                ..self
            },
            CmdView::Version(version) => AppView { master_version: version, ..self },
            CmdView::ResourceUpdate { energy, mineral } => AppView {
                collected_energy: (self.collected_energy + energy) as u32,
                collected_mineral: (self.collected_mineral + mineral) as u32,
                ..self
            },
            CmdView::Shutdown => self,
        }
    }

    /// The simulation is over: the tick limit is passed, or it was stopped.
    pub open spec fn is_over(self, stopped: bool) -> bool {
        self.tick_count > TICK_LIMIT || stopped
    }
}

/// The place of the first robot with a given id; the robots' number where
/// none has it.
fn find_robot(robots: &Vec<Robot>, id: usize) -> (i: usize)
    ensures
        i == place_of(robot_views(robots@), id),
        i <= robots@.len(),
{
    let ghost views = robot_views(robots@);
    let mut i: usize = 0;
    assert(views.skip(0) =~= views);
    while i < robots.len()
        invariant
            i <= robots.len(),
            views == robot_views(robots@),
            place_of(views, id) == i + place_of(views.skip(i as int), id),
        decreases robots.len() - i,
    {
        if robots[i].id == id {
            assert(views.skip(i as int)[0] == views[i as int]);
            return i;
        }
        proof {
            assert(views.skip(i as int)[0] == views[i as int]);
            assert(views.skip(i as int).drop_first() =~= views.skip(i + 1));
        }
        i += 1;
    }
    i
}

/// A copy of a robot's equipment.
fn copy_modules(modules: &Vec<RobotModule>) -> (copy: Vec<RobotModule>)
    ensures
        copy@ == modules@,
{
    let mut copy: Vec<RobotModule> = Vec::new();
    let mut i: usize = 0;
    while i < modules.len()
        invariant
            i <= modules.len(),
            copy@ == modules@.take(i as int),
        decreases modules.len() - i,
    {
        copy.push(modules[i]);
        assert(modules@.take(i + 1) =~= modules@.take(i as int).push(modules@[i as int]));
        i += 1;
    }
    assert(modules@.take(modules.len() as int) =~= modules@);
    copy
}

impl App {
    /// The state at the start of a simulation on `map` with `robots`.
    pub fn new(map: WorldMap, robots: Vec<Robot>) -> (app: App)
        ensures
            app@ == (AppView {
                map: map@,
                robots: robot_views(robots@),
                tick_count: 0,
                collected_energy: 0,
                collected_mineral: 0,
                logs: Seq::empty(),
                master_version: 0,
            }),
            app.robots_scroll == 0,
            app.logs_scroll == 0,
    {
        let app = App {
            map,
            robots,
            tick_count: 0,
            collected_energy: 0,
            collected_mineral: 0,
            logs: VecDeque::new(),
            robots_scroll: 0,
            logs_scroll: 0,
            master_version: 0,
        };
        assert(line_views(app.logs@) =~= Seq::<Seq<char>>::empty());
        app
    }

    /// Overwrites a cell of the grid shown. Outside the grid nothing is
    /// written.
    pub fn update_map_tile(&mut self, row: usize, col: usize, tile: Tile)
        ensures
            final(self)@ == (AppView { map: old(self)@.map.set((row, col), tile), ..old(self)@ }),
            final(self).robots_scroll == old(self).robots_scroll,
            final(self).logs_scroll == old(self).logs_scroll,
    {
        self.map.set((row, col), tile);
    }

    /// Whether the counters have room for taking `cmd` in.
    pub fn can_apply(&self, cmd: &StationCmd) -> (ok: bool)
        ensures
            ok == self@.can_apply(cmd@),
    {
        match cmd {
            StationCmd::ResourceUpdate { energy, mineral } => {
                *energy <= u32::MAX - self.collected_energy && *mineral <= u32::MAX
                    - self.collected_mineral
            },
            _ => true,
        }
    }

    /// Takes one command of the station in, and says what is to be done
    /// with it: spawns and snapshots go on to the coordinator; a shutdown
    /// stops the simulation; the rest is for the screen alone.
    pub fn apply_command(&mut self, cmd: StationCmd) -> (action: AppAction)
        requires
            old(self)@.can_apply(cmd@),
        ensures
            final(self)@ == old(self)@.applied(cmd@),
            final(self).robots_scroll == old(self).robots_scroll,
            final(self).logs_scroll == old(self).logs_scroll,
            match cmd@ {
                CmdView::Spawn { .. } => action matches AppAction::Forward(passed) && passed@
                    == cmd@,
                CmdView::Snapshot { .. } => action matches AppAction::Forward(passed) && passed@
                    == cmd@,
                CmdView::Shutdown => action is Stop,
                _ => action is Nothing,
            },
    {
        match cmd {
            StationCmd::Log(line) => {
                let ghost before = line_views(self.logs@);
                if self.logs.len() >= LOG_CAPACITY {
                    self.logs.pop_front();
                }
                self.logs.push_back(line);
                proof {
                    assert(line_views(self.logs@) =~= logged(before, line@));
                }
                AppAction::Nothing
            },
            StationCmd::Spawn { id, modules, start_pos } => {
                let ghost before = robot_views(self.robots@);
                let robot = Robot::new(id, start_pos, copy_modules(&modules));
                self.robots.push(robot);
                proof {
                    assert(robot_views(self.robots@) =~= before.push(
                        RobotView::fresh(id, start_pos, modules@),
                    ));
                }
                AppAction::Forward(StationCmd::Spawn { id, modules, start_pos })
            },
            StationCmd::Snapshot { id, version, diff } => {
                let ghost before = robot_views(self.robots@);
                self.master_version = version;
                diff.apply(&mut self.map);
                let i = find_robot(&self.robots, id as usize);
                if i < self.robots.len() {
                    diff.apply_to_known_map(&mut self.robots[i].known_map);
                }
                proof {
                    assert(robot_views(self.robots@) =~= taught(before, id as usize, diff@));
                }
                AppAction::Forward(StationCmd::Snapshot { id, version, diff })
            },
            StationCmd::Version(version) => {
                self.master_version = version;
                AppAction::Nothing
            },
            StationCmd::ResourceUpdate { energy, mineral } => {
                self.collected_energy += energy;
                self.collected_mineral += mineral;
                AppAction::Nothing
            },
            StationCmd::Shutdown => AppAction::Stop,
        }
    }

    /// Starts the next tick and says its number.
    pub fn begin_tick(&mut self) -> (tick: u64)
        requires
            old(self).tick_count < u64::MAX,
        ensures
            final(self)@ == (AppView { tick_count: tick, ..old(self)@ }),
            tick == old(self).tick_count + 1,
            final(self).robots_scroll == old(self).robots_scroll,
            final(self).logs_scroll == old(self).logs_scroll,
    {
        self.tick_count += 1;
        self.tick_count
    }

    /// Takes over the positions that the coordinator reports at the end of
    /// a tick, each for the first robot with its id.
    pub fn update_positions(&mut self, positions: &[(usize, (usize, usize))])
        ensures
            final(self)@ == (AppView {
                robots: relocated(old(self)@.robots, positions@),
                ..old(self)@
            }),
            final(self).robots_scroll == old(self).robots_scroll,
            final(self).logs_scroll == old(self).logs_scroll,
    {
        let ghost before = self@;
        let mut k: usize = 0;
        while k < positions.len()
            invariant
                k <= positions.len(),
                self@ == (AppView {
                    robots: relocated(before.robots, positions@.take(k as int)),
                    ..before
                }),
                self.robots_scroll == old(self).robots_scroll,
                self.logs_scroll == old(self).logs_scroll,
            decreases positions.len() - k,
        {
            let (id, position) = positions[k];
            let ghost earlier = robot_views(self.robots@);
            let i = find_robot(&self.robots, id);
            if i < self.robots.len() {
                self.robots[i].position = position;
            }
            proof {
                assert(positions@.take(k + 1).drop_last() =~= positions@.take(k as int));
                assert(robot_views(self.robots@) =~= placed(earlier, id, position));
            }
            k += 1;
        }
        proof {
            assert(positions@.take(positions.len() as int) =~= positions@);
        }
    }

    /// Whether the simulation is over: after the tick limit, or once it was
    /// stopped.
    pub fn is_over(&self, stopped: bool) -> (over: bool)
        ensures
            over == self@.is_over(stopped),
    {
        self.tick_count > TICK_LIMIT || stopped
    }
}

} // verus!
