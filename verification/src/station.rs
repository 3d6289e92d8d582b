//! The station: the authoritative merge of robot reports into one master
//! picture of the grid, and the policy that grows the robot population.

use crate::known::{CoordSet, KnownMap};
use crate::map::{is_snapshot_of, last_write, learn, DiffRecord, MapDiff, Tile};
use crate::robot::RobotModule;
use vstd::prelude::*;

verus! {

/// Energy that the station pays for a new robot.
pub const SPAWN_ENERGY_COST: u32 = 10;

/// Minerals that the station pays for a new robot.
pub const SPAWN_MINERAL_COST: u32 = 10;

/// The id that the station gives to the first robot it spawns.
pub const FIRST_SPAWNED_ID: usize = 3;

/// What a robot hands to the station: the cell changes it saw or caused and
/// the resources it collected, stamped with the tick it was made at.
#[derive(Debug, Clone)]
pub struct RobotReport {
    pub robot_id: usize,
    pub tick: u64,
    pub map_diff: MapDiff,
    pub energy: u32,
    pub mineral: u32,
}

/// The mathematical model of a [`RobotReport`].
pub struct ReportView {
    pub robot_id: usize,
    pub tick: u64,
    pub diff: Seq<DiffRecord>,
    pub energy: u32,
    pub mineral: u32,
}

impl View for RobotReport {
    type V = ReportView;

    open spec fn view(&self) -> ReportView {
        ReportView {
            robot_id: self.robot_id,
            tick: self.tick,
            diff: self.map_diff@,
            energy: self.energy,
            mineral: self.mineral,
        }
    }
}

/// The models of a sequence of reports, in the same order.
pub open spec fn report_views(reports: Seq<RobotReport>) -> Seq<ReportView> {
    reports.map_values(|r: RobotReport| r@)
}

/// What the station tells the rest of the system.
#[derive(Debug)]
#[allow(inconsistent_fields)]
pub enum StationCmd {
    Log(String),
    Spawn { id: usize, modules: Vec<RobotModule>, start_pos: (usize, usize) },
    Snapshot { id: u32, version: u64, diff: MapDiff },
    Shutdown,
    Version(u64),
    ResourceUpdate { energy: u32, mineral: u32 },
}

/// The mathematical model of a [`StationCmd`].
#[allow(inconsistent_fields)]
pub enum CmdView {
    Log(Seq<char>),
    Spawn { id: usize, modules: Seq<RobotModule>, start_pos: (usize, usize) },
    Snapshot { id: u32, version: u64, diff: Seq<DiffRecord> },
    Shutdown,
    Version(u64),
    ResourceUpdate { energy: u32, mineral: u32 },
}

impl View for StationCmd {
    type V = CmdView;

    open spec fn view(&self) -> CmdView {
        match *self {
            StationCmd::Log(line) => CmdView::Log(line@),
            StationCmd::Spawn { id, modules, start_pos } => CmdView::Spawn {
                id,
                modules: modules@,
                start_pos,
            },
            StationCmd::Snapshot { id, version, diff } => CmdView::Snapshot {
                id,
                version,
                diff: diff@,
            },
            StationCmd::Shutdown => CmdView::Shutdown,
            StationCmd::Version(v) => CmdView::Version(v),
            StationCmd::ResourceUpdate { energy, mineral } => CmdView::ResourceUpdate {
                energy,
                mineral,
            },
        }
    }
}

/// The models of a sequence of commands, in the same order.
pub open spec fn cmd_views(cmds: Seq<StationCmd>) -> Seq<CmdView> {
    cmds.map_values(|c: StationCmd| c@)
}

/// The lowest tick among some reports.
pub open spec fn min_tick(reports: Seq<ReportView>) -> u64
    recommends
        reports.len() > 0,
    decreases reports.len(),
{
    if reports.len() <= 1 {
        reports[0].tick
    } else {
        let lowest = min_tick(reports.drop_last());
        if reports.last().tick < lowest {
            reports.last().tick
        } else {
            lowest
        }
    }
}

/// The reports stamped with `tick`, in arrival order.
pub open spec fn with_tick(reports: Seq<ReportView>, tick: u64) -> Seq<ReportView>
    decreases reports.len(),
{
    if reports.len() == 0 {
        reports
    } else if reports.last().tick == tick {
        with_tick(reports.drop_last(), tick).push(reports.last())
    } else {
        with_tick(reports.drop_last(), tick)
    }
}

/// The reports not stamped with `tick`, in arrival order.
pub open spec fn without_tick(reports: Seq<ReportView>, tick: u64) -> Seq<ReportView>
    decreases reports.len(),
{
    if reports.len() == 0 {
        reports
    } else if reports.last().tick != tick {
        without_tick(reports.drop_last(), tick).push(reports.last())
    } else {
        without_tick(reports.drop_last(), tick)
    }
}

/// The energy that some reports carry, all together.
pub open spec fn total_energy(reports: Seq<ReportView>) -> nat
    decreases reports.len(),
{
    if reports.len() == 0 {
        0
    } else {
        total_energy(reports.drop_last()) + reports.last().energy as nat
    }
}

/// The minerals that some reports carry, all together.
pub open spec fn total_mineral(reports: Seq<ReportView>) -> nat
    decreases reports.len(),
{
    if reports.len() == 0 {
        0
    } else {
        total_mineral(reports.drop_last()) + reports.last().mineral as nat
    }
}

/// The tile that a batch of reports settles on at `coord`: the last report in
/// arrival order that touches the cell decides, by its last record there.
/// This is the last write that the cell sees when the records of the batch
/// are replayed report after report, each in record order.
pub open spec fn winner(batch: Seq<ReportView>, coord: (usize, usize)) -> Option<Tile>
    decreases batch.len(),
{
    if batch.len() == 0 {
        None
    } else {
        match last_write(batch.last().diff, coord) {
            Some(tile) => Some(tile),
            None => winner(batch.drop_last(), coord),
        }
    }
}

/// The tile that a batch settles on at a cell it touches.
pub open spec fn settled(batch: Seq<ReportView>, coord: (usize, usize)) -> Tile {
    match winner(batch, coord) {
        Some(tile) => tile,
        None => Tile::Empty,
    }
}

/// Every record of a batch, report after report in arrival order.
pub open spec fn all_records(batch: Seq<ReportView>) -> Seq<DiffRecord>
    decreases batch.len(),
{
    if batch.len() == 0 {
        Seq::empty()
    } else {
        all_records(batch.drop_last()) + batch.last().diff
    }
}

/// The coordinates that some records touch, each once, in the order in which
/// they are first touched.
pub open spec fn first_touches(records: Seq<DiffRecord>) -> Seq<(usize, usize)>
    decreases records.len(),
{
    if records.len() == 0 {
        Seq::empty()
    } else {
        let before = first_touches(records.drop_last());
        if before.contains(records.last().0) {
            before
        } else {
            before.push(records.last().0)
        }
    }
}

/// The compact diff of a batch: one record for each cell that the batch
/// touches, in the order in which the cells are first touched, holding the
/// tile that the batch settles on.
pub open spec fn compact(batch: Seq<ReportView>) -> Seq<DiffRecord> {
    first_touches(all_records(batch)).map_values(
        |c: (usize, usize)| (c, None::<Tile>, settled(batch, c)),
    )
}

/// Where the robot with a given id starts.
pub open spec fn start_position(id: usize) -> (usize, usize) {
    if id % 4 == 0 {
        (0, 0)
    } else if id % 4 == 1 {
        (1, 1)
    } else if id % 4 == 2 {
        (2, 0)
    } else {
        (0, 2)
    }
}

/// The equipment of a spawned robot.
pub open spec fn full_equipment() -> Seq<RobotModule> {
    seq![
        RobotModule::Explorer,
        RobotModule::Collector,
        RobotModule::Scanner,
        RobotModule::Sensor,
    ]
}

/// The character that stands for a decimal digit.
pub open spec fn digit(d: nat) -> char {
    if d == 0 {
        '0'
    } else if d == 1 {
        '1'
    } else if d == 2 {
        '2'
    } else if d == 3 {
        '3'
    } else if d == 4 {
        '4'
    } else if d == 5 {
        '5'
    } else if d == 6 {
        '6'
    } else if d == 7 {
        '7'
    } else if d == 8 {
        '8'
    } else {
        '9'
    }
}

/// A number written in decimal digits, without sign, padding or grouping.
pub open spec fn decimal(n: nat) -> Seq<char>
    decreases n,
{
    if n < 10 {
        seq![digit(n)]
    } else {
        decimal(n / 10).push(digit(n % 10))
    }
}

/// The text of the log line that a merge pass emits: how many reports were
/// merged, their tick, and the stocks after the merge.
pub open spec fn merge_log_text(count: usize, tick: u64, energy: u32, mineral: u32) -> Seq<char> {
    "Merged "@ + decimal(count as nat) + " diffs (tick "@ + decimal(tick as nat)
        + ") | stocks "@ + decimal(energy as nat) + "E "@ + decimal(mineral as nat) + "M"@
}

/// The text of the log line that a spawn emits: the new robot's id and its
/// start position.
pub open spec fn spawn_log_text(id: usize, row: usize, col: usize) -> Seq<char> {
    "Spawned robot "@ + decimal(id as nat) + " at ("@ + decimal(row as nat) + ", "@ + decimal(
        col as nat,
    ) + ")"@
}

/// Formats the log line of a merge pass with std's `format!`. The contract
/// claims what `format!` documents: the fixed words of the format string in
/// their order, and in place of each `{}` the number written by `Display`,
/// which for the unsigned integers is its decimal digits.
#[verifier::external_body]
fn merge_log_line(count: usize, tick: u64, energy: u32, mineral: u32) -> (line: String)
    ensures
        line@ == merge_log_text(count, tick, energy, mineral),
{
    format!("Merged {} diffs (tick {}) | stocks {}E {}M", count, tick, energy, mineral)
}

/// Formats the log line of a spawn with std's `format!`. The contract
/// claims what `format!` documents: the fixed words of the format string in
/// their order, and in place of each `{}` the number written by `Display`,
/// which for the unsigned integers is its decimal digits.
#[verifier::external_body]
fn spawn_log_line(id: usize, row: usize, col: usize) -> (line: String)
    ensures
        line@ == spawn_log_text(id, row, col),
{
    format!("Spawned robot {} at ({}, {})", id, row, col)
}

/// The log line of a merge pass begins with the word "Merged".
pub proof fn lemma_merge_line_says_merged(count: usize, tick: u64, energy: u32, mineral: u32)
    ensures
        merge_log_text(count, tick, energy, mineral).len() >= 6,
        merge_log_text(count, tick, energy, mineral).subrange(0, 6) == "Merged"@,
{
    reveal_strlit("Merged ");
    reveal_strlit("Merged");
    let text = merge_log_text(count, tick, energy, mineral);
    assert(text.subrange(0, 6) =~= "Merged"@);
}

/// What a batch of reports settles on, cell by cell.
pub open spec fn winners_of(batch: Seq<ReportView>) -> Map<(usize, usize), Tile> {
    Map::new(|c: (usize, usize)| winner(batch, c) is Some, |c: (usize, usize)| winner(batch, c)->0)
}

/// `base` with the last write of `records` laid over it, cell by cell.
spec fn overlay(base: Map<(usize, usize), Tile>, records: Seq<DiffRecord>) -> Map<
    (usize, usize),
    Tile,
> {
    Map::new(
        |c: (usize, usize)| last_write(records, c) is Some || base.contains_key(c),
        |c: (usize, usize)|
            if last_write(records, c) is Some {
                last_write(records, c)->0
            } else {
                base[c]
            },
    )
}

/// The lowest tick among some reports.
fn lowest_tick(reports: &Vec<RobotReport>) -> (tick: u64)
    requires
        reports.len() > 0,
    ensures
        tick == min_tick(report_views(reports@)),
{
    let ghost views = report_views(reports@);
    let mut tick = reports[0].tick;
    let mut i: usize = 1;
    assert(views.take(1).len() == 1);
    while i < reports.len()
        invariant
            1 <= i <= reports.len(),
            views == report_views(reports@),
            tick == min_tick(views.take(i as int)),
        decreases reports.len() - i,
    {
        proof {
            assert(views.take(i + 1).drop_last() =~= views.take(i as int));
        }
        if reports[i].tick < tick {
            tick = reports[i].tick;
        }
        i += 1;
    }
    proof {
        assert(views.take(reports.len() as int) =~= views);
    }
    tick
}

/// The same reports, last first.
fn reversed(reports: Vec<RobotReport>) -> (turned: Vec<RobotReport>)
    ensures
        turned@.len() == reports@.len(),
        forall|i: int| 0 <= i < turned@.len() ==> turned@[i] == reports@[reports@.len() - 1 - i],
{
    let mut source = reports;
    let mut turned: Vec<RobotReport> = Vec::new();
    while source.len() > 0
        invariant
            source@.len() + turned@.len() == reports@.len(),
            forall|i: int| 0 <= i < source@.len() ==> source@[i] == reports@[i],
            forall|i: int|
                0 <= i < turned@.len() ==> turned@[i] == reports@[reports@.len() - 1 - i],
        decreases source.len(),
    {
        match source.pop() {
            Some(report) => {
                turned.push(report);
            },
            None => {},
        }
    }
    turned
}

/// Parts the reports stamped with `tick` from the others; both keep their
/// arrival order.
fn split_by_tick(reports: Vec<RobotReport>, tick: u64) -> (parts: (
    Vec<RobotReport>,
    Vec<RobotReport>,
))
    ensures
        report_views(parts.0@) == with_tick(report_views(reports@), tick),
        report_views(parts.1@) == without_tick(report_views(reports@), tick),
{
    let ghost views = report_views(reports@);
    let ghost n = reports@.len();
    let mut source = reversed(reports);
    let mut same: Vec<RobotReport> = Vec::new();
    let mut others: Vec<RobotReport> = Vec::new();
    while source.len() > 0
        invariant
            source@.len() <= n,
            n == views.len(),
            forall|i: int| 0 <= i < source@.len() ==> (#[trigger] source@[i])@ == views[n - 1 - i],
            report_views(same@) =~= with_tick(views.take(n - source@.len()), tick),
            report_views(others@) =~= without_tick(views.take(n - source@.len()), tick),
        decreases source.len(),
    {
        let ghost k = n - source@.len();
        proof {
            assert(views.take(k + 1).drop_last() =~= views.take(k));
            assert(source@[source@.len() - 1]@ == views[k]);
        }
        match source.pop() {
            Some(report) => {
                if report.tick == tick {
                    same.push(report);
                } else {
                    others.push(report);
                }
            },
            None => {},
        }
    }
    proof {
        assert(views.take(n as int) =~= views);
    }
    (same, others)
}

/// The tile that a batch settles on, for every cell it touches.
fn settle(batch: &Vec<RobotReport>) -> (winners: KnownMap)
    ensures
        winners@ == winners_of(report_views(batch@)),
{
    let ghost views = report_views(batch@);
    let mut winners = KnownMap::new();
    let mut k: usize = 0;
    assert(winners@ =~= winners_of(views.take(0)));
    while k < batch.len()
        invariant
            k <= batch.len(),
            views == report_views(batch@),
            winners@ == winners_of(views.take(k as int)),
        decreases batch.len() - k,
    {
        let records = &batch[k].map_diff.0;
        let ghost base = winners@;
        let mut j: usize = 0;
        assert(winners@ =~= overlay(base, records@.take(0)));
        while j < records.len()
            invariant
                j <= records.len(),
                winners@ == overlay(base, records@.take(j as int)),
            decreases records.len() - j,
        {
            let (coord, _before, after) = records[j];
            winners.insert(coord, after);
            proof {
                assert(records@.take(j + 1).drop_last() =~= records@.take(j as int));
                assert(winners@ =~= overlay(base, records@.take(j + 1)));
            }
            j += 1;
        }
        proof {
            assert(records@.take(records.len() as int) =~= records@);
            assert(views.take(k + 1).drop_last() =~= views.take(k as int));
            assert(views.take(k + 1).last().diff == records@);
            assert(winners@ =~= winners_of(views.take(k + 1)));
        }
        k += 1;
    }
    proof {
        assert(views.take(batch.len() as int) =~= views);
    }
    winners
}

/// The cells that a batch touches, each once, in the order in which they are
/// first touched.
fn touched_in_order(batch: &Vec<RobotReport>) -> (order: Vec<(usize, usize)>)
    ensures
        order@ == first_touches(all_records(report_views(batch@))),
{
    let ghost views = report_views(batch@);
    let mut order: Vec<(usize, usize)> = Vec::new();
    let mut seen = CoordSet::new();
    let mut k: usize = 0;
    assert(order@.to_set() =~= seen@);
    while k < batch.len()
        invariant
            k <= batch.len(),
            views == report_views(batch@),
            order@ == first_touches(all_records(views.take(k as int))),
            seen@ == order@.to_set(),
        decreases batch.len() - k,
    {
        let records = &batch[k].map_diff.0;
        let ghost before = all_records(views.take(k as int));
        let mut j: usize = 0;
        assert(before + records@.take(0) =~= before);
        while j < records.len()
            invariant
                j <= records.len(),
                order@ == first_touches(before + records@.take(j as int)),
                seen@ == order@.to_set(),
            decreases records.len() - j,
        {
            let (coord, _before, _after) = records[j];
            let ghost earlier = order@;
            let fresh = seen.insert(coord);
            if fresh {
                order.push(coord);
            }
            proof {
                let grown = before + records@.take(j + 1);
                assert(grown.drop_last() =~= before + records@.take(j as int));
                assert(grown.last() == records@[j as int]);
                assert(fresh == !earlier.contains(coord));
                if fresh {
                    earlier.lemma_push_to_set_commute(coord);
                } else {
                    assert(seen@ =~= earlier.to_set());
                }
            }
            j += 1;
        }
        proof {
            assert(records@.take(records.len() as int) =~= records@);
            assert(views.take(k + 1).drop_last() =~= views.take(k as int));
            assert(views.take(k + 1).last().diff == records@);
        }
        k += 1;
    }
    proof {
        assert(views.take(batch.len() as int) =~= views);
    }
    order
}

/// The compact diff of a batch.
fn compact_diff(batch: &Vec<RobotReport>) -> (diff: MapDiff)
    ensures
        diff@ == compact(report_views(batch@)),
{
    let ghost views = report_views(batch@);
    let winners = settle(batch);
    let order = touched_in_order(batch);
    let mut records: Vec<DiffRecord> = Vec::new();
    let mut i: usize = 0;
    while i < order.len()
        invariant
            i <= order.len(),
            winners@ == winners_of(views),
            records@.len() == i,
            forall|j: int|
                0 <= j < i ==> records@[j] == (order@[j], None::<Tile>, settled(views, order@[j])),
        decreases order.len() - i,
    {
        let coord = order[i];
        let tile = match winners.get(&coord) {
            Some(t) => *t,
            None => Tile::Empty,
        };
        records.push((coord, None, tile));
        i += 1;
    }
    proof {
        assert(records@ =~= compact(views));
    }
    MapDiff(records)
}

/// The energy and the minerals that a batch carries.
fn batch_totals(batch: &Vec<RobotReport>) -> (totals: (u32, u32))
    requires
        total_energy(report_views(batch@)) <= u32::MAX,
        total_mineral(report_views(batch@)) <= u32::MAX,
    ensures
        totals.0 == total_energy(report_views(batch@)),
        totals.1 == total_mineral(report_views(batch@)),
{
    let ghost views = report_views(batch@);
    let mut energy: u32 = 0;
    let mut mineral: u32 = 0;
    let mut i: usize = 0;
    while i < batch.len()
        invariant
            i <= batch.len(),
            views == report_views(batch@),
            total_energy(views) <= u32::MAX,
            total_mineral(views) <= u32::MAX,
            energy == total_energy(views.take(i as int)),
            mineral == total_mineral(views.take(i as int)),
        decreases batch.len() - i,
    {
        proof {
            assert(views.take(i + 1).drop_last() =~= views.take(i as int));
            lemma_totals_of_prefix(views, i + 1);
        }
        energy += batch[i].energy;
        mineral += batch[i].mineral;
        i += 1;
    }
    proof {
        assert(views.take(batch.len() as int) =~= views);
    }
    (energy, mineral)
}

/// The first reports of a sequence carry no more than all of them.
pub proof fn lemma_totals_of_prefix(reports: Seq<ReportView>, n: int)
    requires
        0 <= n <= reports.len(),
    ensures
        total_energy(reports.take(n)) <= total_energy(reports),
        total_mineral(reports.take(n)) <= total_mineral(reports),
    decreases reports.len(),
{
    if n == reports.len() {
        assert(reports.take(n) =~= reports);
    } else {
        assert(reports.take(n) =~= reports.drop_last().take(n));
        lemma_totals_of_prefix(reports.drop_last(), n);
    }
}

/// The station: the master picture of the grid, the resource stock, the
/// reports that wait for their merge pass, and the counters for robot ids
/// and map versions.
pub struct Station {
    master_map: KnownMap,
    pending: Vec<RobotReport>,
    energy_stock: u32,
    mineral_stock: u32,
    next_robot_id: usize,
    map_version: u64,
}

/// The mathematical model of a [`Station`].
pub struct StationView {
    pub master: Map<(usize, usize), Tile>,
    pub pending: Seq<ReportView>,
    pub energy_stock: u32,
    pub mineral_stock: u32,
    pub next_robot_id: usize,
    pub map_version: u64,
}

impl StationView {
    /// A station that has heard nothing yet.
    pub open spec fn initial() -> StationView {
        StationView {
            master: Map::empty(),
            pending: Seq::empty(),
            energy_stock: 0,
            mineral_stock: 0,
            next_robot_id: FIRST_SPAWNED_ID,
            map_version: 0,
        }
    }

    /// The station with one more report waiting.
    pub open spec fn received(self, report: ReportView) -> StationView {
        StationView { pending: self.pending.push(report), ..self }
    }

    /// The reports that the next merge pass takes: those with the lowest
    /// tick, in arrival order.
    pub open spec fn batch(self) -> Seq<ReportView> {
        with_tick(self.pending, min_tick(self.pending))
    }

    /// The counters have room for the next merge pass.
    pub open spec fn can_merge(self) -> bool {
        self.pending.len() > 0 ==> {
            &&& self.energy_stock + total_energy(self.batch()) <= u32::MAX
            &&& self.mineral_stock + total_mineral(self.batch()) <= u32::MAX
            &&& self.map_version < u64::MAX
        }
    }

    /// The station after one merge pass. With nothing waiting, nothing
    /// changes. Otherwise the batch leaves the waiting reports, the master
    /// picture learns the batch's compact diff, the stocks grow by what the
    /// batch carries, and the map version goes up by one.
    pub open spec fn merged(self) -> StationView {
        if self.pending.len() == 0 {
            self
        } else {
            StationView {
                master: learn(self.master, compact(self.batch())),
                pending: without_tick(self.pending, min_tick(self.pending)),
                energy_stock: (self.energy_stock + total_energy(self.batch())) as u32,
                mineral_stock: (self.mineral_stock + total_mineral(self.batch())) as u32,
                next_robot_id: self.next_robot_id,
                map_version: (self.map_version + 1) as u64,
            }
        }
    }

    /// What one merge pass emits, in order: the resources gained, if any;
    /// the compact diff under the version it was merged at, if any cell
    /// changed; a log line; the new map version.
    pub open spec fn merge_commands(self) -> Seq<CmdView> {
        if self.pending.len() == 0 {
            Seq::empty()
        } else {
            let batch = self.batch();
            let after = self.merged();
            let gained = if total_energy(batch) > 0 || total_mineral(batch) > 0 {
                seq![
                    CmdView::ResourceUpdate {
                        energy: total_energy(batch) as u32,
                        mineral: total_mineral(batch) as u32,
                    },
                ]
            } else {
                Seq::empty()
            };
            let changed = if compact(batch).len() > 0 {
                seq![CmdView::Snapshot { id: 0, version: self.map_version, diff: compact(batch) }]
            } else {
                Seq::empty()
            };
            gained + changed + seq![
                CmdView::Log(
                    merge_log_text(
                        batch.len() as usize,
                        min_tick(self.pending),
                        after.energy_stock,
                        after.mineral_stock,
                    ),
                ),
                CmdView::Version(after.map_version),
            ]
        }
    }

    /// The stock pays for a new robot.
    pub open spec fn wants_spawn(self) -> bool {
        self.energy_stock >= SPAWN_ENERGY_COST && self.mineral_stock >= SPAWN_MINERAL_COST
    }

    /// The id counter has room for the spawn that the stock pays for.
    pub open spec fn can_spawn(self) -> bool {
        self.wants_spawn() ==> self.next_robot_id < usize::MAX
    }

    /// The station after its spawn decision: where the stock pays for a
    /// robot, the cost leaves the stock and the next id is taken.
    pub open spec fn spawned(self) -> StationView {
        if self.wants_spawn() {
            StationView {
                energy_stock: (self.energy_stock - SPAWN_ENERGY_COST) as u32,
                mineral_stock: (self.mineral_stock - SPAWN_MINERAL_COST) as u32,
                next_robot_id: (self.next_robot_id + 1) as usize,
                ..self
            }
        } else {
            self
        }
    }

    /// `cmds` is what a spawn decision may emit. Without a spawn, nothing.
    /// With one: the spawn of a fully equipped robot under the next id at
    /// that id's start position; a snapshot of the whole master picture for
    /// it, under the current version; and a log line.
    pub open spec fn spawn_commands_ok(self, cmds: Seq<CmdView>) -> bool {
        if self.wants_spawn() {
            let id = self.next_robot_id;
            &&& cmds.len() == 3
            &&& cmds[0] == CmdView::Spawn {
                id,
                modules: full_equipment(),
                start_pos: start_position(id),
            }
            &&& cmds[1] matches CmdView::Snapshot { id: to, version, diff }
            &&& to == (id as int) % 0x1_0000_0000
            &&& version == self.map_version
            &&& is_snapshot_of(diff, self.master)
            &&& cmds[2] == CmdView::Log(
                spawn_log_text(id, start_position(id).0, start_position(id).1),
            )
        } else {
            cmds.len() == 0
        }
    }

    /// The counters have room for taking in `report`, merging and spawning.
    pub open spec fn can_handle(self, report: ReportView) -> bool {
        self.received(report).can_merge() && self.received(report).merged().can_spawn()
    }
}

impl View for Station {
    type V = StationView;

    closed spec fn view(&self) -> StationView {
        StationView {
            master: self.master_map@,
            pending: report_views(self.pending@),
            energy_stock: self.energy_stock,
            mineral_stock: self.mineral_stock,
            next_robot_id: self.next_robot_id,
            map_version: self.map_version,
        }
    }
}

impl Station {
    /// A station that has heard nothing yet.
    pub fn new() -> (station: Station)
        ensures
            station@ == StationView::initial(),
    {
        let station = Station {
            master_map: KnownMap::new(),
            pending: Vec::new(),
            energy_stock: 0,
            mineral_stock: 0,
            next_robot_id: FIRST_SPAWNED_ID,
            map_version: 0,
        };
        assert(report_views(station.pending@) =~= Seq::empty());
        station
    }

    /// The energy in stock.
    pub fn energy_stock(&self) -> (n: u32)
        ensures
            n == self@.energy_stock,
    {
        self.energy_stock
    }

    /// The minerals in stock.
    pub fn mineral_stock(&self) -> (n: u32)
        ensures
            n == self@.mineral_stock,
    {
        self.mineral_stock
    }

    /// The id that the next spawned robot gets.
    pub fn next_robot_id(&self) -> (id: usize)
        ensures
            id == self@.next_robot_id,
    {
        self.next_robot_id
    }

    /// How many merge passes have changed the master picture's version.
    pub fn map_version(&self) -> (version: u64)
        ensures
            version == self@.map_version,
    {
        self.map_version
    }

    /// How many reports wait for their merge pass.
    pub fn pending_len(&self) -> (n: usize)
        ensures
            n == self@.pending.len(),
    {
        self.pending.len()
    }

    /// The master picture of the grid.
    pub fn master_map(&self) -> (known: &KnownMap)
        ensures
            known@ == self@.master,
    {
        &self.master_map
    }

    /// Takes a report in; it waits for its merge pass.
    pub fn receive(&mut self, report: RobotReport)
        ensures
            final(self)@ == old(self)@.received(report@),
    {
        self.pending.push(report);
        assert(report_views(self.pending@) =~= report_views(old(self).pending@).push(report@));
    }

    /// One merge pass: merges the waiting reports with the lowest tick into
    /// the master picture, and says what to tell the rest of the system.
    pub fn merge_pending_diffs(&mut self) -> (cmds: Vec<StationCmd>)
        requires
            old(self)@.can_merge(),
        ensures
            final(self)@ == old(self)@.merged(),
            cmd_views(cmds@) == old(self)@.merge_commands(),
    {
        let mut cmds: Vec<StationCmd> = Vec::new();
        if self.pending.len() == 0 {
            assert(cmd_views(cmds@) =~= Seq::empty());
            return cmds;
        }
        let ghost before = self@;
        let tick = lowest_tick(&self.pending);
        let mut waiting: Vec<RobotReport> = Vec::new();
        core::mem::swap(&mut self.pending, &mut waiting);
        let (batch, rest) = split_by_tick(waiting, tick);
        self.pending = rest;
        let (energy, mineral) = batch_totals(&batch);
        let diff = compact_diff(&batch);
        diff.apply_to_known_map(&mut self.master_map);
        self.energy_stock += energy;
        self.mineral_stock += mineral;
        if energy > 0 || mineral > 0 {
            cmds.push(StationCmd::ResourceUpdate { energy, mineral });
        }
        let version = self.map_version;
        self.map_version += 1;
        let line = merge_log_line(batch.len(), tick, self.energy_stock, self.mineral_stock);
        if diff.0.len() > 0 {
            cmds.push(StationCmd::Snapshot { id: 0, version, diff });
        }
        cmds.push(StationCmd::Log(line));
        cmds.push(StationCmd::Version(self.map_version));
        proof {
            assert(self@ == before.merged());
            assert(cmd_views(cmds@) =~= before.merge_commands());
        }
        cmds
    }

    /// The spawn decision: where the stock pays for a new robot, pays, takes
    /// the next id, and says what to tell the rest of the system.
    pub fn spawn_if_affordable(&mut self) -> (cmds: Vec<StationCmd>)
        requires
            old(self)@.can_spawn(),
        ensures
            final(self)@ == old(self)@.spawned(),
            old(self)@.spawn_commands_ok(cmd_views(cmds@)),
    {
        let mut cmds: Vec<StationCmd> = Vec::new();
        if self.energy_stock >= SPAWN_ENERGY_COST && self.mineral_stock >= SPAWN_MINERAL_COST {
            self.energy_stock -= SPAWN_ENERGY_COST;
            self.mineral_stock -= SPAWN_MINERAL_COST;
            let id = self.next_robot_id;
            self.next_robot_id += 1;
            let start_pos = start_of(id);
            let mut modules: Vec<RobotModule> = Vec::new();
            modules.push(RobotModule::Explorer);
            modules.push(RobotModule::Collector);
            modules.push(RobotModule::Scanner);
            modules.push(RobotModule::Sensor);
            assert(modules@ =~= full_equipment());
            cmds.push(StationCmd::Spawn { id, modules, start_pos });
            let to = ((id as u64) % 0x1_0000_0000) as u32;
            let diff = self.master_map.snapshot();
            cmds.push(StationCmd::Snapshot { id: to, version: self.map_version, diff });
            cmds.push(StationCmd::Log(spawn_log_line(id, start_pos.0, start_pos.1)));
        }
        cmds
    }

    /// Takes a report in, runs one merge pass and the spawn decision, and
    /// says what to tell the rest of the system: first what the merge pass
    /// emits, then what the spawn decision emits.
    pub fn handle_report(&mut self, report: RobotReport) -> (cmds: Vec<StationCmd>)
        requires
            old(self)@.can_handle(report@),
        ensures
            final(self)@ == old(self)@.received(report@).merged().spawned(),
            ({
                let taken = old(self)@.received(report@);
                let emitted = cmd_views(cmds@);
                let merge_part = taken.merge_commands();
                &&& merge_part.len() <= emitted.len()
                &&& emitted.take(merge_part.len() as int) == merge_part
                &&& taken.merged().spawn_commands_ok(emitted.skip(merge_part.len() as int))
            }),
    {
        self.receive(report);
        let mut cmds = self.merge_pending_diffs();
        let ghost merge_part = cmd_views(cmds@);
        let mut spawn_part = self.spawn_if_affordable();
        let ghost tail = cmd_views(spawn_part@);
        cmds.append(&mut spawn_part);
        proof {
            let emitted = cmd_views(cmds@);
            assert(emitted =~= merge_part + tail);
            assert(emitted.take(merge_part.len() as int) =~= merge_part);
            assert(emitted.skip(merge_part.len() as int) =~= tail);
        }
        cmds
    }
}

/// Where the robot with a given id starts.
fn start_of(id: usize) -> (pos: (usize, usize))
    ensures
        pos == start_position(id),
{
    let r = id % 4;
    if r == 0 {
        (0, 0)
    } else if r == 1 {
        (1, 1)
    } else if r == 2 {
        (2, 0)
    } else {
        (0, 2)
    }
}

/// Some record of `records` is at `coord`.
pub open spec fn touches(records: Seq<DiffRecord>, coord: (usize, usize)) -> bool {
    exists|i: int| 0 <= i < records.len() && (#[trigger] records[i]).0 == coord
}

/// Records put one after the other touch what either part touches.
pub proof fn lemma_touches_concat(
    first: Seq<DiffRecord>,
    second: Seq<DiffRecord>,
    coord: (usize, usize),
)
    ensures
        touches(first + second, coord) <==> touches(first, coord) || touches(second, coord),
{
    let both = first + second;
    if touches(first, coord) {
        let i = choose|i: int| 0 <= i < first.len() && (#[trigger] first[i]).0 == coord;
        assert(both[i] == first[i]);
    }
    if touches(second, coord) {
        let i = choose|i: int| 0 <= i < second.len() && (#[trigger] second[i]).0 == coord;
        assert(both[first.len() + i] == second[i]);
    }
    if touches(both, coord) {
        let i = choose|i: int| 0 <= i < both.len() && (#[trigger] both[i]).0 == coord;
        if i < first.len() {
            assert(first[i] == both[i]);
        } else {
            assert(second[i - first.len()] == both[i]);
        }
    }
}

/// A batch settles a cell exactly when one of its records touches the cell.
pub proof fn lemma_winner_touches(batch: Seq<ReportView>, coord: (usize, usize))
    ensures
        winner(batch, coord) is Some <==> touches(all_records(batch), coord),
    decreases batch.len(),
{
    if batch.len() > 0 {
        lemma_winner_touches(batch.drop_last(), coord);
        crate::map::lemma_last_write_index(batch.last().diff, coord);
        lemma_touches_concat(all_records(batch.drop_last()), batch.last().diff, coord);
    } else {
        assert(!touches(all_records(batch), coord));
    }
}

/// The order of first touches names every touched cell, and each once.
pub proof fn lemma_first_touches(records: Seq<DiffRecord>, coord: (usize, usize))
    ensures
        first_touches(records).no_duplicates(),
        first_touches(records).contains(coord) <==> touches(records, coord),
    decreases records.len(),
{
    if records.len() > 0 {
        let shorter = records.drop_last();
        let before = first_touches(shorter);
        lemma_first_touches(shorter, coord);
        lemma_first_touches(shorter, records.last().0);
        let after = first_touches(records);
        if touches(shorter, coord) {
            let i = choose|i: int| 0 <= i < shorter.len() && (#[trigger] shorter[i]).0 == coord;
            assert(records[i] == shorter[i]);
        }
        if touches(records, coord) && records.last().0 != coord {
            let i = choose|i: int| 0 <= i < records.len() && (#[trigger] records[i]).0 == coord;
            assert(shorter[i] == records[i]);
        }
        if records.last().0 == coord {
            assert(records[records.len() - 1].0 == coord);
        }
        if before.contains(records.last().0) {
        } else {
            assert(after == before.push(records.last().0));
            assert(after[before.len() as int] == records.last().0);
            if before.contains(coord) {
                let i = choose|i: int| 0 <= i < before.len() && before[i] == coord;
                assert(after[i] == coord);
            }
            if after.contains(coord) && records.last().0 != coord {
                let i = choose|i: int| 0 <= i < after.len() && after[i] == coord;
                assert(before[i] == coord);
            }
        }
    } else {
        assert(!touches(records, coord));
    }
}

/// After a merge pass the master picture knows a cell if it knew it before or
/// the batch touches it. A touched cell holds what the batch settles on; any
/// other cell holds what it held.
pub proof fn lemma_merge_settles(
    master: Map<(usize, usize), Tile>,
    batch: Seq<ReportView>,
    coord: (usize, usize),
)
    ensures
        learn(master, compact(batch)).contains_key(coord) <==> master.contains_key(coord)
            || winner(batch, coord) is Some,
        winner(batch, coord) is Some ==> learn(master, compact(batch))[coord] == winner(
            batch,
            coord,
        )->0,
        winner(batch, coord) is None && master.contains_key(coord) ==> learn(
            master,
            compact(batch),
        )[coord] == master[coord],
{
    let order = first_touches(all_records(batch));
    let records = compact(batch);
    crate::map::lemma_learn_get(master, records, coord);
    crate::map::lemma_last_write_index(records, coord);
    lemma_first_touches(all_records(batch), coord);
    lemma_winner_touches(batch, coord);
    if order.contains(coord) {
        let i = choose|i: int| 0 <= i < order.len() && order[i] == coord;
        assert(records[i].0 == coord);
    }
    if last_write(records, coord) is Some {
        let i = choose|i: int|
            {
                &&& 0 <= i < records.len()
                &&& (#[trigger] records[i]).0 == coord
                &&& last_write(records, coord) == Some(records[i].2)
                &&& forall|j: int| i < j < records.len() ==> (#[trigger] records[j]).0 != coord
            };
        assert(order[i] == coord);
    }
}

/// The last write of records put one after the other is the last write of
/// the second part where that part touches the cell, else that of the first.
pub proof fn lemma_last_write_concat(
    first: Seq<DiffRecord>,
    second: Seq<DiffRecord>,
    coord: (usize, usize),
)
    ensures
        last_write(first + second, coord) == match last_write(second, coord) {
            Some(tile) => Some(tile),
            None => last_write(first, coord),
        },
    decreases second.len(),
{
    if second.len() == 0 {
        assert(first + second =~= first);
    } else {
        assert((first + second).drop_last() =~= first + second.drop_last());
        assert((first + second).last() == second.last());
        lemma_last_write_concat(first, second.drop_last(), coord);
    }
}

/// What a batch settles on at a cell is the last write at that cell among
/// all its records, taken report after report in arrival order.
pub proof fn lemma_winner_is_last_write(batch: Seq<ReportView>, coord: (usize, usize))
    ensures
        winner(batch, coord) == last_write(all_records(batch), coord),
    decreases batch.len(),
{
    if batch.len() > 0 {
        lemma_winner_is_last_write(batch.drop_last(), coord);
        lemma_last_write_concat(all_records(batch.drop_last()), batch.last().diff, coord);
    }
}

/// A merge pass is a replay in arrival order: the master picture after it is
/// what it was with every record of the batch learned, report after report
/// in arrival order and each report in record order.
pub proof fn lemma_merge_learns_in_order(master: Map<(usize, usize), Tile>, batch: Seq<ReportView>)
    ensures
        learn(master, compact(batch)) == learn(master, all_records(batch)),
{
    let merged = learn(master, compact(batch));
    let replayed = learn(master, all_records(batch));
    assert forall|c: (usize, usize)| merged.contains_key(c) <==> replayed.contains_key(c) by {
        lemma_merge_settles(master, batch, c);
        lemma_winner_is_last_write(batch, c);
        crate::map::lemma_learn_get(master, all_records(batch), c);
    }
    assert forall|c: (usize, usize)| merged.contains_key(c) implies merged[c] == replayed[c] by {
        lemma_merge_settles(master, batch, c);
        lemma_winner_is_last_write(batch, c);
        crate::map::lemma_learn_get(master, all_records(batch), c);
    }
    assert(merged =~= replayed);
}

/// Last arrival wins: where a report of a batch touches a cell and no report
/// that arrived after it does, the batch settles on what that report wrote
/// there last.
pub proof fn lemma_last_arrival_wins(batch: Seq<ReportView>, arrival: int, coord: (usize, usize))
    requires
        0 <= arrival < batch.len(),
        touches(batch[arrival].diff, coord),
        forall|later: int|
            arrival < later < batch.len() ==> !touches((#[trigger] batch[later]).diff, coord),
    ensures
        winner(batch, coord) == last_write(batch[arrival].diff, coord),
        winner(batch, coord) is Some,
    decreases batch.len(),
{
    crate::map::lemma_last_write_index(batch.last().diff, coord);
    if arrival == batch.len() - 1 {
    } else {
        let shorter = batch.drop_last();
        assert(!touches(batch[batch.len() - 1].diff, coord));
        assert(shorter[arrival] == batch[arrival]);
        assert forall|later: int| arrival < later < shorter.len() implies !touches(
            (#[trigger] shorter[later]).diff,
            coord,
        ) by {
            assert(shorter[later] == batch[later]);
        }
        lemma_last_arrival_wins(shorter, arrival, coord);
    }
}

/// Of two waiting reports of one tick that both write a cell, the one that
/// arrived second decides what the master picture holds there after the
/// merge pass, whatever the robots' ids and whatever the tiles.
pub proof fn lemma_second_report_decides(
    station: StationView,
    first: ReportView,
    second: ReportView,
    coord: (usize, usize),
)
    requires
        station.pending == seq![first, second],
        first.tick == second.tick,
        touches(first.diff, coord),
        touches(second.diff, coord),
    ensures
        station.merged().master.contains_key(coord),
        Some(station.merged().master[coord]) == last_write(second.diff, coord),
{
    let pending = station.pending;
    assert(pending.drop_last() =~= seq![first]);
    assert(pending.drop_last().drop_last() =~= Seq::<ReportView>::empty());
    assert(min_tick(pending.drop_last()) == first.tick);
    assert(min_tick(pending) == first.tick);
    let tick = first.tick;
    assert(with_tick(pending.drop_last().drop_last(), tick) =~= Seq::<ReportView>::empty());
    assert(with_tick(pending.drop_last(), tick) =~= seq![first]);
    assert(with_tick(pending, tick) =~= pending);
    lemma_last_arrival_wins(pending, 1, coord);
    lemma_merge_settles(station.master, pending, coord);
}

/// A merge pass takes the lowest tick: every report that still waits after
/// it is stamped with a later tick.
pub proof fn lemma_merge_takes_lowest_tick(reports: Seq<ReportView>, i: int)
    requires
        reports.len() > 0,
        0 <= i < without_tick(reports, min_tick(reports)).len(),
    ensures
        without_tick(reports, min_tick(reports))[i].tick > min_tick(reports),
{
    let tick = min_tick(reports);
    lemma_without_tick_members(reports, tick, i);
    let j = choose|j: int|
        0 <= j < reports.len() && reports[j] == without_tick(reports, tick)[i];
    lemma_min_tick_is_lowest(reports, j);
}

/// No report is stamped with less than the lowest tick.
pub proof fn lemma_min_tick_is_lowest(reports: Seq<ReportView>, i: int)
    requires
        0 <= i < reports.len(),
    ensures
        min_tick(reports) <= reports[i].tick,
    decreases reports.len(),
{
    if reports.len() > 1 {
        if i < reports.len() - 1 {
            lemma_min_tick_is_lowest(reports.drop_last(), i);
        }
    }
}

/// What is left when a tick's reports are taken out are reports of the
/// sequence, stamped with another tick.
pub proof fn lemma_without_tick_members(reports: Seq<ReportView>, tick: u64, i: int)
    requires
        0 <= i < without_tick(reports, tick).len(),
    ensures
        without_tick(reports, tick)[i].tick != tick,
        exists|j: int| 0 <= j < reports.len() && reports[j] == without_tick(reports, tick)[i],
    decreases reports.len(),
{
    if reports.len() > 0 {
        let shorter = reports.drop_last();
        let kept = without_tick(shorter, tick);
        if i < kept.len() {
            lemma_without_tick_members(shorter, tick, i);
            let j = choose|j: int| 0 <= j < shorter.len() && shorter[j] == kept[i];
            assert(reports[j] == shorter[j]);
        } else {
            assert(reports[reports.len() - 1] == without_tick(reports, tick)[i]);
        }
    }
}

/// The reports of one tick among the first reports of a sequence carry no
/// more than those among all of them.
pub proof fn lemma_batch_of_prefix(reports: Seq<ReportView>, n: int, tick: u64)
    requires
        0 <= n <= reports.len(),
    ensures
        total_energy(with_tick(reports.take(n), tick)) <= total_energy(with_tick(reports, tick)),
        total_mineral(with_tick(reports.take(n), tick)) <= total_mineral(
            with_tick(reports, tick),
        ),
    decreases reports.len(),
{
    if n == reports.len() {
        assert(reports.take(n) =~= reports);
    } else {
        let shorter = reports.drop_last();
        assert(reports.take(n) =~= shorter.take(n));
        lemma_batch_of_prefix(shorter, n, tick);
        if reports.last().tick == tick {
            assert(with_tick(shorter, tick).push(reports.last()).drop_last() =~= with_tick(
                shorter,
                tick,
            ));
        }
    }
}

/// The stocks that a merge pass on `tick` would leave, given the stocks
/// before it; nothing where a stock would not fit its counter.
fn stocks_after(pending: &Vec<RobotReport>, tick: u64, energy: u32, mineral: u32) -> (stocks:
    Option<(u64, u64)>)
    ensures
        match stocks {
            Some((e, m)) => {
                &&& e == energy + total_energy(with_tick(report_views(pending@), tick))
                &&& m == mineral + total_mineral(with_tick(report_views(pending@), tick))
                &&& e <= u32::MAX
                &&& m <= u32::MAX
            },
            None => {
                ||| energy + total_energy(with_tick(report_views(pending@), tick)) > u32::MAX
                ||| mineral + total_mineral(with_tick(report_views(pending@), tick)) > u32::MAX
            },
        },
{
    let ghost views = report_views(pending@);
    let n = pending.len();
    let limit: u64 = 0xffff_ffff;
    let mut e: u64 = energy as u64;
    let mut m: u64 = mineral as u64;
    let mut i: usize = 0;
    proof {
        assert(views.take(0) =~= Seq::<ReportView>::empty());
    }
    while i < n
        invariant
            i <= n,
            n == pending.len(),
            views == report_views(pending@),
            limit == u32::MAX,
            e == energy + total_energy(with_tick(views.take(i as int), tick)),
            m == mineral + total_mineral(with_tick(views.take(i as int), tick)),
            e <= limit,
            m <= limit,
        decreases n - i,
    {
        proof {
            let grown = views.take(i + 1);
            assert(grown.drop_last() =~= views.take(i as int));
            assert(grown.last() == views[i as int]);
            if views[i as int].tick == tick {
                assert(with_tick(grown.drop_last(), tick).push(grown.last()).drop_last()
                    =~= with_tick(grown.drop_last(), tick));
            }
            lemma_batch_of_prefix(views, i + 1, tick);
        }
        if pending[i].tick == tick {
            e += pending[i].energy as u64;
            m += pending[i].mineral as u64;
            if e > limit || m > limit {
                return None;
            }
        }
        i += 1;
    }
    proof {
        assert(views.take(n as int) =~= views);
    }
    Some((e, m))
}

impl Station {
    /// Whether the counters have room for [`Station::merge_pending_diffs`]:
    /// the stocks for what the merge pass adds, and the map version for one
    /// more.
    pub fn can_merge(&self) -> (ok: bool)
        ensures
            ok == self@.can_merge(),
    {
        if self.pending.len() == 0 {
            return true;
        }
        let tick = lowest_tick(&self.pending);
        match stocks_after(&self.pending, tick, self.energy_stock, self.mineral_stock) {
            Some(_) => self.map_version < u64::MAX,
            None => false,
        }
    }

    /// Whether the counters have room for [`Station::spawn_if_affordable`]:
    /// the robot ids for the spawn that the stock may pay for.
    pub fn can_spawn(&self) -> (ok: bool)
        ensures
            ok == self@.can_spawn(),
    {
        !(self.energy_stock >= SPAWN_ENERGY_COST && self.mineral_stock >= SPAWN_MINERAL_COST)
            || self.next_robot_id < usize::MAX
    }

    /// Whether the counters have room for [`Station::handle_report`] on
    /// `report`: the stocks for what the merge pass adds, the map version for
    /// one more, and the robot ids for the spawn that the stock may pay for.
    pub fn can_handle(&self, report: &RobotReport) -> (ok: bool)
        ensures
            ok == self@.can_handle(report@),
    {
        let ghost views = report_views(self.pending@);
        let ghost taken = self@.received(report@);
        let tick = if self.pending.len() == 0 {
            report.tick
        } else {
            let lowest = lowest_tick(&self.pending);
            if report.tick < lowest {
                report.tick
            } else {
                lowest
            }
        };
        proof {
            assert(taken.pending.drop_last() =~= views);
            assert(taken.pending.last() == report@);
            assert(min_tick(taken.pending) == tick);
            if report.tick == tick {
                assert(with_tick(views, tick).push(report@).drop_last() =~= with_tick(
                    views,
                    tick,
                ));
            }
        }
        let limit: u64 = 0xffff_ffff;
        match stocks_after(&self.pending, tick, self.energy_stock, self.mineral_stock) {
            None => false,
            Some((waiting_energy, waiting_mineral)) => {
                let (energy, mineral) = if report.tick == tick {
                    (waiting_energy + report.energy as u64, waiting_mineral + report.mineral as u64)
                } else {
                    (waiting_energy, waiting_mineral)
                };
                if energy > limit || mineral > limit {
                    false
                } else if self.map_version == u64::MAX {
                    false
                } else {
                    !(energy >= SPAWN_ENERGY_COST as u64 && mineral >= SPAWN_MINERAL_COST as u64)
                        || self.next_robot_id < usize::MAX
                }
            },
        }
    }
}

/// No id is given out twice and no counter of the station runs backwards:
/// a merge pass leaves the next id alone, raises the map version by one and
/// lowers no stock; a spawn gives out the next id and raises it.
pub proof fn lemma_station_counters(station: StationView)
    requires
        station.can_merge(),
        station.can_spawn(),
    ensures
        station.merged().next_robot_id == station.next_robot_id,
        station.merged().energy_stock >= station.energy_stock,
        station.merged().mineral_stock >= station.mineral_stock,
        station.pending.len() > 0 ==> station.merged().map_version == station.map_version + 1,
        station.pending.len() == 0 ==> station.merged() == station,
        station.spawned().map_version == station.map_version,
        station.spawned().master == station.master,
        station.wants_spawn() ==> station.spawned().next_robot_id == station.next_robot_id + 1,
        station.wants_spawn() ==> station.spawned().energy_stock + SPAWN_ENERGY_COST
            == station.energy_stock,
        station.wants_spawn() ==> station.spawned().mineral_stock + SPAWN_MINERAL_COST
            == station.mineral_stock,
        !station.wants_spawn() ==> station.spawned() == station,
{
}

} // verus!
