//! The bounded grid of typed cells, and diffs that describe cell mutations
//! without re-transmitting the whole grid.

use crate::known::KnownMap;
use vstd::prelude::*;

verus! {

/// What a grid cell holds.
#[derive(Clone, Copy, Debug, PartialEq, Eq, Hash, Structural)]
pub enum Tile {
    Empty,
    Obstacle,
    Energy,
    Mineral,
    Science,
}

impl Tile {
    /// A tile that a robot can collect.
    pub open spec fn spec_is_resource(self) -> bool {
        self == Tile::Energy || self == Tile::Mineral
    }

    /// Whether a robot can collect this tile.
    #[verifier::when_used_as_spec(spec_is_resource)]
    pub fn is_resource(self) -> (b: bool)
        ensures
            b == self.spec_is_resource(),
    {
        match self {
            Tile::Energy => true,
            Tile::Mineral => true,
            _ => false,
        }
    }
}

/// One cell mutation: the coordinate, the tile seen before (informational
/// only) and the tile written.
pub type DiffRecord = ((usize, usize), Option<Tile>, Tile);

/// The mathematical model of a [`WorldMap`]: its rows and its declared width.
pub struct GridView {
    pub rows: Seq<Seq<Tile>>,
    pub cols: nat,
}

impl GridView {
    /// A coordinate is inside the grid when its row exists, its column is
    /// below the declared width, and the row really holds that column.
    pub open spec fn in_bounds(self, coord: (usize, usize)) -> bool {
        &&& coord.0 < self.rows.len()
        &&& coord.1 < self.cols
        &&& coord.1 < self.rows[coord.0 as int].len()
    }

    /// The tile at a coordinate, `None` outside the grid.
    pub open spec fn get(self, coord: (usize, usize)) -> Option<Tile> {
        if self.in_bounds(coord) {
            Some(self.rows[coord.0 as int][coord.1 as int])
        } else {
            None
        }
    }

    /// The grid with one cell overwritten; unchanged when the coordinate is
    /// outside the grid.
    pub open spec fn set(self, coord: (usize, usize), tile: Tile) -> GridView {
        if self.in_bounds(coord) {
            GridView {
                rows: self.rows.update(
                    coord.0 as int,
                    self.rows[coord.0 as int].update(coord.1 as int, tile),
                ),
                cols: self.cols,
            }
        } else {
            self
        }
    }

    /// Every row is exactly as wide as the declared width.
    pub open spec fn rectangular(self) -> bool {
        forall|r: int| 0 <= r < self.rows.len() ==> (#[trigger] self.rows[r]).len() == self.cols
    }

    /// Two grids have the same shape: as many rows, of the same lengths, and
    /// the same declared width.
    pub open spec fn same_shape(self, other: GridView) -> bool {
        &&& self.cols == other.cols
        &&& self.rows.len() == other.rows.len()
        &&& forall|r: int|
            0 <= r < self.rows.len() ==> (#[trigger] self.rows[r]).len() == other.rows[r].len()
    }
}

/// The bounded grid. `grid` holds the rows, `cols` the declared width.
#[derive(Debug, Clone)]
pub struct WorldMap {
    pub grid: Vec<Vec<Tile>>,
    pub cols: usize,
}

impl View for WorldMap {
    type V = GridView;

    open spec fn view(&self) -> GridView {
        GridView {
            rows: Seq::new(self.grid@.len(), |r: int| self.grid@[r]@),
            cols: self.cols as nat,
        }
    }
}

impl WorldMap {
    /// The number of rows.
    pub fn rows(&self) -> (n: usize)
        ensures
            n == self@.rows.len(),
    {
        self.grid.len()
    }

    /// Whether a coordinate lies inside the grid.
    pub fn in_bounds(&self, coord: (usize, usize)) -> (b: bool)
        ensures
            b == self@.in_bounds(coord),
    {
        coord.0 < self.grid.len() && coord.1 < self.cols && coord.1 < self.grid[coord.0].len()
    }

    /// Reads a cell. Outside the grid there is nothing to read.
    pub fn get(&self, coord: (usize, usize)) -> (tile: Option<Tile>)
        ensures
            tile == self@.get(coord),
    {
        if self.in_bounds(coord) {
            Some(self.grid[coord.0][coord.1])
        } else {
            None
        }
    }

    /// Overwrites a cell. Outside the grid nothing is written.
    pub fn set(&mut self, coord: (usize, usize), tile: Tile)
        ensures
            final(self)@ == old(self)@.set(coord, tile),
    {
        if self.in_bounds(coord) {
            self.grid[coord.0][coord.1] = tile;
            assert(self@.rows =~= old(self)@.set(coord, tile).rows);
        }
    }
}

/// The grid after replaying `records` in order: each record writes its new
/// tile at its coordinate; the tile recorded as seen before plays no part.
pub open spec fn replay(grid: GridView, records: Seq<DiffRecord>) -> GridView
    decreases records.len(),
{
    if records.len() == 0 {
        grid
    } else {
        replay(grid, records.drop_last()).set(records.last().0, records.last().2)
    }
}

/// The tile that the last record at `coord` writes, if any record touches it.
pub open spec fn last_write(records: Seq<DiffRecord>, coord: (usize, usize)) -> Option<Tile>
    decreases records.len(),
{
    if records.len() == 0 {
        None
    } else if records.last().0 == coord {
        Some(records.last().2)
    } else {
        last_write(records.drop_last(), coord)
    }
}

/// What is known after learning `records` in order: each record's new tile
/// replaces whatever was known at its coordinate.
pub open spec fn learn(
    known: Map<(usize, usize), Tile>,
    records: Seq<DiffRecord>,
) -> Map<(usize, usize), Tile>
    decreases records.len(),
{
    if records.len() == 0 {
        known
    } else {
        learn(known, records.drop_last()).insert(records.last().0, records.last().2)
    }
}

/// `records` hold one record for every known cell and no other: the cell's
/// coordinate, nothing seen before, and the tile known there.
pub open spec fn is_snapshot_of(records: Seq<DiffRecord>, known: Map<(usize, usize), Tile>) -> bool {
    &&& forall|i: int|
        0 <= i < records.len() ==> {
            &&& known.contains_key((#[trigger] records[i]).0)
            &&& records[i].1 is None
            &&& records[i].2 == known[records[i].0]
        }
    &&& forall|i: int, j: int|
        0 <= i < j < records.len() ==> (#[trigger] records[i]).0 != (#[trigger] records[j]).0
    &&& forall|c: (usize, usize)|
        known.contains_key(c) ==> exists|i: int|
            0 <= i < records.len() && (#[trigger] records[i]).0 == c
}

/// An ordered sequence of cell mutations.
#[derive(Debug, Clone, PartialEq)]
pub struct MapDiff(pub Vec<DiffRecord>);

impl View for MapDiff {
    type V = Seq<DiffRecord>;

    open spec fn view(&self) -> Seq<DiffRecord> {
        self.0@
    }
}

impl MapDiff {
    /// Replays every record's new tile onto `map`, in record order. Records
    /// outside the grid are skipped.
    pub fn apply(&self, map: &mut WorldMap)
        ensures
            final(map)@ == replay(old(map)@, self@),
    {
        let n = self.0.len();
        let mut i: usize = 0;
        while i < n
            invariant
                i <= n,
                n == self.0.len(),
                map@ == replay(old(map)@, self@.take(i as int)),
            decreases n - i,
        {
            let (coord, _before, after) = self.0[i];
            map.set(coord, after);
            proof {
                assert(self@.take(i + 1).drop_last() =~= self@.take(i as int));
            }
            i += 1;
        }
        proof {
            assert(self@.take(n as int) =~= self@);
        }
    }

    /// Records every new tile in a robot's picture of the grid, in record
    /// order. A picture has no bounds, so no record is skipped.
    pub fn apply_to_known_map(&self, known_map: &mut KnownMap)
        ensures
            final(known_map)@ == learn(old(known_map)@, self@),
    {
        let n = self.0.len();
        let mut i: usize = 0;
        while i < n
            invariant
                i <= n,
                n == self.0.len(),
                known_map@ == learn(old(known_map)@, self@.take(i as int)),
            decreases n - i,
        {
            let (coord, _before, after) = self.0[i];
            known_map.insert(coord, after);
            proof {
                assert(self@.take(i + 1).drop_last() =~= self@.take(i as int));
            }
            i += 1;
        }
        proof {
            assert(self@.take(n as int) =~= self@);
        }
    }

    /// Appends the records of `other` after this diff's own, keeping the
    /// order of both and every duplicate.
    pub fn merge(&mut self, other: MapDiff)
        ensures
            final(self)@ == old(self)@ + other@,
    {
        let mut other = other;
        self.0.append(&mut other.0);
    }
}

/// Reading outside the declared rows and columns finds nothing, and writing
/// there leaves the grid untouched.
pub proof fn lemma_outside_is_ignored(grid: GridView, coord: (usize, usize), tile: Tile)
    requires
        !(coord.0 < grid.rows.len() && coord.1 < grid.cols),
    ensures
        grid.get(coord) is None,
        grid.set(coord, tile) == grid,
{
}

/// A write changes the cell it names and no other, and keeps the shape.
pub proof fn lemma_set_get(grid: GridView, coord: (usize, usize), tile: Tile, at: (usize, usize))
    ensures
        grid.set(coord, tile).same_shape(grid),
        grid.set(coord, tile).in_bounds(at) == grid.in_bounds(at),
        grid.set(coord, tile).get(at) == if at == coord && grid.in_bounds(coord) {
            Some(tile)
        } else {
            grid.get(at)
        },
{
}

/// Replaying a diff keeps the shape of the grid; each cell then holds what
/// the last record at its coordinate wrote, or its old tile where no record
/// touched it.
pub proof fn lemma_replay_get(grid: GridView, records: Seq<DiffRecord>, at: (usize, usize))
    ensures
        replay(grid, records).same_shape(grid),
        replay(grid, records).in_bounds(at) == grid.in_bounds(at),
        replay(grid, records).get(at) == if grid.in_bounds(at) && last_write(records, at) is Some {
            last_write(records, at)
        } else {
            grid.get(at)
        },
    decreases records.len(),
{
    if records.len() > 0 {
        let before = replay(grid, records.drop_last());
        lemma_replay_get(grid, records.drop_last(), at);
        lemma_replay_get(grid, records.drop_last(), records.last().0);
        lemma_set_get(before, records.last().0, records.last().2, at);
        assert forall|r: int| 0 <= r < grid.rows.len() implies (#[trigger] replay(
            grid,
            records,
        ).rows[r]).len() == grid.rows[r].len() by {
            assert(before.rows[r].len() == grid.rows[r].len());
        }
    }
}

/// The shape of a grid is stable: replaying a diff adds no row and no
/// column and takes none away, and a rectangular grid stays rectangular.
pub proof fn lemma_shape_is_stable(grid: GridView, records: Seq<DiffRecord>)
    ensures
        replay(grid, records).same_shape(grid),
        grid.rectangular() ==> replay(grid, records).rectangular(),
{
    lemma_replay_get(grid, records, (0, 0));
}

/// What replaying a diff leaves in each place of each row: what the last
/// record at that place wrote, if the place is a cell of the grid and a
/// record touches it; else what was there.
pub proof fn lemma_replay_place(grid: GridView, records: Seq<DiffRecord>, row: int, col: int)
    requires
        0 <= row < grid.rows.len(),
        0 <= col < grid.rows[row].len(),
    ensures
        replay(grid, records).same_shape(grid),
        replay(grid, records).rows[row][col] == if row <= usize::MAX && col <= usize::MAX && col
            < grid.cols && last_write(records, (row as usize, col as usize)) is Some {
            last_write(records, (row as usize, col as usize))->0
        } else {
            grid.rows[row][col]
        },
    decreases records.len(),
{
    if records.len() > 0 {
        let before = replay(grid, records.drop_last());
        lemma_replay_place(grid, records.drop_last(), row, col);
        lemma_replay_get(grid, records.drop_last(), records.last().0);
        assert(before.rows[row].len() == grid.rows[row].len());
        assert forall|r: int| 0 <= r < grid.rows.len() implies (#[trigger] replay(
            grid,
            records,
        ).rows[r]).len() == grid.rows[r].len() by {
            assert(before.rows[r].len() == grid.rows[r].len());
        }
    }
}

/// Replaying a diff a second time changes nothing.
pub proof fn lemma_replay_idempotent(grid: GridView, records: Seq<DiffRecord>)
    ensures
        replay(replay(grid, records), records) == replay(grid, records),
{
    let once = replay(grid, records);
    let twice = replay(once, records);
    lemma_replay_get(grid, records, (0, 0));
    lemma_replay_get(once, records, (0, 0));
    assert forall|r: int| 0 <= r < once.rows.len() implies twice.rows[r] =~= once.rows[r] by {
        assert(once.rows[r].len() == grid.rows[r].len());
        assert(twice.rows[r].len() == once.rows[r].len());
        assert forall|c: int| 0 <= c < once.rows[r].len() implies twice.rows[r][c]
            == once.rows[r][c] by {
            lemma_replay_place(grid, records, r, c);
            lemma_replay_place(once, records, r, c);
        }
    }
    assert(twice.rows =~= once.rows);
}

/// Replaying the same diff onto two maps with the same contents gives two
/// maps with the same contents.
pub proof fn lemma_apply_deterministic(a: WorldMap, b: WorldMap, diff: MapDiff)
    requires
        a@ == b@,
    ensures
        replay(a@, diff@) == replay(b@, diff@),
{
}

/// After learning a diff, a cell is known if it was known before or a record
/// touches it; it holds what the last such record wrote, or what was known.
pub proof fn lemma_learn_get(
    known: Map<(usize, usize), Tile>,
    records: Seq<DiffRecord>,
    at: (usize, usize),
)
    ensures
        learn(known, records).contains_key(at) <==> known.contains_key(at) || last_write(
            records,
            at,
        ) is Some,
        learn(known, records).contains_key(at) ==> learn(known, records)[at] == if last_write(
            records,
            at,
        ) is Some {
            last_write(records, at)->0
        } else {
            known[at]
        },
    decreases records.len(),
{
    if records.len() > 0 {
        lemma_learn_get(known, records.drop_last(), at);
    }
}

/// Whoever starts with nothing and learns a snapshot of a picture knows
/// exactly that picture.
pub proof fn lemma_snapshot_restores(records: Seq<DiffRecord>, known: Map<(usize, usize), Tile>)
    requires
        is_snapshot_of(records, known),
    ensures
        learn(Map::empty(), records) == known,
{
    let learned = learn(Map::empty(), records);
    assert forall|c: (usize, usize)| learned.contains_key(c) <==> known.contains_key(c) by {
        lemma_learn_get(Map::empty(), records, c);
        lemma_last_write_index(records, c);
    }
    assert forall|c: (usize, usize)| learned.contains_key(c) implies learned[c] == known[c] by {
        lemma_learn_get(Map::empty(), records, c);
        lemma_last_write_index(records, c);
    }
    assert(learned =~= known);
}

/// A cell has a last write exactly when some record touches it; the write is
/// that of the last such record.
pub proof fn lemma_last_write_index(records: Seq<DiffRecord>, at: (usize, usize))
    ensures
        last_write(records, at) is Some <==> exists|i: int|
            0 <= i < records.len() && (#[trigger] records[i]).0 == at,
        last_write(records, at) is Some ==> exists|i: int|
            {
                &&& 0 <= i < records.len()
                &&& (#[trigger] records[i]).0 == at
                &&& last_write(records, at) == Some(records[i].2)
                &&& forall|j: int| i < j < records.len() ==> (#[trigger] records[j]).0 != at
            },
    decreases records.len(),
{
    if records.len() > 0 {
        let shorter = records.drop_last();
        lemma_last_write_index(shorter, at);
        if records.last().0 == at {
            let i = records.len() - 1;
            assert(records[i].0 == at);
        } else if last_write(shorter, at) is Some {
            let i = choose|i: int|
                {
                    &&& 0 <= i < shorter.len()
                    &&& (#[trigger] shorter[i]).0 == at
                    &&& last_write(shorter, at) == Some(shorter[i].2)
                    &&& forall|j: int| i < j < shorter.len() ==> (#[trigger] shorter[j]).0 != at
                };
            assert(records[i] == shorter[i]);
            assert forall|j: int| i < j < records.len() implies (#[trigger] records[j]).0
                != at by {
                if j < shorter.len() {
                    assert(records[j] == shorter[j]);
                }
            }
        } else {
            assert forall|i: int| 0 <= i < records.len() implies (#[trigger] records[i]).0
                != at by {
                if i < shorter.len() {
                    assert(records[i] == shorter[i]);
                }
            }
        }
    }
}

/// Replaying a merged diff is replaying the first diff and then the second.
pub proof fn lemma_replay_concat(grid: GridView, first: Seq<DiffRecord>, second: Seq<DiffRecord>)
    ensures
        replay(grid, first + second) == replay(replay(grid, first), second),
    decreases second.len(),
{
    if second.len() == 0 {
        assert(first + second =~= first);
    } else {
        lemma_replay_concat(grid, first, second.drop_last());
        assert((first + second).drop_last() =~= first + second.drop_last());
        assert((first + second).last() == second.last());
    }
}

} // verus!
