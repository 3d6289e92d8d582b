//! Collections keyed by grid coordinates: what a robot knows of the grid, and
//! the set of cells that are off-limits for a move.
//!
//! Both hash their coordinates as one integer, row and column side by side.

use crate::map::{is_snapshot_of, DiffRecord, MapDiff, Tile};
use std::collections::{HashMap, HashSet};
use vstd::prelude::*;
use vstd::relations::injective_on;
use vstd::set_lib::lemma_map_size;
use vstd::std_specs::hash::{group_hash_axioms, spec_hash_keys_iter, spec_hash_map_iter};
use vstd::std_specs::iter::IteratorSpec;

verus! {

broadcast use group_hash_axioms;

/// The column occupies the low 64 bits of a key, the row the bits above.
const ROW_UNIT: u128 = 0x1_0000_0000_0000_0000;

/// The integer under which a coordinate is stored.
spec fn key_of(coord: (usize, usize)) -> u128 {
    (coord.0 * ROW_UNIT + coord.1) as u128
}

/// The coordinate that a key stands for.
spec fn coord_of(key: u128) -> (usize, usize) {
    ((key / ROW_UNIT) as usize, (key % ROW_UNIT) as usize)
}

/// Keys that stand for a coordinate.
spec fn is_key(key: u128) -> bool {
    key / ROW_UNIT <= usize::MAX && key % ROW_UNIT <= usize::MAX
}

/// A coordinate's key stands for that coordinate.
proof fn lemma_key_roundtrip(coord: (usize, usize))
    ensures
        is_key(key_of(coord)),
        coord_of(key_of(coord)) == coord,
{
    let k = coord.0 * ROW_UNIT + coord.1;
    assert(0 <= k < 0x1_0000_0000_0000_0000_0000_0000_0000_0000);
    assert(k / (ROW_UNIT as int) == coord.0 && k % (ROW_UNIT as int) == coord.1) by {
        assert(coord.1 < ROW_UNIT);
        vstd::arithmetic::div_mod::lemma_fundamental_div_mod_converse(
            k,
            ROW_UNIT as int,
            coord.0 as int,
            coord.1 as int,
        );
    }
}

/// A key that stands for a coordinate is that coordinate's key.
proof fn lemma_coord_roundtrip(key: u128)
    requires
        is_key(key),
    ensures
        key_of(coord_of(key)) == key,
{
    vstd::arithmetic::div_mod::lemma_fundamental_div_mod(key as int, ROW_UNIT as int);
}

/// The key of a coordinate.
fn encode(coord: (usize, usize)) -> (key: u128)
    ensures
        key == key_of(coord),
        is_key(key),
        coord_of(key) == coord,
{
    proof {
        lemma_key_roundtrip(coord);
    }
    (coord.0 as u128) * ROW_UNIT + (coord.1 as u128)
}

/// The coordinate of a key.
fn decode(key: u128) -> (coord: (usize, usize))
    requires
        is_key(key),
    ensures
        coord == coord_of(key),
        key_of(coord) == key,
{
    proof {
        lemma_coord_roundtrip(key);
    }
    ((key / ROW_UNIT) as usize, (key % ROW_UNIT) as usize)
}

/// The coordinates that a set of keys stands for.
spec fn coords_of(keys: Set<u128>) -> Set<(usize, usize)> {
    Set::new(|c: (usize, usize)| keys.contains(key_of(c)))
}

/// Keys and the coordinates they stand for are as many.
proof fn lemma_coords_of_len(keys: Set<u128>)
    requires
        keys.finite(),
        forall|k: u128| keys.contains(k) ==> is_key(k),
    ensures
        coords_of(keys).finite(),
        coords_of(keys).len() == keys.len(),
{
    let f = |k: u128| coord_of(k);
    assert(injective_on(f, keys)) by {
        assert forall|a: u128, b: u128|
            keys.contains(a) && keys.contains(b) && #[trigger] f(a) == #[trigger] f(b) implies a
            == b by {
            lemma_coord_roundtrip(a);
            lemma_coord_roundtrip(b);
        }
    }
    assert(keys.map(f) =~= coords_of(keys)) by {
        assert forall|c: (usize, usize)| keys.map(f).contains(c) implies coords_of(keys).contains(
            c,
        ) by {
            let k = choose|k: u128| keys.contains(k) && f(k) == c;
            lemma_coord_roundtrip(k);
        }
        assert forall|c: (usize, usize)| coords_of(keys).contains(c) implies keys.map(f).contains(
            c,
        ) by {
            lemma_key_roundtrip(c);
            assert(keys.contains(key_of(c)) && f(key_of(c)) == c);
        }
    }
    lemma_map_size(keys, coords_of(keys), f);
}

/// As many records as known cells, all at known cells and no two at one
/// cell: then every known cell has its record.
proof fn lemma_distinct_cover(records: Seq<DiffRecord>, known: Map<(usize, usize), Tile>)
    requires
        known.dom().finite(),
        records.len() == known.dom().len(),
        forall|i: int| 0 <= i < records.len() ==> known.contains_key((#[trigger] records[i]).0),
        forall|i: int, j: int|
            0 <= i < j < records.len() ==> (#[trigger] records[i]).0 != (#[trigger] records[j]).0,
    ensures
        forall|c: (usize, usize)|
            known.contains_key(c) ==> exists|i: int|
                0 <= i < records.len() && (#[trigger] records[i]).0 == c,
{
    let coords = records.map_values(|r: DiffRecord| r.0);
    assert(coords.no_duplicates()) by {
        assert forall|i: int, j: int|
            0 <= i < coords.len() && 0 <= j < coords.len() && i != j implies coords[i]
            != coords[j] by {
            if i < j {
                assert(records[i].0 != records[j].0);
            } else {
                assert(records[j].0 != records[i].0);
            }
        }
    }
    coords.unique_seq_to_set();
    broadcast use vstd::seq_lib::seq_to_set_is_finite;
    assert(coords.to_set().subset_of(known.dom())) by {
        assert forall|c: (usize, usize)| coords.to_set().contains(c) implies known.dom().contains(
            c,
        ) by {
            let i = choose|i: int| 0 <= i < coords.len() && coords[i] == c;
            assert(known.contains_key(records[i].0));
        }
    }
    vstd::set_lib::lemma_subset_equality(coords.to_set(), known.dom());
    assert forall|c: (usize, usize)| known.contains_key(c) implies exists|i: int|
        0 <= i < records.len() && (#[trigger] records[i]).0 == c by {
        assert(coords.to_set().contains(c));
        let i = choose|i: int| 0 <= i < coords.len() && coords[i] == c;
        assert(records[i].0 == c);
    }
}

/// A partial picture of the grid: the tiles seen so far, by coordinate.
#[derive(Debug, PartialEq)]
pub struct KnownMap {
    cells: HashMap<u128, Tile>,
}

impl View for KnownMap {
    type V = Map<(usize, usize), Tile>;

    closed spec fn view(&self) -> Map<(usize, usize), Tile> {
        Map::new(
            |c: (usize, usize)| self.cells@.contains_key(key_of(c)),
            |c: (usize, usize)| self.cells@[key_of(c)],
        )
    }
}

impl Clone for KnownMap {
    fn clone(&self) -> (copy: KnownMap)
        ensures
            copy@ == self@,
    {
        proof {
            use_type_invariant(self);
        }
        KnownMap { cells: self.cells.clone() }
    }
}

impl KnownMap {
    #[verifier::type_invariant]
    spec fn keys_stand_for_coords(&self) -> bool {
        forall|k: u128| self.cells@.contains_key(k) ==> is_key(k)
    }

    /// A picture with nothing seen yet.
    pub fn new() -> (known: KnownMap)
        ensures
            known@ == Map::<(usize, usize), Tile>::empty(),
    {
        let known = KnownMap { cells: HashMap::new() };
        assert(known@ =~= Map::<(usize, usize), Tile>::empty());
        known
    }

    /// How many cells have been seen.
    pub fn len(&self) -> (n: usize)
        ensures
            self@.dom().finite(),
            n == self@.len(),
    {
        proof {
            use_type_invariant(self);
            lemma_coords_of_len(self.cells@.dom());
            assert(self@.dom() =~= coords_of(self.cells@.dom()));
        }
        self.cells.len()
    }

    /// Whether nothing has been seen yet.
    pub fn is_empty(&self) -> (b: bool)
        ensures
            b == (self@ == Map::<(usize, usize), Tile>::empty()),
    {
        let n = self.len();
        proof {
            if n == 0 {
                assert(self@.dom() =~= Set::empty());
                assert(self@ =~= Map::<(usize, usize), Tile>::empty());
            }
        }
        n == 0
    }

    /// Records the tile seen at a coordinate, replacing what was known there.
    pub fn insert(&mut self, coord: (usize, usize), tile: Tile)
        ensures
            final(self)@ == old(self)@.insert(coord, tile),
    {
        proof {
            use_type_invariant(&*self);
        }
        let key = encode(coord);
        let mut cells: HashMap<u128, Tile> = HashMap::new();
        core::mem::swap(&mut self.cells, &mut cells);
        cells.insert(key, tile);
        core::mem::swap(&mut self.cells, &mut cells);
        proof {
            assert forall|c: (usize, usize)| key_of(c) == key implies c == coord by {
                lemma_key_roundtrip(c);
            }
            assert(self@ =~= old(self)@.insert(coord, tile));
        }
    }

    /// The tile known at a coordinate, if the cell has been seen.
    pub fn get(&self, coord: &(usize, usize)) -> (tile: Option<&Tile>)
        ensures
            match tile {
                Some(t) => self@.contains_key(*coord) && *t == self@[*coord],
                None => !self@.contains_key(*coord),
            },
    {
        let key = encode(*coord);
        self.cells.get(&key)
    }

    /// One record for every known cell: its coordinate, nothing seen before,
    /// and the tile known there. The records come in no particular order.
    pub fn snapshot(&self) -> (diff: MapDiff)
        ensures
            is_snapshot_of(diff@, self@),
    {
        proof {
            use_type_invariant(self);
        }
        let mut records: Vec<DiffRecord> = Vec::new();
        proof {
            lemma_coords_of_len(self.cells@.dom());
            assert(self@.dom() =~= coords_of(self.cells@.dom()));
            assert forall|a: u128, b: u128|
                is_key(a) && is_key(b) && #[trigger] coord_of(a) == #[trigger] coord_of(
                    b,
                ) implies a == b by {
                lemma_coord_roundtrip(a);
                lemma_coord_roundtrip(b);
            }
        }
        for entry in it: self.cells.iter()
            invariant
                forall|k: u128| self.cells@.contains_key(k) ==> is_key(k),
                forall|a: u128, b: u128|
                    is_key(a) && is_key(b) && #[trigger] coord_of(a) == #[trigger] coord_of(b)
                        ==> a == b,
                it.seq() == spec_hash_map_iter(&self.cells).remaining(),
                it.seq().no_duplicates(),
                records@.len() == it.index(),
                self@.dom().len() == self.cells@.dom().len(),
                it.seq().len() == self.cells@.dom().len(),
                forall|j: int|
                    0 <= j < records@.len() ==> (#[trigger] records@[j]).0 == coord_of(
                        *it.seq()[j].0,
                    ),
                forall|j: int|
                    0 <= j < records@.len() ==> {
                        &&& self@.contains_key((#[trigger] records@[j]).0)
                        &&& records@[j].1 is None
                        &&& records@[j].2 == self@[records@[j].0]
                    },
                forall|i: int, j: int|
                    0 <= i < j < records@.len() ==> (#[trigger] records@[i]).0 != (
                    #[trigger] records@[j]).0,
        {
            let (key, tile) = entry;
            assert(self.cells@.contains_key(*key) && self.cells@[*key] == *tile);
            assert forall|i: int| 0 <= i < it.index() implies *(#[trigger] it.seq()[i]).0
                != *key by {
                assert(self.cells@.contains_key(*it.seq()[i].0));
                assert(self.cells@[*it.seq()[i].0] == *it.seq()[i].1);
                assert(it.seq()[i] != it.seq()[it.index()]);
            }
            let coord = decode(*key);
            records.push((coord, None, *tile));
        }
        proof {
            lemma_distinct_cover(records@, self@);
        }
        MapDiff(records)
    }

    /// Whether the cell at a coordinate has been seen.
    pub fn contains_key(&self, coord: &(usize, usize)) -> (b: bool)
        ensures
            b == self@.contains_key(*coord),
    {
        let key = encode(*coord);
        self.cells.contains_key(&key)
    }
}

/// A set of grid coordinates.
#[derive(Debug, PartialEq, Eq)]
pub struct CoordSet {
    cells: HashSet<u128>,
}

impl View for CoordSet {
    type V = Set<(usize, usize)>;

    closed spec fn view(&self) -> Set<(usize, usize)> {
        coords_of(self.cells@)
    }
}

impl Clone for CoordSet {
    fn clone(&self) -> (copy: CoordSet)
        ensures
            copy@ == self@,
    {
        proof {
            use_type_invariant(self);
        }
        let mut cells: HashSet<u128> = HashSet::new();
        for key in it: self.cells.iter()
            invariant
                it.seq().unref().to_set() == self.cells@,
                cells@ == it.seq().unref().take(it.index()).to_set(),
                it.index() == it.seq().len() ==> cells@ == self.cells@,
        {
            cells.insert(*key);
            assert(it.seq().unref().take(it.index() + 1) =~= it.seq().unref().take(
                it.index(),
            ).push(*key));
            assert(it.seq().unref().take(it.index()).push(*key).to_set() =~= it.seq().unref().take(
                it.index(),
            ).to_set().insert(*key)) by {
                it.seq().unref().take(it.index()).lemma_push_to_set_commute(*key);
            }
            assert(it.index() + 1 == it.seq().len() ==> it.seq().unref().take(it.index() + 1)
                =~= it.seq().unref());
        }
        CoordSet { cells }
    }
}

impl CoordSet {
    #[verifier::type_invariant]
    spec fn keys_stand_for_coords(&self) -> bool {
        forall|k: u128| self.cells@.contains(k) ==> is_key(k)
    }

    /// The empty set.
    pub fn new() -> (set: CoordSet)
        ensures
            set@ == Set::<(usize, usize)>::empty(),
    {
        let set = CoordSet { cells: HashSet::new() };
        assert(set@ =~= Set::<(usize, usize)>::empty());
        set
    }

    /// How many coordinates the set holds.
    pub fn len(&self) -> (n: usize)
        ensures
            self@.finite(),
            n == self@.len(),
    {
        proof {
            use_type_invariant(self);
            assert(self.cells@.finite()) by {
                broadcast use vstd::seq_lib::seq_to_set_is_finite;
                assert(spec_hash_keys_iter(&self.cells).remaining().unref().to_set()
                    == self.cells@);
            }
            lemma_coords_of_len(self.cells@);
        }
        self.cells.len()
    }

    /// Whether the set holds nothing.
    pub fn is_empty(&self) -> (b: bool)
        ensures
            b == (self@ == Set::<(usize, usize)>::empty()),
    {
        let n = self.len();
        proof {
            if n == 0 {
                assert(self@ =~= Set::empty());
            }
        }
        n == 0
    }

    /// Adds a coordinate; says whether it was new.
    pub fn insert(&mut self, coord: (usize, usize)) -> (fresh: bool)
        ensures
            final(self)@ == old(self)@.insert(coord),
            fresh == !old(self)@.contains(coord),
    {
        proof {
            use_type_invariant(&*self);
        }
        let key = encode(coord);
        let mut cells: HashSet<u128> = HashSet::new();
        core::mem::swap(&mut self.cells, &mut cells);
        let fresh = cells.insert(key);
        core::mem::swap(&mut self.cells, &mut cells);
        proof {
            assert forall|c: (usize, usize)| key_of(c) == key implies c == coord by {
                lemma_key_roundtrip(c);
            }
            assert(self@ =~= old(self)@.insert(coord));
        }
        fresh
    }

    /// Whether the set holds a coordinate.
    pub fn contains(&self, coord: &(usize, usize)) -> (b: bool)
        ensures
            b == self@.contains(*coord),
    {
        let key = encode(*coord);
        self.cells.contains(&key)
    }
}

} // verus!
