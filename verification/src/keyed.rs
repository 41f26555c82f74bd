use vstd::prelude::*;
use std::collections::{HashMap, HashSet};

use crate::cell::{Cell, GridPoint};

verus! {

broadcast use vstd::std_specs::hash::group_hash_axioms;

/// A grid point as one integer: the column in the upper 32 bits, the row in
/// the lower ones, both shifted to start at zero.
pub open spec fn point_key_spec(p: GridPoint) -> u64 {
    ((p.x - i32::MIN) * 0x1_0000_0000 + (p.y - i32::MIN)) as u64
}

/// A cell as one integer: its grid point above the lowest 32 bits, its zoom
/// level in them.
pub open spec fn cell_key_spec(c: Cell) -> u128 {
    (point_key_spec(c.coord) * 0x1_0000_0000 + c.z) as u128
}

proof fn lemma_point_key_injective(p: GridPoint, q: GridPoint)
    ensures
        point_key_spec(p) == point_key_spec(q) ==> p == q,
        0 <= (p.x - i32::MIN) * 0x1_0000_0000 + (p.y - i32::MIN) <= u64::MAX,
{
}

proof fn lemma_cell_key_injective(c: Cell, d: Cell)
    ensures
        cell_key_spec(c) == cell_key_spec(d) ==> c == d,
        0 <= point_key_spec(c.coord) * 0x1_0000_0000 + c.z <= u128::MAX,
{
    lemma_point_key_injective(c.coord, d.coord);
}

fn point_key(p: GridPoint) -> (k: u64)
    ensures
        k == point_key_spec(p),
{
    proof {
        lemma_point_key_injective(p, p);
    }
    let a = (p.x as i64 - i32::MIN as i64) as u64;
    let b = (p.y as i64 - i32::MIN as i64) as u64;
    a * 0x1_0000_0000 + b
}

fn cell_key(c: Cell) -> (k: u128)
    ensures
        k == cell_key_spec(c),
{
    proof {
        lemma_cell_key_injective(c, c);
    }
    point_key(c.coord) as u128 * 0x1_0000_0000 + c.z as u128
}

/// A set of cells kept in a hash set of their keys.
pub struct CellSet {
    keys: HashSet<u128>,
}

impl CellSet {
    pub closed spec fn view(&self) -> Set<Cell> {
        Set::new(|c: Cell| self.keys@.contains(cell_key_spec(c)))
    }

    pub fn new() -> (s: Self)
        ensures
            s.view() == Set::<Cell>::empty(),
    {
        let s = CellSet { keys: HashSet::new() };
        assert(s.view() =~= Set::<Cell>::empty());
        s
    }

    pub fn contains(&self, c: Cell) -> (r: bool)
        ensures
            r == self.view().contains(c),
    {
        self.keys.contains(&cell_key(c))
    }

    pub fn insert(&mut self, c: Cell)
        ensures
            final(self).view() == old(self).view().insert(c),
    {
        let k = cell_key(c);
        self.keys.insert(k);
        proof {
            assert forall|d: Cell| #[trigger] final(self).view().contains(d) == old(self).view().insert(c).contains(d) by {
                lemma_cell_key_injective(c, d);
            }
            assert(final(self).view() =~= old(self).view().insert(c));
        }
    }
}

/// A set of grid points kept in a hash set of their keys.
pub struct PointSet {
    keys: HashSet<u64>,
}

impl PointSet {
    pub closed spec fn view(&self) -> Set<GridPoint> {
        Set::new(|p: GridPoint| self.keys@.contains(point_key_spec(p)))
    }

    pub fn new() -> (s: Self)
        ensures
            s.view() == Set::<GridPoint>::empty(),
    {
        let s = PointSet { keys: HashSet::new() };
        assert(s.view() =~= Set::<GridPoint>::empty());
        s
    }

    pub fn contains(&self, p: GridPoint) -> (r: bool)
        ensures
            r == self.view().contains(p),
    {
        self.keys.contains(&point_key(p))
    }

    pub fn insert(&mut self, p: GridPoint)
        ensures
            final(self).view() == old(self).view().insert(p),
    {
        let k = point_key(p);
        self.keys.insert(k);
        proof {
            assert forall|q: GridPoint| #[trigger] final(self).view().contains(q) == old(self).view().insert(p).contains(q) by {
                lemma_point_key_injective(p, q);
            }
            assert(final(self).view() =~= old(self).view().insert(p));
        }
    }
}

/// A map from cells to positions, kept in a hash map keyed by the cells' keys.
pub struct CellIndex {
    positions: HashMap<u128, usize>,
}

impl CellIndex {
    pub closed spec fn view(&self) -> Map<Cell, usize> {
        Map::new(
            |c: Cell| self.positions@.contains_key(cell_key_spec(c)),
            |c: Cell| self.positions@[cell_key_spec(c)],
        )
    }

    pub fn new() -> (s: Self)
        ensures
            s.view() == Map::<Cell, usize>::empty(),
    {
        let s = CellIndex { positions: HashMap::new() };
        assert(s.view() =~= Map::<Cell, usize>::empty());
        s
    }

    pub fn get(&self, c: Cell) -> (r: Option<usize>)
        ensures
            match r {
                Some(i) => self.view().contains_key(c) && self.view()[c] == i,
                None => !self.view().contains_key(c),
            },
    {
        match self.positions.get(&cell_key(c)) {
            Some(i) => Some(*i),
            None => None,
        }
    }

    pub fn insert(&mut self, c: Cell, i: usize)
        ensures
            final(self).view() == old(self).view().insert(c, i),
    {
        let k = cell_key(c);
        self.positions.insert(k, i);
        proof {
            assert forall|d: Cell| #[trigger] final(self).view().contains_key(d) == old(self).view().insert(c, i).contains_key(d) by {
                lemma_cell_key_injective(c, d);
            }
            assert forall|d: Cell| final(self).view().contains_key(d) implies #[trigger] final(self).view()[d] == old(self).view().insert(c, i)[d] by {
                lemma_cell_key_injective(c, d);
            }
            assert(final(self).view() =~= old(self).view().insert(c, i));
        }
    }
}

} // verus!
