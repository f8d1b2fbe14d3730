//! Cells of the grid and sets of cells kept as one bit per cell.

use vstd::prelude::*;

verus! {

/// Number of cells along one side of the grid.
pub const SIDE: u8 = 8;

/// Number of cells of the grid; a cell is an index below this number.
pub const CELLS: u8 = 64;

/// Whether bit `i` of `x` is set.
pub open spec fn bit(x: u64, i: u64) -> bool {
    (x >> i) & 1 == 1
}

/// Row of a cell.
pub open spec fn row(cell: int) -> int {
    cell / 8
}

/// Column of a cell.
pub open spec fn col(cell: int) -> int {
    cell % 8
}

/// Absolute difference of two integers.
pub open spec fn gap(a: int, b: int) -> int {
    if a <= b {
        b - a
    } else {
        a - b
    }
}

/// Distance between two cells: the number of king steps from one to the other.
pub open spec fn distance(a: int, b: int) -> int {
    let dr = gap(row(a), row(b));
    let dc = gap(col(a), col(b));
    if dr >= dc {
        dr
    } else {
        dc
    }
}

/// Whether an integer names a cell of the grid.
pub open spec fn on_grid(cell: int) -> bool {
    0 <= cell < 64
}

/// Two cells of the grid that touch by a side or a corner.
pub open spec fn adjacent(a: int, b: int) -> bool {
    on_grid(a) && on_grid(b) && distance(a, b) == 1
}

/// Two cells of the grid with exactly one cell between them.
pub open spec fn reachable(a: int, b: int) -> bool {
    on_grid(a) && on_grid(b) && distance(a, b) == 2
}

/// Computes the distance between two cells of the grid.
pub fn cell_distance(a: u8, b: u8) -> (d: u8)
    requires
        a < CELLS,
        b < CELLS,
    ensures
        d == distance(a as int, b as int),
        d <= 7,
{
    let ra: u8 = a / SIDE;
    let rb: u8 = b / SIDE;
    let ca: u8 = a % SIDE;
    let cb: u8 = b % SIDE;
    let dr: u8 = if ra <= rb { rb - ra } else { ra - rb };
    let dc: u8 = if ca <= cb { cb - ca } else { ca - cb };
    if dr >= dc {
        dr
    } else {
        dc
    }
}

/// A set of cells of the grid.
#[derive(Clone, Copy, Debug, PartialEq, Eq, Structural)]
pub struct Positions {
    bits: u64,
}

impl View for Positions {
    type V = Set<int>;

    closed spec fn view(&self) -> Set<int> {
        Set::new(|i: int| 0 <= i < 64 && bit(self.bits, i as u64))
    }
}

proof fn lemma_bit_none(i: u64)
    by (bit_vector)
    requires
        i < 64,
    ensures
        !bit(0u64, i),
{
}

proof fn lemma_bit_all(i: u64)
    by (bit_vector)
    requires
        i < 64,
    ensures
        bit(0xffff_ffff_ffff_ffffu64, i),
{
}

proof fn lemma_bit_set(x: u64, k: u64, i: u64)
    by (bit_vector)
    requires
        k < 64,
        i < 64,
    ensures
        bit(x | (1u64 << k), i) == (bit(x, i) || i == k),
{
}

proof fn lemma_bit_clear(x: u64, k: u64, i: u64)
    by (bit_vector)
    requires
        k < 64,
        i < 64,
    ensures
        bit(x & !(1u64 << k), i) == (bit(x, i) && i != k),
{
}

proof fn lemma_bit_or(x: u64, y: u64, i: u64)
    by (bit_vector)
    requires
        i < 64,
    ensures
        bit(x | y, i) == (bit(x, i) || bit(y, i)),
{
}

proof fn lemma_bit_and(x: u64, y: u64, i: u64)
    by (bit_vector)
    requires
        i < 64,
    ensures
        bit(x & y, i) == (bit(x, i) && bit(y, i)),
{
}

proof fn lemma_bit_and_not(x: u64, y: u64, i: u64)
    by (bit_vector)
    requires
        i < 64,
    ensures
        bit(x & !y, i) == (bit(x, i) && !bit(y, i)),
{
}

/// The bits of `x` below position `n`.
spec fn low(x: u64, n: u64) -> u64 {
    x & !(0xffff_ffff_ffff_ffffu64 << n)
}

proof fn lemma_low_start(x: u64, y: u64)
    by (bit_vector)
    ensures
        low(x, 0) == low(y, 0),
{
}

proof fn lemma_low_step(x: u64, y: u64, n: u64, m: u64)
    by (bit_vector)
    requires
        n < 63,
        m == n + 1,
        low(x, n) == low(y, n),
        bit(x, n) == bit(y, n),
    ensures
        low(x, m) == low(y, m),
{
}

proof fn lemma_low_end(x: u64, y: u64)
    by (bit_vector)
    requires
        low(x, 63) == low(y, 63),
        bit(x, 63) == bit(y, 63),
    ensures
        x == y,
{
}

proof fn lemma_low_equal(x: u64, y: u64, n: u64)
    requires
        n <= 63,
        forall|i: u64| i < 64 ==> bit(x, i) == bit(y, i),
    ensures
        low(x, n) == low(y, n),
    decreases n,
{
    if n == 0 {
        lemma_low_start(x, y);
    } else {
        let k = (n - 1) as u64;
        lemma_low_equal(x, y, k);
        lemma_low_step(x, y, k, n);
    }
}

impl Positions {
    /// Every member of a set of cells is a cell of the grid.
    pub proof fn lemma_on_grid(self)
        ensures
            forall|i: int| self@.contains(i) ==> on_grid(i),
            self@.finite(),
            self@.len() <= 64,
    {
        let grid = Set::new(|i: int| 0 <= i < 64);
        assert(grid =~= vstd::set_lib::set_int_range(0, 64));
        vstd::set_lib::lemma_int_range(0, 64);
        assert(self@.subset_of(grid));
        vstd::set_lib::lemma_len_subset(self@, grid);
    }

    /// Two sets with the same cells are the same value.
    pub proof fn lemma_same_cells(self, other: Positions)
        requires
            self@ == other@,
        ensures
            self == other,
    {
        assert forall|i: u64| i < 64 implies bit(self.bits, i) == bit(other.bits, i) by {
            let j = i as int;
            assert(self@.contains(j) == bit(self.bits, j as u64));
            assert(other@.contains(j) == bit(other.bits, j as u64));
            assert(j as u64 == i);
        }
        lemma_low_equal(self.bits, other.bits, 63);
        lemma_low_end(self.bits, other.bits);
    }

    /// The set as one number, with bit `i` set exactly when cell `i` belongs to it.
    pub closed spec fn code(self) -> u64 {
        self.bits
    }

    /// Bit `i` of the number of a set is set exactly when cell `i` belongs to the set.
    pub proof fn lemma_code_bits(self)
        ensures
            forall|i: u64| i < 64 ==> #[trigger] bit(self.code(), i) == self@.contains(i as int),
    {
        assert forall|i: u64| i < 64 implies #[trigger] bit(self.code(), i) == self@.contains(
            i as int,
        ) by {
            let j = i as int;
            assert(j as u64 == i);
        }
    }

    /// Two sets have the same number exactly when they have the same cells.
    pub proof fn lemma_code(self, other: Positions)
        ensures
            self.code() == other.code() <==> self@ == other@,
    {
        if self@ == other@ {
            self.lemma_same_cells(other);
        }
    }

    /// The set as one number.
    pub fn bits(&self) -> (b: u64)
        ensures
            b == self.code(),
    {
        self.bits
    }

    /// The set without any cell.
    pub fn empty() -> (p: Positions)
        ensures
            p@ == Set::<int>::empty(),
    {
        let p = Positions { bits: 0 };
        proof {
            assert forall|i: int| !p@.contains(i) by {
                if 0 <= i < 64 {
                    lemma_bit_none(i as u64);
                }
            }
            assert(p@ =~= Set::<int>::empty());
        }
        p
    }

    /// The set of all the cells of the grid.
    pub fn full() -> (p: Positions)
        ensures
            p@ == Set::new(|i: int| on_grid(i)),
    {
        let p = Positions { bits: 0xffff_ffff_ffff_ffff };
        proof {
            assert forall|i: int| p@.contains(i) == on_grid(i) by {
                if 0 <= i < 64 {
                    lemma_bit_all(i as u64);
                }
            }
            assert(p@ =~= Set::new(|i: int| on_grid(i)));
        }
        p
    }

    /// Whether `cell` belongs to the set. No set holds a number that is not a cell.
    pub fn contains(&self, cell: u8) -> (b: bool)
        ensures
            b == self@.contains(cell as int),
    {
        if cell >= CELLS {
            return false;
        }
        let shifted: u64 = self.bits >> (cell as u64);
        (shifted & 1) == 1
    }

    /// The set with `cell` added.
    pub fn with(&self, cell: u8) -> (p: Positions)
        requires
            cell < CELLS,
        ensures
            p@ == self@.insert(cell as int),
    {
        let p = Positions { bits: self.bits | (1u64 << (cell as u64)) };
        proof {
            assert forall|i: int| p@.contains(i) == self@.insert(cell as int).contains(i) by {
                if 0 <= i < 64 {
                    lemma_bit_set(self.bits, cell as u64, i as u64);
                }
            }
            assert(p@ =~= self@.insert(cell as int));
        }
        p
    }

    /// The set with `cell` taken out.
    pub fn without(&self, cell: u8) -> (p: Positions)
        requires
            cell < CELLS,
        ensures
            p@ == self@.remove(cell as int),
    {
        let p = Positions { bits: self.bits & !(1u64 << (cell as u64)) };
        proof {
            assert forall|i: int| p@.contains(i) == self@.remove(cell as int).contains(i) by {
                if 0 <= i < 64 {
                    lemma_bit_clear(self.bits, cell as u64, i as u64);
                }
            }
            assert(p@ =~= self@.remove(cell as int));
        }
        p
    }

    /// The cells that belong to either set.
    pub fn union(&self, other: &Positions) -> (p: Positions)
        ensures
            p@ == self@.union(other@),
    {
        let p = Positions { bits: self.bits | other.bits };
        proof {
            assert forall|i: int| p@.contains(i) == self@.union(other@).contains(i) by {
                if 0 <= i < 64 {
                    lemma_bit_or(self.bits, other.bits, i as u64);
                }
            }
            assert(p@ =~= self@.union(other@));
        }
        p
    }

    /// The cells that belong to both sets.
    pub fn intersection(&self, other: &Positions) -> (p: Positions)
        ensures
            p@ == self@.intersect(other@),
    {
        let p = Positions { bits: self.bits & other.bits };
        proof {
            assert forall|i: int| p@.contains(i) == self@.intersect(other@).contains(i) by {
                if 0 <= i < 64 {
                    lemma_bit_and(self.bits, other.bits, i as u64);
                }
            }
            assert(p@ =~= self@.intersect(other@));
        }
        p
    }

    /// The cells of this set that do not belong to `other`.
    pub fn difference(&self, other: &Positions) -> (p: Positions)
        ensures
            p@ == self@.difference(other@),
    {
        let p = Positions { bits: self.bits & !other.bits };
        proof {
            assert forall|i: int| p@.contains(i) == self@.difference(other@).contains(i) by {
                if 0 <= i < 64 {
                    lemma_bit_and_not(self.bits, other.bits, i as u64);
                }
            }
            assert(p@ =~= self@.difference(other@));
        }
        p
    }

    /// Whether the set holds no cell.
    pub fn is_empty(&self) -> (b: bool)
        ensures
            b == (self@ == Set::<int>::empty()),
    {
        let n: u8 = self.len();
        proof {
            self.lemma_on_grid();
            if n == 0 {
                assert(self@ =~= Set::<int>::empty());
            }
        }
        n == 0
    }

    /// Number of cells in the set.
    pub fn len(&self) -> (n: u8)
        ensures
            n == self@.len(),
            n <= 64,
    {
        let mut n: u8 = 0;
        let mut cell: u8 = 0;
        proof {
            assert(self@.filter(|i: int| i < 0) =~= Set::<int>::empty());
        }
        while cell < CELLS
            invariant
                cell <= CELLS,
                n <= cell,
                self@.filter(|i: int| i < cell).finite(),
                n == self@.filter(|i: int| i < cell).len(),
            decreases CELLS - cell,
        {
            let ghost before = self@.filter(|i: int| i < cell);
            let ghost after = self@.filter(|i: int| i < cell + 1);
            if self.contains(cell) {
                proof {
                    assert(after =~= before.insert(cell as int));
                }
                n = n + 1;
            } else {
                proof {
                    assert(after =~= before);
                }
            }
            cell = cell + 1;
        }
        proof {
            self.lemma_on_grid();
            assert(self@.filter(|i: int| i < 64) =~= self@);
        }
        n
    }
}

} // verus!
