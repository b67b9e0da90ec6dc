//! The burrow board: a hallway and four side rooms, addressed as 23 cells.
//!
//! Cells 0..=6 are the hallway stops, cells 7..=22 the four room columns,
//! bottom rows last.  A board state assigns each cell an amphipod kind or
//! leaves it empty, and carries the cost paid so far; moves shift one
//! amphipod between cells at a per-step cost given by its kind.

use vstd::prelude::*;

verus! {

/// Row of cell `i` on the board.
pub open spec fn spec_cell_row(i: int) -> u8 {
    if i < 7 {
        0
    } else if i == 7 || i == 11 || i == 15 || i == 19 {
        1
    } else if i == 8 || i == 12 || i == 16 || i == 20 {
        2
    } else if i == 9 || i == 13 || i == 17 || i == 21 {
        3
    } else {
        4
    }
}

/// Column of cell `i` on the board.
pub open spec fn spec_cell_col(i: int) -> u8 {
    if i == 0 {
        1
    } else if i == 1 {
        2
    } else if i == 2 {
        4
    } else if i == 3 {
        6
    } else if i == 4 {
        8
    } else if i == 5 {
        10
    } else if i == 6 {
        11
    } else if i < 11 {
        3
    } else if i < 15 {
        5
    } else if i < 19 {
        7
    } else {
        9
    }
}

/// The (row, column) coordinate of cell `idx`.
pub fn cell_coord(idx: usize) -> (r: (u8, u8))
    requires
        idx < 23,
    ensures
        r.0 == spec_cell_row(idx as int),
        r.1 == spec_cell_col(idx as int),
{
    match idx {
        0 => (0, 1),
        1 => (0, 2),
        2 => (0, 4),
        3 => (0, 6),
        4 => (0, 8),
        5 => (0, 10),
        6 => (0, 11),
        7 => (1, 3),
        8 => (2, 3),
        9 => (3, 3),
        10 => (4, 3),
        11 => (1, 5),
        12 => (2, 5),
        13 => (3, 5),
        14 => (4, 5),
        15 => (1, 7),
        16 => (2, 7),
        17 => (3, 7),
        18 => (4, 7),
        19 => (1, 9),
        20 => (2, 9),
        21 => (3, 9),
        _ => (4, 9),
    }
}

/// Cell `i` sits at coordinate `coord`.
pub open spec fn coord_matches(i: int, coord: (u8, u8)) -> bool {
    spec_cell_row(i) == coord.0 && spec_cell_col(i) == coord.1
}

/// The first cell index at `coord`, from `i` up, if any.
pub open spec fn first_cell_at(coord: (u8, u8), i: int) -> Option<int>
    decreases 23 - i,
    when i >= 0
{
    if i >= 23 {
        None
    } else if coord_matches(i, coord) {
        Some(i)
    } else {
        first_cell_at(coord, i + 1)
    }
}

/// The cell index at coordinate `coord`.
pub open spec fn spec_cell_index(coord: (u8, u8)) -> Option<int> {
    first_cell_at(coord, 0)
}

/// The index of the cell at `coord`, or `None` when the coordinate is off
/// the board.
pub fn cell_index_at_coord(coord: (u8, u8)) -> (r: Option<usize>)
    ensures
        match r {
            Some(i) => i < 23 && spec_cell_index(coord) == Some(i as int),
            None => spec_cell_index(coord) is None,
        },
{
    let mut i: usize = 0;
    while i < 23
        invariant
            i <= 23,
            spec_cell_index(coord) == first_cell_at(coord, i as int),
        decreases 23 - i,
    {
        let c = cell_coord(i);
        if c.0 == coord.0 && c.1 == coord.1 {
            return Some(i);
        }
        i += 1;
    }
    None
}

/// What a cell holds: empty, or one of the four amphipod kinds.
#[derive(Clone, Copy, PartialEq, Eq, Structural, Debug)]
pub enum Cell {
    E,
    A,
    B,
    C,
    D,
}

/// The numeric value of a cell content, used by the base-5 state hash.
pub open spec fn spec_cell_val(c: Cell) -> int {
    match c {
        Cell::E => 0,
        Cell::A => 1,
        Cell::B => 2,
        Cell::C => 3,
        Cell::D => 4,
    }
}

/// The column an amphipod kind must end in.
pub open spec fn spec_target_column(c: Cell) -> u8 {
    match c {
        Cell::E => 0,
        Cell::A => 3,
        Cell::B => 5,
        Cell::C => 7,
        Cell::D => 9,
    }
}

/// The cost an amphipod kind pays per step.
pub open spec fn spec_weight(c: Cell) -> u32 {
    match c {
        Cell::E => 0,
        Cell::A => 1,
        Cell::B => 10,
        Cell::C => 100,
        Cell::D => 1000,
    }
}

impl Cell {
    /// The column this amphipod kind must reach; meaningless for an empty
    /// cell, which the caller rules out.
    pub fn target_column(&self) -> (r: u8)
        requires
            *self != Cell::E,
        ensures
            r == spec_target_column(*self),
    {
        match self {
            Cell::A => 3,
            Cell::B => 5,
            Cell::C => 7,
            Cell::D => 9,
            Cell::E => 0,
        }
    }

    /// The per-step cost of this amphipod kind.
    pub fn weight(&self) -> (r: u32)
        ensures
            r == spec_weight(*self),
    {
        match self {
            Cell::E => 0,
            Cell::A => 1,
            Cell::B => 10,
            Cell::C => 100,
            Cell::D => 1000,
        }
    }
}

/// A board state: the content of every cell, and the cost paid to reach it.
#[derive(Clone, Debug)]
pub struct State {
    pub cells: Vec<Cell>,
    pub cost: u32,
}

/// One move: an amphipod leaves `orig_idx` for `dest_idx` at `cost`.
#[derive(Clone, Debug)]
pub struct Move {
    pub orig_idx: usize,
    pub dest_idx: usize,
    pub cost: u32,
}

/// Base-5 value of a cell sequence, most significant first.
pub open spec fn spec_cells_hash(s: Seq<Cell>) -> int
    decreases s.len(),
{
    if s.len() == 0 {
        0
    } else {
        5 * spec_cells_hash(s.drop_last()) + spec_cell_val(s.last())
    }
}

/// `5^k`.
pub open spec fn pow5(k: int) -> int
    decreases k,
    when k >= 0
{
    if k <= 0 {
        1
    } else {
        5 * pow5(k - 1)
    }
}

proof fn lemma_cells_hash_bound(s: Seq<Cell>)
    ensures
        0 <= spec_cells_hash(s) < pow5(s.len() as int),
    decreases s.len(),
{
    if s.len() > 0 {
        lemma_cells_hash_bound(s.drop_last());
    }
}

proof fn lemma_pow5_mono(a: int, b: int)
    requires
        0 <= a <= b,
    ensures
        pow5(a) <= pow5(b),
    decreases b - a,
{
    if a < b {
        lemma_pow5_mono(a, b - 1);
        lemma_cells_hash_bound(Seq::<Cell>::empty());
        assert(pow5(b - 1) >= 1) by {
            lemma_pow5_pos(b - 1);
        }
    }
}

proof fn lemma_pow5_pos(k: int)
    requires
        k >= 0,
    ensures
        pow5(k) >= 1,
    decreases k,
{
    if k > 0 {
        lemma_pow5_pos(k - 1);
    }
}

proof fn lemma_pow5_27()
    ensures
        pow5(27) == 7450580596923828125,
{
    reveal_with_fuel(pow5, 28);
}

/// The number of distinct cell contents a sequence of `n` cells can take.
pub open spec fn spec_amphipod_count(s: Seq<Cell>) -> int
    decreases s.len(),
{
    if s.len() == 0 {
        0
    } else {
        spec_amphipod_count(s.drop_last()) + (if s.last() != Cell::E {
            1int
        } else {
            0int
        })
    }
}

impl State {
    /// The state's cells packed into one base-5 number: an injective key for
    /// boards of up to 27 cells.
    pub fn cells_hash(&self) -> (r: u64)
        requires
            self.cells@.len() <= 27,
        ensures
            r == spec_cells_hash(self.cells@),
    {
        let mut res: u64 = 0;
        let n = self.cells.len();
        for k in 0..n
            invariant
                n == self.cells@.len(),
                n <= 27,
                res == spec_cells_hash(self.cells@.subrange(0, k as int)),
                res < pow5(k as int),
            decreases n - k,
        {
            proof {
                lemma_pow5_mono(k as int + 1, 27);
                lemma_pow5_27();
                let next = self.cells@.subrange(0, k as int + 1);
                assert(next.drop_last() =~= self.cells@.subrange(0, k as int));
                assert(next.last() == self.cells@[k as int]);
            }
            let v: u64 = match self.cells[k] {
                Cell::E => 0,
                Cell::A => 1,
                Cell::B => 2,
                Cell::C => 3,
                Cell::D => 4,
            };
            res = 5 * res + v;
        }
        proof {
            assert(self.cells@.subrange(0, self.cells@.len() as int) =~= self.cells@);
        }
        res
    }

    /// How many amphipods stand on the board.
    pub fn amphipod_count(&self) -> (r: usize)
        ensures
            r == spec_amphipod_count(self.cells@),
    {
        let mut c: usize = 0;
        let n = self.cells.len();
        for k in 0..n
            invariant
                n == self.cells@.len(),
                c == spec_amphipod_count(self.cells@.subrange(0, k as int)),
                c <= k,
            decreases n - k,
        {
            proof {
                let next = self.cells@.subrange(0, k as int + 1);
                assert(next.drop_last() =~= self.cells@.subrange(0, k as int));
                assert(next.last() == self.cells@[k as int]);
            }
            if !matches!(self.cells[k], Cell::E) {
                c = c + 1;
            }
        }
        proof {
            assert(self.cells@.subrange(0, self.cells@.len() as int) =~= self.cells@);
        }
        c
    }

    /// The move taking the amphipod on cell `u_idx` to coordinate `v`, or
    /// `None` when `v` is off the board.  Its cost is the rectilinear step
    /// count times the amphipod's weight.
    pub fn get_move(&self, u_idx: usize, v: (u8, u8)) -> (r: Option<Move>)
        requires
            u_idx < 23,
            u_idx < self.cells@.len(),
            v.0 <= 127,
            v.1 <= 127,
        ensures
            match r {
                Some(m) => {
                    &&& spec_cell_index(v) == Some(m.dest_idx as int)
                    &&& m.orig_idx == u_idx
                    &&& m.cost == (spec_coord_dist(
                        (spec_cell_row(u_idx as int), spec_cell_col(u_idx as int)),
                        v,
                    ) * spec_weight(self.cells@[u_idx as int]) as int)
                },
                None => spec_cell_index(v) is None,
            },
    {
        let u = cell_coord(u_idx);
        let dr = if v.0 >= u.0 {
            v.0 - u.0
        } else {
            u.0 - v.0
        };
        let dc = if v.1 >= u.1 {
            v.1 - u.1
        } else {
            u.1 - v.1
        };
        let dist = dr + dc;
        if let Some(dest_idx) = cell_index_at_coord(v) {
            let w = self.cells[u_idx].weight();
            proof {
                assert((dist as int) * (w as int) <= 254 * 1000) by (nonlinear_arith)
                    requires 0 <= dist as int <= 254, 0 <= w as int <= 1000;
            }
            return Some(Move { orig_idx: u_idx, dest_idx, cost: (dist as u32) * w });
        }
        None
    }

    /// The state after performing `m`: the amphipod moves, its origin cell
    /// empties, and the move's cost is added.
    pub fn apply_move(&self, m: &Move) -> (r: State)
        requires
            m.orig_idx < self.cells@.len(),
            m.dest_idx < self.cells@.len(),
            self.cost + m.cost <= u32::MAX,
        ensures
            r.cells@ == self.cells@.update(m.dest_idx as int, self.cells@[m.orig_idx as int]).update(
                m.orig_idx as int,
                Cell::E,
            ),
            r.cost == self.cost + m.cost,
    {
        let mut cells = copy_cells(&self.cells);
        let moved = cells[m.orig_idx];
        cells[m.dest_idx] = moved;
        cells[m.orig_idx] = Cell::E;
        State { cells, cost: self.cost + m.cost }
    }

    /// Whether the hallway between columns `col_a` and `col_b` (inclusive) is
    /// free of amphipods, ignoring the cell `idx` itself.
    pub fn is_hallway_segment_empty(&self, idx: usize, col_a: u8, col_b: u8) -> (r: bool)
        requires
            self.cells@.len() <= 23,
        ensures
            r == !(exists|i: int|
                0 <= i < self.cells@.len() && hallway_blocker(self.cells@, i, idx as int, col_a, col_b)),
    {
        let lo = if col_a <= col_b {
            col_a
        } else {
            col_b
        };
        let hi = if col_a <= col_b {
            col_b
        } else {
            col_a
        };
        let n = self.cells.len();
        for i in 0..n
            invariant
                n == self.cells@.len(),
                n <= 23,
                lo == if col_a <= col_b {
                    col_a
                } else {
                    col_b
                },
                hi == if col_a <= col_b {
                    col_b
                } else {
                    col_a
                },
                forall|t: int| 0 <= t < i ==> !hallway_blocker(self.cells@, t, idx as int, col_a, col_b),
            decreases n - i,
        {
            let (row, col) = cell_coord(i);
            if row == 0 && lo <= col && col <= hi && i != idx && !matches!(self.cells[i], Cell::E) {
                proof {
                    assert(hallway_blocker(self.cells@, i as int, idx as int, col_a, col_b));
                }
                return false;
            }
        }
        true
    }

    /// The content of the cell at `coord`, or `None` when `coord` is off the
    /// board.
    pub fn cell_at_coord(&self, coord: (u8, u8)) -> (r: Option<Cell>)
        requires
            match spec_cell_index(coord) {
                Some(i) => i < self.cells@.len(),
                None => true,
            },
        ensures
            match spec_cell_index(coord) {
                Some(i) => r == Some(self.cells@[i]),
                None => r is None,
            },
    {
        if let Some(idx) = cell_index_at_coord(coord) {
            return Some(self.cells[idx]);
        }
        None
    }

    /// Whether the two boards agree cell by cell over their common length.
    pub fn equal_cells_with(&self, other: &Self) -> (r: bool)
        ensures
            r == (forall|k: int|
                0 <= k < self.cells@.len() && k < other.cells@.len() ==> self.cells@[k]
                    == other.cells@[k]),
    {
        let n = if self.cells.len() <= other.cells.len() {
            self.cells.len()
        } else {
            other.cells.len()
        };
        for k in 0..n
            invariant
                n <= self.cells@.len(),
                n <= other.cells@.len(),
                n == self.cells@.len() || n == other.cells@.len(),
                forall|t: int| 0 <= t < k ==> self.cells@[t] == other.cells@[t],
            decreases n - k,
        {
            if !(self.cells[k] == other.cells[k]) {
                return false;
            }
        }
        true
    }
}

/// The amphipod on cell `i` blocks the hallway segment between `col_a` and
/// `col_b`: it stands in the hallway within the segment, is not the moving
/// cell `idx`, and is not empty.
pub open spec fn hallway_blocker(s: Seq<Cell>, i: int, idx: int, col_a: u8, col_b: u8) -> bool {
    &&& spec_cell_row(i) == 0
    &&& min_u8(col_a, col_b) <= spec_cell_col(i) as int <= max_u8(col_a, col_b)
    &&& i != idx
    &&& s[i] != Cell::E
}

pub open spec fn min_u8(a: u8, b: u8) -> int {
    if a <= b {
        a as int
    } else {
        b as int
    }
}

pub open spec fn max_u8(a: u8, b: u8) -> int {
    if a <= b {
        b as int
    } else {
        a as int
    }
}

/// Rectilinear distance between two board coordinates.
pub open spec fn spec_coord_dist(u: (u8, u8), v: (u8, u8)) -> int {
    abs_diff_u8(u.0, v.0) + abs_diff_u8(u.1, v.1)
}

pub open spec fn abs_diff_u8(a: u8, b: u8) -> int {
    if a <= b {
        b - a
    } else {
        a - b
    }
}

/// An exact copy of a cell vector.
fn copy_cells(cells: &Vec<Cell>) -> (out: Vec<Cell>)
    ensures
        out@ == cells@,
{
    let mut out: Vec<Cell> = Vec::new();
    let n = cells.len();
    for k in 0..n
        invariant
            n == cells@.len(),
            out@ =~= cells@.subrange(0, k as int),
        decreases n - k,
    {
        out.push(cells[k]);
        proof {
            assert(out@ =~= cells@.subrange(0, k as int + 1));
        }
    }
    proof {
        assert(cells@.subrange(0, cells@.len() as int) =~= cells@);
    }
    out
}

} // verus!
