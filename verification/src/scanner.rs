//! Free runs: how far a new word may extend from each cell of the grid.

use vstd::prelude::*;
use crate::geometry::{Orientation, Pos, across, along, coordinate, in_grid};
use crate::occupancy::OccupancyMap;

verus! {

/// Whether the cell `p` is closed to a word running along `o`: the cell is
/// occupied, or one of its two neighbours across `o` is.
pub open spec fn blocked(occupied: Map<Pos, char>, p: Pos, o: Orientation) -> bool {
    ||| occupied.contains_key(p)
    ||| occupied.contains_key(across(p, o, 1))
    ||| occupied.contains_key(across(p, o, -1))
}

/// Number of consecutive open cells of the grid that start at `p` and
/// continue along `o`; zero off the grid.
pub open spec fn free_run(occupied: Map<Pos, char>, p: Pos, o: Orientation) -> nat
    decreases 15 - coordinate(p, o),
{
    if !in_grid(p) || blocked(occupied, p, o) {
        0
    } else {
        1 + free_run(occupied, along(p, o, 1), o)
    }
}

/// A free run of more than `k` cells leaves the cell `k` steps ahead open
/// and on the grid.
pub proof fn lemma_free_run_open(occupied: Map<Pos, char>, p: Pos, o: Orientation, k: int)
    requires
        0 <= k < free_run(occupied, p, o),
    ensures
        in_grid(along(p, o, k)),
        !blocked(occupied, along(p, o, k), o),
        !occupied.contains_key(along(p, o, k)),
    decreases k,
{
    if k == 0 {
        assert(along(p, o, 0) == p);
    } else {
        lemma_free_run_open(occupied, along(p, o, 1), o, k - 1);
        assert(along(along(p, o, 1), o, k - 1) == along(p, o, k));
    }
}

/// A free run never leaves the grid.
pub proof fn lemma_free_run_bound(occupied: Map<Pos, char>, p: Pos, o: Orientation)
    ensures
        in_grid(p) ==> coordinate(p, o) + free_run(occupied, p, o) <= 15,
        !in_grid(p) ==> free_run(occupied, p, o) == 0,
    decreases 15 - coordinate(p, o),
{
    if in_grid(p) && !blocked(occupied, p, o) {
        lemma_free_run_bound(occupied, along(p, o, 1), o);
    }
}

/// The free runs of every cell of the grid, downward and to the right.
pub struct FreeSpace {
    pub below: Vec<i32>,
    pub right: Vec<i32>,
}

impl FreeSpace {
    /// Both tables hold one run for each cell of the grid.
    pub open spec fn wf(&self) -> bool {
        self.below@.len() == 225 && self.right@.len() == 225
    }

    /// The run recorded for `p` along `o`; zero off the grid.
    pub open spec fn run(&self, p: Pos, o: Orientation) -> int {
        if in_grid(p) {
            match o {
                Orientation::Horizontal => self.right@[p.y * 15 + p.x] as int,
                Orientation::Vertical => self.below@[p.x * 15 + p.y] as int,
            }
        } else {
            0
        }
    }

    /// Whether the tables record the free runs of `occupied`.
    pub open spec fn describes(&self, occupied: Map<Pos, char>) -> bool {
        &&& self.wf()
        &&& forall|p: Pos, o: Orientation| #[trigger] self.run(p, o) == free_run(occupied, p, o)
    }

    /// Scans the whole grid against `occupied`.
    pub fn scan(occupied: &OccupancyMap) -> (tables: FreeSpace)
        ensures
            tables.describes(occupied@),
    {
        let below = scan_along(occupied, Orientation::Vertical);
        let right = scan_along(occupied, Orientation::Horizontal);
        let tables = FreeSpace { below, right };
        proof {
            assert forall|p: Pos, o: Orientation| #[trigger] tables.run(p, o) == free_run(occupied@, p, o) by {
                lemma_free_run_bound(occupied@, p, o);
                if in_grid(p) {
                    match o {
                        Orientation::Horizontal => {
                            assert(p == line_cell(Orientation::Horizontal, p.y as int, p.x as int));
                        },
                        Orientation::Vertical => {
                            assert(p == line_cell(Orientation::Vertical, p.x as int, p.y as int));
                        },
                    }
                }
            }
        }
        tables
    }

    /// The run recorded for `p` along `o`; zero off the grid.
    pub fn get(&self, p: Pos, o: Orientation) -> (r: i32)
        requires
            self.wf(),
        ensures
            r == self.run(p, o),
    {
        if p.on_grid() {
            match o {
                Orientation::Horizontal => self.right[(p.y * 15 + p.x) as usize],
                Orientation::Vertical => self.below[(p.x * 15 + p.y) as usize],
            }
        } else {
            0
        }
    }
}

/// The cell with index `along_index` on line `line` of the lines that run
/// along `o`: a row for a horizontal scan, a column for a vertical one.
pub open spec fn line_cell(o: Orientation, line: int, along_index: int) -> Pos {
    match o {
        Orientation::Horizontal => Pos { x: along_index as i32, y: line as i32 },
        Orientation::Vertical => Pos { x: line as i32, y: along_index as i32 },
    }
}

fn cell_on_line(o: Orientation, line: i32, along_index: i32) -> (p: Pos)
    ensures
        p == line_cell(o, line as int, along_index as int),
{
    match o {
        Orientation::Horizontal => Pos { x: along_index, y: line },
        Orientation::Vertical => Pos { x: line, y: along_index },
    }
}

/// Whether `p` is closed to a word running along `o`.
pub fn is_blocked(occupied: &OccupancyMap, p: Pos, o: Orientation) -> (r: bool)
    requires
        in_grid(p),
    ensures
        r == blocked(occupied@, p, o),
{
    let (a, b) = match o {
        Orientation::Horizontal => (Pos { x: p.x, y: p.y + 1 }, Pos { x: p.x, y: p.y - 1 }),
        Orientation::Vertical => (Pos { x: p.x + 1, y: p.y }, Pos { x: p.x - 1, y: p.y }),
    };
    occupied.contains_key(p) || occupied.contains_key(a) || occupied.contains_key(b)
}

/// One table of free runs: entry `line * 15 + i` is the run that starts at
/// cell `i` of line `line`.
fn scan_along(occupied: &OccupancyMap, o: Orientation) -> (table: Vec<i32>)
    ensures
        table@.len() == 225,
        forall|line: int, i: int|
            0 <= line < 15 && 0 <= i < 15 ==> #[trigger] table@[line * 15 + i] == free_run(
                occupied@,
                line_cell(o, line, i),
                o,
            ),
{
    let mut table: Vec<i32> = Vec::new();
    let mut n: usize = 0;
    while n < 225
        invariant
            n <= 225,
            table@.len() == n,
        decreases 225 - n,
    {
        table.push(0);
        n += 1;
    }
    let mut line: i32 = 0;
    while line < 15
        invariant
            0 <= line <= 15,
            table@.len() == 225,
            forall|l: int, i: int|
                0 <= l < line && 0 <= i < 15 ==> #[trigger] table@[l * 15 + i] == free_run(
                    occupied@,
                    line_cell(o, l, i),
                    o,
                ),
        decreases 15 - line,
    {
        let mut run: i32 = 0;
        let mut i: i32 = 15;
        proof {
            lemma_free_run_bound(occupied@, line_cell(o, line as int, 15), o);
        }
        while i > 0
            invariant
                0 <= i <= 15,
                0 <= line < 15,
                0 <= run <= 15 - i,
                table@.len() == 225,
                run == free_run(occupied@, line_cell(o, line as int, i as int), o),
                forall|l: int, j: int|
                    0 <= l < line && 0 <= j < 15 ==> #[trigger] table@[l * 15 + j] == free_run(
                        occupied@,
                        line_cell(o, l, j),
                        o,
                    ),
                forall|j: int|
                    i <= j < 15 ==> #[trigger] table@[line * 15 + j] == free_run(
                        occupied@,
                        line_cell(o, line as int, j),
                        o,
                    ),
            decreases i,
        {
            i -= 1;
            let p = cell_on_line(o, line, i);
            assert(along(p, o, 1) == line_cell(o, line as int, i + 1));
            if is_blocked(occupied, p, o) {
                run = 0;
            } else {
                run += 1;
            }
            let ghost before = table@;
            table.set((line * 15 + i) as usize, run);
            proof {
                assert forall|l: int, j: int| 0 <= l < line && 0 <= j < 15 implies #[trigger] table@[l * 15 + j]
                    == free_run(occupied@, line_cell(o, l, j), o) by {
                    assert(table@[l * 15 + j] == before[l * 15 + j]);
                }
                assert forall|j: int| i <= j < 15 implies #[trigger] table@[line * 15 + j] == free_run(
                    occupied@,
                    line_cell(o, line as int, j),
                    o,
                ) by {
                    if j > i {
                        assert(table@[line * 15 + j] == before[line * 15 + j]);
                    }
                }
            }
        }
        line += 1;
    }
    table
}

} // verus!
