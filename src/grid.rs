use vstd::prelude::*;

verus! {

/// Cost of a cell that cannot be entered.
pub const INFINITY: u64 = 18446744073709551615;

/// Why a grid or graph lookup failed.
#[derive(Clone, Copy, Debug, PartialEq, Eq, Structural)]
pub enum LookupError {
    /// The grid was given without rows or without columns.
    EmptyGrid,
    /// A row is longer than the first row.
    RaggedGrid,
    /// The grid has more cells than node ids can count.
    GridTooLarge,
    /// A coordinate or node id lies outside the grid.
    OutOfBounds,
    /// Node positions were asked for before any were offered.
    ConfigurationError,
    /// Node positions were offered, but not one for this node id.
    MissingPosition(usize),
}

/// One of the eight compass moves on a grid.
#[derive(Clone, Copy, Debug, PartialEq, Eq, Structural)]
pub enum Direction {
    Up,
    Down,
    Left,
    Right,
    UpLeft,
    UpRight,
    DownLeft,
    DownRight,
}

/// The change of row and of column that a direction makes.
pub open spec fn offset(d: Direction) -> (int, int) {
    match d {
        Direction::Up => (-1, 0),
        Direction::Down => (1, 0),
        Direction::Left => (0, -1),
        Direction::Right => (0, 1),
        Direction::UpLeft => (-1, -1),
        Direction::UpRight => (-1, 1),
        Direction::DownLeft => (1, -1),
        Direction::DownRight => (1, 1),
    }
}

pub open spec fn in_usize(x: int) -> bool {
    0 <= x <= usize::MAX
}

/// `x` moved by `delta`, or `x` itself where the move would leave `usize`.
pub open spec fn shifted(x: usize, delta: int) -> usize {
    if in_usize(x + delta) {
        (x + delta) as usize
    } else {
        x
    }
}

/// The coordinate reached by `d`; an axis that would leave `usize` keeps its value.
pub open spec fn moved(d: Direction, c: (usize, usize)) -> (usize, usize) {
    (shifted(c.0, offset(d).0), shifted(c.1, offset(d).1))
}

impl Direction {
    pub fn attempt_move(&self, coords: (usize, usize)) -> (r: (usize, usize))
        ensures
            r == moved(*self, coords),
    {
        let opt_coord: (Option<usize>, Option<usize>) = match self {
            Direction::Up => (coords.0.checked_sub(1), Some(coords.1)),
            Direction::Down => (coords.0.checked_add(1), Some(coords.1)),
            Direction::Left => (Some(coords.0), coords.1.checked_sub(1)),
            Direction::Right => (Some(coords.0), coords.1.checked_add(1)),
            Direction::UpLeft => (coords.0.checked_sub(1), coords.1.checked_sub(1)),
            Direction::UpRight => (coords.0.checked_sub(1), coords.1.checked_add(1)),
            Direction::DownLeft => (coords.0.checked_add(1), coords.1.checked_sub(1)),
            Direction::DownRight => (coords.0.checked_add(1), coords.1.checked_add(1)),
        };
        let row = match opt_coord.0 {
            Some(row) => row,
            None => coords.0,
        };
        let col = match opt_coord.1 {
            Some(col) => col,
            None => coords.1,
        };
        (row, col)
    }
}

/// A rectangle of cell costs; node `row * height + col` is the cell `(row, col)`.
pub struct Grid {
    pub width: usize,
    pub height: usize,
    pub costs: Vec<Vec<u64>>,
    pub size: usize,
}

impl Grid {
    /// `width` rows of `height` cells each.
    pub open spec fn wf(&self) -> bool {
        &&& self.width >= 1
        &&& self.height >= 1
        &&& self.costs@.len() == self.width
        &&& forall|r: int| 0 <= r < self.width ==> (#[trigger] self.costs@[r])@.len() == self.height
        &&& self.size == self.width * self.height
    }

    pub open spec fn inside(&self, coord: (usize, usize)) -> bool {
        coord.0 < self.width && coord.1 < self.height
    }

    pub open spec fn id_of(&self, coord: (usize, usize)) -> int {
        coord.0 * self.height + coord.1
    }

    pub open spec fn coord_of(&self, id: int) -> (usize, usize) {
        ((id / self.height as int) as usize, (id % self.height as int) as usize)
    }

    pub open spec fn cost_at(&self, coord: (usize, usize)) -> u64 {
        self.costs@[coord.0 as int]@[coord.1 as int]
    }

    /// A grid of the given rows; cells missing from a row shorter than the first cost 0.
    pub fn from(grid: &Vec<Vec<u64>>) -> (r: Result<Grid, LookupError>)
        ensures
            grid@.len() == 0 || grid@[0]@.len() == 0 ==> r == Err::<Grid, LookupError>(
                LookupError::EmptyGrid,
            ),
            grid@.len() > 0 && grid@[0]@.len() > 0 && (exists|i: int|
                0 <= i < grid@.len() && (#[trigger] grid@[i])@.len() > grid@[0]@.len())
                ==> r == Err::<Grid, LookupError>(LookupError::RaggedGrid),
            grid@.len() > 0 && grid@[0]@.len() > 0 && (forall|i: int|
                0 <= i < grid@.len() ==> (#[trigger] grid@[i])@.len() <= grid@[0]@.len())
                ==> match r {
                Ok(g) => {
                    &&& g.wf()
                    &&& g.width == grid@.len()
                    &&& g.height == grid@[0]@.len()
                    &&& forall|i: int, j: int|
                        0 <= i < g.width && 0 <= j < g.height ==> #[trigger] g.costs@[i]@[j] == if j
                            < grid@[i]@.len() {
                            grid@[i]@[j]
                        } else {
                            0
                        }
                },
                Err(e) => e == LookupError::GridTooLarge && grid@.len() * grid@[0]@.len()
                    > usize::MAX,
            },
    {
        if grid.len() == 0 || grid[0].len() == 0 {
            return Err(LookupError::EmptyGrid);
        }
        let width = grid.len();
        let height = grid[0].len();
        let mut i: usize = 0;
        while i < width
            invariant
                width == grid@.len(),
                height == grid@[0]@.len(),
                width >= 1,
                height >= 1,
                i <= width,
                forall|k: int| 0 <= k < i ==> (#[trigger] grid@[k])@.len() <= height,
            decreases width - i,
        {
            if grid[i].len() > height {
                return Err(LookupError::RaggedGrid);
            }
            i = i + 1;
        }
        let size = match width.checked_mul(height) {
            Some(s) => s,
            None => {
                return Err(LookupError::GridTooLarge);
            },
        };
        let mut costs: Vec<Vec<u64>> = Vec::new();
        let mut row: usize = 0;
        while row < width
            invariant
                width == grid@.len(),
                height == grid@[0]@.len(),
                row <= width,
                costs@.len() == row,
                forall|k: int| 0 <= k < width ==> (#[trigger] grid@[k])@.len() <= height,
                forall|k: int| 0 <= k < row ==> (#[trigger] costs@[k])@.len() == height,
                forall|k: int, j: int|
                    0 <= k < row && 0 <= j < height ==> #[trigger] costs@[k]@[j] == if j
                        < grid@[k]@.len() {
                        grid@[k]@[j]
                    } else {
                        0
                    },
            decreases width - row,
        {
            let source = &grid[row];
            let mut line: Vec<u64> = Vec::new();
            let mut col: usize = 0;
            while col < height
                invariant
                    height == grid@[0]@.len(),
                    row < width,
                    width == grid@.len(),
                    *source == grid@[row as int],
                    source@.len() <= height,
                    col <= height,
                    line@.len() == col,
                    forall|j: int|
                        0 <= j < col ==> #[trigger] line@[j] == if j < source@.len() {
                            source@[j]
                        } else {
                            0
                        },
                decreases height - col,
            {
                if col < source.len() {
                    line.push(source[col]);
                } else {
                    line.push(0);
                }
                col = col + 1;
            }
            costs.push(line);
            row = row + 1;
        }
        Ok(Grid { width, height, costs, size })
    }

    pub fn outside(&self, coord: (usize, usize)) -> (r: bool)
        requires
            self.wf(),
        ensures
            r == !self.inside(coord),
    {
        !self.within(coord)
    }

    pub fn within(&self, coord: (usize, usize)) -> (r: bool)
        requires
            self.wf(),
        ensures
            r == self.inside(coord),
    {
        coord.0 < self.costs.len() && coord.1 < self.costs[coord.0].len()
    }

    /// The node id of a cell.
    pub fn node_id(&self, coord: (usize, usize)) -> (r: Result<usize, LookupError>)
        requires
            self.wf(),
        ensures
            self.inside(coord) ==> r == Ok::<usize, LookupError>(self.id_of(coord) as usize)
                && self.id_of(coord) < self.size,
            !self.inside(coord) ==> r == Err::<usize, LookupError>(LookupError::OutOfBounds),
    {
        if self.outside(coord) {
            return Err(LookupError::OutOfBounds);
        }
        proof {
            lemma_row_major(coord.0 as int, coord.1 as int, self.width as int, self.height as int);
        }
        Ok(self.height * coord.0 + coord.1)
    }

    /// The cell of a node id.
    pub fn coords(&self, node_id: usize) -> (r: Result<(usize, usize), LookupError>)
        requires
            self.wf(),
        ensures
            node_id < self.size ==> r == Ok::<(usize, usize), LookupError>(
                self.coord_of(node_id as int),
            ) && self.inside(self.coord_of(node_id as int)) && self.id_of(
                self.coord_of(node_id as int),
            ) == node_id,
            node_id >= self.size ==> r == Err::<(usize, usize), LookupError>(
                LookupError::OutOfBounds,
            ),
    {
        if self.size <= node_id {
            return Err(LookupError::OutOfBounds);
        }
        proof {
            lemma_row_major_inverse(node_id as int, self.width as int, self.height as int);
        }
        Ok((node_id / self.height, node_id % self.height))
    }

    /// The cost of entering a node.
    pub fn cost(&self, node_id: usize) -> (r: Result<u64, LookupError>)
        requires
            self.wf(),
        ensures
            node_id < self.size ==> r == Ok::<u64, LookupError>(
                self.cost_at(self.coord_of(node_id as int)),
            ),
            node_id >= self.size ==> r == Err::<u64, LookupError>(LookupError::OutOfBounds),
    {
        let (row, col) = self.coords(node_id)?;
        Ok(self.costs[row][col])
    }
}

/// Two cells of a grid have one id only when they are one cell.
pub proof fn lemma_id_unique(g: Grid, a: (usize, usize), b: (usize, usize))
    requires
        g.wf(),
        g.inside(a),
        g.inside(b),
    ensures
        g.id_of(a) == g.id_of(b) <==> a == b,
        0 <= g.id_of(a) < g.size,
        0 <= g.id_of(b) < g.size,
        (g.id_of(a) as usize == g.id_of(b) as usize) <==> a == b,
{
    lemma_row_major(a.0 as int, a.1 as int, g.width as int, g.height as int);
    lemma_row_major(b.0 as int, b.1 as int, g.width as int, g.height as int);
    if g.id_of(a) == g.id_of(b) {
        let h = g.height as int;
        assert(a.0 == b.0) by (nonlinear_arith)
            requires
                a.0 * h + a.1 == b.0 * h + b.1,
                0 <= a.1 < h,
                0 <= b.1 < h,
                0 <= a.0,
                0 <= b.0,
        ;
    }
}

proof fn lemma_row_major(r: int, c: int, w: int, h: int)
    requires
        0 <= r < w,
        0 <= c < h,
    ensures
        r * h + c < w * h,
        0 <= r * h + c,
{
    assert(r * h + c < w * h) by (nonlinear_arith)
        requires
            0 <= r < w,
            0 <= c < h,
    ;
    assert(0 <= r * h) by (nonlinear_arith)
        requires
            0 <= r,
            0 <= h,
    ;
}

proof fn lemma_row_major_inverse(id: int, w: int, h: int)
    requires
        0 <= id < w * h,
        h >= 1,
        w >= 1,
    ensures
        id / h < w,
        0 <= id % h < h,
        0 <= id / h,
        (id / h) * h + id % h == id,
{
    assert((id / h) * h + id % h == id) by (nonlinear_arith)
        requires
            h >= 1,
    ;
    assert(0 <= id / h < w) by (nonlinear_arith)
        requires
            0 <= id < w * h,
            h >= 1,
    ;
}

} // verus!
