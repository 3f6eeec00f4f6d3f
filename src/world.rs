use vstd::prelude::*;

verus! {

/// The state of one cell of a grid.
#[derive(Clone, Copy, Debug, PartialEq, Eq, Structural)]
pub enum CellState {
    Alive,
    Dead,
}

/// `v` brought into `[0, n)` by toroidal wrapping.
pub open spec fn wrap_coord(v: int, n: int) -> int {
    v % n
}

/// Row-major linear index of `(x, y)` in a grid `width` cells wide.
pub open spec fn linear_index(x: int, y: int, width: int) -> int {
    y * width + x
}

/// The linear index of an in-bounds cell is in range, and recovers its coordinates.
pub proof fn lemma_linear_index(x: int, y: int, width: int, height: int)
    requires
        0 <= x < width,
        0 <= y < height,
    ensures
        0 <= linear_index(x, y, width) < width * height,
        linear_index(x, y, width) % width == x,
        linear_index(x, y, width) / width == y,
{
    assert(0 <= y * width) by (nonlinear_arith)
        requires
            0 <= y,
            0 < width,
    ;
    assert(y * width + x < width * height) by (nonlinear_arith)
        requires
            0 <= x < width,
            0 <= y < height,
    ;
    vstd::arithmetic::div_mod::lemma_fundamental_div_mod_converse(y * width + x, width, y, x);
}

/// Two in-bounds cells share a linear index only when they are the same cell.
pub proof fn lemma_linear_index_unique(x1: int, y1: int, x2: int, y2: int, width: int, height: int)
    requires
        0 <= x1 < width,
        0 <= y1 < height,
        0 <= x2 < width,
        0 <= y2 < height,
        linear_index(x1, y1, width) == linear_index(x2, y2, width),
    ensures
        x1 == x2,
        y1 == y2,
{
    lemma_linear_index(x1, y1, width, height);
    lemma_linear_index(x2, y2, width, height);
}

/// The capability that the simulation needs from a grid: a toroidal 2D field of cell states,
/// `spec_width()` cells wide and `spec_height()` cells high.
pub trait World: Sized {
    spec fn spec_width(&self) -> nat;

    spec fn spec_height(&self) -> nat;

    /// The state of the in-bounds cell `(x, y)`.
    spec fn spec_cell(&self, x: int, y: int) -> CellState;

    spec fn well_formed(&self) -> bool;

    /// A well-formed grid has at most `u32::MAX` cells.
    proof fn lemma_cell_count(&self)
        requires
            self.well_formed(),
        ensures
            self.spec_width() * self.spec_height() <= u32::MAX,
            self.spec_width() <= u32::MAX,
            self.spec_height() <= u32::MAX,
    ;

    fn get_size(&self) -> (r: (u32, u32))
        requires
            self.well_formed(),
        ensures
            r.0 == self.spec_width(),
            r.1 == self.spec_height(),
    ;

    /// The cell at `(x mod width, y mod height)`.
    fn get_cell_state_wrapped(&self, x: i64, y: i64) -> (r: &CellState)
        requires
            self.well_formed(),
            self.spec_width() > 0,
            self.spec_height() > 0,
        ensures
            *r == self.spec_cell(
                wrap_coord(x as int, self.spec_width() as int),
                wrap_coord(y as int, self.spec_height() as int),
            ),
    ;

    /// The cell at `(x, y)` if it is in bounds, else `None`.
    fn get_cell_state(&self, x: u32, y: u32) -> (r: Option<&CellState>)
        requires
            self.well_formed(),
        ensures
            match r {
                Some(c) => x < self.spec_width() && y < self.spec_height() && *c == self.spec_cell(
                    x as int,
                    y as int,
                ),
                None => !(x < self.spec_width() && y < self.spec_height()),
            },
    ;

    /// Writes `state` at `(x, y)` and returns the state it replaced.
    fn set_cell_state(&mut self, x: u32, y: u32, state: CellState) -> (r: CellState)
        requires
            old(self).well_formed(),
            x < old(self).spec_width(),
            y < old(self).spec_height(),
        ensures
            final(self).well_formed(),
            final(self).spec_width() == old(self).spec_width(),
            final(self).spec_height() == old(self).spec_height(),
            r == old(self).spec_cell(x as int, y as int),
            final(self).spec_cell(x as int, y as int) == state,
            forall|i: int, j: int|
                0 <= i < old(self).spec_width() && 0 <= j < old(self).spec_height() && (i != x
                    || j != y) ==> #[trigger] final(self).spec_cell(i, j) == old(self).spec_cell(
                    i,
                    j,
                ),
    ;

    /// A row-major walk over all cells, starting at `(0, 0)`.
    fn into_iterator(&self) -> (r: WorldIterator<'_, Self>)
        requires
            self.well_formed(),
        ensures
            r.source() == *self,
            r.position() == 0,
    ;
}

/// A grid that can be built all-Dead from its dimensions.
pub trait ConstructableWorld: World {
    fn new(width: u32, height: u32) -> (r: Self)
        requires
            width * height <= u32::MAX,
        ensures
            r.well_formed(),
            r.spec_width() == width,
            r.spec_height() == height,
            forall|x: int, y: int|
                0 <= x < width && 0 <= y < height ==> #[trigger] r.spec_cell(x, y)
                    == CellState::Dead,
    ;
}

/// A row-major walk over the cells of a grid: `x` varies fastest.
pub struct WorldIterator<'a, W> {
    world: &'a W,
    curr: u32,
}

impl<'a, W> WorldIterator<'a, W> {
    /// The grid being walked.
    pub closed spec fn source(&self) -> W {
        *self.world
    }

    /// The linear index of the next cell handed out.
    pub closed spec fn position(&self) -> nat {
        self.curr as nat
    }

    pub fn new(world: &'a W) -> (r: WorldIterator<'a, W>)
        ensures
            r.source() == *world,
            r.position() == 0,
    {
        WorldIterator { world, curr: 0 }
    }
}

impl<'a, W: World> WorldIterator<'a, W> {
    /// Hands out the cell at the current position with its coordinates and moves on,
    /// or `None` once every cell has been handed out.
    pub fn next(&mut self) -> (r: Option<(u32, u32, &'a CellState)>)
        requires
            old(self).source().well_formed(),
        ensures
            final(self).source() == old(self).source(),
            ({
                let w = old(self).source().spec_width();
                let h = old(self).source().spec_height();
                let p = old(self).position();
                if p < w * h {
                    &&& final(self).position() == p + 1
                    &&& r matches Some((x, y, c))
                    &&& x == p % w
                    &&& y == p / w
                    &&& *c == old(self).source().spec_cell(x as int, y as int)
                } else {
                    &&& final(self).position() == p
                    &&& r is None
                }
            }),
    {
        let (width, height) = self.world.get_size();
        proof {
            self.world.lemma_cell_count();
        }
        if width == 0 {
            proof {
                assert(width * height == 0) by (nonlinear_arith)
                    requires
                        width == 0,
                ;
            }
            return None;
        }
        if self.curr as u64 >= width as u64 * height as u64 {
            return None;
        }
        let x = self.curr % width;
        let y = self.curr / width;
        proof {
            vstd::arithmetic::div_mod::lemma_fundamental_div_mod(self.curr as int, width as int);
            assert(y < height) by (nonlinear_arith)
                requires
                    y == self.curr / width,
                    self.curr < width * height,
                    width > 0,
            ;
        }
        self.curr = self.curr + 1;
        match self.world.get_cell_state(x, y) {
            Some(c) => Some((x, y, c)),
            None => None,
        }
    }
}

/// A grid stored as one row-major vector of cell states.
#[derive(Clone)]
pub struct ArrayWorld {
    world: Vec<CellState>,
    width: u32,
    height: u32,
}

impl ArrayWorld {
    /// Row-major linear index of the in-bounds cell `(x, y)`.
    fn to_world_index(&self, x: u32, y: u32) -> (r: u32)
        requires
            self.well_formed(),
            x < self.width,
            y < self.height,
        ensures
            r == linear_index(x as int, y as int, self.width as int),
            r < self.world@.len(),
    {
        proof {
            lemma_linear_index(x as int, y as int, self.width as int, self.height as int);
        }
        (y * self.width) + x
    }

    /// Brings signed coordinates into the grid by toroidal wrapping on each axis.
    fn wrap(&self, x: i64, y: i64) -> (r: (u32, u32))
        requires
            self.width > 0,
            self.height > 0,
        ensures
            r.0 == wrap_coord(x as int, self.width as int),
            r.1 == wrap_coord(y as int, self.height as int),
    {
        (wrap_axis(x, self.width), wrap_axis(y, self.height))
    }
}

/// `v mod n`, in `[0, n)`, for a signed `v`.
fn wrap_axis(v: i64, n: u32) -> (r: u32)
    requires
        n > 0,
    ensures
        r == wrap_coord(v as int, n as int),
{
    if v >= 0 {
        (v as u64 % n as u64) as u32
    } else {
        let a: u64 = (-(v + 1)) as u64;
        let m: u64 = a % n as u64;
        proof {
            let q = a as int / n as int;
            vstd::arithmetic::div_mod::lemma_fundamental_div_mod(a as int, n as int);
            assert(v as int == (-q - 1) * n + (n - 1 - m)) by (nonlinear_arith)
                requires
                    a == -(v + 1),
                    a as int == n * q + m,
            ;
            vstd::arithmetic::div_mod::lemma_fundamental_div_mod_converse(
                v as int,
                n as int,
                -q - 1,
                n - 1 - m,
            );
        }
        (n as u64 - 1 - m) as u32
    }
}

impl World for ArrayWorld {
    closed spec fn spec_width(&self) -> nat {
        self.width as nat
    }

    closed spec fn spec_height(&self) -> nat {
        self.height as nat
    }

    closed spec fn spec_cell(&self, x: int, y: int) -> CellState {
        self.world@[linear_index(x, y, self.width as int)]
    }

    closed spec fn well_formed(&self) -> bool {
        &&& self.world@.len() == self.width * self.height
        &&& self.width * self.height <= u32::MAX
    }

    proof fn lemma_cell_count(&self) {
    }

    fn get_size(&self) -> (r: (u32, u32)) {
        (self.width, self.height)
    }

    fn get_cell_state_wrapped(&self, x: i64, y: i64) -> (r: &CellState) {
        let (x, y) = self.wrap(x, y);
        let i = self.to_world_index(x, y);
        &self.world[i as usize]
    }

    fn get_cell_state(&self, x: u32, y: u32) -> (r: Option<&CellState>) {
        if x < self.width && y < self.height {
            let i = self.to_world_index(x, y);
            Some(&self.world[i as usize])
        } else {
            None
        }
    }

    fn set_cell_state(&mut self, x: u32, y: u32, state: CellState) -> (r: CellState) {
        let index = self.to_world_index(x, y);
        let prev = self.world[index as usize];
        self.world.set(index as usize, state);
        proof {
            assert forall|i: int, j: int|
                0 <= i < self.width && 0 <= j < self.height && (i != x || j != y) implies
                #[trigger] self.spec_cell(i, j) == old(self).spec_cell(i, j) by {
                lemma_linear_index(i, j, self.width as int, self.height as int);
                if linear_index(i, j, self.width as int) == index {
                    lemma_linear_index_unique(i, j, x as int, y as int, self.width as int, self.height as int);
                }
            }
        }
        prev
    }

    fn into_iterator(&self) -> (r: WorldIterator<'_, Self>) {
        WorldIterator::new(self)
    }
}

impl ConstructableWorld for ArrayWorld {
    fn new(width: u32, height: u32) -> (r: Self) {
        let n = width * height;
        let mut world: Vec<CellState> = Vec::new();
        let mut k: u32 = 0;
        while k < n
            invariant
                k <= n,
                n == width * height,
                world@.len() == k,
                forall|i: int| 0 <= i < k ==> #[trigger] world@[i] == CellState::Dead,
            decreases n - k,
        {
            world.push(CellState::Dead);
            k = k + 1;
        }
        let r = Self { width, height, world };
        proof {
            assert forall|x: int, y: int| 0 <= x < width && 0 <= y < height implies
                #[trigger] r.spec_cell(x, y) == CellState::Dead by {
                lemma_linear_index(x, y, width as int, height as int);
            }
        }
        r
    }
}

} // verus!
