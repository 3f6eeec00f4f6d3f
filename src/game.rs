use crate::chunk::{
    axis_extent, axis_origin, ceil_div, chunk_fits, chunk_holds_next, chunk_listed, lemma_ceil_div,
    lemma_merged_from, lists_all_chunks, merged_cell, merged_from, WorldChunk,
};
use crate::life::{
    get_cell_next_state, is_evolution, is_next_generation, lemma_evolution_step, next_state,
};
use crate::world::{lemma_linear_index, linear_index, CellState, ConstructableWorld, World};
use rand::Rng;
use vstd::prelude::*;

verus! {

/// Nanoseconds in one second.
pub const NANOS_PER_SECOND: u64 = 1_000_000_000;

/// `s` is the integer square root of `n`.
pub open spec fn is_isqrt(n: int, s: int) -> bool {
    0 <= s && s * s <= n < (s + 1) * (s + 1)
}

/// The integer square root of `n`.
fn isqrt(n: u64) -> (s: u32)
    requires
        n <= u32::MAX,
    ensures
        is_isqrt(n as int, s as int),
        s <= 65535,
        n == 0 ==> s == 0,
{
    let mut s: u64 = 0;
    loop
        invariant
            s * s <= n,
            n <= u32::MAX,
            s <= 65535,
        ensures
            is_isqrt(n as int, s as int),
            s <= 65535,
        decreases n - s * s,
    {
        let t = s + 1;
        proof {
            assert(t * t <= 65536 * 65536) by (nonlinear_arith)
                requires
                    t <= 65536,
            ;
        }
        if t * t > n {
            break ;
        }
        proof {
            assert(s * s < t * t) by (nonlinear_arith)
                requires
                    t == s + 1,
            ;
            assert(t <= 65535) by (nonlinear_arith)
                requires
                    t * t <= n,
                    n <= u32::MAX,
            ;
        }
        s = t;
    }
    proof {
        if n == 0 {
            assert(s == 0) by (nonlinear_arith)
                requires
                    s * s <= 0,
            ;
        }
    }
    s as u32
}

/// Relies on rand's thread-local generator and `Rng::gen_range(0, high)`:
/// a value in `[0, high)`.
#[verifier::external_body]
fn random_below(high: u32) -> (r: u32)
    requires
        high > 0,
    ensures
        r < high,
{
    rand::thread_rng().gen_range(0, high)
}

/// Some entry of `cells` is `(x, y)`.
pub open spec fn listed(cells: Seq<(u32, u32)>, x: int, y: int) -> bool {
    exists|k: int| 0 <= k < cells.len() && (#[trigger] cells[k]).0 == x && cells[k].1 == y
}

/// Byte `b` of the four-byte color drawn for cell number `i` (row-major) of `g`.
pub open spec fn pixel_byte<T: World>(g: T, live_color: [u8; 4], dead_color: [u8; 4], i: int, b: int) -> u8 {
    let w = g.spec_width() as int;
    if g.spec_cell(i % w, i / w) == CellState::Alive {
        live_color@[b]
    } else {
        dead_color@[b]
    }
}

/// Relies on `Arc::clone`: the clone shares the value.
#[verifier::external_body]
fn share<T>(a: &std::sync::Arc<T>) -> (r: std::sync::Arc<T>)
    ensures
        *r == **a,
{
    std::sync::Arc::clone(a)
}

/// The running simulation: the published generation of a grid, paced in time.
pub struct Game<T> {
    generation: u64,
    world: std::sync::Arc<T>,
    frame_time: u64,
    waiting: u64,
    num_threads: usize,
    split_side: u32,
}

impl<T: World + ConstructableWorld> Game<T> {
    /// The published generation.
    pub closed spec fn spec_world(&self) -> T {
        *self.world
    }

    pub closed spec fn spec_generation(&self) -> nat {
        self.generation as nat
    }

    /// Nanoseconds per generation.
    pub closed spec fn spec_frame_time(&self) -> nat {
        self.frame_time as nat
    }

    /// Elapsed nanoseconds not yet spent on a generation.
    pub closed spec fn spec_waiting(&self) -> nat {
        self.waiting as nat
    }

    /// The number of chunks, one job each, that a generation is cut into.
    pub closed spec fn spec_num_threads(&self) -> nat {
        self.num_threads as nat
    }

    /// Chunks per side of the square layout of chunks.
    pub closed spec fn spec_split_side(&self) -> nat {
        self.split_side as nat
    }

    /// The number of whole frame times in the time waiting plus `elapsed` nanoseconds.
    pub open spec fn due_steps(&self, elapsed: u64) -> nat {
        ((self.spec_waiting() + elapsed as nat) / self.spec_frame_time()) as nat
    }

    /// What remains of the time waiting plus `elapsed` nanoseconds after the whole frame
    /// times are taken out.
    pub open spec fn time_left_over(&self, elapsed: u64) -> nat {
        ((self.spec_waiting() + elapsed as nat) % self.spec_frame_time()) as nat
    }

    pub closed spec fn well_formed(&self) -> bool {
        &&& self.world.well_formed()
        &&& 1 <= self.split_side <= 65535
        &&& self.num_threads == self.split_side * self.split_side
        &&& self.frame_time > 0
        &&& self.waiting < self.frame_time
    }

    /// Starts at generation 0 from `world`, aiming at `fps` generations per second, with
    /// the worker count brought down to the largest perfect square at most
    /// `num_threads` (and at least 1).
    pub fn new(world: T, fps: i64, num_threads: usize) -> (r: Game<T>)
        requires
            world.well_formed(),
            0 < fps <= NANOS_PER_SECOND,
            num_threads <= u32::MAX,
        ensures
            r.well_formed(),
            r.spec_world() == world,
            r.spec_generation() == 0,
            r.spec_waiting() == 0,
            r.spec_frame_time() == NANOS_PER_SECOND as int / fps as int,
            r.spec_num_threads() == r.spec_split_side() * r.spec_split_side(),
            num_threads >= 1 ==> is_isqrt(num_threads as int, r.spec_split_side() as int),
            num_threads == 0 ==> r.spec_split_side() == 1,
    {
        let mut split_side = isqrt(num_threads as u64);
        if split_side == 0 {
            split_side = 1;
        }
        proof {
            assert(split_side * split_side <= 65536 * 65536) by (nonlinear_arith)
                requires
                    split_side <= 65536,
            ;
            if num_threads >= 1 {
                assert(split_side >= 1) by (nonlinear_arith)
                    requires
                        is_isqrt(num_threads as int, split_side as int),
                        num_threads >= 1,
                ;
            }
        }
        let num_threads = split_side as usize * split_side as usize;
        let frame_time = NANOS_PER_SECOND / fps as u64;
        proof {
            vstd::arithmetic::div_mod::lemma_div_non_zero(NANOS_PER_SECOND as int, fps as int);
        }
        Game {
            num_threads,
            split_side,
            generation: 0,
            waiting: 0,
            frame_time,
            world: std::sync::Arc::new(world),
        }
    }

    /// The published generation.
    pub fn world(&self) -> (r: &T)
        ensures
            *r == self.spec_world(),
    {
        &*self.world
    }

    pub fn generation(&self) -> (r: u64)
        ensures
            r == self.spec_generation(),
    {
        self.generation
    }

    pub fn frame_time(&self) -> (r: u64)
        ensures
            r == self.spec_frame_time(),
    {
        self.frame_time
    }

    pub fn waiting(&self) -> (r: u64)
        ensures
            r == self.spec_waiting(),
    {
        self.waiting
    }

    pub fn num_threads(&self) -> (r: usize)
        ensures
            r == self.spec_num_threads(),
    {
        self.num_threads
    }

    /// Writes the four-byte color of every cell, in row-major order, into consecutive
    /// four-byte slots of `screen`: `live_color` for a live cell, `dead_color` for a dead one.
    pub fn draw(&self, live_color: [u8; 4], dead_color: [u8; 4], screen: &mut [u8])
        requires
            self.well_formed(),
            old(screen)@.len() == self.spec_world().spec_width() * self.spec_world().spec_height()
                * 4,
        ensures
            final(screen)@.len() == old(screen)@.len(),
            forall|i: int, b: int|
                0 <= i < self.spec_world().spec_width() * self.spec_world().spec_height() && 0 <= b
                    < 4 ==> #[trigger] final(screen)@[4 * i + b] == pixel_byte(
                    self.spec_world(),
                    live_color,
                    dead_color,
                    i,
                    b,
                ),
    {
        let ghost g = self.spec_world();
        let ghost n = g.spec_width() * g.spec_height();
        let screen_len = screen.len();
        let ghost len = old(screen)@.len();
        let mut it = self.world.into_iterator();
        let mut k: usize = 0;
        loop
            invariant
                g.well_formed(),
                it.source() == g,
                it.position() == k,
                k <= n,
                n == g.spec_width() * g.spec_height(),
                len == n * 4,
                len == screen_len,
                screen@.len() == len,
                forall|i: int, b: int|
                    0 <= i < k && 0 <= b < 4 ==> #[trigger] screen@[4 * i + b] == pixel_byte(
                        g,
                        live_color,
                        dead_color,
                        i,
                        b,
                    ),
            ensures
                screen@.len() == len,
                forall|i: int, b: int|
                    0 <= i < n && 0 <= b < 4 ==> #[trigger] screen@[4 * i + b] == pixel_byte(
                        g,
                        live_color,
                        dead_color,
                        i,
                        b,
                    ),
            decreases n - k,
        {
            match it.next() {
                Some((_, _, cell)) => {
                    let pix = if *cell == CellState::Alive {
                        live_color
                    } else {
                        dead_color
                    };
                    proof {
                        assert(4 * k + 4 <= len) by (nonlinear_arith)
                            requires
                                k < n,
                                len == n * 4,
                        ;
                    }
                    let base = 4 * k;
                    screen[base] = pix[0];
                    screen[base + 1] = pix[1];
                    screen[base + 2] = pix[2];
                    screen[base + 3] = pix[3];
                    proof {
                        assert forall|i: int, b: int| 0 <= i < k + 1 && 0 <= b < 4 implies
                            #[trigger] screen@[4 * i + b] == pixel_byte(g, live_color, dead_color, i, b) by {
                            if i < k {
                                assert(4 * i + b < base) by (nonlinear_arith)
                                    requires
                                        i < k,
                                        b < 4,
                                        base == 4 * k,
                                ;
                            }
                        }
                    }
                    k = k + 1;
                },
                None => {
                    break ;
                },
            }
        }
    }

    /// Sets every listed cell of the published grid Alive; the others keep their state.
    pub fn populate_at(&mut self, cells: &Vec<(u32, u32)>)
        requires
            old(self).well_formed(),
            forall|k: int|
                0 <= k < cells@.len() ==> (#[trigger] cells@[k]).0 < old(self).spec_world().spec_width()
                    && cells@[k].1 < old(self).spec_world().spec_height(),
        ensures
            final(self).well_formed(),
            final(self).spec_generation() == old(self).spec_generation(),
            final(self).spec_waiting() == old(self).spec_waiting(),
            final(self).spec_frame_time() == old(self).spec_frame_time(),
            final(self).spec_num_threads() == old(self).spec_num_threads(),
            final(self).spec_world().spec_width() == old(self).spec_world().spec_width(),
            final(self).spec_world().spec_height() == old(self).spec_world().spec_height(),
            forall|x: int, y: int|
                0 <= x < old(self).spec_world().spec_width() && 0 <= y < old(
                    self,
                ).spec_world().spec_height() ==> #[trigger] final(self).spec_world().spec_cell(x, y)
                    == if listed(cells@, x, y) {
                    CellState::Alive
                } else {
                    old(self).spec_world().spec_cell(x, y)
                },
    {
        let (width, height) = self.world.get_size();
        proof {
            self.world.lemma_cell_count();
        }
        let ghost g = self.spec_world();
        let mut fresh = T::new(width, height);
        Self::apply_chunk(&mut fresh, &*self.world, 0, 0);
        let mut k: usize = 0;
        while k < cells.len()
            invariant
                k <= cells@.len(),
                fresh.well_formed(),
                fresh.spec_width() == width,
                fresh.spec_height() == height,
                g.spec_width() == width,
                g.spec_height() == height,
                forall|m: int|
                    0 <= m < cells@.len() ==> (#[trigger] cells@[m]).0 < width && cells@[m].1 < height,
                forall|x: int, y: int|
                    0 <= x < width && 0 <= y < height ==> #[trigger] fresh.spec_cell(x, y) == if listed(
                        cells@.take(k as int),
                        x,
                        y,
                    ) {
                        CellState::Alive
                    } else {
                        g.spec_cell(x, y)
                    },
            decreases cells@.len() - k,
        {
            let (x, y) = cells[k];
            fresh.set_cell_state(x, y, CellState::Alive);
            proof {
                let prev = cells@.take(k as int);
                let next = cells@.take(k + 1);
                assert(next[k as int] == cells@[k as int]);
                assert forall|i: int, j: int| 0 <= i < width && 0 <= j < height implies
                    #[trigger] listed(next, i, j) == (listed(prev, i, j) || (i == x && j == y)) by {
                    if listed(prev, i, j) {
                        let m = choose|m: int| 0 <= m < prev.len() && (#[trigger] prev[m]).0 == i && prev[m].1 == j;
                        assert(next[m] == prev[m]);
                    }
                    if listed(next, i, j) {
                        let m = choose|m: int| 0 <= m < next.len() && (#[trigger] next[m]).0 == i && next[m].1 == j;
                        if m < k {
                            assert(prev[m] == next[m]);
                        }
                    }
                }
            }
            k = k + 1;
        }
        proof {
            assert(cells@.take(cells@.len() as int) =~= cells@);
        }
        self.world = std::sync::Arc::new(fresh);
    }

    /// Sets `num_cells` cells, drawn uniformly at random with replacement, Alive: on a
    /// non-empty grid some list of exactly `num_cells` in-bounds cells is set Alive and
    /// every other cell keeps its state. An empty grid is left as it is.
    pub fn populate(&mut self, num_cells: u32)
        requires
            old(self).well_formed(),
        ensures
            final(self).well_formed(),
            final(self).spec_generation() == old(self).spec_generation(),
            final(self).spec_waiting() == old(self).spec_waiting(),
            final(self).spec_frame_time() == old(self).spec_frame_time(),
            final(self).spec_num_threads() == old(self).spec_num_threads(),
            final(self).spec_world().spec_width() == old(self).spec_world().spec_width(),
            final(self).spec_world().spec_height() == old(self).spec_world().spec_height(),
            old(self).spec_world().spec_width() == 0 || old(self).spec_world().spec_height() == 0
                ==> final(self).spec_world() == old(self).spec_world(),
            old(self).spec_world().spec_width() > 0 && old(self).spec_world().spec_height() > 0
                ==> exists|s: Seq<(u32, u32)>|
                #![trigger s.len()]
                s.len() == num_cells && (forall|k: int|
                    0 <= k < s.len() ==> (#[trigger] s[k]).0 < old(self).spec_world().spec_width()
                        && s[k].1 < old(self).spec_world().spec_height()) && (forall|x: int, y: int|
                    0 <= x < old(self).spec_world().spec_width() && 0 <= y < old(
                        self,
                    ).spec_world().spec_height() ==> #[trigger] final(self).spec_world().spec_cell(
                        x,
                        y,
                    ) == if listed(s, x, y) {
                        CellState::Alive
                    } else {
                        old(self).spec_world().spec_cell(x, y)
                    }),
    {
        let (width, height) = self.world.get_size();
        if width == 0 || height == 0 {
            return ;
        }
        let mut cells: Vec<(u32, u32)> = Vec::new();
        let mut k: u32 = 0;
        while k < num_cells
            invariant
                k <= num_cells,
                cells@.len() == k,
                width > 0,
                height > 0,
                forall|m: int|
                    0 <= m < cells@.len() ==> (#[trigger] cells@[m]).0 < width && cells@[m].1 < height,
            decreases num_cells - k,
        {
            let x = random_below(width);
            let y = random_below(height);
            cells.push((x, y));
            k = k + 1;
        }
        self.populate_at(&cells);
        proof {
            assert(cells@.len() == num_cells);
        }
    }

    /// Adds `elapsed_nanos` to the time waiting and takes out every whole frame time in
    /// it, returning how many were taken: the generations now due, for a caller that
    /// computes them itself. The grid and the generation count are left as they are.
    pub fn take_due_steps(&mut self, elapsed_nanos: u64) -> (r: u64)
        requires
            old(self).well_formed(),
        ensures
            final(self).well_formed(),
            r == old(self).due_steps(elapsed_nanos),
            final(self).spec_waiting() == old(self).time_left_over(elapsed_nanos),
            final(self).spec_world() == old(self).spec_world(),
            final(self).spec_generation() == old(self).spec_generation(),
            final(self).spec_frame_time() == old(self).spec_frame_time(),
            final(self).spec_num_threads() == old(self).spec_num_threads(),
            final(self).spec_split_side() == old(self).spec_split_side(),
    {
        let total: u128 = self.waiting as u128 + elapsed_nanos as u128;
        let due = total / self.frame_time as u128;
        let rest = total % self.frame_time as u128;
        proof {
            let ft = self.frame_time as int;
            vstd::arithmetic::div_mod::lemma_fundamental_div_mod(total as int, ft);
            if ft == 1 {
                assert(due == total) by (nonlinear_arith)
                    requires
                        total == ft * due + rest,
                        0 <= rest < ft,
                        ft == 1,
                ;
            } else {
                assert(due <= u64::MAX) by (nonlinear_arith)
                    requires
                        total == ft * due + rest,
                        0 <= rest,
                        total <= self.waiting + u64::MAX,
                        self.waiting < ft,
                        ft >= 2,
                ;
            }
        }
        self.waiting = rest as u64;
        due as u64
    }

    /// A shared handle on the published generation, for jobs that read it.
    pub fn snapshot(&self) -> (r: std::sync::Arc<T>)
        ensures
            *r == self.spec_world(),
    {
        share(&self.world)
    }

    /// Chunks per side of the square layout of chunks.
    pub fn split_side(&self) -> (r: u32)
        ensures
            r == self.spec_split_side(),
    {
        self.split_side
    }

    /// The job of one worker: the next generation of chunk `index` of `source`, cut into
    /// `split_side` × `split_side` chunks.
    pub fn compute_chunk(source: &T, index: u32, split_side: u32) -> (r: WorldChunk<T>)
        requires
            source.well_formed(),
            split_side >= 1,
        ensures
            r.index == index,
            chunk_holds_next(*source, split_side as int, r),
    {
        let (width, height) = source.get_size();
        let (x, y, chunk_width, chunk_height) = Self::get_chunk_limits(
            width,
            height,
            index,
            split_side,
            split_side,
        );
        let world = Self::get_chunk_next_state(source, x, y, chunk_width, chunk_height);
        WorldChunk { index, world }
    }

    /// Merges worker results into a fresh grid and publishes it as the next generation.
    /// Returns `false`, changing nothing, exactly when some chunk's size is not that of the
    /// chunk its number names; otherwise each chunk is copied, in order, at the origin its
    /// number names. When every chunk is a result of
    /// `compute_chunk` on the published generation and every chunk number appears, in any
    /// order, the published grid is its next generation.
    pub fn publish_chunks(&mut self, chunks: &Vec<WorldChunk<T>>) -> (r: bool)
        requires
            old(self).well_formed(),
            old(self).spec_generation() < u64::MAX,
            forall|k: int| 0 <= k < chunks@.len() ==> (#[trigger] chunks@[k]).world.well_formed(),
        ensures
            final(self).well_formed(),
            final(self).spec_waiting() == old(self).spec_waiting(),
            final(self).spec_frame_time() == old(self).spec_frame_time(),
            final(self).spec_num_threads() == old(self).spec_num_threads(),
            final(self).spec_split_side() == old(self).spec_split_side(),
            !r ==> final(self).spec_world() == old(self).spec_world() && final(self).spec_generation()
                == old(self).spec_generation(),
            r ==> final(self).spec_generation() == old(self).spec_generation() + 1,
            r ==> final(self).spec_world().spec_width() == old(self).spec_world().spec_width(),
            r ==> final(self).spec_world().spec_height() == old(self).spec_world().spec_height(),
            r == (forall|k: int|
                0 <= k < chunks@.len() ==> chunk_fits(
                    old(self).spec_world().spec_width() as int,
                    old(self).spec_world().spec_height() as int,
                    old(self).spec_split_side() as int,
                    #[trigger] chunks@[k],
                )),
            r ==> forall|x: int, y: int|
                0 <= x < old(self).spec_world().spec_width() && 0 <= y < old(
                    self,
                ).spec_world().spec_height() ==> #[trigger] final(self).spec_world().spec_cell(x, y)
                    == merged_from(
                    old(self).spec_world().spec_width() as int,
                    old(self).spec_world().spec_height() as int,
                    old(self).spec_split_side() as int,
                    chunks@,
                    chunks@.len(),
                    x,
                    y,
                ),
            (forall|k: int|
                0 <= k < chunks@.len() ==> chunk_holds_next(
                    old(self).spec_world(),
                    old(self).spec_split_side() as int,
                    #[trigger] chunks@[k],
                )) ==> r,
            r && (forall|k: int|
                0 <= k < chunks@.len() ==> chunk_holds_next(
                    old(self).spec_world(),
                    old(self).spec_split_side() as int,
                    #[trigger] chunks@[k],
                )) && lists_all_chunks(chunks@, old(self).spec_num_threads() as int) ==> is_next_generation(
                old(self).spec_world(),
                final(self).spec_world(),
            ),
    {
        let (width, height) = self.world.get_size();
        let side = self.split_side;
        proof {
            self.world.lemma_cell_count();
        }
        let ghost src = self.spec_world();
        let mut new_world = T::new(width, height);
        let mut k: usize = 0;
        while k < chunks.len()
            invariant
                k <= chunks@.len(),
                side >= 1,
                *self == *old(self),
                self.well_formed(),
                src == self.spec_world(),
                side == self.split_side,
                src.spec_width() == width,
                src.spec_height() == height,
                new_world.well_formed(),
                new_world.spec_width() == width,
                new_world.spec_height() == height,
                forall|n: int| 0 <= n < chunks@.len() ==> (#[trigger] chunks@[n]).world.well_formed(),
                forall|n: int|
                    0 <= n < k ==> chunk_fits(
                        width as int,
                        height as int,
                        side as int,
                        #[trigger] chunks@[n],
                    ),
                forall|px: int, py: int|
                    0 <= px < width && 0 <= py < height ==> #[trigger] new_world.spec_cell(px, py)
                        == merged_from(width as int, height as int, side as int, chunks@, k as nat, px, py),
            decreases chunks@.len() - k,
        {
            let chunk = &chunks[k];
            let (x, y, chunk_width, chunk_height) = Self::get_chunk_limits(
                width,
                height,
                chunk.index,
                side,
                side,
            );
            let (cw, ch) = chunk.world.get_size();
            let extent_x: u32 = if x >= width as u64 {
                0
            } else if x + (chunk_width as u64) < width as u64 {
                chunk_width
            } else {
                (width as u64 - x) as u32
            };
            let extent_y: u32 = if y >= height as u64 {
                0
            } else if y + (chunk_height as u64) < height as u64 {
                chunk_height
            } else {
                (height as u64 - y) as u32
            };
            if cw != extent_x || ch != extent_y {
                proof {
                    assert(!chunk_fits(width as int, height as int, side as int, chunks@[k as int]));
                    assert(!chunk_holds_next(src, side as int, chunks@[k as int]));
                }
                return false;
            }
            Self::apply_chunk(&mut new_world, &chunk.world, x, y);
            k = k + 1;
        }
        proof {
            let n = self.num_threads as int;
            if (forall|k: int|
                0 <= k < chunks@.len() ==> chunk_holds_next(src, side as int, #[trigger] chunks@[k]))
                && lists_all_chunks(chunks@, n) {
                assert forall|px: int, py: int| 0 <= px < width && 0 <= py < height implies
                    #[trigger] new_world.spec_cell(px, py) == next_state(src, px, py) by {
                    let c = crate::chunk::lemma_chunks_cover(width as int, height as int, side as int, px, py);
                    assert(chunk_listed(chunks@, c));
                    let m = choose|k: int| 0 <= k < chunks@.len() && (#[trigger] chunks@[k]).index == c;
                    lemma_merged_from(src, side as int, chunks@, m, chunks@.len(), px, py);
                }
            }
        }
        self.world = std::sync::Arc::new(new_world);
        self.generation = self.generation + 1;
        true
    }

    /// Computes the next generation chunk by chunk, in a `split_side` × `split_side`
    /// layout, merges the chunks into a fresh grid and publishes it.
    fn step(&mut self)
        requires
            old(self).well_formed(),
            old(self).generation < u64::MAX,
        ensures
            final(self).well_formed(),
            is_next_generation(old(self).spec_world(), final(self).spec_world()),
            final(self).generation == old(self).generation + 1,
            final(self).waiting == old(self).waiting,
            final(self).frame_time == old(self).frame_time,
            final(self).num_threads == old(self).num_threads,
            final(self).split_side == old(self).split_side,
    {
        let (width, height) = self.world.get_size();
        let split_grid_side_count = self.split_side;
        proof {
            self.world.lemma_cell_count();
            assert(self.split_side * self.split_side <= 65535 * 65535) by (nonlinear_arith)
                requires
                    self.split_side * self.split_side == self.num_threads,
                    self.num_threads <= usize::MAX,
                    self.split_side <= 65535,
            ;
        }
        let num_chunks = self.num_threads as u32;
        let new_world = {
            let source: &T = &*self.world;
            let mut new_world = T::new(width, height);
            let mut i: u32 = 0;
            while i < num_chunks
                invariant
                    source.well_formed(),
                    source.spec_width() == width,
                    source.spec_height() == height,
                    split_grid_side_count >= 1,
                    i <= num_chunks,
                    new_world.well_formed(),
                    new_world.spec_width() == width,
                    new_world.spec_height() == height,
                    forall|px: int, py: int|
                        0 <= px < width && 0 <= py < height ==> #[trigger] new_world.spec_cell(px, py)
                            == merged_cell(*source, split_grid_side_count as int, i as nat, px, py),
                decreases num_chunks - i,
            {
                let (x, y, chunk_width, chunk_height) = Self::get_chunk_limits(
                    width,
                    height,
                    i,
                    split_grid_side_count,
                    split_grid_side_count,
                );
                let chunk = Self::get_chunk_next_state(source, x, y, chunk_width, chunk_height);
                Self::apply_chunk(&mut new_world, &chunk, x, y);
                i = i + 1;
            }
            proof {
                assert forall|px: int, py: int| 0 <= px < width && 0 <= py < height implies
                    #[trigger] new_world.spec_cell(px, py) == next_state(*source, px, py) by {
                    crate::chunk::lemma_merge_complete(
                        *source,
                        split_grid_side_count as int,
                        px,
                        py,
                    );
                }
            }
            new_world
        };
        self.world = std::sync::Arc::new(new_world);
        self.generation = self.generation + 1;
    }

    /// Adds `elapsed_nanos` to the time waiting, then runs one generation for each whole
    /// frame time in it, keeping the remainder waiting.
    pub fn update(&mut self, elapsed_nanos: u64)
        requires
            old(self).well_formed(),
            old(self).spec_generation() + old(self).due_steps(elapsed_nanos) <= u64::MAX,
        ensures
            final(self).well_formed(),
            final(self).spec_frame_time() == old(self).spec_frame_time(),
            final(self).spec_num_threads() == old(self).spec_num_threads(),
            final(self).spec_waiting() == old(self).time_left_over(elapsed_nanos),
            final(self).spec_generation() == old(self).spec_generation() + old(self).due_steps(
                elapsed_nanos,
            ),
            is_evolution(
                old(self).spec_world(),
                old(self).due_steps(elapsed_nanos),
                final(self).spec_world(),
            ),
    {
        let ghost g0 = self.spec_world();
        let ghost total0: int = self.waiting + elapsed_nanos;
        let ghost ft: int = self.frame_time as int;
        let mut total: u128 = self.waiting as u128 + elapsed_nanos as u128;
        let ghost mut done: nat = 0;
        proof {
            vstd::arithmetic::div_mod::lemma_fundamental_div_mod(total0, ft);
        }
        while total >= self.frame_time as u128
            invariant
                self.well_formed(),
                ft == self.frame_time,
                self.frame_time == old(self).frame_time,
                self.waiting == old(self).waiting,
                self.num_threads == old(self).num_threads,
                self.split_side == old(self).split_side,
                total0 == old(self).waiting + elapsed_nanos,
                total0 == ft * (total0 / ft) + total0 % ft,
                0 <= total0 % ft < ft,
                total + done * ft == total0,
                self.generation == old(self).generation + done,
                old(self).generation + total0 / ft <= u64::MAX,
                g0 == old(self).spec_world(),
                is_evolution(g0, done, self.spec_world()),
            decreases total,
        {
            proof {
                assert(done + 1 <= total0 / ft) by (nonlinear_arith)
                    requires
                        total + done * ft == total0,
                        total >= ft,
                        ft > 0,
                        total0 == ft * (total0 / ft) + total0 % ft,
                        0 <= total0 % ft < ft,
                ;
            }
            let ghost before = self.spec_world();
            self.step();
            proof {
                lemma_evolution_step(g0, done, before, self.spec_world());
                done = done + 1;
                assert(total - ft + done * ft == total0) by (nonlinear_arith)
                    requires
                        total + (done - 1) * ft == total0,
                ;
            }
            total = total - self.frame_time as u128;
        }
        proof {
            vstd::arithmetic::div_mod::lemma_fundamental_div_mod_converse(
                total0,
                ft,
                done as int,
                total as int,
            );
        }
        self.waiting = total as u64;
    }

    /// Origin and unclipped size `(x, y, chunk_width, chunk_height)` of chunk `index` of a
    /// `width` × `height` grid cut into `num_rows` rows and `num_cols` columns of chunks,
    /// numbered row by row. An origin may lie at or past the grid's edge: that chunk is empty.
    fn get_chunk_limits(width: u32, height: u32, index: u32, num_rows: u32, num_cols: u32) -> (r: (
        u64,
        u64,
        u32,
        u32,
    ))
        requires
            num_rows > 0,
            num_cols > 0,
        ensures
            r.0 == axis_origin(width as int, num_cols as int, (index % num_cols) as int),
            r.1 == axis_origin(height as int, num_rows as int, (index / num_cols) as int),
            r.2 == ceil_div(width as int, num_cols as int),
            r.3 == ceil_div(height as int, num_rows as int),
    {
        proof {
            lemma_ceil_div(width as int, num_cols as int);
            lemma_ceil_div(height as int, num_rows as int);
        }
        let chunk_width = ((width as u64 + num_cols as u64 - 1) / num_cols as u64) as u32;
        let chunk_height = ((height as u64 + num_rows as u64 - 1) / num_rows as u64) as u32;
        let col = (index % num_cols) as u64;
        let row = (index / num_cols) as u64;
        proof {
            assert(col * chunk_width <= u32::MAX * u32::MAX) by (nonlinear_arith)
                requires
                    col <= u32::MAX,
                    chunk_width <= u32::MAX,
            ;
            assert(row * chunk_height <= u32::MAX * u32::MAX) by (nonlinear_arith)
                requires
                    row <= u32::MAX,
                    chunk_height <= u32::MAX,
            ;
        }
        let x = col * chunk_width as u64;
        let y = row * chunk_height as u64;
        (x, y, chunk_width, chunk_height)
    }

    /// The next generation of the region of `source` at `(x, y)` of size
    /// `grid_width` × `grid_height`, clipped to the grid, as a grid of its own; empty
    /// when the region starts at or past the grid's edge.
    fn get_chunk_next_state(source: &T, x: u64, y: u64, grid_width: u32, grid_height: u32) -> (r: T)
        requires
            source.well_formed(),
        ensures
            r.well_formed(),
            r.spec_width() == (if x >= source.spec_width() {
                0
            } else if x + grid_width < source.spec_width() {
                grid_width as int
            } else {
                source.spec_width() - x
            }),
            r.spec_height() == (if y >= source.spec_height() {
                0
            } else if y + grid_height < source.spec_height() {
                grid_height as int
            } else {
                source.spec_height() - y
            }),
            forall|i: int, j: int|
                0 <= i < r.spec_width() && 0 <= j < r.spec_height() ==> #[trigger] r.spec_cell(i, j)
                    == next_state(*source, x + i, y + j),
    {
        let (world_width, world_height) = source.get_size();
        proof {
            source.lemma_cell_count();
        }
        let width: u32 = if x >= world_width as u64 {
            0
        } else if x + (grid_width as u64) < world_width as u64 {
            grid_width
        } else {
            (world_width as u64 - x) as u32
        };
        let height: u32 = if y >= world_height as u64 {
            0
        } else if y + (grid_height as u64) < world_height as u64 {
            grid_height
        } else {
            (world_height as u64 - y) as u32
        };
        proof {
            assert(width * height <= world_width * world_height) by (nonlinear_arith)
                requires
                    width <= world_width,
                    height <= world_height,
            ;
        }
        let mut output = T::new(width, height);
        let mut i: u32 = 0;
        while i < width
            invariant
                source.well_formed(),
                source.spec_width() == world_width,
                source.spec_height() == world_height,
                width == 0 || x + width <= world_width,
                height == 0 || y + height <= world_height,
                i <= width,
                output.well_formed(),
                output.spec_width() == width,
                output.spec_height() == height,
                forall|a: int, b: int|
                    0 <= a < i && 0 <= b < height ==> #[trigger] output.spec_cell(a, b) == next_state(
                        *source,
                        x + a,
                        y + b,
                    ),
            decreases width - i,
        {
            let mut j: u32 = 0;
            while j < height
                invariant
                    source.well_formed(),
                    source.spec_width() == world_width,
                    source.spec_height() == world_height,
                    width == 0 || x + width <= world_width,
                    height == 0 || y + height <= world_height,
                    i < width,
                    j <= height,
                    output.well_formed(),
                    output.spec_width() == width,
                    output.spec_height() == height,
                    forall|a: int, b: int|
                        0 <= a < width && 0 <= b < height && (a < i || (a == i && b < j))
                            ==> #[trigger] output.spec_cell(a, b) == next_state(*source, x + a, y + b),
                decreases height - j,
            {
                let next_state = get_cell_next_state(
                    source,
                    (i as u64 + x) as u32,
                    (j as u64 + y) as u32,
                );
                output.set_cell_state(i, j, next_state);
                j = j + 1;
            }
            i = i + 1;
        }
        output
    }

    /// Copies every cell of `source` into `destination` at offset `(x, y)`.
    fn apply_chunk(destination: &mut T, source: &T, x: u64, y: u64)
        requires
            old(destination).well_formed(),
            source.well_formed(),
            source.spec_width() * source.spec_height() == 0 || (x + source.spec_width() <= old(
                destination,
            ).spec_width() && y + source.spec_height() <= old(destination).spec_height()),
        ensures
            final(destination).well_formed(),
            final(destination).spec_width() == old(destination).spec_width(),
            final(destination).spec_height() == old(destination).spec_height(),
            forall|i: int, j: int|
                0 <= i < old(destination).spec_width() && 0 <= j < old(destination).spec_height()
                    ==> #[trigger] final(destination).spec_cell(i, j) == if x <= i < x
                    + source.spec_width() && y <= j < y + source.spec_height() {
                    source.spec_cell(i - x, j - y)
                } else {
                    old(destination).spec_cell(i, j)
                },
    {
        let ghost sw = source.spec_width() as int;
        let ghost sh = source.spec_height() as int;
        let mut it = source.into_iterator();
        proof {
            source.lemma_cell_count();
            destination.lemma_cell_count();
        }
        loop
            invariant
                source.well_formed(),
                sw == source.spec_width(),
                sh == source.spec_height(),
                it.source() == *source,
                it.position() <= sw * sh,
                destination.well_formed(),
                destination.spec_width() == old(destination).spec_width(),
                destination.spec_height() == old(destination).spec_height(),
                sw * sh == 0 || (x + sw <= destination.spec_width() && y + sh
                    <= destination.spec_height()),
                destination.spec_width() <= u32::MAX,
                destination.spec_height() <= u32::MAX,
                forall|i: int, j: int|
                    0 <= i < old(destination).spec_width() && 0 <= j < old(destination).spec_height()
                        ==> #[trigger] destination.spec_cell(i, j) == if x <= i < x + sw && y <= j < y
                        + sh && linear_index(i - x, j - y, sw) < it.position() {
                        source.spec_cell(i - x, j - y)
                    } else {
                        old(destination).spec_cell(i, j)
                    },
            ensures
                destination.well_formed(),
                destination.spec_width() == old(destination).spec_width(),
                destination.spec_height() == old(destination).spec_height(),
                forall|i: int, j: int|
                    0 <= i < old(destination).spec_width() && 0 <= j < old(destination).spec_height()
                        ==> #[trigger] destination.spec_cell(i, j) == if x <= i < x + sw && y <= j < y
                        + sh {
                        source.spec_cell(i - x, j - y)
                    } else {
                        old(destination).spec_cell(i, j)
                    },
            decreases sw * sh - it.position(),
        {
            let ghost p = it.position() as int;
            match it.next() {
                Some((cell_x, cell_y, state)) => {
                    proof {
                        assert(sw > 0) by (nonlinear_arith)
                            requires
                                0 <= p < sw * sh,
                                sh >= 0,
                        ;
                        vstd::arithmetic::div_mod::lemma_fundamental_div_mod(p, sw);
                        assert(cell_y < sh) by (nonlinear_arith)
                            requires
                                cell_y == p / sw,
                                p < sw * sh,
                                sw > 0,
                        ;
                        assert(linear_index(cell_x as int, cell_y as int, sw) == p) by (
                        nonlinear_arith)
                            requires
                                p == sw * (p / sw) + p % sw,
                                cell_x == p % sw,
                                cell_y == p / sw,
                        ;
                    }
                    let ghost before = *destination;
                    destination.set_cell_state(
                        (x + cell_x as u64) as u32,
                        (y + cell_y as u64) as u32,
                        *state,
                    );
                    proof {
                        assert forall|i: int, j: int|
                            0 <= i < old(destination).spec_width() && 0 <= j < old(
                                destination,
                            ).spec_height() && x <= i < x + sw && y <= j < y + sh implies (
                        #[trigger] linear_index(i - x, j - y, sw) < p + 1 <==> (linear_index(i - x, j - y, sw)
                            < p || (i == x + cell_x && j == y + cell_y))) by {
                            lemma_linear_index(i - x, j - y, sw, sh);
                            if linear_index(i - x, j - y, sw) == p {
                                crate::world::lemma_linear_index_unique(
                                    i - x,
                                    j - y,
                                    cell_x as int,
                                    cell_y as int,
                                    sw,
                                    sh,
                                );
                            }
                        }
                    }
                },
                None => {
                    proof {
                        assert forall|i: int, j: int| x <= i < x + sw && y <= j < y + sh implies
                            #[trigger] linear_index(i - x, j - y, sw) < it.position() by {
                            lemma_linear_index(i - x, j - y, sw, sh);
                        }
                        assert forall|i: int, j: int|
                            0 <= i < old(destination).spec_width() && 0 <= j < old(
                                destination,
                            ).spec_height() implies #[trigger] destination.spec_cell(i, j) == if x
                            <= i < x + sw && y <= j < y + sh {
                            source.spec_cell(i - x, j - y)
                        } else {
                            old(destination).spec_cell(i, j)
                        } by {
                            if x <= i < x + sw && y <= j < y + sh {
                                assert(linear_index(i - x, j - y, sw) < it.position());
                            }
                        }
                    }
                    break ;
                },
            }
        }
    }
}

} // verus!
