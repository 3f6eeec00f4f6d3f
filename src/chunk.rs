use crate::life::next_state;
use crate::world::{CellState, World};
use vstd::prelude::*;

verus! {

/// `n / k` rounded up.
pub open spec fn ceil_div(n: int, k: int) -> int {
    (n + k - 1) / k
}

/// Where chunk number `c` along an axis of length `n`, cut into `k` chunks, starts:
/// `c` chunk lengths in. Chunks that start at or past the end are empty.
pub open spec fn axis_origin(n: int, k: int, c: int) -> int {
    c * ceil_div(n, k)
}

/// The length of chunk number `c` along an axis of length `n` cut into `k` chunks,
/// clipped to the axis: 0 for a chunk that starts at or past the end.
pub open spec fn axis_extent(n: int, k: int, c: int) -> int {
    let o = axis_origin(n, k, c);
    let e = o + ceil_div(n, k);
    if o >= n {
        0
    } else if e < n {
        e - o
    } else {
        n - o
    }
}

/// Cell `(x, y)` lies in chunk `c` of a `width` × `height` grid cut into `side` × `side`
/// chunks, numbered row by row.
pub open spec fn in_chunk(width: int, height: int, side: int, c: int, x: int, y: int) -> bool {
    let ox = axis_origin(width, side, c % side);
    let oy = axis_origin(height, side, c / side);
    &&& ox <= x < ox + axis_extent(width, side, c % side)
    &&& oy <= y < oy + axis_extent(height, side, c / side)
}

/// Cell `(x, y)` of an all-Dead grid after the next-generation chunks `0 .. k` of `g`,
/// for a cut into `side` × `side` chunks, have been copied into it in order.
pub open spec fn merged_cell<T: World>(g: T, side: int, k: nat, x: int, y: int) -> CellState
    decreases k,
{
    if k == 0 {
        CellState::Dead
    } else if in_chunk(g.spec_width() as int, g.spec_height() as int, side, k - 1, x, y) {
        next_state(g, x, y)
    } else {
        merged_cell(g, side, (k - 1) as nat, x, y)
    }
}

/// Facts on the rounded-up quotient: it is at most `n`, and `k` of them cover `n`.
pub proof fn lemma_ceil_div(n: int, k: int)
    requires
        n >= 0,
        k >= 1,
    ensures
        0 <= ceil_div(n, k) <= n,
        k * ceil_div(n, k) >= n,
        n > 0 ==> ceil_div(n, k) >= 1,
{
    let q = ceil_div(n, k);
    vstd::arithmetic::div_mod::lemma_fundamental_div_mod(n + k - 1, k);
    let r = (n + k - 1) % k;
    assert(0 <= q <= n && k * q >= n && (n > 0 ==> q >= 1)) by (nonlinear_arith)
        requires
            n + k - 1 == k * q + r,
            0 <= r < k,
            n >= 0,
            k >= 1,
    ;
}

/// Every cell of the grid lies in some chunk of a `side` × `side` cut.
pub proof fn lemma_chunks_cover(width: int, height: int, side: int, x: int, y: int) -> (c: int)
    requires
        side >= 1,
        0 <= x < width,
        0 <= y < height,
    ensures
        0 <= c < side * side,
        in_chunk(width, height, side, c, x, y),
{
    lemma_ceil_div(width, side);
    lemma_ceil_div(height, side);
    let cw = ceil_div(width, side);
    let ch = ceil_div(height, side);
    let col = x / cw;
    let row = y / ch;
    vstd::arithmetic::div_mod::lemma_fundamental_div_mod(x, cw);
    vstd::arithmetic::div_mod::lemma_fundamental_div_mod(y, ch);
    assert(0 <= col < side && col * cw <= x < col * cw + cw) by (nonlinear_arith)
        requires
            x == cw * col + x % cw,
            0 <= x % cw < cw,
            0 <= x < width,
            side * cw >= width,
    ;
    assert(0 <= row < side && row * ch <= y < row * ch + ch) by (nonlinear_arith)
        requires
            y == ch * row + y % ch,
            0 <= y % ch < ch,
            0 <= y < height,
            side * ch >= height,
    ;
    let c = row * side + col;
    vstd::arithmetic::div_mod::lemma_fundamental_div_mod_converse(c, side, row, col);
    assert(0 <= c < side * side) by (nonlinear_arith)
        requires
            c == row * side + col,
            0 <= row < side,
            0 <= col < side,
    ;
    c
}

/// After all `side * side` chunks are merged, every cell holds its next state.
pub proof fn lemma_merge_complete<T: World>(g: T, side: int, x: int, y: int)
    requires
        side >= 1,
        0 <= x < g.spec_width(),
        0 <= y < g.spec_height(),
    ensures
        merged_cell(g, side, (side * side) as nat, x, y) == next_state(g, x, y),
{
    let c = lemma_chunks_cover(g.spec_width() as int, g.spec_height() as int, side, x, y);
    lemma_merged_after_chunk(g, side, c, (side * side) as nat, x, y);
}

/// Once a chunk holding `(x, y)` has been merged, the cell holds its next state.
proof fn lemma_merged_after_chunk<T: World>(g: T, side: int, c: int, k: nat, x: int, y: int)
    requires
        0 <= c < k,
        in_chunk(g.spec_width() as int, g.spec_height() as int, side, c, x, y),
    ensures
        merged_cell(g, side, k, x, y) == next_state(g, x, y),
    decreases k,
{
    if k - 1 != c && !in_chunk(g.spec_width() as int, g.spec_height() as int, side, k - 1, x, y) {
        lemma_merged_after_chunk(g, side, c, (k - 1) as nat, x, y);
    }
}

/// Chunking never changes a generation: for any two chunk layouts of `side1` × `side1`
/// and `side2` × `side2` chunks, merging all the chunks gives the same grid.
pub proof fn lemma_partition_invariance<T: World>(g: T, side1: int, side2: int, x: int, y: int)
    requires
        side1 >= 1,
        side2 >= 1,
        0 <= x < g.spec_width(),
        0 <= y < g.spec_height(),
    ensures
        merged_cell(g, side1, (side1 * side1) as nat, x, y) == merged_cell(
            g,
            side2,
            (side2 * side2) as nat,
            x,
            y,
        ),
{
    lemma_merge_complete(g, side1, x, y);
    lemma_merge_complete(g, side2, x, y);
}

/// The next generation of one chunk of a grid, as a grid of its own, with the chunk's number.
pub struct WorldChunk<T> {
    pub index: u32,
    pub world: T,
}

/// `chunk` has the clipped size of chunk `chunk.index` of a `side` × `side` cut of a
/// `width` × `height` grid.
pub open spec fn chunk_fits<T: World>(width: int, height: int, side: int, chunk: WorldChunk<T>) -> bool {
    let c = chunk.index as int;
    &&& chunk.world.spec_width() == axis_extent(width, side, c % side)
    &&& chunk.world.spec_height() == axis_extent(height, side, c / side)
}

/// `chunk` is well formed, has the clipped size of chunk `chunk.index` of a `side` × `side`
/// cut of `source`, and holds the next generation of that region.
pub open spec fn chunk_holds_next<T: World>(source: T, side: int, chunk: WorldChunk<T>) -> bool {
    let w = source.spec_width() as int;
    let h = source.spec_height() as int;
    let c = chunk.index as int;
    let ox = axis_origin(w, side, c % side);
    let oy = axis_origin(h, side, c / side);
    &&& chunk.world.well_formed()
    &&& chunk_fits(w, h, side, chunk)
    &&& forall|i: int, j: int|
        0 <= i < chunk.world.spec_width() && 0 <= j < chunk.world.spec_height()
            ==> #[trigger] chunk.world.spec_cell(i, j) == next_state(source, ox + i, oy + j)
}

/// Some chunk of `chunks` has number `c`.
pub open spec fn chunk_listed<T>(chunks: Seq<WorldChunk<T>>, c: int) -> bool {
    exists|k: int| 0 <= k < chunks.len() && (#[trigger] chunks[k]).index == c
}

/// Every chunk number below `n` appears in `chunks`.
pub open spec fn lists_all_chunks<T>(chunks: Seq<WorldChunk<T>>, n: int) -> bool {
    forall|c: int| 0 <= c < n ==> #[trigger] chunk_listed(chunks, c)
}

/// Cell `(x, y)` of an all-Dead `width` × `height` grid after `chunks[0 .. k]` have been
/// copied into it, each at the origin of its chunk number in a `side` × `side` cut.
pub open spec fn merged_from<T: World>(
    width: int,
    height: int,
    side: int,
    chunks: Seq<WorldChunk<T>>,
    k: nat,
    x: int,
    y: int,
) -> CellState
    decreases k,
{
    if k == 0 {
        CellState::Dead
    } else {
        let c = chunks[k - 1].index as int;
        if in_chunk(width, height, side, c, x, y) {
            chunks[k - 1].world.spec_cell(
                x - axis_origin(width, side, c % side),
                y - axis_origin(height, side, c / side),
            )
        } else {
            merged_from(width, height, side, chunks, (k - 1) as nat, x, y)
        }
    }
}

/// Once a correct chunk holding `(x, y)` has been merged, and every chunk merged is
/// correct, the cell holds its next state.
pub proof fn lemma_merged_from<T: World>(source: T, side: int, chunks: Seq<WorldChunk<T>>, m: int, k: nat, x: int, y: int)
    requires
        0 <= m < k <= chunks.len(),
        forall|n: int| 0 <= n < chunks.len() ==> chunk_holds_next(source, side, #[trigger] chunks[n]),
        in_chunk(
            source.spec_width() as int,
            source.spec_height() as int,
            side,
            chunks[m].index as int,
            x,
            y,
        ),
    ensures
        merged_from(source.spec_width() as int, source.spec_height() as int, side, chunks, k, x, y)
            == next_state(source, x, y),
    decreases k,
{
    let w = source.spec_width() as int;
    let h = source.spec_height() as int;
    let c = chunks[k - 1].index as int;
    if in_chunk(w, h, side, c, x, y) {
        let ch = chunks[k - 1];
        assert(chunk_holds_next(source, side, ch));
        let i = x - axis_origin(w, side, c % side);
        let j = y - axis_origin(h, side, c / side);
        assert(ch.world.spec_cell(i, j) == next_state(source, axis_origin(w, side, c % side) + i, axis_origin(h, side, c / side) + j));
    } else {
        lemma_merged_from(source, side, chunks, m, (k - 1) as nat, x, y);
    }
}

} // verus!
