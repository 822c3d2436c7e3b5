//! Tiles: rectangles over the table, and how a sparse one grows.

use vstd::prelude::*;
use vstd::string::StringExecFns;
use vstd::arithmetic::div_mod::lemma_fundamental_div_mod;
use vstd::arithmetic::div_mod::lemma_fundamental_div_mod_converse;
use vstd::arithmetic::div_mod::lemma_mod_bound;
use crate::bounds::Bounds;
use crate::bounds::get_limits;
use crate::bounds::lemma_bounds_fit;
use crate::error::TileError;
use crate::table::DecodedTranscript;
use crate::table::decoded_fits;
use crate::table::COORD_LIMIT;
use crate::text::number_text;
use crate::text::push_number;

verus! {

/// Largest magnitude of a tile edge that `expand_tile` accepts, 2^60.
pub const RECT_LIMIT: i64 = 1_152_921_504_606_846_976;

/// A closed axis-aligned rectangle with whole-numbered edges of any size.
pub struct Region {
    pub start_x: int,
    pub end_x: int,
    pub start_y: int,
    pub end_y: int,
}

/// A closed axis-aligned rectangle with whole-numbered edges.
#[derive(Clone, Copy, Debug, PartialEq, Eq, Structural)]
pub struct Rect {
    pub start_x: i64,
    pub end_x: i64,
    pub start_y: i64,
    pub end_y: i64,
}

impl View for Rect {
    type V = Region;

    open spec fn view(&self) -> Region {
        Region {
            start_x: self.start_x as int,
            end_x: self.end_x as int,
            start_y: self.start_y as int,
            end_y: self.end_y as int,
        }
    }
}

impl Rect {
    /// All four edges stay within `RECT_LIMIT`.
    pub open spec fn fits(&self) -> bool {
        &&& -RECT_LIMIT <= self.start_x <= RECT_LIMIT
        &&& -RECT_LIMIT <= self.end_x <= RECT_LIMIT
        &&& -RECT_LIMIT <= self.start_y <= RECT_LIMIT
        &&& -RECT_LIMIT <= self.end_y <= RECT_LIMIT
    }

    /// Tests `fits`.
    pub fn is_valid(&self) -> (ok: bool)
        ensures
            ok == self.fits(),
    {
        -RECT_LIMIT <= self.start_x && self.start_x <= RECT_LIMIT && -RECT_LIMIT <= self.end_x
            && self.end_x <= RECT_LIMIT && -RECT_LIMIT <= self.start_y && self.start_y
            <= RECT_LIMIT && -RECT_LIMIT <= self.end_y && self.end_y <= RECT_LIMIT
    }

    /// Whether the row lies in the rectangle, all four edges included.
    pub fn holds(&self, t: &DecodedTranscript) -> (inside: bool)
        ensures
            inside == self@.holds(*t),
    {
        self.start_x <= t.x.floor && t.x.ceil <= self.end_x && self.start_y <= t.y.floor
            && t.y.ceil <= self.end_y
    }
}

impl Region {
    /// Whether the row lies in the rectangle, all four edges included.
    pub open spec fn holds(&self, t: DecodedTranscript) -> bool {
        &&& self.start_x <= t.x.floor
        &&& t.x.ceil <= self.end_x
        &&& self.start_y <= t.y.floor
        &&& t.y.ceil <= self.end_y
    }

    /// `self` pushed outward by `k` times `increment` on all four sides.
    pub open spec fn grown(&self, increment: int, k: int) -> Region {
        Region {
            start_x: self.start_x - k * increment,
            end_x: self.end_x + k * increment,
            start_y: self.start_y - k * increment,
            end_y: self.end_y + k * increment,
        }
    }

    /// Every point of `inner` is a point of `self`.
    pub open spec fn contains(&self, inner: Region) -> bool {
        &&& self.start_x <= inner.start_x
        &&& inner.end_x <= self.end_x
        &&& self.start_y <= inner.start_y
        &&& inner.end_y <= self.end_y
    }
}

/// The positions in `table` of the rows that lie in `r`, in rising order.
pub open spec fn rows_in(table: Seq<DecodedTranscript>, r: Region) -> Seq<int>
    decreases table.len(),
{
    if table.len() == 0 {
        Seq::empty()
    } else {
        let before = rows_in(table.drop_last(), r);
        if r.holds(table.last()) {
            before.push(table.len() - 1)
        } else {
            before
        }
    }
}

/// How many rows of `table` lie in `r`.
pub open spec fn count_in(table: Seq<DecodedTranscript>, r: Region) -> nat {
    rows_in(table, r).len()
}

/// Whether `request`, grown `k` times, holds at least `minimal` rows.
pub open spec fn meets(
    table: Seq<DecodedTranscript>,
    request: Region,
    increment: int,
    minimal: nat,
    k: int,
) -> bool {
    count_in(table, request.grown(increment, k)) >= minimal
}

/// Whether `k` is the number of growth steps that `request` settles on: the
/// first at which it holds at least `minimal` rows.
pub open spec fn settles_at(
    table: Seq<DecodedTranscript>,
    request: Region,
    increment: int,
    minimal: nat,
    k: int,
) -> bool {
    &&& 0 <= k
    &&& meets(table, request, increment, minimal, k)
    &&& forall|j: int| 0 <= j < k ==> !#[trigger] meets(table, request, increment, minimal, j)
}

/// Whether `tile` is what `request` settles on.
pub open spec fn settled(
    table: Seq<DecodedTranscript>,
    request: Region,
    increment: int,
    minimal: nat,
    tile: Region,
) -> bool {
    exists|k: int|
        #[trigger] settles_at(table, request, increment, minimal, k) && tile == request.grown(
            increment,
            k,
        )
}

/// Whether `request` holds too few rows however often it grows.
pub open spec fn never_meets(
    table: Seq<DecodedTranscript>,
    request: Region,
    increment: int,
    minimal: nat,
) -> bool {
    forall|k: int| 0 <= k ==> !#[trigger] meets(table, request, increment, minimal, k)
}

/// `rows_in` lists exactly the positions of the rows inside `r`, each once
/// and in rising order.
pub proof fn lemma_rows_in(table: Seq<DecodedTranscript>, r: Region)
    ensures
        rows_in(table, r).len() <= table.len(),
        forall|n: int|
            0 <= n < rows_in(table, r).len() ==> 0 <= (#[trigger] rows_in(table, r)[n])
                < table.len() && r.holds(table[rows_in(table, r)[n]]),
        forall|m: int, n: int|
            0 <= m < n < rows_in(table, r).len() ==> rows_in(table, r)[m] < rows_in(table, r)[n],
        forall|i: int|
            0 <= i < table.len() && r.holds(#[trigger] table[i]) ==> rows_in(table, r).contains(i),
    decreases table.len(),
{
    if table.len() > 0 {
        let front = table.drop_last();
        let before = rows_in(front, r);
        let all = rows_in(table, r);
        lemma_rows_in(front, r);
        assert forall|i: int| 0 <= i < table.len() && r.holds(#[trigger] table[i]) implies all.contains(
            i,
        ) by {
            if i < front.len() {
                assert(front[i] == table[i]);
                assert(before.contains(i));
                let n = choose|n: int| 0 <= n < before.len() && before[n] == i;
                assert(all[n] == i);
            } else {
                assert(all[all.len() - 1] == i);
            }
        }
        assert forall|n: int| 0 <= n < all.len() implies 0 <= (#[trigger] all[n]) < table.len()
            && r.holds(table[all[n]]) by {
            if n < before.len() {
                assert(all[n] == before[n]);
                assert(front[before[n]] == table[before[n]]);
            }
        }
    }
}

/// A rectangle that takes in every row that another takes in holds at least
/// as many rows.
pub proof fn lemma_count_monotone(table: Seq<DecodedTranscript>, a: Region, b: Region)
    requires
        forall|i: int| 0 <= i < table.len() && a.holds(#[trigger] table[i]) ==> b.holds(table[i]),
    ensures
        count_in(table, a) <= count_in(table, b),
    decreases table.len(),
{
    if table.len() > 0 {
        let front = table.drop_last();
        assert forall|i: int| 0 <= i < front.len() && a.holds(#[trigger] front[i]) implies b.holds(
            front[i],
        ) by {
            assert(front[i] == table[i]);
        }
        lemma_count_monotone(front, a, b);
        assert(table.last() == table[table.len() - 1]);
    }
}

/// Counts the rows of `table` that lie in `rect`.
pub fn count_rows(table: &Vec<DecodedTranscript>, rect: &Rect) -> (n: usize)
    ensures
        n == count_in(table@, rect@),
{
    let mut n: usize = 0;
    let mut i: usize = 0;
    while i < table.len()
        invariant
            i <= table.len(),
            n <= i,
            n == count_in(table@.take(i as int), rect@),
        decreases table.len() - i,
    {
        proof {
            assert(table@.take(i + 1).drop_last() =~= table@.take(i as int));
            assert(table@.take(i + 1).last() == table@[i as int]);
        }
        if rect.holds(&table[i]) {
            n += 1;
        }
        i += 1;
    }
    assert(table@.take(i as int) =~= table@);
    n
}

/// Lists the positions in `table` of the rows that lie in `rect`, in rising
/// order: the slice of the table that the tile stands for.
pub fn tile_rows(table: &Vec<DecodedTranscript>, rect: &Rect) -> (rows: Vec<usize>)
    ensures
        rows@.len() == rows_in(table@, rect@).len(),
        forall|n: int| 0 <= n < rows@.len() ==> rows@[n] as int == rows_in(table@, rect@)[n],
{
    let mut rows: Vec<usize> = Vec::new();
    let mut i: usize = 0;
    while i < table.len()
        invariant
            i <= table.len(),
            rows@.len() == rows_in(table@.take(i as int), rect@).len(),
            forall|n: int|
                0 <= n < rows@.len() ==> rows@[n] as int == rows_in(
                    table@.take(i as int),
                    rect@,
                )[n],
        decreases table.len() - i,
    {
        proof {
            assert(table@.take(i + 1).drop_last() =~= table@.take(i as int));
            assert(table@.take(i + 1).last() == table@[i as int]);
        }
        if rect.holds(&table[i]) {
            rows.push(i);
        }
        i += 1;
    }
    assert(table@.take(i as int) =~= table@);
    rows
}

/// How far `r` still is from taking in the whole envelope `b`: the widest
/// gap on any side, and 0 once every side is covered.
pub open spec fn slack(r: Region, b: Bounds) -> int {
    let left = r.start_x - b.x_min;
    let right = b.x_max - r.end_x;
    let low = r.start_y - b.y_min;
    let high = b.y_max - r.end_y;
    let across = if left >= right { left } else { right };
    let along = if low >= high { low } else { high };
    let widest = if across >= along { across } else { along };
    if widest >= 0 { widest } else { 0 }
}

/// Finds the tile that `request` settles on.
///
/// The rows inside the closed rectangle are counted. While they are fewer
/// than `minimal_transcripts` the rectangle is pushed outward by `increment`
/// on all four sides and counted again. The first rectangle that holds
/// enough rows is returned.
///
/// A rectangle that already takes in every row of the table cannot gain any
/// by growing, and with an `increment` of zero or less no rectangle can. In
/// both cases the search ends with `SparseTile`, which is returned exactly
/// when no number of growth steps would reach the threshold.
pub fn expand_tile(
    table: &Vec<DecodedTranscript>,
    request: Rect,
    minimal_transcripts: usize,
    increment: i64,
) -> (tile: Result<Rect, TileError>)
    requires
        decoded_fits(table@),
        request.fits(),
        -COORD_LIMIT <= increment <= COORD_LIMIT,
    ensures
        tile matches Ok(r) ==> settled(
            table@,
            request@,
            increment as int,
            minimal_transcripts as nat,
            r@,
        ),
        tile matches Err(e) ==> e == TileError::SparseTile && never_meets(
            table@,
            request@,
            increment as int,
            minimal_transcripts as nat,
        ),
{
    let limits = get_limits(table);
    let mut cur = request;
    let ghost inc = increment as int;
    let ghost minimal = minimal_transcripts as nat;
    let ghost mut k: int = 0;
    let ghost mut g: int = 0;
    assert(0 * inc == 0) by (nonlinear_arith);
    loop
        invariant
            decoded_fits(table@),
            request.fits(),
            -COORD_LIMIT <= increment <= COORD_LIMIT,
            inc == increment as int,
            minimal == minimal_transcripts as nat,
            limits.is_none() <==> table@.len() == 0,
            limits matches Some(b) ==> b.encloses(table@),
            0 <= k,
            increment <= 0 ==> k == 0,
            g == k * inc,
            0 <= g <= RECT_LIMIT + 2 * COORD_LIMIT,
            cur@ == request@.grown(inc, k),
            forall|j: int| 0 <= j < k ==> !#[trigger] meets(table@, request@, inc, minimal, j),
        decreases
            match limits {
                Some(b) => slack(cur@, b),
                None => 0,
            },
    {
        let n = count_rows(table, &cur);
        if n >= minimal_transcripts {
            assert(settles_at(table@, request@, inc, minimal, k));
            return Ok(cur);
        }
        assert(!meets(table@, request@, inc, minimal, k));
        match limits {
            None => {
                assert forall|j: int| 0 <= j implies !#[trigger] meets(
                    table@,
                    request@,
                    inc,
                    minimal,
                    j,
                ) by {
                    assert(count_in(table@, request@.grown(inc, j)) == 0);
                }
                return Err(TileError::SparseTile);
            },
            Some(b) => {
                let covered = cur.start_x <= b.x_min && b.x_max <= cur.end_x && cur.start_y
                    <= b.y_min && b.y_max <= cur.end_y;
                if increment <= 0 || covered {
                    proof {
                        assert forall|j: int| 0 <= j implies !#[trigger] meets(
                            table@,
                            request@,
                            inc,
                            minimal,
                            j,
                        ) by {
                            if j >= k {
                                let wider = request@.grown(inc, j);
                                if !covered {
                                    assert(j * inc <= 0) by (nonlinear_arith)
                                        requires
                                            0 <= j,
                                            inc <= 0,
                                    ;
                                }
                                lemma_count_monotone(table@, wider, cur@);
                            }
                        }
                    }
                    return Err(TileError::SparseTile);
                }
                proof {
                    lemma_bounds_fit(table@, b);
                    assert(g < RECT_LIMIT + COORD_LIMIT);
                    assert((k + 1) * inc == k * inc + inc) by (nonlinear_arith);
                }
                cur =
                Rect {
                    start_x: cur.start_x - increment,
                    end_x: cur.end_x + increment,
                    start_y: cur.start_y - increment,
                    end_y: cur.end_y + increment,
                };
                proof {
                    k = k + 1;
                    g = g + inc;
                }
            },
        }
    }
}

/// How many tile requests start between `lo` and `hi` when the first starts
/// at `lo` and each next one `stride` further.
pub open spec fn steps(lo: int, hi: int, stride: int) -> int {
    (hi - lo) / stride + 1
}

/// The number of tile requests in one line of the grid.
pub open spec fn columns(limits: Bounds, width: int, overlap: int) -> int {
    steps(limits.x_min as int, limits.x_max as int, width - overlap)
}

/// The number of lines in the grid.
pub open spec fn lines(limits: Bounds, height: int, overlap: int) -> int {
    steps(limits.y_min as int, limits.y_max as int, height - overlap)
}

/// The tile request in the given column and line of the grid. Requests start
/// at the lower bounds and follow each other at a stride of the tile size
/// less the overlap.
pub open spec fn request_at(
    limits: Bounds,
    width: int,
    height: int,
    overlap: int,
    column: int,
    line: int,
) -> Region {
    Region {
        start_x: limits.x_min + column * (width - overlap),
        end_x: limits.x_min + column * (width - overlap) + width,
        start_y: limits.y_min + line * (height - overlap),
        end_y: limits.y_min + line * (height - overlap) + height,
    }
}

/// The `n`-th tile request, counting line by line from the lower bounds.
pub open spec fn request_number(
    limits: Bounds,
    width: int,
    height: int,
    overlap: int,
    n: int,
) -> Region {
    let across = columns(limits, width, overlap);
    request_at(limits, width, height, overlap, n % across, n / across)
}

/// Whether `tiles` are what the requests of the grid settle on, one for one
/// and line by line.
pub open spec fn partitioned(
    table: Seq<DecodedTranscript>,
    limits: Bounds,
    width: int,
    height: int,
    overlap: int,
    minimal: nat,
    tiles: Seq<Rect>,
) -> bool {
    &&& tiles.len() == lines(limits, height, overlap) * columns(limits, width, overlap)
    &&& forall|n: int|
        0 <= n < tiles.len() ==> settled(
            table,
            request_number(limits, width, height, overlap, n),
            overlap,
            minimal,
            (#[trigger] tiles[n])@,
        )
}

/// Whether some request of the grid holds too few rows however often it grows.
pub open spec fn has_sparse_request(
    table: Seq<DecodedTranscript>,
    limits: Bounds,
    width: int,
    height: int,
    overlap: int,
    minimal: nat,
) -> bool {
    exists|n: int|
        0 <= n < lines(limits, height, overlap) * columns(limits, width, overlap) && never_meets(
            table,
            #[trigger] request_number(limits, width, height, overlap, n),
            overlap,
            minimal,
        )
}

/// A cursor that has made `c` strides from `lo` is still within `hi` exactly
/// when `c` is less than `steps(lo, hi, stride)`.
pub proof fn lemma_steps(lo: int, hi: int, stride: int, c: int)
    requires
        lo <= hi,
        0 < stride,
        0 <= c,
    ensures
        1 <= steps(lo, hi, stride),
        lo + c * stride <= hi <==> c < steps(lo, hi, stride),
{
    let d = hi - lo;
    let q = d / stride;
    let r = d % stride;
    lemma_fundamental_div_mod(d, stride);
    lemma_mod_bound(d, stride);
    assert(0 <= q) by (nonlinear_arith)
        requires
            d == stride * q + r,
            0 <= r < stride,
            0 <= d,
    ;
    assert(c * stride <= d <==> c <= q) by (nonlinear_arith)
        requires
            d == stride * q + r,
            0 <= r < stride,
            0 < stride,
    ;
}

/// Walks the grid of tile requests over `limits` and settles each of them.
///
/// The walk starts at the lower bounds. Within a line the cursor moves by
/// `width - overlap` while it is not beyond `x_max`; from line to line it
/// moves by `height - overlap` while it is not beyond `y_max`. Each request
/// is `width` wide and `height` high and grows by `overlap` while it holds
/// fewer than `minimal_transcripts` rows. The settled tiles come back line by
/// line; the walk stops with `SparseTile` at the first request that no
/// growth can fill.
#[verifier::loop_isolation(false)]
pub fn partition(
    table: &Vec<DecodedTranscript>,
    limits: Bounds,
    width: i64,
    height: i64,
    overlap: i64,
    minimal_transcripts: usize,
) -> (tiles: Result<Vec<Rect>, TileError>)
    requires
        decoded_fits(table@),
        limits.fits(),
        -COORD_LIMIT <= overlap,
        overlap < width <= COORD_LIMIT,
        overlap < height <= COORD_LIMIT,
    ensures
        tiles matches Ok(v) ==> partitioned(
            table@,
            limits,
            width as int,
            height as int,
            overlap as int,
            minimal_transcripts as nat,
            v@,
        ),
        tiles matches Err(e) ==> e == TileError::SparseTile && has_sparse_request(
            table@,
            limits,
            width as int,
            height as int,
            overlap as int,
            minimal_transcripts as nat,
        ),
{
    let ghost w = width as int;
    let ghost h = height as int;
    let ghost o = overlap as int;
    let ghost across = columns(limits, w, o);
    let ghost down = lines(limits, h, o);
    let mut out: Vec<Rect> = Vec::new();
    let mut y = limits.y_min;
    let ghost mut line: int = 0;
    proof {
        lemma_steps(limits.x_min as int, limits.x_max as int, w - o, 0);
        lemma_steps(limits.y_min as int, limits.y_max as int, h - o, 0);
        assert(0 * (h - o) == 0) by (nonlinear_arith);
        assert(0 * across == 0) by (nonlinear_arith);
    }
    while y <= limits.y_max
        invariant
            0 <= line <= down,
            y == limits.y_min + line * (h - o),
            out@.len() == line * across,
            forall|n: int|
                0 <= n < out@.len() ==> settled(
                    table@,
                    request_number(limits, w, h, o, n),
                    o,
                    minimal_transcripts as nat,
                    (#[trigger] out@[n])@,
                ),
        decreases
            if y <= limits.y_max {
                limits.y_max - y + 1
            } else {
                0
            },
    {
        proof {
            lemma_steps(limits.y_min as int, limits.y_max as int, h - o, line);
            assert(0 * (w - o) == 0) by (nonlinear_arith);
        }
        let mut x = limits.x_min;
        let ghost mut column: int = 0;
        while x <= limits.x_max
            invariant
                0 <= line < down,
                0 <= column <= across,
                x == limits.x_min + column * (w - o),
                y == limits.y_min + line * (h - o),
                y <= limits.y_max,
                out@.len() == line * across + column,
                forall|n: int|
                    0 <= n < out@.len() ==> settled(
                        table@,
                        request_number(limits, w, h, o, n),
                        o,
                        minimal_transcripts as nat,
                        (#[trigger] out@[n])@,
                    ),
            decreases
                if x <= limits.x_max {
                    limits.x_max - x + 1
                } else {
                    0
                },
        {
            let ghost n = line * across + column;
            proof {
                lemma_steps(limits.x_min as int, limits.x_max as int, w - o, column);
                lemma_fundamental_div_mod_converse(n, across, line, column);
                assert(0 <= line * across) by (nonlinear_arith)
                    requires
                        0 <= line,
                        0 <= across,
                ;
                assert(n < down * across) by (nonlinear_arith)
                    requires
                        n == line * across + column,
                        0 <= column < across,
                        0 <= line < down,
                ;
            }
            let request = Rect { start_x: x, end_x: x + width, start_y: y, end_y: y + height };
            assert(request@ == request_number(limits, w, h, o, n));
            match expand_tile(table, request, minimal_transcripts, overlap) {
                Ok(tile) => {
                    out.push(tile);
                },
                Err(e) => {
                    return Err(e);
                },
            }
            x = x + (width - overlap);
            proof {
                assert((column + 1) * (w - o) == column * (w - o) + (w - o)) by (nonlinear_arith);
                column = column + 1;
            }
        }
        proof {
            lemma_steps(limits.x_min as int, limits.x_max as int, w - o, column);
            assert((line + 1) * across == line * across + across) by (nonlinear_arith);
            assert((line + 1) * (h - o) == line * (h - o) + (h - o)) by (nonlinear_arith);
        }
        y = y + (height - overlap);
        proof {
            line = line + 1;
        }
    }
    proof {
        lemma_steps(limits.y_min as int, limits.y_max as int, h - o, line);
    }
    Ok(out)
}

/// A request settles on one tile only.
pub proof fn lemma_settles_once(
    table: Seq<DecodedTranscript>,
    request: Region,
    increment: int,
    minimal: nat,
    a: Region,
    b: Region,
)
    requires
        settled(table, request, increment, minimal, a),
        settled(table, request, increment, minimal, b),
    ensures
        a == b,
{
    let j = choose|k: int|
        #[trigger] settles_at(table, request, increment, minimal, k) && a == request.grown(
            increment,
            k,
        );
    let k = choose|k: int|
        #[trigger] settles_at(table, request, increment, minimal, k) && b == request.grown(
            increment,
            k,
        );
    if j < k {
        assert(!meets(table, request, increment, minimal, j));
    }
    if k < j {
        assert(!meets(table, request, increment, minimal, k));
    }
}

/// A tile grows until it holds enough, and never shrinks.
///
/// The tile that a request settles on holds at least `minimal` rows and
/// takes in the whole request. A request that holds enough rows as it stands
/// is its own tile. One that does not has been pushed outward on all four
/// sides by the increment, once or several times, and at no earlier step did
/// it hold enough; the increment is then above zero.
pub proof fn lemma_settled_tile(
    table: Seq<DecodedTranscript>,
    request: Region,
    increment: int,
    minimal: nat,
    tile: Region,
)
    requires
        settled(table, request, increment, minimal, tile),
    ensures
        count_in(table, tile) >= minimal,
        tile.contains(request),
        count_in(table, request) >= minimal ==> tile == request,
        count_in(table, request) < minimal ==> increment > 0 && exists|k: int|
            1 <= k && #[trigger] settles_at(table, request, increment, minimal, k) && tile
                == request.grown(increment, k),
{
    let k = choose|k: int|
        #[trigger] settles_at(table, request, increment, minimal, k) && tile == request.grown(
            increment,
            k,
        );
    assert(0 * increment == 0) by (nonlinear_arith);
    assert(request.grown(increment, 0) == request);
    if increment > 0 {
        assert(k * increment >= 0) by (nonlinear_arith)
            requires
                k >= 0,
                increment > 0,
        ;
    } else {
        assert(k * increment <= 0) by (nonlinear_arith)
            requires
                k >= 0,
                increment <= 0,
        ;
        lemma_count_monotone(table, tile, request);
        assert(meets(table, request, increment, minimal, 0));
        assert(k == 0);
    }
    if count_in(table, request) >= minimal {
        assert(meets(table, request, increment, minimal, 0));
        assert(k == 0);
    } else {
        assert(!meets(table, request, increment, minimal, 0));
        assert(k >= 1);
    }
}

/// A grid whose requests have all settled has no request that cannot.
pub proof fn lemma_no_sparse_request(
    table: Seq<DecodedTranscript>,
    limits: Bounds,
    width: int,
    height: int,
    overlap: int,
    minimal: nat,
    tiles: Seq<Rect>,
)
    requires
        partitioned(table, limits, width, height, overlap, minimal, tiles),
    ensures
        !has_sparse_request(table, limits, width, height, overlap, minimal),
{
    if has_sparse_request(table, limits, width, height, overlap, minimal) {
        let n = choose|n: int|
            0 <= n < tiles.len() && never_meets(
                table,
                #[trigger] request_number(limits, width, height, overlap, n),
                overlap,
                minimal,
            );
        let request = request_number(limits, width, height, overlap, n);
        assert(settled(table, request, overlap, minimal, tiles[n]@));
        let k = choose|k: int|
            #[trigger] settles_at(table, request, overlap, minimal, k) && tiles[n]@
                == request.grown(overlap, k);
        assert(meets(table, request, overlap, minimal, k));
    }
}

/// With an overlap of zero or more, the tiles of a grid leave no row out.
///
/// Every row of a table lies in at least one tile of the grid over the
/// table's envelope, provided that neighbouring requests touch or overlap.
pub proof fn lemma_grid_covers(
    table: Seq<DecodedTranscript>,
    limits: Bounds,
    width: int,
    height: int,
    overlap: int,
    minimal: nat,
    tiles: Seq<Rect>,
    i: int,
)
    requires
        decoded_fits(table),
        limits.encloses(table),
        0 <= overlap < width,
        overlap < height,
        partitioned(table, limits, width, height, overlap, minimal, tiles),
        0 <= i < table.len(),
    ensures
        exists|n: int| 0 <= n < tiles.len() && (#[trigger] tiles[n])@.holds(table[i]),
{
    let p = table[i];
    assert(p.x.fits() && p.y.fits());
    let sx = width - overlap;
    let sy = height - overlap;
    let dx = p.x.floor - limits.x_min;
    let dy = p.y.floor - limits.y_min;
    let c = dx / sx;
    let l = dy / sy;
    let across = columns(limits, width, overlap);
    let down = lines(limits, height, overlap);
    lemma_fundamental_div_mod(dx, sx);
    lemma_mod_bound(dx, sx);
    lemma_fundamental_div_mod(dy, sy);
    lemma_mod_bound(dy, sy);
    assert(0 <= c && c * sx <= dx < c * sx + sx) by (nonlinear_arith)
        requires
            dx == sx * c + dx % sx,
            0 <= dx % sx < sx,
            0 <= dx,
    ;
    assert(0 <= l && l * sy <= dy < l * sy + sy) by (nonlinear_arith)
        requires
            dy == sy * l + dy % sy,
            0 <= dy % sy < sy,
            0 <= dy,
    ;
    lemma_steps(limits.x_min as int, limits.x_max as int, sx, c);
    lemma_steps(limits.y_min as int, limits.y_max as int, sy, l);
    let n = l * across + c;
    lemma_fundamental_div_mod_converse(n, across, l, c);
    assert(0 <= n < down * across) by (nonlinear_arith)
        requires
            n == l * across + c,
            0 <= c < across,
            0 <= l < down,
    ;
    let request = request_number(limits, width, height, overlap, n);
    assert(request == request_at(limits, width, height, overlap, c, l));
    assert(request.holds(p));
    lemma_settled_tile(table, request, overlap, minimal, tiles[n]@);
    assert(tiles[n]@.holds(p));
}

/// The name of the file that holds a tile: its four edges between fixed words.
pub open spec fn file_name_of(tile: Region) -> Seq<char> {
    "X"@ + number_text(tile.start_x) + "-"@ + number_text(tile.end_x) + "_Y"@ + number_text(
        tile.start_y,
    ) + "-"@ + number_text(tile.end_y) + "_filtered_transcripts.csv"@
}

/// Names the file that holds a tile after the tile's edges.
pub fn tile_file_name(tile: &Rect) -> (name: String)
    ensures
        name@ == file_name_of(tile@),
{
    let mut name = String::new();
    name.append("X");
    push_number(&mut name, tile.start_x);
    name.append("-");
    push_number(&mut name, tile.end_x);
    name.append("_Y");
    push_number(&mut name, tile.start_y);
    name.append("-");
    push_number(&mut name, tile.end_y);
    name.append("_filtered_transcripts.csv");
    assert(name@ =~= file_name_of(tile@));
    name
}

} // verus!
