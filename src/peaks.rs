use vstd::prelude::*;

use crate::consts::{FOOTPRINT_SIZE, MIN_AMP, OVERLAP};
use crate::fingerprint::{sorted_by_time, Peak};

verus! {

/// A cell `(y, x)` of a grid `width` wide and `height` high laid over `len`
/// values row by row; cells past the end of the data do not exist.
pub open spec fn cell(len: int, width: int, height: int, y: int, x: int) -> bool {
    0 <= y < height && 0 <= x < width && y * width + x < len
}

/// Both cells lie in the same tile of side `FOOTPRINT_SIZE`.
pub open spec fn same_tile(y: int, x: int, y2: int, x2: int) -> bool {
    y / (FOOTPRINT_SIZE as int) == y2 / (FOOTPRINT_SIZE as int) && x / (FOOTPRINT_SIZE as int) == x2
        / (FOOTPRINT_SIZE as int)
}

/// Cell `(y, x)` comes before `(y2, x2)` in row-major order.
pub open spec fn before(y: int, x: int, y2: int, x2: int) -> bool {
    y < y2 || (y == y2 && x < x2)
}

/// The magnitude at cell `(y, x)`.
pub open spec fn at(data: Seq<u32>, width: int, y: int, x: int) -> u32 {
    data[y * width + x]
}

/// Cell `(y, x)` exceeds `min` and is the first maximum of its tile: above
/// every cell of the tile before it and at least every cell after it.
pub open spec fn is_peak(data: Seq<u32>, width: int, height: int, min: u32, y: int, x: int) -> bool {
    &&& cell(data.len() as int, width, height, y, x)
    &&& at(data, width, y, x) > min
    &&& forall|y2: int, x2: int|
        #![trigger at(data, width, y2, x2)]
        cell(data.len() as int, width, height, y2, x2) && same_tile(y, x, y2, x2) ==> {
            &&& (before(y2, x2, y, x) ==> at(data, width, y2, x2) < at(data, width, y, x))
            &&& (before(y, x, y2, x2) ==> at(data, width, y2, x2) <= at(data, width, y, x))
        }
}

/// The peaks among the first `n` cells of row `y`, by frequency.
pub open spec fn row_peaks(data: Seq<u32>, width: int, height: int, min: u32, y: int, n: int) -> Seq<
    Peak,
>
    decreases n,
{
    if n <= 0 {
        seq![]
    } else if is_peak(data, width, height, min, y, n - 1) {
        row_peaks(data, width, height, min, y, n - 1).push(
            Peak { time: y as usize, freq: (n - 1) as usize },
        )
    } else {
        row_peaks(data, width, height, min, y, n - 1)
    }
}

/// The peaks of the first `r` rows, row by row.
pub open spec fn rows_peaks(data: Seq<u32>, width: int, height: int, min: u32, r: int) -> Seq<Peak>
    decreases r,
{
    if r <= 0 {
        seq![]
    } else {
        rows_peaks(data, width, height, min, r - 1) + row_peaks(data, width, height, min, r - 1, width)
    }
}

/// All peaks of the grid in row-major order, that is by time.
pub open spec fn peaks_of(data: Seq<u32>, width: int, height: int, min: u32) -> Seq<Peak> {
    rows_peaks(data, width, height, min, height)
}

/// Number of rows that hold at least one value.
pub open spec fn full_rows(len: int, width: int) -> int {
    len / width + if len % width != 0 {
        1int
    } else {
        0int
    }
}

/// Number of tiles of side `FOOTPRINT_SIZE` along a side of length `n`.
pub open spec fn tiles_along(n: int) -> int {
    n / (FOOTPRINT_SIZE as int) + if n % (FOOTPRINT_SIZE as int) != 0 {
        1int
    } else {
        0int
    }
}

/// Number of marked entries among the first `n`.
pub open spec fn marked(m: Seq<bool>, n: int) -> nat
    decreases n,
{
    if n <= 0 {
        0
    } else {
        marked(m, n - 1) + if m[n - 1] {
            1nat
        } else {
            0nat
        }
    }
}

proof fn lemma_marked_set(m: Seq<bool>, i: int, n: int)
    requires
        0 <= i < m.len(),
        0 <= n <= m.len(),
    ensures
        marked(m.update(i, true), n) <= marked(m, n) + 1,
        i >= n ==> marked(m.update(i, true), n) == marked(m, n),
    decreases n,
{
    if n > 0 {
        lemma_marked_set(m, i, n - 1);
    }
}

proof fn lemma_marked_mono(m: Seq<bool>, a: int, b: int)
    requires
        0 <= a <= b,
    ensures
        marked(m, a) <= marked(m, b),
    decreases b,
{
    if b > a {
        lemma_marked_mono(m, a, b - 1);
    }
}

proof fn lemma_marked_none(m: Seq<bool>, n: int)
    requires
        0 <= n <= m.len(),
        forall|j: int| 0 <= j < n ==> !m[j],
    ensures
        marked(m, n) == 0,
    decreases n,
{
    if n > 0 {
        lemma_marked_none(m, n - 1);
    }
}

/// Cell `(y, x)` lies in tile `(ty, tx)`.
pub open spec fn in_tile(ty: int, tx: int, y: int, x: int) -> bool {
    ty * (FOOTPRINT_SIZE as int) <= y < ty * (FOOTPRINT_SIZE as int) + (FOOTPRINT_SIZE as int) && tx * (
    FOOTPRINT_SIZE as int) <= x < tx * (FOOTPRINT_SIZE as int) + (FOOTPRINT_SIZE as int)
}

proof fn lemma_row_start(len: int, w: int, y: int)
    requires
        w > 0,
        len >= 0,
        y >= 0,
    ensures
        (y < full_rows(len, w)) == (y * w < len),
{
    let q = len / w;
    let r = len % w;
    vstd::arithmetic::div_mod::lemma_fundamental_div_mod(len, w);
    assert(len == w * q + r);
    assert(0 <= r < w);
    if y < full_rows(len, w) {
        if r == 0 {
            assert(y * w < len) by (nonlinear_arith)
                requires
                    y < q,
                    len == w * q,
                    w > 0,
            ;
        } else {
            assert(y * w < len) by (nonlinear_arith)
                requires
                    y <= q,
                    len == w * q + r,
                    r > 0,
                    w > 0,
            ;
        }
    } else {
        if r == 0 {
            assert(y * w >= len) by (nonlinear_arith)
                requires
                    y >= q,
                    len == w * q,
                    w > 0,
            ;
        } else {
            assert(y * w >= len) by (nonlinear_arith)
                requires
                    y >= q + 1,
                    len == w * q + r,
                    r < w,
                    w > 0,
            ;
        }
    }
}

pub(crate) proof fn lemma_index_unique(w: int, y: int, x: int, y2: int, x2: int)
    requires
        w > 0,
        0 <= y,
        0 <= y2,
        0 <= x < w,
        0 <= x2 < w,
        y * w + x == y2 * w + x2,
    ensures
        y == y2 && x == x2,
{
    if y < y2 {
        assert(y * w + x < y2 * w + x2) by (nonlinear_arith)
            requires
                y < y2,
                0 <= x < w,
                0 <= x2,
        ;
    } else if y2 < y {
        assert(y2 * w + x2 < y * w + x) by (nonlinear_arith)
            requires
                y2 < y,
                0 <= x2 < w,
                0 <= x,
        ;
    }
}

proof fn lemma_same_tile(ty: int, tx: int, y: int, x: int, y2: int, x2: int)
    requires
        in_tile(ty, tx, y, x),
        0 <= y2,
        0 <= x2,
    ensures
        same_tile(y, x, y2, x2) == in_tile(ty, tx, y2, x2),
{
}

/// Scans tile `(ty, tx)` in row-major order for its first maximum; a
/// maximum of zero means no cell above zero was seen.
fn tile_max(data: &[u32], width: usize, height: usize, rows: usize, ty: usize, tx: usize) -> (r: (
    u32,
    usize,
    usize,
))
    requires
        width > 0,
        rows <= height,
        rows <= full_rows(data@.len() as int, width as int),
        forall|y: int, x: int| cell(data@.len() as int, width as int, height as int, y, x) ==> y < rows,
        ty * FOOTPRINT_SIZE < rows,
        tx * FOOTPRINT_SIZE < width,
    ensures
        r.0 > 0 ==> cell(data@.len() as int, width as int, height as int, r.1 as int, r.2 as int)
            && in_tile(ty as int, tx as int, r.1 as int, r.2 as int) && at(
            data@,
            width as int,
            r.1 as int,
            r.2 as int,
        ) == r.0,
        forall|y: int, x: int|
            cell(data@.len() as int, width as int, height as int, y, x) && in_tile(
                ty as int,
                tx as int,
                y,
                x,
            ) ==> {
                &&& #[trigger] at(data@, width as int, y, x) <= r.0
                &&& (r.0 > 0 && before(y, x, r.1 as int, r.2 as int) ==> at(data@, width as int, y, x)
                    < r.0)
            },
{
    let ghost len = data@.len() as int;
    let ghost w = width as int;
    let ghost h = height as int;
    let len_exec = data.len();
    let sy: usize = ty * FOOTPRINT_SIZE;
    let sx: usize = tx * FOOTPRINT_SIZE;
    let ey: usize = if rows - sy > FOOTPRINT_SIZE {
        sy + FOOTPRINT_SIZE
    } else {
        rows
    };
    let ex: usize = if width - sx > FOOTPRINT_SIZE {
        sx + FOOTPRINT_SIZE
    } else {
        width
    };
    let mut maxv: u32 = 0;
    let mut my: usize = 0;
    let mut mx: usize = 0;
    let mut y: usize = sy;
    while y < ey
        invariant
            len == data@.len(),
            len_exec == len,
            w == width,
            h == height,
            width > 0,
            rows <= height,
            rows <= full_rows(len, w),
            forall|yy: int, xx: int| cell(len, w, h, yy, xx) ==> yy < rows,
            sy == ty * FOOTPRINT_SIZE,
            sx == tx * FOOTPRINT_SIZE,
            sy < ey <= rows,
            ey <= sy + FOOTPRINT_SIZE,
            ey == rows || ey == sy + FOOTPRINT_SIZE,
            sx < ex <= width,
            ex == width || ex == sx + FOOTPRINT_SIZE,
                ex <= sx + FOOTPRINT_SIZE,
            sy <= y <= ey,
            maxv > 0 ==> cell(len, w, h, my as int, mx as int) && in_tile(
                ty as int,
                tx as int,
                my as int,
                mx as int,
            ) && at(data@, w, my as int, mx as int) == maxv && (my as int) < y,
            forall|yy: int, xx: int|
                cell(len, w, h, yy, xx) && in_tile(ty as int, tx as int, yy, xx) && yy < y ==> {
                    &&& #[trigger] at(data@, w, yy, xx) <= maxv
                    &&& (maxv > 0 && before(yy, xx, my as int, mx as int) ==> at(data@, w, yy, xx)
                        < maxv)
                },
        decreases ey - y,
    {
        proof {
            lemma_row_start(len, w, y as int);
        }
        let row_base: usize = y * width;
        let mut x: usize = sx;
        while x < ex
            invariant
                len == data@.len(),
                len_exec == len,
                w == width,
                h == height,
                width > 0,
                rows <= height,
                forall|yy: int, xx: int| cell(len, w, h, yy, xx) ==> yy < rows,
                sy == ty * FOOTPRINT_SIZE,
                sx == tx * FOOTPRINT_SIZE,
                sy <= y < ey,
                ey <= sy + FOOTPRINT_SIZE,
                ey <= rows,
                sx < ex <= width,
                ex == width || ex == sx + FOOTPRINT_SIZE,
                ex <= sx + FOOTPRINT_SIZE,
                sx <= x <= ex,
                row_base == y * width,
                row_base < len,
                maxv > 0 ==> cell(len, w, h, my as int, mx as int) && in_tile(
                    ty as int,
                    tx as int,
                    my as int,
                    mx as int,
                ) && at(data@, w, my as int, mx as int) == maxv && before(
                    my as int,
                    mx as int,
                    y as int,
                    x as int,
                ),
                forall|yy: int, xx: int|
                    cell(len, w, h, yy, xx) && in_tile(ty as int, tx as int, yy, xx) && before(
                        yy,
                        xx,
                        y as int,
                        x as int,
                    ) ==> {
                        &&& #[trigger] at(data@, w, yy, xx) <= maxv
                        &&& (maxv > 0 && before(yy, xx, my as int, mx as int) ==> at(
                            data@,
                            w,
                            yy,
                            xx,
                        ) < maxv)
                    },
            decreases ex - x,
        {
            if x < len_exec - row_base {
                let v = data[row_base + x];
                if v > maxv {
                    maxv = v;
                    my = y;
                    mx = x;
                }
            }
            proof {
                if !(x < len - row_base) {
                    assert(!cell(len, w, h, y as int, x as int));
                }
            }
            x = x + 1;
        }
        proof {
            assert forall|yy: int, xx: int|
                cell(len, w, h, yy, xx) && in_tile(ty as int, tx as int, yy, xx) && yy < y + 1 implies {
                &&& #[trigger] at(data@, w, yy, xx) <= maxv
                &&& (maxv > 0 && before(yy, xx, my as int, mx as int) ==> at(data@, w, yy, xx) < maxv)
            } by {
                assert(before(yy, xx, y as int, ex as int));
            }
        }
        y = y + 1;
    }
    proof {
        assert forall|yy: int, xx: int|
            cell(len, w, h, yy, xx) && in_tile(ty as int, tx as int, yy, xx) implies {
            &&& #[trigger] at(data@, w, yy, xx) <= maxv
            &&& (maxv > 0 && before(yy, xx, my as int, mx as int) ==> at(data@, w, yy, xx) < maxv)
        } by {
            assert(yy < rows);
            assert(yy < ey);
        }
    }
    (maxv, my, mx)
}

proof fn lemma_tile_peaks(
    data: Seq<u32>,
    w: int,
    h: int,
    min: u32,
    ty: int,
    tx: int,
    maxv: u32,
    my: int,
    mx: int,
)
    requires
        w > 0,
        maxv > 0 ==> cell(data.len() as int, w, h, my, mx) && in_tile(ty, tx, my, mx) && at(
            data,
            w,
            my,
            mx,
        ) == maxv,
        forall|y: int, x: int|
            cell(data.len() as int, w, h, y, x) && in_tile(ty, tx, y, x) ==> {
                &&& #[trigger] at(data, w, y, x) <= maxv
                &&& (maxv > 0 && before(y, x, my, mx) ==> at(data, w, y, x) < maxv)
            },
    ensures
        forall|y: int, x: int|
            cell(data.len() as int, w, h, y, x) && in_tile(ty, tx, y, x) ==> (is_peak(
                data,
                w,
                h,
                min,
                y,
                x,
            ) == (maxv > min && y == my && x == mx)),
{
    let len = data.len() as int;
    assert forall|y: int, x: int| cell(len, w, h, y, x) && in_tile(ty, tx, y, x) implies (is_peak(
        data,
        w,
        h,
        min,
        y,
        x,
    ) == (maxv > min && y == my && x == mx)) by {
        if maxv > min && y == my && x == mx {
            assert forall|y2: int, x2: int|
                #![trigger at(data, w, y2, x2)]
                cell(len, w, h, y2, x2) && same_tile(y, x, y2, x2) implies {
                &&& (before(y2, x2, y, x) ==> at(data, w, y2, x2) < at(data, w, y, x))
                &&& (before(y, x, y2, x2) ==> at(data, w, y2, x2) <= at(data, w, y, x))
            } by {
                lemma_same_tile(ty, tx, y, x, y2, x2);
            }
        } else if is_peak(data, w, h, min, y, x) {
            assert(at(data, w, y, x) <= maxv);
            assert(maxv > min);
            lemma_same_tile(ty, tx, y, x, my, mx);
            assert(same_tile(y, x, my, mx));
            if before(my, mx, y, x) {
                assert(at(data, w, my, mx) < at(data, w, y, x));
            } else {
                assert(before(y, x, my, mx));
                assert(at(data, w, y, x) < maxv);
                assert(at(data, w, my, mx) <= at(data, w, y, x));
            }
        }
    }
}

proof fn lemma_row_empty(data: Seq<u32>, w: int, h: int, min: u32, y: int, n: int)
    requires
        forall|x: int| !cell(data.len() as int, w, h, y, x),
    ensures
        row_peaks(data, w, h, min, y, n) == Seq::<Peak>::empty(),
    decreases n,
{
    if n > 0 {
        lemma_row_empty(data, w, h, min, y, n - 1);
    }
}

proof fn lemma_rows_tail(data: Seq<u32>, w: int, h: int, min: u32, rows: int, r: int)
    requires
        0 <= rows <= r,
        forall|y: int, x: int| cell(data.len() as int, w, h, y, x) ==> y < rows,
    ensures
        rows_peaks(data, w, h, min, r) == rows_peaks(data, w, h, min, rows),
    decreases r - rows,
{
    if r > rows {
        lemma_rows_tail(data, w, h, min, rows, r - 1);
        lemma_row_empty(data, w, h, min, r - 1, w);
        assert(rows_peaks(data, w, h, min, r) =~= rows_peaks(data, w, h, min, r - 1));
    }
}

proof fn lemma_row_times(data: Seq<u32>, w: int, h: int, min: u32, y: int, n: int)
    requires
        0 <= y <= usize::MAX,
    ensures
        forall|k: int|
            0 <= k < row_peaks(data, w, h, min, y, n).len() ==> (#[trigger] row_peaks(
                data,
                w,
                h,
                min,
                y,
                n,
            )[k]).time == y,
    decreases n,
{
    if n > 0 {
        lemma_row_times(data, w, h, min, y, n - 1);
        let a = row_peaks(data, w, h, min, y, n - 1);
        let b = row_peaks(data, w, h, min, y, n);
        assert forall|k: int| 0 <= k < b.len() implies (#[trigger] b[k]).time == y by {
            if k < a.len() {
                assert(b[k] == a[k]);
            }
        }
    }
}

proof fn lemma_rows_sorted(data: Seq<u32>, w: int, h: int, min: u32, r: int)
    requires
        0 <= r <= usize::MAX,
    ensures
        sorted_by_time(rows_peaks(data, w, h, min, r)),
        forall|k: int|
            0 <= k < rows_peaks(data, w, h, min, r).len() ==> (#[trigger] rows_peaks(
                data,
                w,
                h,
                min,
                r,
            )[k]).time < r,
    decreases r,
{
    if r > 0 {
        lemma_rows_sorted(data, w, h, min, r - 1);
        lemma_row_times(data, w, h, min, r - 1, w);
        let a = rows_peaks(data, w, h, min, r - 1);
        let b = row_peaks(data, w, h, min, r - 1, w);
        let c = a + b;
        assert forall|k: int| 0 <= k < c.len() implies (#[trigger] c[k]).time < r by {
            if k < a.len() {
                assert(c[k] == a[k]);
            } else {
                assert(c[k] == b[k - a.len()]);
            }
        }
        assert forall|i: int, j: int| 0 <= i <= j < c.len() implies c[i].time <= c[j].time by {
            if j < a.len() {
                assert(c[i] == a[i] && c[j] == a[j]);
            } else if i < a.len() {
                assert(c[i] == a[i] && c[j] == b[j - a.len()]);
            } else {
                assert(c[i] == b[i - a.len()] && c[j] == b[j - a.len()]);
            }
        }
    }
}

/// Keeps, in each tile of side `FOOTPRINT_SIZE` of the `width`-wide grid
/// laid over `data` row by row (tiles at the right and bottom edges are
/// clipped), the first cell of greatest magnitude if that magnitude exceeds
/// `min`, and lists the kept cells in row-major order, hence by time.
/// Magnitudes are ordered keys: for non-negative single-precision values the
/// bit pattern orders as the value does.
pub fn get_2d_local_max(data: &[u32], width: usize, height: usize, min: u32) -> (r: Vec<Peak>)
    requires
        width > 0,
    ensures
        r@ == peaks_of(data@, width as int, height as int, min),
        sorted_by_time(r@),
        r@.len() <= tiles_along(width as int) * tiles_along(height as int),
{
    let ghost len = data@.len() as int;
    let ghost w = width as int;
    let ghost h = height as int;
    let len_exec = data.len();
    let q: usize = len_exec / width;
    proof {
        vstd::arithmetic::div_mod::lemma_fundamental_div_mod(len, w);
        if len % w != 0 {
            assert(q < usize::MAX) by (nonlinear_arith)
                requires
                    len == w * q + len % w,
                    len % w > 0,
                    w >= 1,
                    q >= 0,
                    len <= usize::MAX,
            ;
        }
    }
    let full: usize = if len_exec % width != 0 {
        q + 1
    } else {
        q
    };
    let rows: usize = if height < full {
        height
    } else {
        full
    };
    proof {
        assert forall|y: int, x: int| cell(len, w, h, y, x) implies y < rows by {
            lemma_row_start(len, w, y);
        }
    }
    let mut mask: Vec<bool> = Vec::new();
    let mut k: usize = 0;
    while k < len_exec
        invariant
            len_exec == len,
            k <= len,
            mask@.len() == k,
            forall|j: int| 0 <= j < k ==> !mask@[j],
        decreases len_exec - k,
    {
        mask.push(false);
        k = k + 1;
    }
    let bands: usize = rows / FOOTPRINT_SIZE + if rows % FOOTPRINT_SIZE != 0 {
        1
    } else {
        0
    };
    let cols: usize = width / FOOTPRINT_SIZE + if width % FOOTPRINT_SIZE != 0 {
        1
    } else {
        0
    };
    let ghost mut nt: int = 0;
    proof {
        lemma_marked_none(mask@, len);
    }
    let mut ty: usize = 0;
    while ty < bands
        invariant
            nt == ty * cols,
            marked(mask@, len) <= nt,
            len_exec == len,
            len == data@.len(),
            w == width,
            h == height,
            width > 0,
            rows <= height,
            rows <= full_rows(len, w),
            bands == rows / FOOTPRINT_SIZE + if rows % FOOTPRINT_SIZE != 0 {
                1int
            } else {
                0int
            },
            cols == width / FOOTPRINT_SIZE + if width % FOOTPRINT_SIZE != 0 {
                1int
            } else {
                0int
            },
            forall|y: int, x: int| cell(len, w, h, y, x) ==> y < rows,
            ty <= bands,
            mask@.len() == len,
            forall|y: int, x: int|
                cell(len, w, h, y, x) ==> #[trigger] mask@[y * w + x] == (y < ty * FOOTPRINT_SIZE
                    && is_peak(data@, w, h, min, y, x)),
        decreases bands - ty,
    {
        let mut tx: usize = 0;
        while tx < cols
            invariant
                nt == ty * cols + tx,
                marked(mask@, len) <= nt,
                len_exec == len,
                len == data@.len(),
                w == width,
                h == height,
                width > 0,
                rows <= height,
                rows <= full_rows(len, w),
                cols == width / FOOTPRINT_SIZE + if width % FOOTPRINT_SIZE != 0 {
                    1int
                } else {
                    0int
                },
                forall|y: int, x: int| cell(len, w, h, y, x) ==> y < rows,
                ty < bands,
                ty * FOOTPRINT_SIZE < rows,
                tx <= cols,
                mask@.len() == len,
                forall|y: int, x: int|
                    cell(len, w, h, y, x) ==> #[trigger] mask@[y * w + x] == ((y < ty
                        * FOOTPRINT_SIZE || (y < ty * FOOTPRINT_SIZE + FOOTPRINT_SIZE && x < tx
                        * FOOTPRINT_SIZE)) && is_peak(data@, w, h, min, y, x)),
            decreases cols - tx,
        {
            let (maxv, my, mx) = tile_max(data, width, height, rows, ty, tx);
            proof {
                lemma_tile_peaks(data@, w, h, min, ty as int, tx as int, maxv, my as int, mx as int);
            }
            let ghost old_mask = mask@;
            if maxv > min {
                proof {
                    lemma_row_start(len, w, my as int);
                    lemma_marked_set(mask@, my * w + mx, len);
                }
                mask.set(my * width + mx, true);
            }
            proof {
                nt = nt + 1;
            }
            proof {
                assert forall|y: int, x: int| cell(len, w, h, y, x) implies #[trigger] mask@[y * w
                    + x] == ((y < ty * FOOTPRINT_SIZE || (y < ty * FOOTPRINT_SIZE + FOOTPRINT_SIZE
                    && x < (tx + 1) * FOOTPRINT_SIZE)) && is_peak(data@, w, h, min, y, x)) by {
                    if maxv > min && y * w + x == my * w + mx {
                        lemma_index_unique(w, y, x, my as int, mx as int);
                    }
                    assert(old_mask[y * w + x] == ((y < ty * FOOTPRINT_SIZE || (y < ty
                        * FOOTPRINT_SIZE + FOOTPRINT_SIZE && x < tx * FOOTPRINT_SIZE)) && is_peak(
                        data@,
                        w,
                        h,
                        min,
                        y,
                        x,
                    )));
                }
            }
            tx = tx + 1;
        }
        proof {
            assert((ty + 1) * cols == ty * cols + cols) by (nonlinear_arith);
        }
        ty = ty + 1;
    }
    let mut out: Vec<Peak> = Vec::new();
    let mut y: usize = 0;
    while y < rows
        invariant
            len_exec == len,
            len == data@.len(),
            w == width,
            h == height,
            width > 0,
            rows <= height,
            rows <= full_rows(len, w),
            y <= rows,
            mask@.len() == len,
            forall|yy: int, x: int|
                cell(len, w, h, yy, x) ==> #[trigger] mask@[yy * w + x] == is_peak(
                    data@,
                    w,
                    h,
                    min,
                    yy,
                    x,
                ),
            out@ == rows_peaks(data@, w, h, min, y as int),
            y * w <= len ==> out@.len() == marked(mask@, y * w),
            y * w > len ==> out@.len() == marked(mask@, len),
        decreases rows - y,
    {
        proof {
            lemma_row_start(len, w, y as int);
        }
        let row_base: usize = y * width;
        let mut x: usize = 0;
        while x < width
            invariant
                len_exec == len,
                len == data@.len(),
                w == width,
                h == height,
                y < rows,
                rows <= height,
                row_base == y * width,
                row_base < len,
                x <= width,
                mask@.len() == len,
                forall|yy: int, xx: int|
                    cell(len, w, h, yy, xx) ==> #[trigger] mask@[yy * w + xx] == is_peak(
                        data@,
                        w,
                        h,
                        min,
                        yy,
                        xx,
                    ),
                out@ == rows_peaks(data@, w, h, min, y as int) + row_peaks(
                    data@,
                    w,
                    h,
                    min,
                    y as int,
                    x as int,
                ),
                row_base + x <= len ==> out@.len() == marked(mask@, row_base + x),
                row_base + x > len ==> out@.len() == marked(mask@, len),
            decreases width - x,
        {
            if x < len_exec - row_base && mask[row_base + x] {
                out.push(Peak { time: y, freq: x });
            }
            proof {
                if !(x < len - row_base) {
                    assert(!cell(len, w, h, y as int, x as int));
                } else {
                    assert(cell(len, w, h, y as int, x as int));
                }
                assert(out@ =~= rows_peaks(data@, w, h, min, y as int) + row_peaks(
                    data@,
                    w,
                    h,
                    min,
                    y as int,
                    x + 1,
                ));
            }
            x = x + 1;
        }
        proof {
            assert((y + 1) * w == y * w + w) by (nonlinear_arith);
        }
        y = y + 1;
    }
    proof {
        if rows * w <= len {
            lemma_marked_mono(mask@, rows * w, len);
        }
        assert(bands <= tiles_along(h));
        assert(cols == tiles_along(w));
        assert(bands * cols <= tiles_along(w) * tiles_along(h)) by (nonlinear_arith)
            requires
                0 <= bands <= tiles_along(h),
                0 <= cols == tiles_along(w),
        ;
        lemma_rows_tail(data@, w, h, min, rows as int, h);
        lemma_rows_sorted(data@, w, h, min, h);
    }
    out
}

/// Peaks of a spectrogram whose rows are `OVERLAP` bins wide, one row per
/// analysis window, above `MIN_AMP`.
pub fn spectrogram_to_sorted_peaks(spec: &[u32]) -> (r: Vec<Peak>)
    ensures
        r@ == peaks_of(spec@, OVERLAP as int, spec@.len() as int / OVERLAP as int, MIN_AMP),
        sorted_by_time(r@),
{
    get_2d_local_max(spec, OVERLAP, spec.len() / OVERLAP, MIN_AMP)
}

/// The peak list is a function of the spectrogram and the parameters alone:
/// extracting twice from the same data gives the same list.
pub proof fn lemma_peaks_deterministic(d1: Seq<u32>, d2: Seq<u32>, w: int, h: int, min: u32)
    requires
        d1 == d2,
    ensures
        peaks_of(d1, w, h, min) == peaks_of(d2, w, h, min),
{
}

} // verus!
