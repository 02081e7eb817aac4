use vstd::prelude::*;

use crate::fingerprint::Peak;
use crate::peaks::lemma_index_unique;

verus! {

/// Some peak sits at time `y` and frequency `x`.
pub open spec fn has_peak(peaks: Seq<Peak>, y: int, x: int) -> bool {
    exists|k: int| 0 <= k < peaks.len() && peaks[k].time == y && peaks[k].freq == x
}

/// The colour channel value of cell `(y, x)`: black on a peak, white elsewhere.
pub open spec fn shade(peaks: Seq<Peak>, y: int, x: int) -> u8 {
    if has_peak(peaks, y, x) {
        0
    } else {
        255
    }
}

proof fn lemma_cell_order(w: int, y: int, x: int, y2: int, x2: int)
    requires
        w > 0,
        0 <= y,
        0 <= y2,
        0 <= x < w,
        0 <= x2 < w,
    ensures
        (y * w + x < y2 * w + x2) == (y < y2 || (y == y2 && x < x2)),
{
    if y < y2 {
        assert(y * w + x < y2 * w + x2) by (nonlinear_arith)
            requires
                y < y2,
                0 <= x < w,
                0 <= x2,
        ;
    } else if y2 < y {
        assert(y2 * w + x2 < y * w + x) by (nonlinear_arith)
            requires
                y2 < y,
                0 <= x2 < w,
                0 <= x,
        ;
    }
}

proof fn lemma_cell_in_range(w: int, h: int, y: int, x: int)
    requires
        0 <= y < h,
        0 <= x < w,
    ensures
        0 <= y * w + x < w * h,
        0 <= (y * w + x) * 3,
        (y * w + x) * 3 + 3 <= w * h * 3,
{
    assert(0 <= y * w + x < w * h) by (nonlinear_arith)
        requires
            0 <= y < h,
            0 <= x < w,
    ;
    assert((y * w + x) * 3 + 3 <= w * h * 3) by (nonlinear_arith)
        requires
            y * w + x < w * h,
    ;
}

/// An RGB image of `w` by `h` cells, row by row (a row per time, a column
/// per frequency), three bytes per cell: black where a peak sits, white
/// elsewhere. Peaks outside the image are left out.
pub fn peaks_image(peaks: &[Peak], w: usize, h: usize) -> (r: Vec<u8>)
    requires
        w * h * 3 <= usize::MAX,
    ensures
        r@.len() == w * h * 3,
        forall|y: int, x: int, c: int|
            0 <= y < h && 0 <= x < w && 0 <= c < 3 ==> #[trigger] r@[(y * w + x) * 3 + c] == shade(
                peaks@,
                y,
                x,
            ),
{
    let ghost wi = w as int;
    proof {
        assert(w * h <= usize::MAX) by (nonlinear_arith)
            requires
                w * h * 3 <= usize::MAX,
                w >= 0,
                h >= 0,
        ;
    }
    let n: usize = w * h;
    let mut mask: Vec<bool> = Vec::new();
    let mut k: usize = 0;
    while k < n
        invariant
            k <= n,
            mask@.len() == k,
            forall|j: int| 0 <= j < k ==> !mask@[j],
        decreases n - k,
    {
        mask.push(false);
        k = k + 1;
    }
    proof {
        assert forall|y: int, x: int| 0 <= y < h && 0 <= x < w implies #[trigger] mask@[y * wi + x]
            == exists|k: int| 0 <= k < 0 && peaks@[k].time == y && peaks@[k].freq == x by {
            lemma_cell_in_range(wi, h as int, y, x);
        }
    }
    let mut i: usize = 0;
    while i < peaks.len()
        invariant
            n == w * h,
            wi == w,
            i <= peaks@.len(),
            mask@.len() == n,
            forall|y: int, x: int|
                0 <= y < h && 0 <= x < w ==> #[trigger] mask@[y * wi + x] == exists|k: int|
                    0 <= k < i && peaks@[k].time == y && peaks@[k].freq == x,
        decreases peaks.len() - i,
    {
        let p = peaks[i];
        let ghost old_mask = mask@;
        if p.freq < w && p.time < h {
            proof {
                assert(p.time * w + p.freq < w * h) by (nonlinear_arith)
                    requires
                        p.time < h,
                        p.freq < w,
                ;
            }
            mask.set(p.time * w + p.freq, true);
        }
        proof {
            assert forall|y: int, x: int| 0 <= y < h && 0 <= x < w implies #[trigger] mask@[y * wi
                + x] == exists|k: int|
                0 <= k < i + 1 && peaks@[k].time == y && peaks@[k].freq == x by {
                lemma_cell_in_range(wi, h as int, y, x);
                if p.freq < w && p.time < h && y * wi + x == p.time * wi + p.freq {
                    lemma_index_unique(wi, y, x, p.time as int, p.freq as int);
                }
                assert(old_mask[y * wi + x] == exists|k: int|
                    0 <= k < i && peaks@[k].time == y && peaks@[k].freq == x);
                if peaks@[i as int].time == y && peaks@[i as int].freq == x {
                    assert(p.freq < w && p.time < h);
                }
            }
        }
        i = i + 1;
    }
    let mut out: Vec<u8> = Vec::new();
    let mut y: usize = 0;
    while y < h
        invariant
            n == w * h,
            w * h * 3 <= usize::MAX,
            wi == w,
            y <= h,
            mask@.len() == n,
            forall|yy: int, x: int|
                0 <= yy < h && 0 <= x < w ==> #[trigger] mask@[yy * wi + x] == has_peak(
                    peaks@,
                    yy,
                    x,
                ),
            out@.len() == y * wi * 3,
            forall|yy: int, x: int, c: int|
                0 <= yy < y && 0 <= x < w && 0 <= c < 3 ==> #[trigger] out@[(yy * wi + x) * 3 + c]
                    == shade(peaks@, yy, x),
        decreases h - y,
    {
        proof {
            assert(y * w + w <= w * h) by (nonlinear_arith)
                requires
                    y < h,
            ;
        }
        let row_base: usize = y * w;
        proof {
            assert forall|yy: int, xx: int, c: int|
                0 <= yy < h && 0 <= xx < w && 0 <= c < 3 && yy * wi + xx < row_base + 0 implies #[trigger] out@[(
                yy * wi + xx) * 3 + c] == shade(peaks@, yy, xx) by {
                lemma_cell_order(wi, yy, xx, y as int, 0);
            }
        }
        let mut x: usize = 0;
        while x < w
            invariant
                n == w * h,
                w * h * 3 <= usize::MAX,
                wi == w,
                y < h,
                row_base == y * wi,
                row_base + w <= n,
                x <= w,
                mask@.len() == n,
                forall|yy: int, xx: int|
                    0 <= yy < h && 0 <= xx < w ==> #[trigger] mask@[yy * wi + xx] == has_peak(
                        peaks@,
                        yy,
                        xx,
                    ),
                out@.len() == (row_base + x) * 3,
                forall|yy: int, xx: int, c: int|
                    0 <= yy < h && 0 <= xx < w && 0 <= c < 3 && yy * wi + xx < row_base + x
                        ==> #[trigger] out@[(yy * wi + xx) * 3 + c] == shade(peaks@, yy, xx),
            decreases w - x,
        {
            let v: u8 = if mask[row_base + x] {
                0
            } else {
                255
            };
            let ghost before = out@;
            out.push(v);
            out.push(v);
            out.push(v);
            proof {
                lemma_cell_in_range(wi, h as int, y as int, x as int);
                assert(mask@[y * wi + x] == has_peak(peaks@, y as int, x as int));
                assert forall|yy: int, xx: int, c: int|
                    0 <= yy < h && 0 <= xx < w && 0 <= c < 3 && yy * wi + xx < row_base + x + 1
                        implies #[trigger] out@[(yy * wi + xx) * 3 + c] == shade(peaks@, yy, xx) by {
                    lemma_cell_in_range(wi, h as int, yy, xx);
                    if yy * wi + xx == row_base + x {
                        lemma_index_unique(wi, yy, xx, y as int, x as int);
                    } else {
                        assert((yy * wi + xx) * 3 + c < before.len()) by (nonlinear_arith)
                            requires
                                yy * wi + xx < row_base + x,
                                before.len() == (row_base + x) * 3,
                                0 <= c < 3,
                        ;
                        assert(out@[(yy * wi + xx) * 3 + c] == before[(yy * wi + xx) * 3 + c]);
                    }
                }
            }
            x = x + 1;
        }
        proof {
            assert forall|yy: int, xx: int, c: int|
                0 <= yy < y + 1 && 0 <= xx < w && 0 <= c < 3 implies #[trigger] out@[(yy * wi + xx) * 3
                + c] == shade(peaks@, yy, xx) by {
                lemma_cell_order(wi, yy, xx, y as int + 1, 0);
                assert((y + 1) * wi == row_base + w) by (nonlinear_arith)
                    requires
                        row_base == y * wi,
                        wi == w,
                ;
            }
            assert((y + 1) * wi * 3 == (row_base + w) * 3) by (nonlinear_arith)
                requires
                    row_base == y * wi,
                    wi == w,
            ;
        }
        y = y + 1;
    }
    proof {
        assert(h * wi * 3 == w * h * 3) by (nonlinear_arith)
            requires
                wi == w,
        ;
    }
    out
}

} // verus!
