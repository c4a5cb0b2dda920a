use vstd::prelude::*;
use crate::floor::{Floor1, floor1_range, posits_wf};

verus! {

/// The Y value at `x` on the line from `(x0, y0)` to `(x1, y1)`, with the
/// fractional part dropped toward `y0`.
pub open spec fn render_point_spec(x0: int, y0: int, x1: int, y1: int, x: int) -> int {
    let dy = y1 - y0;
    let ady = if dy < 0 { -dy } else { dy };
    let off = (ady * (x - x0)) / (x1 - x0);
    if dy < 0 { y0 - off } else { y0 + off }
}

/// Predicts the Y value at `x` from two neighbouring posits.
pub fn render_point(x0: u32, y0: u32, x1: u32, y1: u32, x: u32) -> (r: u32)
    requires
        x0 <= x <= x1,
        x0 < x1 <= 0x1_0000,
        y0 < 0x1_0000,
        y1 < 0x1_0000,
    ensures
        r == render_point_spec(x0 as int, y0 as int, x1 as int, y1 as int, x as int),
        y0 <= y1 ==> y0 <= r <= y1,
        y1 <= y0 ==> y1 <= r <= y0,
{
    let adx = (x1 - x0) as u64;
    let dxp = (x - x0) as u64;
    if y1 >= y0 {
        let ady = (y1 - y0) as u64;
        proof {
            assert(ady * dxp <= ady * adx) by (nonlinear_arith)
                requires dxp <= adx;
            assert(ady * adx <= 0x1_0000_0000int) by (nonlinear_arith)
                requires ady <= 0x1_0000, adx <= 0x1_0000;
            assert((ady * dxp) / (adx as int) <= ady) by (nonlinear_arith)
                requires dxp <= adx, adx > 0;
        }
        let off = (ady * dxp) / adx;
        y0 + off as u32
    } else {
        let ady = (y0 - y1) as u64;
        proof {
            assert(ady * dxp <= ady * adx) by (nonlinear_arith)
                requires dxp <= adx;
            assert(ady * adx <= 0x1_0000_0000int) by (nonlinear_arith)
                requires ady <= 0x1_0000, adx <= 0x1_0000;
            assert((ady * dxp) / (adx as int) <= ady) by (nonlinear_arith)
                requires dxp <= adx, adx > 0;
        }
        let off = (ady * dxp) / adx;
        y0 - off as u32
    }
}

/// `j` is the posit before `i` with the largest X below posit `i`'s.
pub open spec fn is_low_neighbor(xs: Seq<u32>, i: int, j: int) -> bool {
    &&& 0 <= j < i
    &&& xs[j] < xs[i]
    &&& forall|k: int| 0 <= k < i && xs[k] < xs[i] ==> xs[k] <= xs[j]
}

/// `j` is the posit before `i` with the smallest X above posit `i`'s.
pub open spec fn is_high_neighbor(xs: Seq<u32>, i: int, j: int) -> bool {
    &&& 0 <= j < i
    &&& xs[j] > xs[i]
    &&& forall|k: int| 0 <= k < i && xs[k] > xs[i] ==> xs[j] <= xs[k]
}

fn low_neighbor(xs: &Vec<u32>, i: usize) -> (r: usize)
    requires
        1 <= i < xs@.len(),
        xs@[0] < xs@[i as int],
    ensures
        is_low_neighbor(xs@, i as int, r as int),
{
    let mut best: usize = 0;
    let mut k: usize = 1;
    while k < i
        invariant
            1 <= k <= i < xs@.len(),
            best < k,
            xs@[best as int] < xs@[i as int],
            forall|m: int| 0 <= m < k && xs@[m] < xs@[i as int] ==> xs@[m] <= xs@[best as int],
        decreases i - k,
    {
        if xs[k] < xs[i] && xs[k] > xs[best] {
            best = k;
        }
        k = k + 1;
    }
    best
}

fn high_neighbor(xs: &Vec<u32>, i: usize) -> (r: usize)
    requires
        2 <= i < xs@.len(),
        xs@[1] > xs@[i as int],
    ensures
        is_high_neighbor(xs@, i as int, r as int),
{
    let mut best: usize = 1;
    let mut k: usize = 0;
    while k < i
        invariant
            0 <= k <= i < xs@.len(),
            2 <= i,
            best < i,
            xs@[best as int] > xs@[i as int],
            forall|m: int| 0 <= m < k && xs@[m] > xs@[i as int] ==> xs@[best as int] <= xs@[m],
        decreases i - k,
    {
        if xs[k] > xs[i] && xs[k] < xs[best] {
            best = k;
        }
        k = k + 1;
    }
    best
}

/// Final Y values of a piecewise floor within its range, and which posits
/// the curve passes through.
pub open spec fn final_y_wf(f: Floor1, fy: Seq<u32>, active: Seq<bool>) -> bool {
    &&& fy.len() == f.xs@.len()
    &&& active.len() == f.xs@.len()
    &&& active[0] && active[1]
    &&& forall|i: int| 0 <= i < fy.len() ==> #[trigger] fy[i] < floor1_range(f.multiplier)
}

/// The low neighbour of posit `i`.
pub open spec fn low_of(xs: Seq<u32>, i: int) -> int {
    choose|j: int| is_low_neighbor(xs, i, j)
}

/// The high neighbour of posit `i`.
pub open spec fn high_of(xs: Seq<u32>, i: int) -> int {
    choose|j: int| is_high_neighbor(xs, i, j)
}

/// A coded value clipped into `[0, range)`.
pub open spec fn clip_y(range: int, y: int) -> int {
    if y < 0 { 0 } else if y >= range { range - 1 } else { y }
}

/// The final Y value of a posit with prediction `predicted` and coded
/// offset `val`: small offsets alternate below and above the prediction,
/// large ones count from the nearer end of the range.
pub open spec fn offset_y(range: int, predicted: int, val: int) -> int {
    let highroom = range - predicted;
    let lowroom = predicted;
    let room = 2 * (if highroom < lowroom { highroom } else { lowroom });
    if val == 0 {
        predicted
    } else if val >= room {
        if highroom > lowroom {
            clip_y(range, val - lowroom + predicted)
        } else {
            clip_y(range, predicted - val + highroom - 1)
        }
    } else if val % 2 == 1 {
        predicted - (val + 1) / 2
    } else {
        predicted + val / 2
    }
}

/// Final Y values and curve flags of the first `i` posits (at least two).
pub open spec fn final_y_state(xs: Seq<u32>, ys: Seq<u32>, range: int, i: nat) -> (Seq<u32>, Seq<bool>)
    decreases i,
{
    if i <= 2 {
        (seq![clip_y(range, ys[0] as int) as u32, clip_y(range, ys[1] as int) as u32], seq![true, true])
    } else {
        let (fy, act) = final_y_state(xs, ys, range, (i - 1) as nat);
        let k = i - 1;
        let lo = low_of(xs, k);
        let hi = high_of(xs, k);
        let predicted = render_point_spec(xs[lo] as int, fy[lo] as int, xs[hi] as int, fy[hi] as int, xs[k] as int);
        let val = ys[k] as int;
        let act2 = if val != 0 { act.update(lo, true).update(hi, true) } else { act };
        (fy.push(offset_y(range, predicted, val) as u32), act2.push(val != 0))
    }
}

/// Turns the coded Y values of a piecewise floor into final Y values: each
/// posit after the first two is predicted from its neighbours and moved by
/// its coded offset, and every value is clipped to the floor's range.
pub fn floor1_final_y(f: &Floor1, ys: &Vec<u32>) -> (r: (Vec<u32>, Vec<bool>))
    requires
        posits_wf(*f),
        ys@.len() == f.xs@.len(),
    ensures
        final_y_wf(*f, r.0@, r.1@),
        (r.0@, r.1@) == final_y_state(f.xs@, ys@, floor1_range(f.multiplier) as int, f.xs@.len()),
{
    let range: u32 = if f.multiplier == 1 {
        256
    } else if f.multiplier == 2 {
        128
    } else if f.multiplier == 3 {
        86
    } else {
        64
    };
    let n = f.xs.len();
    let mut fy: Vec<u32> = Vec::new();
    let mut active: Vec<bool> = Vec::new();
    fy.push(if ys[0] < range { ys[0] } else { range - 1 });
    fy.push(if ys[1] < range { ys[1] } else { range - 1 });
    active.push(true);
    active.push(true);
    proof {
        assert(fy@ =~= final_y_state(f.xs@, ys@, range as int, 2).0);
        assert(active@ =~= final_y_state(f.xs@, ys@, range as int, 2).1);
    }
    let mut i: usize = 2;
    while i < n
        invariant
            posits_wf(*f),
            n == f.xs@.len(),
            ys@.len() == n,
            range == floor1_range(f.multiplier),
            2 <= i <= n,
            fy@.len() == i,
            active@.len() == i,
            active@[0] && active@[1],
            forall|k: int| 0 <= k < fy@.len() ==> #[trigger] fy@[k] < range,
            (fy@, active@) == final_y_state(f.xs@, ys@, range as int, i as nat),
        decreases n - i,
    {
        proof {
            assert(f.xs@[0] != f.xs@[i as int]);
            assert(f.xs@[1] != f.xs@[i as int]);
            vstd::arithmetic::power2::lemma2_to64();
            if f.range_bits < 16 {
                vstd::arithmetic::power2::lemma_pow2_strictly_increases(f.range_bits as nat, 16);
            }
        }
        let lo = low_neighbor(&f.xs, i);
        let hi = high_neighbor(&f.xs, i);
        proof {
            let xs = f.xs@;
            let l2 = low_of(xs, i as int);
            let h2 = high_of(xs, i as int);
            assert(is_low_neighbor(xs, i as int, l2));
            assert(is_high_neighbor(xs, i as int, h2));
            assert(xs[l2] == xs[lo as int]);
            assert(xs[h2] == xs[hi as int]);
            assert(l2 == lo as int);
            assert(h2 == hi as int);
        }
        let predicted = render_point(f.xs[lo], fy[lo], f.xs[hi], fy[hi], f.xs[i]);
        let val = ys[i];
        let highroom = range - predicted;
        let lowroom = predicted;
        let room: u64 = 2 * (if highroom < lowroom { highroom } else { lowroom }) as u64;
        let final_y: u32 = if val == 0 {
            predicted
        } else if val as u64 >= room {
            if highroom > lowroom {
                let v = val as u64 - lowroom as u64 + predicted as u64;
                if v >= range as u64 { range - 1 } else { v as u32 }
            } else {
                let v = predicted as i64 - val as i64 + highroom as i64 - 1;
                if v < 0 { 0 } else { v as u32 }
            }
        } else if val % 2 == 1 {
            predicted - (val + 1) / 2
        } else {
            predicted + val / 2
        };
        if val != 0 {
            active.set(lo, true);
            active.set(hi, true);
        }
        fy.push(final_y);
        active.push(val != 0);
        i = i + 1;
        proof {
            let st = final_y_state(f.xs@, ys@, range as int, i as nat);
            assert(fy@ =~= st.0);
            assert(active@ =~= st.1);
        }
    }
    (fy, active)
}

} // verus!

verus! {

/// `j` is the posit the curve passes through with the largest X at or below `x`.
pub open spec fn is_curve_low(xs: Seq<u32>, active: Seq<bool>, x: int, j: int) -> bool {
    &&& 0 <= j < xs.len()
    &&& active[j]
    &&& xs[j] <= x
    &&& forall|k: int| 0 <= k < xs.len() && active[k] && xs[k] <= x ==> xs[k] <= xs[j]
}

/// `j` is the posit the curve passes through with the smallest X above `x`.
pub open spec fn is_curve_high(xs: Seq<u32>, active: Seq<bool>, x: int, j: int) -> bool {
    &&& 0 <= j < xs.len()
    &&& active[j]
    &&& xs[j] > x
    &&& forall|k: int| 0 <= k < xs.len() && active[k] && xs[k] > x ==> xs[j] <= xs[k]
}

/// The curve value at `x`: on the line between the surrounding posits it
/// passes through, or the last posit's value past the end.
pub open spec fn curve_value(xs: Seq<u32>, fy: Seq<u32>, mult: nat, lo: int, hi: int, x: int) -> int {
    render_point_spec(xs[lo] as int, fy[lo] * mult, xs[hi] as int, fy[hi] * mult, x)
}

fn curve_neighbors(xs: &Vec<u32>, active: &Vec<bool>, x: u32) -> (r: (usize, usize))
    requires
        xs@.len() == active@.len() >= 2,
        active@[0] && active@[1],
        xs@[0] == 0,
        x < xs@[1],
    ensures
        is_curve_low(xs@, active@, x as int, r.0 as int),
        is_curve_high(xs@, active@, x as int, r.1 as int),
{
    let mut lo: usize = 0;
    let mut hi: usize = 1;
    let mut k: usize = 0;
    while k < xs.len()
        invariant
            xs@.len() == active@.len() >= 2,
            k <= xs@.len(),
            lo < xs@.len(),
            hi < xs@.len(),
            active@[lo as int] && xs@[lo as int] <= x,
            active@[hi as int] && xs@[hi as int] > x,
            forall|m: int| 0 <= m < k && active@[m] && xs@[m] <= x ==> xs@[m] <= xs@[lo as int],
            forall|m: int| 0 <= m < k && active@[m] && xs@[m] > x ==> xs@[hi as int] <= xs@[m],
        decreases xs@.len() - k,
    {
        if active[k] {
            if xs[k] <= x && xs[k] > xs[lo] {
                lo = k;
            }
            if xs[k] > x && xs[k] < xs[hi] {
                hi = k;
            }
        }
        k = k + 1;
    }
    (lo, hi)
}

/// A Y value within the range, scaled by the multiplier, is at most 255.
pub proof fn lemma_scaled_y(y: u32, multiplier: u8)
    requires
        1 <= multiplier <= 4,
        y < floor1_range(multiplier),
    ensures
        y * multiplier <= 255,
{
    if multiplier == 1 {
        assert(y * 1 == y);
    } else if multiplier == 2 {
        assert(y * 2 == y + y);
    } else if multiplier == 3 {
        assert(y * 3 == y + y + y);
    } else {
        assert(y * 4 == y + y + y + y);
    }
}

/// Draws the floor curve over `n2` positions as indices into the inverse dB
/// table: straight lines between the posits the curve passes through, with
/// Y values scaled by the multiplier; every index is at most 255.
pub fn floor1_curve(f: &Floor1, fy: &Vec<u32>, active: &Vec<bool>, n2: usize) -> (r: Vec<u8>)
    requires
        posits_wf(*f),
        final_y_wf(*f, fy@, active@),
        n2 <= 4096,
    ensures
        r@.len() == n2,
        forall|x: int| 0 <= x < n2 ==> #[trigger] r@[x] <= 255,
        forall|x: int, lo: int, hi: int|
            0 <= x < n2 && x < f.xs@[1] && is_curve_low(f.xs@, active@, x, lo) && is_curve_high(f.xs@, active@, x, hi)
                ==> r@[x] == curve_value(f.xs@, fy@, f.multiplier as nat, lo, hi, x),
        forall|x: int| 0 <= x < n2 && x >= f.xs@[1] ==> r@[x] == fy@[1] * f.multiplier,
{
    let mult = f.multiplier as u32;
    let mut out: Vec<u8> = Vec::new();
    let mut x: usize = 0;
    while x < n2
        invariant
            posits_wf(*f),
            final_y_wf(*f, fy@, active@),
            mult == f.multiplier,
            n2 <= 4096,
            x <= n2,
            out@.len() == x,
            forall|p: int| 0 <= p < x ==> #[trigger] out@[p] <= 255,
            forall|p: int, lo: int, hi: int|
                0 <= p < x && p < f.xs@[1] && is_curve_low(f.xs@, active@, p, lo) && is_curve_high(f.xs@, active@, p, hi)
                    ==> out@[p] == curve_value(f.xs@, fy@, f.multiplier as nat, lo, hi, p),
            forall|p: int| 0 <= p < x && p >= f.xs@[1] ==> out@[p] == fy@[1] * f.multiplier,
        decreases n2 - x,
    {
        proof {
            vstd::arithmetic::power2::lemma2_to64();
            if f.range_bits < 16 {
                vstd::arithmetic::power2::lemma_pow2_strictly_increases(f.range_bits as nat, 16);
            }
        }
        proof {
            lemma_scaled_y(fy@[1], f.multiplier);
        }
        let y1m = fy[1] * mult;
        let v: u32 = if (x as u32) < f.xs[1] {
            let (lo, hi) = curve_neighbors(&f.xs, active, x as u32);
            proof {
                lemma_scaled_y(fy@[lo as int], f.multiplier);
                lemma_scaled_y(fy@[hi as int], f.multiplier);
            }
            let ylo = fy[lo] * mult;
            let yhi = fy[hi] * mult;
            let v = render_point(f.xs[lo], ylo, f.xs[hi], yhi, x as u32);
            proof {
                assert forall|lo2: int, hi2: int|
                    is_curve_low(f.xs@, active@, x as int, lo2) && is_curve_high(f.xs@, active@, x as int, hi2)
                    implies lo2 == lo && hi2 == hi by {
                    assert(f.xs@[lo2] == f.xs@[lo as int]);
                    assert(f.xs@[hi2] == f.xs@[hi as int]);
                }
            }
            v
        } else {
            y1m
        };
        out.push(v as u8);
        x = x + 1;
    }
    out
}

} // verus!

verus! {

/// Synthesizes a piecewise floor's curve over `n2` positions from the coded Y
/// values of one channel, as indices into the inverse dB table.
pub fn floor1_synthesis(f: &Floor1, ys: &Vec<u32>, n2: usize) -> (r: Vec<u8>)
    requires
        posits_wf(*f),
        ys@.len() == f.xs@.len(),
        n2 <= 4096,
    ensures
        r@.len() == n2,
        forall|x: int| 0 <= x < n2 ==> #[trigger] r@[x] <= 255,
        ({
            let (fy, active) = final_y_state(f.xs@, ys@, floor1_range(f.multiplier) as int, f.xs@.len());
            &&& forall|x: int, lo: int, hi: int|
                0 <= x < n2 && x < f.xs@[1] && is_curve_low(f.xs@, active, x, lo) && is_curve_high(f.xs@, active, x, hi)
                    ==> r@[x] == curve_value(f.xs@, fy, f.multiplier as nat, lo, hi, x)
            &&& forall|x: int| 0 <= x < n2 && x >= f.xs@[1] ==> r@[x] == fy[1] * f.multiplier
        }),
{
    let (fy, active) = floor1_final_y(f, ys);
    floor1_curve(f, &fy, &active, n2)
}

} // verus!
