//! Integer building blocks of boundary refinement: the pixel boundary of a
//! mask, mirror reflection of sample indices, and neighbour lookup along a
//! polyline.

use vstd::prelude::*;
use vstd::arithmetic::div_mod::{lemma_fundamental_div_mod, lemma_fundamental_div_mod_converse};
use crate::types::BoolMask;

verus! {

/// A foreground pixel on the image border, or with a background pixel
/// among its four neighbours.
pub open spec fn is_boundary_pixel(m: BoolMask, y: int, x: int) -> bool {
    let h = m.height as int;
    let w = m.width as int;
    &&& m.at(y, x)
    &&& (x == 0 || x + 1 == w || y == 0 || y + 1 == h || !m.at(y, x - 1) || !m.at(y, x + 1) || !m.at(
        y - 1,
        x,
    ) || !m.at(y + 1, x))
}

/// Boundary pixels `(x, y)` among the first `n` pixels in row-major order.
pub open spec fn boundary_upto(m: BoolMask, n: nat) -> Seq<(usize, usize)>
    decreases n,
{
    if n == 0 {
        Seq::empty()
    } else {
        let w = m.width as int;
        let k = n - 1;
        let y = k / w;
        let x = k % w;
        boundary_upto(m, (n - 1) as nat) + if is_boundary_pixel(m, y, x) {
            seq![(x as usize, y as usize)]
        } else {
            Seq::empty()
        }
    }
}

/// Pixels `(x, y)` of the mask's boundary (foreground pixels touching the
/// image border or a 4-connected background neighbour), in row-major scan
/// order.
pub fn naive_boundary(mask: &BoolMask) -> (out: Vec<(usize, usize)>)
    requires
        mask.wf(),
    ensures
        out@ == boundary_upto(*mask, (mask.height * mask.width) as nat),
{
    let h = mask.height;
    let w = mask.width;
    let mut out: Vec<(usize, usize)> = Vec::new();
    let mut y: usize = 0;
    while y < h
        invariant
            mask.wf(),
            h == mask.height,
            w == mask.width,
            y <= h,
            out@ == boundary_upto(*mask, (y * w) as nat),
        decreases h - y,
    {
        let mut x: usize = 0;
        while x < w
            invariant
                mask.wf(),
                h == mask.height,
                w == mask.width,
                y < h,
                x <= w,
                out@ == boundary_upto(*mask, (y * w + x) as nat),
            decreases w - x,
        {
            proof {
                lemma_fundamental_div_mod_converse((y * w + x) as int, w as int, y as int, x as int);
            }
            if mask.get(y, x) {
                let is_boundary = if x == 0 || x + 1 == w || y == 0 || y + 1 == h {
                    true
                } else {
                    !mask.get(y, x - 1) || !mask.get(y, x + 1) || !mask.get(y - 1, x) || !mask.get(
                        y + 1,
                        x,
                    )
                };
                if is_boundary {
                    out.push((x, y));
                }
            }
            proof {
                let k = (y * w + x) as int;
                assert(boundary_upto(*mask, (k + 1) as nat) == boundary_upto(*mask, k as nat) + if is_boundary_pixel(
                    *mask,
                    y as int,
                    x as int,
                ) {
                    seq![(x, y)]
                } else {
                    Seq::<(usize, usize)>::empty()
                });
            }
            x = x + 1;
        }
        assert(y * w + w == (y + 1) * w) by (nonlinear_arith);
        y = y + 1;
    }
    out
}

/// `(ny, nx)` is one of the four pixels next to `(y, x)`: left, right,
/// above or below.
pub open spec fn is_neighbour4(y: int, x: int, ny: int, nx: int) -> bool {
    ||| ny == y && nx == x - 1
    ||| ny == y && nx == x + 1
    ||| nx == x && ny == y - 1
    ||| nx == x && ny == y + 1
}

/// Pixel `(ny, nx)` is off the image or background.
pub open spec fn off_or_background(m: BoolMask, ny: int, nx: int) -> bool {
    !(0 <= ny < m.height && 0 <= nx < m.width) || !m.at(ny, nx)
}

/// Row-major scan position of pixel `(x, y)`.
pub open spec fn scan_pos(m: BoolMask, e: (usize, usize)) -> int {
    (e.1 as int) * (m.width as int) + (e.0 as int)
}

proof fn lemma_boundary_upto_members(m: BoolMask, n: nat)
    requires
        m.wf(),
        m.width > 0,
        n <= m.height * m.width,
    ensures
        forall|i: int|
            0 <= i < boundary_upto(m, n).len() ==> {
                let e = #[trigger] boundary_upto(m, n)[i];
                &&& e.0 < m.width
                &&& e.1 < m.height
                &&& (e.1 as int) * (m.width as int) + (e.0 as int) < n
                &&& is_boundary_pixel(m, e.1 as int, e.0 as int)
            },
        forall|x: int, y: int|
            0 <= x < m.width && 0 <= y && y * (m.width as int) + x < n && is_boundary_pixel(m, y, x)
                ==> #[trigger] boundary_upto(m, n).contains((x as usize, y as usize)),
        forall|i: int, j: int|
            0 <= i < j < boundary_upto(m, n).len() ==> scan_pos(m, #[trigger] boundary_upto(m, n)[i])
                < scan_pos(m, #[trigger] boundary_upto(m, n)[j]),
    decreases n,
{
    let w = m.width as int;
    let h = m.height as int;
    if n > 0 {
        lemma_boundary_upto_members(m, (n - 1) as nat);
        let k = n - 1;
        let y = k / w;
        let x = k % w;
        lemma_fundamental_div_mod(k, w);
        assert(0 <= x < w);
        assert(0 <= y);
        assert(y < h) by (nonlinear_arith)
            requires
                k == w * y + x,
                0 <= x < w,
                0 <= k < h * w,
                w > 0,
        ;
        assert(y * w + x == k) by (nonlinear_arith)
            requires
                k == w * y + x,
        ;
        let prev = boundary_upto(m, (n - 1) as nat);
        let cur = boundary_upto(m, n);
        let tail = if is_boundary_pixel(m, y, x) {
            seq![(x as usize, y as usize)]
        } else {
            Seq::<(usize, usize)>::empty()
        };
        assert(cur == prev + tail);
        assert forall|i: int| 0 <= i < cur.len() implies {
            let e = #[trigger] cur[i];
            &&& e.0 < m.width
            &&& e.1 < m.height
            &&& (e.1 as int) * w + (e.0 as int) < n
            &&& is_boundary_pixel(m, e.1 as int, e.0 as int)
        } by {
            if i < prev.len() {
                assert(cur[i] == prev[i]);
            } else {
                assert(cur[i] == (x as usize, y as usize));
            }
        }
        assert forall|a: int, b: int| 0 <= a < b < cur.len() implies scan_pos(m, #[trigger] cur[a])
            < scan_pos(m, #[trigger] cur[b]) by {
            assert(cur[a] == prev[a]);
            if b < prev.len() {
                assert(cur[b] == prev[b]);
            } else {
                assert(cur[b] == (x as usize, y as usize));
                assert(scan_pos(m, prev[a]) < n - 1);
            }
        }
        assert forall|xx: int, yy: int|
            0 <= xx < m.width && 0 <= yy && yy * w + xx < n && is_boundary_pixel(m, yy, xx) implies
            #[trigger] cur.contains((xx as usize, yy as usize)) by {
            if yy * w + xx < n - 1 {
                assert(prev.contains((xx as usize, yy as usize)));
                let j = choose|j: int| 0 <= j < prev.len() && prev[j] == (xx as usize, yy as usize);
                assert(cur[j] == prev[j]);
            } else {
                lemma_fundamental_div_mod_converse(k, w, yy, xx);
                assert(cur[prev.len() as int] == (x as usize, y as usize));
            }
        }
    }
}

/// The boundary of a mask is exactly its foreground pixels that have a
/// neighbour (left, right, above or below) that is off the image or
/// background: every such pixel is listed, and every listed pixel is one.
pub proof fn lemma_boundary_members(m: BoolMask, x: int, y: int)
    requires
        m.wf(),
        0 <= y < m.height,
        0 <= x < m.width,
    ensures
        boundary_upto(m, (m.height * m.width) as nat).contains((x as usize, y as usize)) <==> (m.at(
            y,
            x,
        ) && exists|ny: int, nx: int| #[trigger]
            is_neighbour4(y, x, ny, nx) && off_or_background(m, ny, nx)),
{
    let w = m.width as int;
    let h = m.height as int;
    let n = (m.height * m.width) as nat;
    lemma_boundary_upto_members(m, n);
    assert(y * w + x < h * w) by (nonlinear_arith)
        requires
            0 <= y < h,
            0 <= x < w,
    ;
    let out = boundary_upto(m, n);
    if out.contains((x as usize, y as usize)) {
        let j = choose|j: int| 0 <= j < out.len() && out[j] == (x as usize, y as usize);
        assert(is_boundary_pixel(m, y, x));
        if x == 0 || !m.at(y, x - 1) {
            assert(is_neighbour4(y, x, y, x - 1) && off_or_background(m, y, x - 1));
        } else if x + 1 == w || !m.at(y, x + 1) {
            assert(is_neighbour4(y, x, y, x + 1) && off_or_background(m, y, x + 1));
        } else if y == 0 || !m.at(y - 1, x) {
            assert(is_neighbour4(y, x, y - 1, x) && off_or_background(m, y - 1, x));
        } else {
            assert(is_neighbour4(y, x, y + 1, x) && off_or_background(m, y + 1, x));
        }
    }
    if m.at(y, x) && exists|ny: int, nx: int| #[trigger]
        is_neighbour4(y, x, ny, nx) && off_or_background(m, ny, nx) {
        let (ny, nx) = choose|ny: int, nx: int| #[trigger]
            is_neighbour4(y, x, ny, nx) && off_or_background(m, ny, nx);
        assert(is_boundary_pixel(m, y, x));
    }
}

/// The boundary is listed in row-major scan order, each pixel once.
pub proof fn lemma_boundary_scan_order(m: BoolMask, i: int, j: int)
    requires
        m.wf(),
        0 <= i < j < boundary_upto(m, (m.height * m.width) as nat).len(),
    ensures
        scan_pos(m, boundary_upto(m, (m.height * m.width) as nat)[i]) < scan_pos(
            m,
            boundary_upto(m, (m.height * m.width) as nat)[j],
        ),
{
    if m.width == 0 {
        assert(m.height * m.width == 0);
        assert(boundary_upto(m, 0).len() == 0);
    } else {
        lemma_boundary_upto_members(m, (m.height * m.width) as nat);
    }
}

/// Every listed boundary pixel lies on the image.
pub proof fn lemma_boundary_on_image(m: BoolMask, i: int)
    requires
        m.wf(),
        0 <= i < boundary_upto(m, (m.height * m.width) as nat).len(),
    ensures
        boundary_upto(m, (m.height * m.width) as nat)[i].0 < m.width,
        boundary_upto(m, (m.height * m.width) as nat)[i].1 < m.height,
        m.at(
            boundary_upto(m, (m.height * m.width) as nat)[i].1 as int,
            boundary_upto(m, (m.height * m.width) as nat)[i].0 as int,
        ),
{
    if m.width == 0 {
        assert(m.height * m.width == 0);
        assert(boundary_upto(m, 0).len() == 0);
    } else {
        lemma_boundary_upto_members(m, (m.height * m.width) as nat);
        let e = boundary_upto(m, (m.height * m.width) as nat)[i];
        assert(is_boundary_pixel(m, e.1 as int, e.0 as int));
    }
}

/// Mirror `i` into `[0, n)` without repeating the edge sample: index `-1`
/// maps to `1` and index `n` to `n - 2`.
pub open spec fn reflect_spec(i: int, n: int) -> int {
    if n <= 1 {
        0
    } else {
        let period = 2 * (n - 1);
        let m = i % period;
        if m >= n {
            period - m
        } else {
            m
        }
    }
}

/// Euclidean remainder of `i` by a positive `d`.
fn euclid_mod(i: i64, d: i64) -> (m: i64)
    requires
        d > 0,
    ensures
        m == i % d,
        0 <= m < d,
{
    if i >= 0 {
        let r = (i as u64) % (d as u64);
        proof {
            lemma_fundamental_div_mod(i as int, d as int);
            lemma_fundamental_div_mod_converse(i as int, d as int, i as int / d as int, r as int);
        }
        r as i64
    } else {
        let a: u64 = (-(i + 1)) as u64;
        let r = a % (d as u64);
        proof {
            lemma_fundamental_div_mod(a as int, d as int);
            let q = a as int / d as int;
            assert(i == (-q - 1) * d + (d - 1 - r)) by (nonlinear_arith)
                requires
                    a == -(i + 1),
                    a == d * q + r,
            ;
            lemma_fundamental_div_mod_converse(i as int, d as int, -q - 1, d - 1 - r);
        }
        d - 1 - (r as i64)
    }
}

/// Reflect a sample index into `[0, n)` by mirroring at the boundaries.
pub fn reflect(i: i32, n: i32) -> (r: i32)
    requires
        2 * (n - 1) <= i32::MAX,
    ensures
        r == reflect_spec(i as int, n as int),
        n >= 1 ==> 0 <= r < n,
{
    if n <= 1 {
        return 0;
    }
    let period = 2 * (n - 1);
    let m = euclid_mod(i as i64, period as i64) as i32;
    if m >= n {
        period - m
    } else {
        m
    }
}

/// Index of the neighbour `delta` steps away from vertex `i` of a polyline
/// of `n` vertices: wraps around when `closed`, otherwise `None` past
/// either end.
pub fn neighbour_index(n: usize, i: usize, delta: i32, closed: bool) -> (j: Option<usize>)
    requires
        i < n,
        n <= i32::MAX,
    ensures
        closed ==> j == Some(((i + delta) % (n as int)) as usize),
        !closed && 0 <= i + delta < n ==> j == Some((i + delta) as usize),
        !closed && !(0 <= i + delta < n) ==> j is None,
{
    let nn = n as i64;
    let jj = i as i64 + delta as i64;
    if closed {
        let m = euclid_mod(jj, nn);
        Some(m as usize)
    } else if 0 <= jj && jj < nn {
        Some(jj as usize)
    } else {
        None
    }
}

} // verus!
