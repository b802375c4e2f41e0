//! Marching-squares contour extraction from a boolean mask.
//!
//! Every 2x2 cell of pixel centres is classified into one of 16 cases; each
//! case emits zero, one or two segments whose endpoints are cell-edge
//! midpoints ([`EdgeKey`]). The segment graph is then walked into
//! polylines. Saddle cells (codes `0b0101` and `0b1010`) connect the inside
//! through the cell.

use vstd::prelude::*;
use vstd::arithmetic::div_mod::lemma_fundamental_div_mod_converse;
use vstd::multiset::Multiset;
use crate::types::BoolMask;

verus! {

broadcast use vstd::seq_lib::group_to_multiset_ensures, vstd::multiset::group_multiset_axioms;

/// A cell-edge midpoint. Horizontal edges sit at `(col + 0.5, row)`,
/// vertical edges at `(col, row + 0.5)`.
#[derive(Debug, Clone, Copy, PartialEq, Eq, Structural)]
pub struct EdgeKey {
    pub horizontal: bool,
    pub row: i32,
    pub col: i32,
}

/// The midpoint of `k` in doubled pixel coordinates `(2x, 2y)`, so that
/// half-pixel positions stay integral.
pub open spec fn half_pixel_spec(k: EdgeKey) -> (i64, i64) {
    if k.horizontal {
        ((2 * k.col + 1) as i64, (2 * k.row) as i64)
    } else {
        ((2 * k.col) as i64, (2 * k.row + 1) as i64)
    }
}

impl EdgeKey {
    /// The midpoint in doubled pixel coordinates `(2x, 2y)`: divide by two
    /// for image coordinates.
    pub fn to_half_pixel(self) -> (p: (i64, i64))
        ensures
            p == half_pixel_spec(self),
    {
        if self.horizontal {
            (2 * (self.col as i64) + 1, 2 * (self.row as i64))
        } else {
            (2 * (self.col as i64), 2 * (self.row as i64) + 1)
        }
    }
}

/// 4-bit case code of a cell from its corners (top-left is the high bit).
pub open spec fn cell_code(tl: bool, tr: bool, br: bool, bl: bool) -> u8 {
    ((if tl { 8int } else { 0int }) + (if tr { 4int } else { 0int }) + (if br { 2int } else { 0int })
        + (if bl { 1int } else { 0int })) as u8
}

/// Segments emitted by one cell with case `code`; saddles connect the
/// inside through the cell.
pub open spec fn cell_segments(
    code: u8,
    top: EdgeKey,
    right: EdgeKey,
    bot: EdgeKey,
    left: EdgeKey,
) -> Seq<(EdgeKey, EdgeKey)> {
    if code == 1 {
        seq![(left, bot)]
    } else if code == 2 {
        seq![(bot, right)]
    } else if code == 3 {
        seq![(left, right)]
    } else if code == 4 {
        seq![(top, right)]
    } else if code == 5 {
        seq![(left, top), (bot, right)]
    } else if code == 6 {
        seq![(top, bot)]
    } else if code == 7 {
        seq![(left, top)]
    } else if code == 8 {
        seq![(left, top)]
    } else if code == 9 {
        seq![(top, bot)]
    } else if code == 10 {
        seq![(left, bot), (top, right)]
    } else if code == 11 {
        seq![(top, right)]
    } else if code == 12 {
        seq![(left, right)]
    } else if code == 13 {
        seq![(bot, right)]
    } else if code == 14 {
        seq![(left, bot)]
    } else {
        seq![]
    }
}

/// Append the segments of one cell with case `code` to `out`.
pub fn push_segments(
    code: u8,
    top: EdgeKey,
    right: EdgeKey,
    bot: EdgeKey,
    left: EdgeKey,
    out: &mut Vec<(EdgeKey, EdgeKey)>,
)
    requires
        code < 16,
    ensures
        final(out)@ == old(out)@ + cell_segments(code, top, right, bot, left),
{
    let ghost o = out@;
    match code {
        1 => out.push((left, bot)),
        2 => out.push((bot, right)),
        3 => out.push((left, right)),
        4 => out.push((top, right)),
        5 => {
            out.push((left, top));
            out.push((bot, right));
        },
        6 => out.push((top, bot)),
        7 => out.push((left, top)),
        8 => out.push((left, top)),
        9 => out.push((top, bot)),
        10 => {
            out.push((left, bot));
            out.push((top, right));
        },
        11 => out.push((top, right)),
        12 => out.push((left, right)),
        13 => out.push((bot, right)),
        14 => out.push((left, bot)),
        _ => {},
    }
    assert(out@ =~= o + cell_segments(code, top, right, bot, left));
}

/// The four edge midpoints of the cell whose top-left pixel is `(y, x)`:
/// `(top, right, bot, left)`.
pub open spec fn cell_edges(y: int, x: int) -> (EdgeKey, EdgeKey, EdgeKey, EdgeKey) {
    (
        EdgeKey { horizontal: true, row: y as i32, col: x as i32 },
        EdgeKey { horizontal: false, row: y as i32, col: (x + 1) as i32 },
        EdgeKey { horizontal: true, row: (y + 1) as i32, col: x as i32 },
        EdgeKey { horizontal: false, row: y as i32, col: x as i32 },
    )
}

/// Segments of the cell whose top-left pixel is `(y, x)`.
pub open spec fn segments_of_cell(mask: BoolMask, y: int, x: int) -> Seq<(EdgeKey, EdgeKey)> {
    let (top, right, bot, left) = cell_edges(y, x);
    cell_segments(
        cell_code(mask.at(y, x), mask.at(y, x + 1), mask.at(y + 1, x + 1), mask.at(y + 1, x)),
        top,
        right,
        bot,
        left,
    )
}

/// Segments of the first `n` cells in row-major cell order (cells per row
/// `w - 1`).
pub open spec fn segments_upto(mask: BoolMask, n: nat) -> Seq<(EdgeKey, EdgeKey)>
    decreases n,
{
    if n == 0 {
        Seq::empty()
    } else {
        let cw = (mask.width - 1) as int;
        let k = n - 1;
        segments_upto(mask, (n - 1) as nat) + segments_of_cell(mask, k / cw, k % cw)
    }
}

/// All segments of the mask, cell by cell in row-major order.
pub open spec fn mask_segments(mask: BoolMask) -> Seq<(EdgeKey, EdgeKey)> {
    if mask.height < 2 || mask.width < 2 {
        Seq::empty()
    } else {
        segments_upto(mask, ((mask.height - 1) * (mask.width - 1)) as nat)
    }
}

/// Shape limits under which every edge midpoint of the mask has a node
/// number that fits the machine.
pub open spec fn contour_shape_ok(mask: BoolMask) -> bool {
    &&& mask.wf()
    &&& mask.height <= i32::MAX
    &&& mask.width <= i32::MAX
    &&& 2 * mask.height * mask.width <= usize::MAX
}

/// Emit the segments of every 2x2 cell, row by row.
pub fn collect_segments(mask: &BoolMask) -> (segs: Vec<(EdgeKey, EdgeKey)>)
    requires
        contour_shape_ok(*mask),
        mask.height >= 2,
        mask.width >= 2,
    ensures
        segs@ == mask_segments(*mask),
{
    let h = mask.height;
    let w = mask.width;
    let cw = w - 1;
    let mut segments: Vec<(EdgeKey, EdgeKey)> = Vec::new();
    let mut y: usize = 0;
    while y < h - 1
        invariant
            contour_shape_ok(*mask),
            h == mask.height,
            w == mask.width,
            h >= 2,
            w >= 2,
            cw == w - 1,
            y <= h - 1,
            segments@ == segments_upto(*mask, (y * cw) as nat),
        decreases h - 1 - y,
    {
        let mut x: usize = 0;
        while x < w - 1
            invariant
                contour_shape_ok(*mask),
                h == mask.height,
                w == mask.width,
                h >= 2,
                w >= 2,
                cw == w - 1,
                y < h - 1,
                x <= w - 1,
                segments@ == segments_upto(*mask, (y * cw + x) as nat),
            decreases w - 1 - x,
        {
            let tl = mask.get(y, x);
            let tr = mask.get(y, x + 1);
            let br = mask.get(y + 1, x + 1);
            let bl = mask.get(y + 1, x);
            let code: u8 = (if tl { 8u8 } else { 0u8 }) + (if tr { 4u8 } else { 0u8 }) + (if br {
                2u8
            } else {
                0u8
            }) + (if bl { 1u8 } else { 0u8 });
            let top = EdgeKey { horizontal: true, row: y as i32, col: x as i32 };
            let bot = EdgeKey { horizontal: true, row: (y + 1) as i32, col: x as i32 };
            let left = EdgeKey { horizontal: false, row: y as i32, col: x as i32 };
            let right = EdgeKey { horizontal: false, row: y as i32, col: (x + 1) as i32 };
            proof {
                let k = (y * cw + x) as int;
                lemma_fundamental_div_mod_converse(k, cw as int, y as int, x as int);
                assert(segments_upto(*mask, (k + 1) as nat) == segments_upto(*mask, k as nat)
                    + segments_of_cell(*mask, y as int, x as int));
            }
            push_segments(code, top, right, bot, left, &mut segments);
            x = x + 1;
        }
        assert(y * cw + cw == (y + 1) * cw) by (nonlinear_arith);
        y = y + 1;
    }
    segments
}

/// Both orientations of every pair.
pub open spec fn pair_darts<K>(pairs: Seq<(K, K)>) -> Multiset<(K, K)>
    decreases pairs.len(),
{
    if pairs.len() == 0 {
        Multiset::empty()
    } else {
        let p = pairs.last();
        pair_darts(pairs.drop_last()).insert(p).insert((p.1, p.0))
    }
}

/// Both orientations of every step of a walk.
pub open spec fn walk_darts<K>(c: Seq<K>) -> Multiset<(K, K)>
    decreases c.len(),
{
    if c.len() < 2 {
        Multiset::empty()
    } else {
        let a = c[c.len() - 2];
        let b = c.last();
        walk_darts(c.drop_last()).insert((a, b)).insert((b, a))
    }
}

/// Both orientations of every step of every walk.
pub open spec fn walks_darts<K>(cs: Seq<Seq<K>>) -> Multiset<(K, K)>
    decreases cs.len(),
{
    if cs.len() == 0 {
        Multiset::empty()
    } else {
        walks_darts(cs.drop_last()).add(walk_darts(cs.last()))
    }
}

/// The walks held in a vector of vectors.
pub open spec fn chains_view(cs: Seq<Vec<EdgeKey>>) -> Seq<Seq<EdgeKey>> {
    cs.map_values(|c: Vec<EdgeKey>| c@)
}

/// The walks that have at least three vertices, in order.
pub open spec fn long_chains(cs: Seq<Seq<EdgeKey>>) -> Seq<Seq<EdgeKey>>
    decreases cs.len(),
{
    if cs.len() == 0 {
        Seq::empty()
    } else if cs.last().len() >= 3 {
        long_chains(cs.drop_last()).push(cs.last())
    } else {
        long_chains(cs.drop_last())
    }
}

/// `k` is an edge midpoint of a mask of shape `[h, w]`.
pub open spec fn key_valid(k: EdgeKey, h: int, w: int) -> bool {
    if k.horizontal {
        0 <= k.row < h && 0 <= k.col < w - 1
    } else {
        0 <= k.row < h - 1 && 0 <= k.col < w
    }
}

/// Node number of an edge midpoint: horizontal edges first, row-major,
/// then vertical edges, row-major.
pub open spec fn node_id(k: EdgeKey, h: int, w: int) -> int {
    if k.horizontal {
        k.row * (w - 1) + k.col
    } else {
        h * (w - 1) + k.row * w + k.col
    }
}

/// Number of edge midpoints of a mask of shape `[h, w]`.
pub open spec fn node_count(h: int, w: int) -> int {
    h * (w - 1) + (h - 1) * w
}

pub open spec fn graph_shape_ok(h: int, w: int) -> bool {
    &&& 2 <= h <= i32::MAX
    &&& 2 <= w <= i32::MAX
    &&& 2 * h * w <= usize::MAX
}

proof fn lemma_node_id_range(k: EdgeKey, h: int, w: int)
    requires
        graph_shape_ok(h, w),
        key_valid(k, h, w),
    ensures
        0 <= node_id(k, h, w) < node_count(h, w),
        node_count(h, w) <= usize::MAX,
{
    assert(node_count(h, w) <= 2 * h * w) by (nonlinear_arith)
        requires
            h >= 2,
            w >= 2,
    ;
    if k.horizontal {
        assert(0 <= k.row * (w - 1) + k.col < h * (w - 1)) by (nonlinear_arith)
            requires
                0 <= k.row < h,
                0 <= k.col < w - 1,
        ;
    } else {
        assert(0 <= k.row * w + k.col < (h - 1) * w) by (nonlinear_arith)
            requires
                0 <= k.row < h - 1,
                0 <= k.col < w,
        ;
        assert(0 <= h * (w - 1)) by (nonlinear_arith)
            requires
                h >= 2,
                w >= 2,
        ;
    }
}

proof fn lemma_node_id_injective(a: EdgeKey, b: EdgeKey, h: int, w: int)
    requires
        graph_shape_ok(h, w),
        key_valid(a, h, w),
        key_valid(b, h, w),
        node_id(a, h, w) == node_id(b, h, w),
    ensures
        a == b,
{
    if a.horizontal {
        assert(a.row * (w - 1) + a.col < h * (w - 1)) by (nonlinear_arith)
            requires
                0 <= a.row < h,
                0 <= a.col < w - 1,
        ;
    }
    if b.horizontal {
        assert(b.row * (w - 1) + b.col < h * (w - 1)) by (nonlinear_arith)
            requires
                0 <= b.row < h,
                0 <= b.col < w - 1,
        ;
    }
    if !a.horizontal {
        assert(0 <= a.row * w + a.col) by (nonlinear_arith)
            requires
                w >= 2,
                0 <= a.row,
                0 <= a.col,
        ;
    }
    if !b.horizontal {
        assert(0 <= b.row * w + b.col) by (nonlinear_arith)
            requires
                w >= 2,
                0 <= b.row,
                0 <= b.col,
        ;
    }
    if a.horizontal && b.horizontal {
        let x = node_id(a, h, w);
        lemma_fundamental_div_mod_converse(x, w - 1, a.row as int, a.col as int);
        lemma_fundamental_div_mod_converse(x, w - 1, b.row as int, b.col as int);
    } else if !a.horizontal && !b.horizontal {
        let x = a.row * w + a.col;
        lemma_fundamental_div_mod_converse(x, w, a.row as int, a.col as int);
        lemma_fundamental_div_mod_converse(x, w, b.row as int, b.col as int);
    }
}

/// Node number of a valid edge midpoint.
fn key_node(k: EdgeKey, h: usize, w: usize) -> (id: usize)
    requires
        graph_shape_ok(h as int, w as int),
        key_valid(k, h as int, w as int),
    ensures
        id == node_id(k, h as int, w as int),
        id < node_count(h as int, w as int),
{
    proof {
        lemma_node_id_range(k, h as int, w as int);
    }
    if k.horizontal {
        (k.row as usize) * (w - 1) + (k.col as usize)
    } else {
        h * (w - 1) + (k.row as usize) * w + (k.col as usize)
    }
}

/// The edge midpoint with node number `id`.
fn node_key(id: usize, h: usize, w: usize) -> (k: EdgeKey)
    requires
        graph_shape_ok(h as int, w as int),
        id < node_count(h as int, w as int),
    ensures
        key_valid(k, h as int, w as int),
        node_id(k, h as int, w as int) == id,
{
    let wm = w - 1;
    assert(h * wm <= 2 * h * w) by (nonlinear_arith)
        requires
            h >= 2,
            wm == w - 1,
            w >= 2,
    ;
    let hw = h * wm;
    if id < hw {
        let r = id / wm;
        let c = id % wm;
        proof {
            assert(r < h) by (nonlinear_arith)
                requires
                    id < h * wm,
                    r == id / wm,
                    wm >= 1,
            ;
            assert(r * wm + c == id) by (nonlinear_arith)
                requires
                    r == id / wm,
                    c == id % wm,
                    wm >= 1,
            ;
        }
        EdgeKey { horizontal: true, row: r as i32, col: c as i32 }
    } else {
        let j = id - hw;
        let r = j / w;
        let c = j % w;
        proof {
            assert(r < h - 1) by (nonlinear_arith)
                requires
                    j < (h - 1) * w,
                    r == j / w,
                    w >= 2,
            ;
            assert(r * w + c == j) by (nonlinear_arith)
                requires
                    r == j / w,
                    c == j % w,
                    w >= 2,
            ;
        }
        EdgeKey { horizontal: false, row: r as i32, col: c as i32 }
    }
}

/// How often `b` is listed as a neighbour of `a`.
pub open spec fn adj_count(adj: Seq<Vec<EdgeKey>>, a: EdgeKey, b: EdgeKey, h: int, w: int) -> nat {
    if key_valid(a, h, w) {
        adj[node_id(a, h, w)]@.to_multiset().count(b)
    } else {
        0
    }
}

/// Every pair joins two different valid edge midpoints.
pub open spec fn pairs_ok(pairs: Seq<(EdgeKey, EdgeKey)>, h: int, w: int) -> bool {
    forall|i: int|
        0 <= i < pairs.len() ==> key_valid(#[trigger] pairs[i].0, h, w) && key_valid(pairs[i].1, h, w)
            && pairs[i].0 != pairs[i].1
}

proof fn lemma_pair_darts_facts(pairs: Seq<(EdgeKey, EdgeKey)>, h: int, w: int)
    requires
        pairs_ok(pairs, h, w),
    ensures
        forall|a: EdgeKey, b: EdgeKey|
            #[trigger] pair_darts(pairs).count((a, b)) == pair_darts(pairs).count((b, a)),
        forall|a: EdgeKey| #[trigger] pair_darts(pairs).count((a, a)) == 0,
        forall|a: EdgeKey, b: EdgeKey|
            #[trigger] pair_darts(pairs).count((a, b)) > 0 ==> key_valid(a, h, w) && key_valid(b, h, w),
    decreases pairs.len(),
{
    if pairs.len() > 0 {
        let p = pairs.last();
        assert(pairs_ok(pairs.drop_last(), h, w)) by {
            assert forall|i: int| 0 <= i < pairs.drop_last().len() implies key_valid(
                #[trigger] pairs.drop_last()[i].0,
                h,
                w,
            ) && key_valid(pairs.drop_last()[i].1, h, w) && pairs.drop_last()[i].0
                != pairs.drop_last()[i].1 by {
                assert(pairs.drop_last()[i] == pairs[i]);
            }
        }
        lemma_pair_darts_facts(pairs.drop_last(), h, w);
        assert(p == pairs[pairs.len() - 1]);
        let old_d = pair_darts(pairs.drop_last());
        let d = pair_darts(pairs);
        assert(d == old_d.insert(p).insert((p.1, p.0)));
        assert forall|a: EdgeKey, b: EdgeKey| #[trigger] d.count((a, b)) == d.count((b, a)) by {
            assert(old_d.count((a, b)) == old_d.count((b, a)));
        }
        assert forall|a: EdgeKey| #[trigger] d.count((a, a)) == 0 by {
            assert(old_d.count((a, a)) == 0);
        }
        assert forall|a: EdgeKey, b: EdgeKey| #[trigger] d.count((a, b)) > 0 implies key_valid(a, h, w)
            && key_valid(b, h, w) by {
            if old_d.count((a, b)) == 0 {
                assert((a, b) == p || (a, b) == (p.1, p.0));
            }
        }
    }
}

proof fn lemma_walk_darts_push(c: Seq<EdgeKey>, x: EdgeKey)
    requires
        c.len() >= 1,
    ensures
        walk_darts(c.push(x)) == walk_darts(c).insert((c.last(), x)).insert((x, c.last())),
{
    assert(c.push(x).drop_last() =~= c);
}

proof fn lemma_chains_view_push(cs: Seq<Vec<EdgeKey>>, c: Vec<EdgeKey>)
    ensures
        chains_view(cs.push(c)) == chains_view(cs).push(c@),
        walks_darts(chains_view(cs.push(c))) == walks_darts(chains_view(cs)).add(walk_darts(c@)),
{
    assert(chains_view(cs.push(c)) =~= chains_view(cs).push(c@));
    assert(chains_view(cs).push(c@).drop_last() =~= chains_view(cs));
}

/// Index of `x` in `row`.
fn position_of(row: &Vec<EdgeKey>, x: EdgeKey) -> (pos: usize)
    requires
        row@.to_multiset().count(x) > 0,
    ensures
        pos < row@.len(),
        row@[pos as int] == x,
{
    assert(row@.contains(x));
    let mut i: usize = 0;
    while i < row.len()
        invariant
            i <= row@.len(),
            row@.contains(x),
            forall|j: int| 0 <= j < i ==> row@[j] != x,
        decreases row@.len() - i,
    {
        if row[i] == x {
            return i;
        }
        i = i + 1;
    }
    assert(false);
    0
}

/// The counting invariant of the walk: every dart of `init` is either
/// still listed in the adjacency or already traversed.
pub open spec fn walk_inv(
    adj: Seq<Vec<EdgeKey>>,
    trav: Multiset<(EdgeKey, EdgeKey)>,
    init: Multiset<(EdgeKey, EdgeKey)>,
    h: int,
    w: int,
) -> bool {
    &&& adj.len() == node_count(h, w)
    &&& forall|a: EdgeKey, b: EdgeKey|
        #[trigger] init.count((a, b)) == adj_count(adj, a, b, h, w) + trav.count((a, b))
    &&& forall|a: EdgeKey, b: EdgeKey| #[trigger] trav.count((a, b)) == trav.count((b, a))
    &&& forall|a: EdgeKey, b: EdgeKey| #[trigger] init.count((a, b)) == init.count((b, a))
    &&& forall|a: EdgeKey| #[trigger] init.count((a, a)) == 0
    &&& forall|a: EdgeKey, b: EdgeKey|
        #[trigger] init.count((a, b)) > 0 ==> key_valid(a, h, w) && key_valid(b, h, w)
}

proof fn lemma_trav_bounded(
    adj: Seq<Vec<EdgeKey>>,
    trav: Multiset<(EdgeKey, EdgeKey)>,
    init: Multiset<(EdgeKey, EdgeKey)>,
    h: int,
    w: int,
)
    requires
        walk_inv(adj, trav, init, h, w),
    ensures
        trav.subset_of(init),
        trav.len() <= init.len(),
{
    assert forall|p: (EdgeKey, EdgeKey)| trav.count(p) <= init.count(p) by {
        assert(init.count((p.0, p.1)) == adj_count(adj, p.0, p.1, h, w) + trav.count((p.0, p.1)));
    }
    assert(init.sub(trav).len() == init.len() - trav.len());
}

/// How often `k` is an endpoint of `pairs`.
pub open spec fn endpoint_count(pairs: Seq<(EdgeKey, EdgeKey)>, k: EdgeKey) -> nat
    decreases pairs.len(),
{
    if pairs.len() == 0 {
        0
    } else {
        endpoint_count(pairs.drop_last(), k) + (if pairs.last().0 == k {
            1nat
        } else {
            0nat
        }) + (if pairs.last().1 == k {
            1nat
        } else {
            0nat
        })
    }
}

/// Every edge midpoint of an `[h, w]` mask is an endpoint of an even
/// number of `pairs`.
pub open spec fn even_degrees(pairs: Seq<(EdgeKey, EdgeKey)>, h: int, w: int) -> bool {
    forall|k: EdgeKey| key_valid(k, h, w) ==> #[trigger] endpoint_count(pairs, k) % 2 == 0
}

/// Length of the adjacency list of `k`.
pub open spec fn row_len(adj: Seq<Vec<EdgeKey>>, k: EdgeKey, h: int, w: int) -> int {
    adj[node_id(k, h, w)]@.len() as int
}

/// Every adjacency list has even length.
pub open spec fn all_even(adj: Seq<Vec<EdgeKey>>, h: int, w: int) -> bool {
    forall|k: EdgeKey| key_valid(k, h, w) ==> #[trigger] row_len(adj, k, h, w) % 2 == 0
}

/// Parity of the adjacency lists during a walk from `start` now at `cur`:
/// the two ends of an open walk have odd lists, every other list is even.
pub open spec fn walk_parity(adj: Seq<Vec<EdgeKey>>, start: EdgeKey, cur: EdgeKey, h: int, w: int) -> bool {
    &&& forall|k: EdgeKey|
        key_valid(k, h, w) && k != start && k != cur ==> #[trigger] row_len(adj, k, h, w) % 2 == 0
    &&& cur != start ==> row_len(adj, start, h, w) % 2 == 1 && row_len(adj, cur, h, w) % 2 == 1
    &&& cur == start ==> row_len(adj, start, h, w) % 2 == 0
}

proof fn lemma_parity_step(
    adj0: Seq<Vec<EdgeKey>>,
    adj1: Seq<Vec<EdgeKey>>,
    start: EdgeKey,
    cur: EdgeKey,
    next: EdgeKey,
    h: int,
    w: int,
)
    requires
        graph_shape_ok(h, w),
        key_valid(start, h, w),
        key_valid(cur, h, w),
        key_valid(next, h, w),
        next != cur,
        adj0.len() == node_count(h, w),
        adj1.len() == adj0.len(),
        walk_parity(adj0, start, cur, h, w),
        adj1[node_id(cur, h, w)]@.len() == adj0[node_id(cur, h, w)]@.len() - 1,
        adj1[node_id(next, h, w)]@.len() == adj0[node_id(next, h, w)]@.len() - 1,
        forall|j: int|
            0 <= j < adj1.len() && j != node_id(cur, h, w) && j != node_id(next, h, w)
                ==> #[trigger] adj1[j]@.len() == adj0[j]@.len(),
    ensures
        next == start ==> all_even(adj1, h, w),
        next != start ==> walk_parity(adj1, start, next, h, w),
{
    lemma_node_id_range(cur, h, w);
    lemma_node_id_range(next, h, w);
    lemma_node_id_range(start, h, w);
    assert(node_id(cur, h, w) != node_id(next, h, w)) by {
        if node_id(cur, h, w) == node_id(next, h, w) {
            lemma_node_id_injective(cur, next, h, w);
        }
    }
    assert forall|k: EdgeKey|
        key_valid(k, h, w) && k != cur && k != next implies #[trigger] row_len(adj1, k, h, w) == row_len(
        adj0,
        k,
        h,
        w,
    ) by {
        lemma_node_id_range(k, h, w);
        if node_id(k, h, w) == node_id(cur, h, w) {
            lemma_node_id_injective(k, cur, h, w);
        }
        if node_id(k, h, w) == node_id(next, h, w) {
            lemma_node_id_injective(k, next, h, w);
        }
    }
    assert(row_len(adj1, cur, h, w) == row_len(adj0, cur, h, w) - 1);
    assert(row_len(adj1, next, h, w) == row_len(adj0, next, h, w) - 1);
    if next == start {
        assert(cur != start);
        assert forall|k: EdgeKey| key_valid(k, h, w) implies #[trigger] row_len(adj1, k, h, w) % 2 == 0 by {
            if k != cur && k != next {
                assert(row_len(adj1, k, h, w) == row_len(adj0, k, h, w));
            }
        }
    } else {
        assert forall|k: EdgeKey|
            key_valid(k, h, w) && k != start && k != next implies #[trigger] row_len(adj1, k, h, w) % 2
            == 0 by {
            if k != cur {
                assert(row_len(adj1, k, h, w) == row_len(adj0, k, h, w));
            }
        }
        if cur != start {
            assert(row_len(adj1, start, h, w) == row_len(adj0, start, h, w));
        }
    }
}

/// Remove one `(cur, next)` step from the adjacency: `next` from the list
/// of `cur` and `cur` from the list of `next`.
fn take_step(
    adj: &mut Vec<Vec<EdgeKey>>,
    cur: EdgeKey,
    next_row: Vec<EdgeKey>,
    next: EdgeKey,
    h: usize,
    w: usize,
    Ghost(trav): Ghost<Multiset<(EdgeKey, EdgeKey)>>,
    Ghost(init): Ghost<Multiset<(EdgeKey, EdgeKey)>>,
)
    requires
        graph_shape_ok(h as int, w as int),
        walk_inv(old(adj)@, trav, init, h as int, w as int),
        key_valid(cur, h as int, w as int),
        old(adj)@[node_id(cur, h as int, w as int)]@ == next_row@.push(next),
    ensures
        walk_inv(final(adj)@, trav.insert((cur, next)).insert((next, cur)), init, h as int, w as int),
        key_valid(next, h as int, w as int),
        next != cur,
        forall|j: int|
            0 <= j < final(adj)@.len() ==> #[trigger] final(adj)@[j]@.len() <= old(adj)@[j]@.len(),
        forall|j: int|
            0 <= j < final(adj)@.len() && old(adj)@[j]@.len() == 0 ==> #[trigger] final(adj)@[j]@.len()
                == 0,
        final(adj)@.len() == old(adj)@.len(),
        final(adj)@[node_id(cur, h as int, w as int)]@.len() == old(adj)@[node_id(
            cur,
            h as int,
            w as int,
        )]@.len() - 1,
        final(adj)@[node_id(next, h as int, w as int)]@.len() == old(adj)@[node_id(
            next,
            h as int,
            w as int,
        )]@.len() - 1,
        forall|j: int|
            0 <= j < final(adj)@.len() && j != node_id(cur, h as int, w as int) && j != node_id(
                next,
                h as int,
                w as int,
            ) ==> #[trigger] final(adj)@[j]@.len() == old(adj)@[j]@.len(),
{
    let ghost hh = h as int;
    let ghost ww = w as int;
    let ghost adj0 = adj@;
    let icur = key_node(cur, h, w);
    proof {
        assert(next_row@.push(next).to_multiset().count(next) > 0);
        assert(adj_count(adj0, cur, next, hh, ww) > 0);
        assert(init.count((cur, next)) > 0);
        assert(key_valid(next, hh, ww));
        if next == cur {
            assert(init.count((cur, cur)) == 0);
        }
    }
    adj.set(icur, next_row);
    let ghost adj1 = adj@;
    let ghost t1 = trav.insert((cur, next));
    proof {
        assert forall|a: EdgeKey, b: EdgeKey|
            #[trigger] init.count((a, b)) == adj_count(adj1, a, b, hh, ww) + t1.count((a, b)) by {
            if key_valid(a, hh, ww) && node_id(a, hh, ww) == icur {
                lemma_node_id_injective(a, cur, hh, ww);
                assert(adj0[icur as int]@ == next_row@.push(next));
            } else if key_valid(a, hh, ww) {
                lemma_node_id_range(a, hh, ww);
            }
        }
    }
    let inext = key_node(next, h, w);
    proof {
        lemma_node_id_range(next, hh, ww);
        assert(inext != icur) by {
            if inext == icur {
                lemma_node_id_injective(next, cur, hh, ww);
            }
        }
        // reciprocal dart still present
        assert(init.count((next, cur)) == init.count((cur, next)));
        assert(trav.count((next, cur)) == trav.count((cur, next)));
        assert(adj_count(adj0, next, cur, hh, ww) == adj_count(adj0, cur, next, hh, ww));
        assert(adj1[inext as int] == adj0[inext as int]);
        assert(adj_count(adj1, next, cur, hh, ww) > 0);
    }
    let mut row = adj[inext].clone();
    assert(row@ =~= adj1[inext as int]@);
    let pos = position_of(&row, cur);
    row.remove(pos);
    proof {
        assert(row@.to_multiset() =~= adj1[inext as int]@.to_multiset().remove(cur));
    }
    adj.set(inext, row);
    let ghost adj2 = adj@;
    let ghost t2 = t1.insert((next, cur));
    proof {
        assert forall|a: EdgeKey, b: EdgeKey|
            #[trigger] init.count((a, b)) == adj_count(adj2, a, b, hh, ww) + t2.count((a, b)) by {
            assert(init.count((a, b)) == adj_count(adj1, a, b, hh, ww) + t1.count((a, b)));
            if key_valid(a, hh, ww) && node_id(a, hh, ww) == inext {
                lemma_node_id_injective(a, next, hh, ww);
            } else if key_valid(a, hh, ww) {
                lemma_node_id_range(a, hh, ww);
            }
        }
        assert forall|a: EdgeKey, b: EdgeKey| #[trigger] t2.count((a, b)) == t2.count((b, a)) by {
            assert(trav.count((a, b)) == trav.count((b, a)));
        }
        assert forall|j: int| 0 <= j < adj2.len() implies #[trigger] adj2[j]@.len() <= adj0[j]@.len() by {
            if j == icur as int {
            } else if j == inext as int {
            }
        }
    }
}

/// Walk `i` of `all` is maximal: it ends where it started, or every
/// segment at its last node is used by the walks up to and including it,
/// so the walk could not have gone on.
pub open spec fn walk_maximal(all: Seq<Seq<EdgeKey>>, i: int, darts: Multiset<(EdgeKey, EdgeKey)>) -> bool {
    all[i].last() == all[i][0] || forall|x: EdgeKey|
        #[trigger] walks_darts(all.take(i + 1)).count((all[i].last(), x)) == darts.count(
            (all[i].last(), x),
        )
}

/// Walk the undirected segment graph into chains: start at the lowest
/// node that still has an untraversed segment, follow segments until the
/// walk returns to its start or gets stuck, repeat until every segment is
/// traversed. Every segment is traversed exactly once, in one direction.
/// When every node has even degree, no walk gets stuck: each chain ends
/// at its start.
pub fn walk_chains(segs: &Vec<(EdgeKey, EdgeKey)>, h: usize, w: usize) -> (chains: Vec<
    Vec<EdgeKey>,
>)
    requires
        graph_shape_ok(h as int, w as int),
        pairs_ok(segs@, h as int, w as int),
    ensures
        walks_darts(chains_view(chains@)) == pair_darts(segs@),
        forall|i: int| 0 <= i < chains@.len() ==> (#[trigger] chains@[i])@.len() >= 2,
        even_degrees(segs@, h as int, w as int) ==> forall|i: int|
            0 <= i < chains@.len() ==> (#[trigger] chains@[i])@.last() == chains@[i]@[0],
        forall|i: int|
            0 <= i < chains@.len() ==> #[trigger] walk_maximal(
                chains_view(chains@),
                i,
                pair_darts(segs@),
            ),
{
    let ghost hh = h as int;
    let ghost ww = w as int;
    let ghost init = pair_darts(segs@);
    proof {
        lemma_node_id_range(EdgeKey { horizontal: true, row: 0, col: 0 }, hh, ww);
    }
    let n = h * (w - 1) + (h - 1) * w;
    let mut adj: Vec<Vec<EdgeKey>> = Vec::new();
    let mut i: usize = 0;
    while i < n
        invariant
            i <= n,
            n == node_count(hh, ww),
            adj@.len() == i,
            forall|j: int| 0 <= j < i ==> (#[trigger] adj@[j])@.len() == 0,
        decreases n - i,
    {
        adj.push(Vec::new());
        i = i + 1;
    }
    proof {
        lemma_pair_darts_facts(segs@, hh, ww);
        assert(segs@.take(0) =~= Seq::<(EdgeKey, EdgeKey)>::empty());
        assert forall|a: EdgeKey, b: EdgeKey|
            #[trigger] pair_darts(segs@.take(0)).count((a, b)) == adj_count(adj@, a, b, hh, ww) by {
            if key_valid(a, hh, ww) {
                lemma_node_id_range(a, hh, ww);
                assert(adj@[node_id(a, hh, ww)]@.len() == 0);
                assert(adj@[node_id(a, hh, ww)]@.to_multiset().len() == 0);
            }
        }
        assert forall|k: EdgeKey| key_valid(k, hh, ww) implies #[trigger] row_len(adj@, k, hh, ww)
            == endpoint_count(segs@.take(0), k) by {
            lemma_node_id_range(k, hh, ww);
        }
    }
    let mut e: usize = 0;
    while e < segs.len()
        invariant
            graph_shape_ok(hh, ww),
            h == hh,
            w == ww,
            pairs_ok(segs@, hh, ww),
            init == pair_darts(segs@),
            e <= segs@.len(),
            adj@.len() == node_count(hh, ww),
            forall|a: EdgeKey, b: EdgeKey|
                #[trigger] pair_darts(segs@.take(e as int)).count((a, b)) == adj_count(
                    adj@,
                    a,
                    b,
                    hh,
                    ww,
                ),
            forall|k: EdgeKey|
                key_valid(k, hh, ww) ==> #[trigger] row_len(adj@, k, hh, ww) == endpoint_count(
                    segs@.take(e as int),
                    k,
                ),
        decreases segs@.len() - e,
    {
        let (a, b) = segs[e];
        let ghost adj0 = adj@;
        let ghost pd0 = pair_darts(segs@.take(e as int));
        assert(segs@.take(e + 1).drop_last() =~= segs@.take(e as int));
        assert(segs@.take(e + 1).last() == segs@[e as int]);
        let ia = key_node(a, h, w);
        let mut ra = adj[ia].clone();
        assert(ra@ =~= adj@[ia as int]@);
        ra.push(b);
        adj.set(ia, ra);
        let ghost adj1 = adj@;
        proof {
            assert forall|x: EdgeKey, y: EdgeKey|
                #[trigger] pd0.insert((a, b)).count((x, y)) == adj_count(adj1, x, y, hh, ww) by {
                assert(pd0.count((x, y)) == adj_count(adj0, x, y, hh, ww));
                if key_valid(x, hh, ww) && node_id(x, hh, ww) == ia {
                    lemma_node_id_injective(x, a, hh, ww);
                } else if key_valid(x, hh, ww) {
                    lemma_node_id_range(x, hh, ww);
                }
            }
        }
        let ib = key_node(b, h, w);
        let mut rb = adj[ib].clone();
        assert(rb@ =~= adj@[ib as int]@);
        rb.push(a);
        adj.set(ib, rb);
        proof {
            assert forall|x: EdgeKey, y: EdgeKey|
                #[trigger] pair_darts(segs@.take(e + 1)).count((x, y)) == adj_count(
                    adj@,
                    x,
                    y,
                    hh,
                    ww,
                ) by {
                assert(pd0.insert((a, b)).count((x, y)) == adj_count(adj1, x, y, hh, ww));
                if key_valid(x, hh, ww) && node_id(x, hh, ww) == ib {
                    lemma_node_id_injective(x, b, hh, ww);
                } else if key_valid(x, hh, ww) {
                    lemma_node_id_range(x, hh, ww);
                }
            }
            assert forall|k: EdgeKey| key_valid(k, hh, ww) implies #[trigger] row_len(adj@, k, hh, ww)
                == endpoint_count(segs@.take(e + 1), k) by {
                lemma_node_id_range(k, hh, ww);
                assert(row_len(adj0, k, hh, ww) == endpoint_count(segs@.take(e as int), k));
                if node_id(k, hh, ww) == ia {
                    lemma_node_id_injective(k, a, hh, ww);
                }
                if node_id(k, hh, ww) == ib {
                    lemma_node_id_injective(k, b, hh, ww);
                }
            }
        }
        e = e + 1;
    }
    assert(segs@.take(segs@.len() as int) =~= segs@);
    let ghost even = even_degrees(segs@, hh, ww);
    proof {
        if even {
            assert forall|k: EdgeKey| key_valid(k, hh, ww) implies #[trigger] row_len(adj@, k, hh, ww)
                % 2 == 0 by {
                assert(endpoint_count(segs@, k) % 2 == 0);
            }
        }
    }
    let mut chains: Vec<Vec<EdgeKey>> = Vec::new();
    let ghost mut trav: Multiset<(EdgeKey, EdgeKey)> = Multiset::empty();
    let mut cursor: usize = 0;
    while cursor < n
        invariant
            graph_shape_ok(hh, ww),
            h == hh,
            w == ww,
            n == node_count(hh, ww),
            init == pair_darts(segs@),
            cursor <= n,
            walk_inv(adj@, trav, init, hh, ww),
            trav == walks_darts(chains_view(chains@)),
            forall|j: int| 0 <= j < cursor ==> (#[trigger] adj@[j])@.len() == 0,
            forall|i: int| 0 <= i < chains@.len() ==> (#[trigger] chains@[i])@.len() >= 2,
            even == even_degrees(segs@, hh, ww),
            even ==> all_even(adj@, hh, ww),
            even ==> forall|i: int|
                0 <= i < chains@.len() ==> (#[trigger] chains@[i])@.last() == chains@[i]@[0],
            forall|i: int|
                0 <= i < chains@.len() ==> #[trigger] walk_maximal(chains_view(chains@), i, init),
        decreases n - cursor, init.len() - trav.len(),
    {
        proof {
            lemma_trav_bounded(adj@, trav, init, hh, ww);
        }
        if adj[cursor].len() == 0 {
            cursor = cursor + 1;
        } else {
            let start = node_key(cursor, h, w);
            let mut chain: Vec<EdgeKey> = Vec::new();
            chain.push(start);
            let mut cur = start;
            let ghost trav_before = trav;
            proof {
                assert(walk_darts(chain@) =~= Multiset::empty());
                assert(trav == walks_darts(chains_view(chains@)).add(walk_darts(chain@)));
            }
            loop
                invariant_except_break
                    chain@.len() >= 2 ==> cur != start,
                    even ==> walk_parity(adj@, start, cur, hh, ww),
                invariant
                    graph_shape_ok(hh, ww),
                    h == hh,
                    w == ww,
                    n == node_count(hh, ww),
                    cursor < n,
                    walk_inv(adj@, trav, init, hh, ww),
                    trav == walks_darts(chains_view(chains@)).add(walk_darts(chain@)),
                    trav_before == walks_darts(chains_view(chains@)),
                    chain@.len() >= 1,
                    chain@.last() == cur,
                    chain@[0] == start,
                    key_valid(cur, hh, ww),
                    chain@.len() == 1 ==> cur == start && adj@[cursor as int]@.len() > 0,
                    node_id(start, hh, ww) == cursor,
                    forall|j: int| 0 <= j < cursor ==> (#[trigger] adj@[j])@.len() == 0,
                    trav.len() >= trav_before.len() + 2 * (chain@.len() - 1),
                    key_valid(start, hh, ww),
                ensures
                    walk_inv(adj@, trav, init, hh, ww),
                    trav == walks_darts(chains_view(chains@)).add(walk_darts(chain@)),
                    chain@.len() >= 2,
                    forall|j: int| 0 <= j < cursor ==> (#[trigger] adj@[j])@.len() == 0,
                    trav.len() >= trav_before.len() + 2,
                    even ==> chain@.last() == chain@[0] && all_even(adj@, hh, ww),
                    chain@.last() == chain@[0] || adj@[node_id(chain@.last(), hh, ww)]@.len() == 0,
                    key_valid(chain@.last(), hh, ww),
                decreases init.len() - trav.len(),
            {
                proof {
                    lemma_trav_bounded(adj@, trav, init, hh, ww);
                }
                let icur = key_node(cur, h, w);
                let mut row = adj[icur].clone();
                assert(row@ =~= adj@[icur as int]@);
                let popped = row.pop();
                match popped {
                    None => {
                        proof {
                            if even && cur != start {
                                assert(row_len(adj@, cur, hh, ww) % 2 == 1);
                                assert(row_len(adj@, cur, hh, ww) == 0);
                            }
                        }
                        break;
                    },
                    Some(next) => {
                        assert(adj@[icur as int]@ == row@.push(next));
                        let ghost adj0 = adj@;
                        take_step(&mut adj, cur, row, next, h, w, Ghost(trav), Ghost(init));
                        proof {
                            if even {
                                lemma_parity_step(adj0, adj@, start, cur, next, hh, ww);
                            }
                            lemma_walk_darts_push(chain@, next);
                            let wd = walks_darts(chains_view(chains@));
                            assert(wd.add(walk_darts(chain@.push(next))) =~= trav.insert(
                                (cur, next),
                            ).insert((next, cur)));
                            trav = trav.insert((cur, next)).insert((next, cur));
                            lemma_trav_bounded(adj@, trav, init, hh, ww);
                            assert forall|j: int| 0 <= j < cursor implies (#[trigger] adj@[j])@.len()
                                == 0 by {
                                assert(adj0[j]@.len() == 0);
                            }
                        }
                        chain.push(next);
                        cur = next;
                        if next == start {
                            break;
                        }
                    },
                }
            }
            proof {
                lemma_chains_view_push(chains@, chain);
                lemma_trav_bounded(adj@, trav, init, hh, ww);
                let old_all = chains_view(chains@);
                let new_all = chains_view(chains@.push(chain));
                let k = old_all.len() as int;
                assert forall|i: int| 0 <= i < new_all.len() implies #[trigger] walk_maximal(
                    new_all,
                    i,
                    init,
                ) by {
                    if i < k {
                        assert(new_all.take(i + 1) =~= old_all.take(i + 1));
                        assert(new_all[i] == old_all[i]);
                        assert(walk_maximal(old_all, i, init));
                    } else {
                        assert(new_all.take(i + 1) =~= new_all);
                        assert(new_all[i] == chain@);
                        let last = chain@.last();
                        if last != chain@[0] {
                            lemma_node_id_range(last, hh, ww);
                            assert forall|x: EdgeKey|
                                #[trigger] walks_darts(new_all.take(i + 1)).count((last, x))
                                    == init.count((last, x)) by {
                                assert(adj@[node_id(last, hh, ww)]@.to_multiset().len() == 0);
                                assert(init.count((last, x)) == adj_count(adj@, last, x, hh, ww)
                                    + trav.count((last, x)));
                            }
                        }
                    }
                }
            }
            chains.push(chain);
        }
    }
    proof {
        assert forall|p: (EdgeKey, EdgeKey)| trav.count(p) == init.count(p) by {
            assert(init.count((p.0, p.1)) == adj_count(adj@, p.0, p.1, hh, ww) + trav.count((p.0, p.1)));
            if key_valid(p.0, hh, ww) {
                lemma_node_id_range(p.0, hh, ww);
                assert(adj@[node_id(p.0, hh, ww)]@.len() == 0);
                assert(adj@[node_id(p.0, hh, ww)]@.to_multiset().len() == 0);
            }
        }
        assert(trav =~= init);
    }
    chains
}

proof fn lemma_segments_upto_ok(mask: BoolMask, n: nat)
    requires
        contour_shape_ok(mask),
        mask.height >= 2,
        mask.width >= 2,
        n <= (mask.height - 1) * (mask.width - 1),
    ensures
        pairs_ok(segments_upto(mask, n), mask.height as int, mask.width as int),
    decreases n,
{
    let h = mask.height as int;
    let w = mask.width as int;
    if n > 0 {
        lemma_segments_upto_ok(mask, (n - 1) as nat);
        let cw = w - 1;
        let k = n - 1;
        let y = k / cw;
        let x = k % cw;
        assert(y < h - 1) by (nonlinear_arith)
            requires
                k < (h - 1) * cw,
                y == k / cw,
                cw >= 1,
                k >= 0,
        ;
        assert(0 <= y) by (nonlinear_arith)
            requires
                y == k / cw,
                cw >= 1,
                k >= 0,
        ;
        let prev = segments_upto(mask, (n - 1) as nat);
        let cell = segments_of_cell(mask, y, x);
        assert(pairs_ok(cell, h, w));
        assert(segments_upto(mask, n) == prev + cell);
        assert forall|i: int| 0 <= i < (prev + cell).len() implies key_valid(
            #[trigger] (prev + cell)[i].0,
            h,
            w,
        ) && key_valid((prev + cell)[i].1, h, w) && (prev + cell)[i].0 != (prev + cell)[i].1 by {
            if i < prev.len() {
                assert((prev + cell)[i] == prev[i]);
            } else {
                assert((prev + cell)[i] == cell[i - prev.len()]);
            }
        }
    }
}

proof fn lemma_long_chains_push(cs: Seq<Seq<EdgeKey>>, c: Seq<EdgeKey>)
    ensures
        long_chains(cs.push(c)) == if c.len() >= 3 {
            long_chains(cs).push(c)
        } else {
            long_chains(cs)
        },
{
    assert(cs.push(c).drop_last() =~= cs);
}

/// Walk the segment graph into polylines and keep those with at least
/// three vertices. A polyline that returns to its start repeats the start
/// as its last vertex; a walk that does not stops only where no unused
/// segment is left.
pub fn walk_polylines(segs: &Vec<(EdgeKey, EdgeKey)>, h: usize, w: usize) -> (lines: Vec<
    Vec<EdgeKey>,
>)
    requires
        graph_shape_ok(h as int, w as int),
        pairs_ok(segs@, h as int, w as int),
    ensures
        exists|all: Seq<Seq<EdgeKey>>|
            {
                &&& walks_darts(all) == pair_darts(segs@)
                &&& forall|i: int| 0 <= i < all.len() ==> (#[trigger] all[i]).len() >= 2
                &&& chains_view(lines@) == long_chains(all)
                &&& even_degrees(segs@, h as int, w as int) ==> forall|i: int|
                    0 <= i < all.len() ==> (#[trigger] all[i]).last() == all[i][0]
                &&& forall|i: int|
                    0 <= i < all.len() ==> #[trigger] walk_maximal(all, i, pair_darts(segs@))
            },
        even_degrees(segs@, h as int, w as int) ==> forall|i: int|
            0 <= i < lines@.len() ==> (#[trigger] lines@[i])@.last() == lines@[i]@[0],
{
    let chains = walk_chains(segs, h, w);
    let ghost all = chains_view(chains@);
    let mut lines: Vec<Vec<EdgeKey>> = Vec::new();
    let mut i: usize = 0;
    proof {
        assert(all.take(0) =~= Seq::<Seq<EdgeKey>>::empty());
        assert(chains_view(lines@) =~= Seq::<Seq<EdgeKey>>::empty());
    }
    while i < chains.len()
        invariant
            i <= chains@.len(),
            all == chains_view(chains@),
            chains_view(lines@) == long_chains(all.take(i as int)),
            even_degrees(segs@, h as int, w as int) ==> forall|i: int|
                0 <= i < chains@.len() ==> (#[trigger] chains@[i])@.last() == chains@[i]@[0],
            even_degrees(segs@, h as int, w as int) ==> forall|j: int|
                0 <= j < lines@.len() ==> (#[trigger] lines@[j])@.last() == lines@[j]@[0],
        decreases chains@.len() - i,
    {
        let c = &chains[i];
        proof {
            assert(all.take(i + 1) =~= all.take(i as int).push(all[i as int]));
            lemma_long_chains_push(all.take(i as int), all[i as int]);
            assert(all[i as int] == c@);
        }
        if c.len() >= 3 {
            let cc = c.clone();
            assert(cc@ =~= c@);
            proof {
                assert(chains_view(lines@.push(cc)) =~= chains_view(lines@).push(cc@));
            }
            lines.push(cc);
        }
        i = i + 1;
    }
    assert(all.take(chains@.len() as int) =~= all);
    assert(forall|i: int| 0 <= i < all.len() ==> (#[trigger] all[i]).len() >= 2) by {
        assert forall|i: int| 0 <= i < all.len() implies (#[trigger] all[i]).len() >= 2 by {
            assert(all[i] == chains@[i]@);
        }
    }
    proof {
        if even_degrees(segs@, h as int, w as int) {
            assert forall|i: int| 0 <= i < all.len() implies (#[trigger] all[i]).last() == all[i][0] by {
                assert(all[i] == chains@[i]@);
            }
        }
    }
    lines
}

/// Extract polylines tracing the foreground/background boundary of
/// `mask`. Masks smaller than 2x2, empty masks and all-foreground masks
/// give no polylines. When the outer ring of pixels has one value (no
/// boundary reaches the image border) every polyline is closed, ending
/// where it starts, and together the polylines use every cell segment
/// exactly once. The polylines are the walks of length three or more
/// of a decomposition of the cell segments (see [`mask_segments`]) into
/// walks that use every segment exactly once, each of which stops only
/// when it is back at its start or has no unused segment left at its last
/// midpoint (see [`walk_maximal`]).
pub fn marching_squares(mask: &BoolMask) -> (lines: Vec<Vec<EdgeKey>>)
    requires
        contour_shape_ok(*mask),
    ensures
        exists|all: Seq<Seq<EdgeKey>>|
            {
                &&& walks_darts(all) == pair_darts(mask_segments(*mask))
                &&& forall|i: int| 0 <= i < all.len() ==> (#[trigger] all[i]).len() >= 2
                &&& chains_view(lines@) == long_chains(all)
                &&& forall|i: int|
                    0 <= i < all.len() ==> #[trigger] walk_maximal(
                        all,
                        i,
                        pair_darts(mask_segments(*mask)),
                    )
            },
        border_uniform(*mask) ==> forall|i: int|
            0 <= i < lines@.len() ==> (#[trigger] lines@[i])@.last() == lines@[i]@[0],
        border_uniform(*mask) ==> walks_darts(chains_view(lines@)) == pair_darts(
            mask_segments(*mask),
        ),
{
    let h = mask.height;
    let w = mask.width;
    if h < 2 || w < 2 {
        let lines: Vec<Vec<EdgeKey>> = Vec::new();
        proof {
            let all = Seq::<Seq<EdgeKey>>::empty();
            assert(pair_darts(mask_segments(*mask)) =~= walks_darts(all));
            assert(chains_view(lines@) =~= long_chains(all));
        }
        return lines;
    }
    let segments = collect_segments(mask);
    proof {
        lemma_segments_upto_ok(*mask, ((h - 1) * (w - 1)) as nat);
        if border_uniform(*mask) {
            lemma_border_uniform_even(*mask);
        }
    }
    let lines = walk_polylines(&segments, h, w);
    proof {
        if border_uniform(*mask) {
            let hh = h as int;
            let ww = w as int;
            let all = choose|all: Seq<Seq<EdgeKey>>|
                {
                    &&& walks_darts(all) == pair_darts(segments@)
                    &&& forall|i: int| 0 <= i < all.len() ==> (#[trigger] all[i]).len() >= 2
                    &&& chains_view(lines@) == long_chains(all)
                    &&& even_degrees(segments@, hh, ww) ==> forall|i: int|
                        0 <= i < all.len() ==> (#[trigger] all[i]).last() == all[i][0]
                    &&& forall|i: int|
                        0 <= i < all.len() ==> #[trigger] walk_maximal(all, i, pair_darts(segments@))
                };
            lemma_pair_darts_facts(segments@, hh, ww);
            assert forall|a: EdgeKey, b: EdgeKey| a != b implies #[trigger] pair_darts(
                segments@,
            ).count((a, b)) <= 1 by {
                lemma_pair_darts_seg_count(segments@, a, b);
                lemma_seg_count_upto(*mask, ((h - 1) * (w - 1)) as nat, a, b);
            }
            lemma_closed_walks_kept(all, segments@);
        }
    }
    lines
}

/// The pixels of the outer ring of the mask all have one value.
pub open spec fn border_uniform(mask: BoolMask) -> bool {
    forall|r: int, c: int|
        0 <= r < mask.height && 0 <= c < mask.width && (r == 0 || r == mask.height - 1 || c == 0 || c
            == mask.width - 1) ==> #[trigger] mask.at(r, c) == mask.at(0, 0)
}

/// The two pixels on either side of edge midpoint `k` differ.
pub open spec fn edge_differs(mask: BoolMask, k: EdgeKey) -> bool {
    if k.horizontal {
        mask.at(k.row as int, k.col as int) != mask.at(k.row as int, k.col + 1)
    } else {
        mask.at(k.row as int, k.col as int) != mask.at(k.row + 1, k.col as int)
    }
}

/// `k` is one of the four edge midpoints of the cell at `(y, x)`.
pub open spec fn is_cell_edge(k: EdgeKey, y: int, x: int) -> bool {
    let (top, right, bot, left) = cell_edges(y, x);
    k == top || k == right || k == bot || k == left
}

proof fn lemma_endpoint_count_concat(a: Seq<(EdgeKey, EdgeKey)>, b: Seq<(EdgeKey, EdgeKey)>, k: EdgeKey)
    ensures
        endpoint_count(a + b, k) == endpoint_count(a, k) + endpoint_count(b, k),
    decreases b.len(),
{
    if b.len() == 0 {
        assert(a + b =~= a);
    } else {
        assert((a + b).drop_last() =~= a + b.drop_last());
        assert((a + b).last() == b.last());
        lemma_endpoint_count_concat(a, b.drop_last(), k);
    }
}

/// A cell has each of its edge midpoints as a segment endpoint once when
/// the pixels across that edge differ, and never otherwise.
proof fn lemma_cell_endpoint_count(mask: BoolMask, y: int, x: int, k: EdgeKey)
    requires
        0 <= y,
        0 <= x,
        y + 1 < mask.height <= i32::MAX,
        x + 1 < mask.width <= i32::MAX,
    ensures
        endpoint_count(segments_of_cell(mask, y, x), k) == if is_cell_edge(k, y, x) && edge_differs(
            mask,
            k,
        ) {
            1nat
        } else {
            0nat
        },
{
    reveal_with_fuel(endpoint_count, 3);
    let (top, right, bot, left) = cell_edges(y, x);
    let tl = mask.at(y, x);
    let tr = mask.at(y, x + 1);
    let br = mask.at(y + 1, x + 1);
    let bl = mask.at(y + 1, x);
    assert(edge_differs(mask, top) == (tl != tr));
    assert(edge_differs(mask, bot) == (bl != br));
    assert(edge_differs(mask, left) == (tl != bl));
    assert(edge_differs(mask, right) == (tr != br));
    let segs = segments_of_cell(mask, y, x);
    if segs.len() == 1 {
        assert(segs.drop_last() =~= Seq::<(EdgeKey, EdgeKey)>::empty());
    } else if segs.len() == 2 {
        assert(segs.drop_last().drop_last() =~= Seq::<(EdgeKey, EdgeKey)>::empty());
    }
}

/// Among the first `n` cells (row-major, `w - 1` per row), how many have
/// the valid edge midpoint `k` as an edge.
pub open spec fn touch_count(k: EdgeKey, n: int, h: int, w: int) -> nat {
    let cw = w - 1;
    if k.horizontal {
        (if k.row >= 1 && (k.row - 1) * cw + k.col < n {
            1nat
        } else {
            0nat
        }) + (if k.row <= h - 2 && k.row * cw + k.col < n {
            1nat
        } else {
            0nat
        })
    } else {
        (if k.col >= 1 && k.row * cw + (k.col - 1) < n {
            1nat
        } else {
            0nat
        }) + (if k.col <= w - 2 && k.row * cw + k.col < n {
            1nat
        } else {
            0nat
        })
    }
}

proof fn lemma_cell_index_unique(a: int, b: int, y: int, x: int, cw: int)
    requires
        cw >= 1,
        0 <= b < cw,
        0 <= x < cw,
        a * cw + b == y * cw + x,
    ensures
        a == y,
        b == x,
{
    let m = y * cw + x;
    lemma_fundamental_div_mod_converse(m, cw, a, b);
    lemma_fundamental_div_mod_converse(m, cw, y, x);
}

/// Each edge midpoint is an endpoint of the segments of the first `n`
/// cells once per such cell having it as an edge, when the pixels across
/// it differ.
proof fn lemma_endpoint_count_upto(mask: BoolMask, n: nat, k: EdgeKey)
    requires
        contour_shape_ok(mask),
        mask.height >= 2,
        mask.width >= 2,
        n <= (mask.height - 1) * (mask.width - 1),
        key_valid(k, mask.height as int, mask.width as int),
    ensures
        endpoint_count(segments_upto(mask, n), k) == if edge_differs(mask, k) {
            touch_count(k, n as int, mask.height as int, mask.width as int)
        } else {
            0nat
        },
    decreases n,
{
    let h = mask.height as int;
    let w = mask.width as int;
    let cw = w - 1;
    if n == 0 {
        assert(segments_upto(mask, 0) =~= Seq::<(EdgeKey, EdgeKey)>::empty());
        if k.horizontal {
            assert(0 <= (k.row - 1) * cw + k.col || k.row < 1) by (nonlinear_arith)
                requires
                    cw >= 1,
                    k.col >= 0,
            ;
            assert(0 <= k.row * cw + k.col) by (nonlinear_arith)
                requires
                    cw >= 1,
                    k.col >= 0,
                    k.row >= 0,
            ;
        } else {
            assert(0 <= k.row * cw + (k.col - 1) || k.col < 1) by (nonlinear_arith)
                requires
                    cw >= 1,
                    k.row >= 0,
            ;
            assert(0 <= k.row * cw + k.col) by (nonlinear_arith)
                requires
                    cw >= 1,
                    k.col >= 0,
                    k.row >= 0,
            ;
        }
    } else {
        lemma_endpoint_count_upto(mask, (n - 1) as nat, k);
        let m = n - 1;
        let y = m / cw;
        let x = m % cw;
        assert(0 <= y < h - 1) by (nonlinear_arith)
            requires
                m < (h - 1) * cw,
                y == m / cw,
                cw >= 1,
                m >= 0,
        ;
        assert(m == y * cw + x) by {
            vstd::arithmetic::div_mod::lemma_fundamental_div_mod(m, cw);
        }
        lemma_endpoint_count_concat(segments_upto(mask, (n - 1) as nat), segments_of_cell(mask, y, x), k);
        lemma_cell_endpoint_count(mask, y, x, k);
        let (top, right, bot, left) = cell_edges(y, x);
        if k.horizontal {
            let r = k.row as int;
            let c = k.col as int;
            if r >= 1 && (r - 1) * cw + c == m {
                lemma_cell_index_unique(r - 1, c, y, x, cw);
            }
            if r <= h - 2 && r * cw + c == m {
                lemma_cell_index_unique(r, c, y, x, cw);
            }
            if k == top {
                assert(r * cw + c == m);
            }
            if k == bot {
                assert((r - 1) * cw + c == m);
            }
        } else {
            let r = k.row as int;
            let c = k.col as int;
            if c >= 1 && r * cw + (c - 1) == m {
                lemma_cell_index_unique(r, c - 1, y, x, cw);
            }
            if c <= w - 2 && r * cw + c == m {
                lemma_cell_index_unique(r, c, y, x, cw);
            }
            if k == left {
                assert(r * cw + c == m);
            }
            if k == right {
                assert(r * cw + (c - 1) == m);
            }
        }
    }
}

/// When the outer ring of the mask has one value, every edge midpoint is
/// an endpoint of an even number of segments.
proof fn lemma_border_uniform_even(mask: BoolMask)
    requires
        contour_shape_ok(mask),
        mask.height >= 2,
        mask.width >= 2,
        border_uniform(mask),
    ensures
        even_degrees(mask_segments(mask), mask.height as int, mask.width as int),
{
    let h = mask.height as int;
    let w = mask.width as int;
    let cw = w - 1;
    let n = ((h - 1) * cw) as nat;
    assert forall|k: EdgeKey| key_valid(k, h, w) implies #[trigger] endpoint_count(
        mask_segments(mask),
        k,
    ) % 2 == 0 by {
        lemma_endpoint_count_upto(mask, n, k);
        let r = k.row as int;
        let c = k.col as int;
        if k.horizontal {
            assert((r - 1) * cw + c < n || r < 1) by (nonlinear_arith)
                requires
                    r <= h - 1,
                    0 <= c < cw,
                    n == (h - 1) * cw,
            ;
            assert(r * cw + c < n || r > h - 2) by (nonlinear_arith)
                requires
                    0 <= c < cw,
                    n == (h - 1) * cw,
            ;
            if r == 0 || r == h - 1 {
                assert(mask.at(r, c) == mask.at(0, 0));
                assert(mask.at(r, c + 1) == mask.at(0, 0));
            }
        } else {
            assert(r * cw + (c - 1) < n || c < 1) by (nonlinear_arith)
                requires
                    0 <= r < h - 1,
                    c <= w - 1,
                    cw == w - 1,
                    n == (h - 1) * cw,
            ;
            assert(r * cw + c < n || c > w - 2) by (nonlinear_arith)
                requires
                    0 <= r < h - 1,
                    cw == w - 1,
                    n == (h - 1) * cw,
            ;
            if c == 0 || c == w - 1 {
                assert(mask.at(r, c) == mask.at(0, 0));
                assert(mask.at(r + 1, c) == mask.at(0, 0));
            }
        }
    }
}

/// How many of `pairs` join `a` and `b`, in either order.
pub open spec fn seg_count(pairs: Seq<(EdgeKey, EdgeKey)>, a: EdgeKey, b: EdgeKey) -> nat
    decreases pairs.len(),
{
    if pairs.len() == 0 {
        0
    } else {
        seg_count(pairs.drop_last(), a, b) + if pairs.last() == (a, b) || pairs.last() == (b, a) {
            1nat
        } else {
            0nat
        }
    }
}

proof fn lemma_pair_darts_seg_count(pairs: Seq<(EdgeKey, EdgeKey)>, a: EdgeKey, b: EdgeKey)
    requires
        a != b,
    ensures
        pair_darts(pairs).count((a, b)) == seg_count(pairs, a, b),
    decreases pairs.len(),
{
    if pairs.len() > 0 {
        lemma_pair_darts_seg_count(pairs.drop_last(), a, b);
    }
}

proof fn lemma_seg_count_concat(p: Seq<(EdgeKey, EdgeKey)>, q: Seq<(EdgeKey, EdgeKey)>, a: EdgeKey, b: EdgeKey)
    ensures
        seg_count(p + q, a, b) == seg_count(p, a, b) + seg_count(q, a, b),
    decreases q.len(),
{
    if q.len() == 0 {
        assert(p + q =~= p);
    } else {
        assert((p + q).drop_last() =~= p + q.drop_last());
        assert((p + q).last() == q.last());
        lemma_seg_count_concat(p, q.drop_last(), a, b);
    }
}

/// A cell joins two different edge midpoints by at most one segment, and
/// only midpoints of its own edges.
proof fn lemma_cell_seg_count(mask: BoolMask, y: int, x: int, a: EdgeKey, b: EdgeKey)
    requires
        0 <= y,
        0 <= x,
        y + 1 < mask.height <= i32::MAX,
        x + 1 < mask.width <= i32::MAX,
        a != b,
    ensures
        seg_count(segments_of_cell(mask, y, x), a, b) <= 1,
        seg_count(segments_of_cell(mask, y, x), a, b) > 0 ==> is_cell_edge(a, y, x) && is_cell_edge(
            b,
            y,
            x,
        ),
{
    reveal_with_fuel(seg_count, 3);
    let segs = segments_of_cell(mask, y, x);
    if segs.len() == 1 {
        assert(segs.drop_last() =~= Seq::<(EdgeKey, EdgeKey)>::empty());
    } else if segs.len() == 2 {
        assert(segs.drop_last().drop_last() =~= Seq::<(EdgeKey, EdgeKey)>::empty());
    }
}

/// Two different edge midpoints are both edges of at most one cell.
proof fn lemma_shared_edges_one_cell(a: EdgeKey, b: EdgeKey, y1: int, x1: int, y2: int, x2: int)
    requires
        a != b,
        0 <= y1 < i32::MAX,
        0 <= x1 < i32::MAX,
        0 <= y2 < i32::MAX,
        0 <= x2 < i32::MAX,
        is_cell_edge(a, y1, x1),
        is_cell_edge(b, y1, x1),
        is_cell_edge(a, y2, x2),
        is_cell_edge(b, y2, x2),
    ensures
        y1 == y2,
        x1 == x2,
{
}

/// Among the segments of the first `n` cells, two different edge midpoints
/// are joined at most once, and only if one of those cells has both as
/// edges.
proof fn lemma_seg_count_upto(mask: BoolMask, n: nat, a: EdgeKey, b: EdgeKey)
    requires
        contour_shape_ok(mask),
        mask.height >= 2,
        mask.width >= 2,
        n <= (mask.height - 1) * (mask.width - 1),
        a != b,
    ensures
        seg_count(segments_upto(mask, n), a, b) <= 1,
        seg_count(segments_upto(mask, n), a, b) > 0 ==> exists|i: int|
            0 <= i < n && #[trigger] is_cell_edge(a, i / (mask.width - 1), i % (mask.width - 1))
                && is_cell_edge(b, i / (mask.width - 1), i % (mask.width - 1)),
    decreases n,
{
    let h = mask.height as int;
    let w = mask.width as int;
    let cw = w - 1;
    if n == 0 {
        assert(segments_upto(mask, 0) =~= Seq::<(EdgeKey, EdgeKey)>::empty());
    } else {
        lemma_seg_count_upto(mask, (n - 1) as nat, a, b);
        let m = n - 1;
        let y = m / cw;
        let x = m % cw;
        assert(0 <= y < h - 1) by (nonlinear_arith)
            requires
                m < (h - 1) * cw,
                y == m / cw,
                cw >= 1,
                m >= 0,
        ;
        lemma_seg_count_concat(segments_upto(mask, (n - 1) as nat), segments_of_cell(mask, y, x), a, b);
        lemma_cell_seg_count(mask, y, x, a, b);
        let prev = seg_count(segments_upto(mask, (n - 1) as nat), a, b);
        if seg_count(segments_of_cell(mask, y, x), a, b) > 0 && prev > 0 {
            let i = choose|i: int|
                0 <= i < n - 1 && #[trigger] is_cell_edge(a, i / cw, i % cw) && is_cell_edge(
                    b,
                    i / cw,
                    i % cw,
                );
            assert(0 <= i / cw < h - 1) by (nonlinear_arith)
                requires
                    0 <= i < m,
                    m < (h - 1) * cw,
                    cw >= 1,
            ;
            lemma_shared_edges_one_cell(a, b, i / cw, i % cw, y, x);
            vstd::arithmetic::div_mod::lemma_fundamental_div_mod(i, cw);
            vstd::arithmetic::div_mod::lemma_fundamental_div_mod(m, cw);
            assert(false);
        }
        if seg_count(segments_of_cell(mask, y, x), a, b) > 0 {
            assert(is_cell_edge(a, m / cw, m % cw) && is_cell_edge(b, m / cw, m % cw));
        }
    }
}

proof fn lemma_walk_darts_within(all: Seq<Seq<EdgeKey>>, i: int, p: (EdgeKey, EdgeKey))
    requires
        0 <= i < all.len(),
    ensures
        walk_darts(all[i]).count(p) <= walks_darts(all).count(p),
    decreases all.len(),
{
    if i < all.len() - 1 {
        lemma_walk_darts_within(all.drop_last(), i, p);
        assert(all.drop_last()[i] == all[i]);
    }
}

proof fn lemma_long_chains_all(cs: Seq<Seq<EdgeKey>>)
    requires
        forall|i: int| 0 <= i < cs.len() ==> (#[trigger] cs[i]).len() >= 3,
    ensures
        long_chains(cs) == cs,
    decreases cs.len(),
{
    if cs.len() > 0 {
        lemma_long_chains_all(cs.drop_last());
        assert(cs.drop_last().push(cs.last()) =~= cs);
    }
}

/// Closed walks that together traverse a simple graph (no loops, no
/// repeated segments) each have at least four vertices, so none is
/// dropped as too short.
proof fn lemma_closed_walks_kept(all: Seq<Seq<EdgeKey>>, segs: Seq<(EdgeKey, EdgeKey)>)
    requires
        walks_darts(all) == pair_darts(segs),
        forall|i: int| 0 <= i < all.len() ==> (#[trigger] all[i]).len() >= 2,
        forall|i: int| 0 <= i < all.len() ==> (#[trigger] all[i]).last() == all[i][0],
        forall|a: EdgeKey| #[trigger] pair_darts(segs).count((a, a)) == 0,
        forall|a: EdgeKey, b: EdgeKey| a != b ==> #[trigger] pair_darts(segs).count((a, b)) <= 1,
    ensures
        long_chains(all) == all,
{
    assert forall|i: int| 0 <= i < all.len() implies (#[trigger] all[i]).len() >= 3 by {
        let c = all[i];
        if c.len() == 2 {
            let s0 = c[0];
            assert(c.drop_last() =~= seq![s0]);
            assert(walk_darts(c).count((s0, s0)) > 0);
            lemma_walk_darts_within(all, i, (s0, s0));
        } else if c.len() == 3 {
            let s0 = c[0];
            let a = c[1];
            assert(c.drop_last().drop_last() =~= seq![s0]);
            assert(c.drop_last() =~= seq![s0, a]);
            if a == s0 {
                assert(walk_darts(c).count((s0, s0)) > 0);
                lemma_walk_darts_within(all, i, (s0, s0));
            } else {
                let c2 = seq![s0, a];
                assert(c2.drop_last() =~= seq![s0]);
                assert(walk_darts(seq![s0]) =~= Multiset::empty());
                assert(walk_darts(c2) == Multiset::empty().insert((s0, a)).insert((a, s0)));
                assert(walk_darts(c2).count((s0, a)) == 1);
                assert(c[c.len() - 2] == a && c.last() == s0);
                assert(walk_darts(c) == walk_darts(c2).insert((a, s0)).insert((s0, a)));
                assert(walk_darts(c).count((s0, a)) >= 2);
                lemma_walk_darts_within(all, i, (s0, a));
            }
        }
    }
    lemma_long_chains_all(all);
}

proof fn lemma_uniform_segments_upto(mask: BoolMask, v: bool, n: nat)
    requires
        contour_shape_ok(mask),
        mask.height >= 2,
        mask.width >= 2,
        n <= (mask.height - 1) * (mask.width - 1),
        forall|r: int, c: int|
            0 <= r < mask.height && 0 <= c < mask.width ==> #[trigger] mask.at(r, c) == v,
    ensures
        segments_upto(mask, n).len() == 0,
    decreases n,
{
    if n > 0 {
        lemma_uniform_segments_upto(mask, v, (n - 1) as nat);
        let h = mask.height as int;
        let cw = mask.width - 1;
        let k = n - 1;
        let y = k / cw;
        let x = k % cw;
        assert(0 <= y < h - 1) by (nonlinear_arith)
            requires
                k < (h - 1) * cw,
                y == k / cw,
                cw >= 1,
                k >= 0,
        ;
        assert(mask.at(y, x) == v && mask.at(y, x + 1) == v && mask.at(y + 1, x + 1) == v
            && mask.at(y + 1, x) == v);
    }
}

proof fn lemma_walk_darts_len(c: Seq<EdgeKey>)
    requires
        c.len() >= 1,
    ensures
        walk_darts(c).len() == 2 * (c.len() - 1),
    decreases c.len(),
{
    if c.len() >= 2 {
        lemma_walk_darts_len(c.drop_last());
    }
}

proof fn lemma_empty_darts_no_walks(all: Seq<Seq<EdgeKey>>)
    requires
        walks_darts(all).len() == 0,
        forall|i: int| 0 <= i < all.len() ==> (#[trigger] all[i]).len() >= 2,
    ensures
        all.len() == 0,
{
    if all.len() > 0 {
        lemma_walk_darts_len(all.last());
        assert(all.last() == all[all.len() - 1]);
    }
}

/// A mask whose pixels all have the same value (all background or all
/// foreground) has no contour: whatever decomposition of its segments the
/// walk picks, no polyline comes out.
pub proof fn lemma_uniform_mask_has_no_contour(mask: BoolMask, v: bool, all: Seq<Seq<EdgeKey>>)
    requires
        contour_shape_ok(mask),
        forall|i: int| 0 <= i < mask.data@.len() ==> mask.data@[i] == v,
        walks_darts(all) == pair_darts(mask_segments(mask)),
        forall|i: int| 0 <= i < all.len() ==> (#[trigger] all[i]).len() >= 2,
    ensures
        mask_segments(mask).len() == 0,
        long_chains(all).len() == 0,
{
    if mask.height >= 2 && mask.width >= 2 {
        assert forall|r: int, c: int|
            0 <= r < mask.height && 0 <= c < mask.width implies #[trigger] mask.at(r, c) == v by {
            assert(0 <= r * mask.width + c < mask.height * mask.width) by (nonlinear_arith)
                requires
                    0 <= r < mask.height,
                    0 <= c < mask.width,
            ;
        }
        lemma_uniform_segments_upto(mask, v, ((mask.height - 1) * (mask.width - 1)) as nat);
    }
    assert(mask_segments(mask) =~= Seq::<(EdgeKey, EdgeKey)>::empty());
    assert(pair_darts(Seq::<(EdgeKey, EdgeKey)>::empty()).len() == 0);
    lemma_empty_darts_no_walks(all);
}

} // verus!
