//! Uncompressed COCO run-length encoding of binary masks, plus the tight
//! bounding box and area of a mask.
//!
//! Masks arrive as row-major `u8` buffers of shape `[h, w]`; a pixel is
//! foreground when its value is above 127. The RLE walks the mask
//! column-major and alternates background / foreground runs, starting with
//! background (a leading zero run when the first pixel is foreground).

use vstd::prelude::*;
use vstd::arithmetic::div_mod::lemma_fundamental_div_mod_converse;

verus! {

/// A mask value counts as foreground when it is above 127.
pub open spec fn is_foreground(v: u8) -> bool {
    v > 127
}

/// The mask's pixels in column-major order, as foreground flags:
/// entry `k` is pixel `(row = k % h, col = k / h)`.
pub open spec fn column_major_bits(mask: Seq<u8>, h: nat, w: nat) -> Seq<bool> {
    Seq::new(h * w, |k: int| is_foreground(mask[(k % (h as int)) * (w as int) + k / (h as int)]))
}

/// `n` copies of `v`.
pub open spec fn run_of(v: bool, n: nat) -> Seq<bool> {
    Seq::new(n, |i: int| v)
}

/// Expand alternating runs, the first of which has value `first`.
pub open spec fn expand_runs(counts: Seq<u32>, first: bool) -> Seq<bool>
    decreases counts.len(),
{
    if counts.len() == 0 {
        Seq::empty()
    } else {
        run_of(first, counts[0] as nat) + expand_runs(counts.drop_first(), !first)
    }
}

/// Decode uncompressed COCO RLE counts: runs alternate background /
/// foreground, starting with background.
pub open spec fn rle_decode(counts: Seq<u32>) -> Seq<bool> {
    expand_runs(counts, false)
}

/// Canonical form of the counts: at least one entry, and every run after
/// the leading background run is non-empty.
pub open spec fn rle_canonical(counts: Seq<u32>) -> bool {
    &&& counts.len() >= 1
    &&& forall|i: int| 1 <= i < counts.len() ==> counts[i] > 0
}

/// Value of the run at position `i` (even positions are background).
pub open spec fn run_value(first: bool, i: nat) -> bool {
    if i % 2 == 0 { first } else { !first }
}

proof fn lemma_expand_push(counts: Seq<u32>, first: bool, x: u32)
    ensures
        expand_runs(counts.push(x), first) =~= expand_runs(counts, first) + run_of(
            run_value(first, counts.len()),
            x as nat,
        ),
    decreases counts.len(),
{
    if counts.len() == 0 {
        assert(counts.push(x).drop_first() =~= Seq::<u32>::empty());
        assert(expand_runs(Seq::<u32>::empty(), !first) =~= Seq::<bool>::empty());
    } else {
        assert(counts.push(x).drop_first() =~= counts.drop_first().push(x));
        lemma_expand_push(counts.drop_first(), !first, x);
        assert(run_value(!first, (counts.len() - 1) as nat) == run_value(first, counts.len()));
    }
}

proof fn lemma_expand_len(counts: Seq<u32>, first: bool)
    ensures
        expand_runs(counts, first).len() == counts_sum(counts),
    decreases counts.len(),
{
    if counts.len() > 0 {
        lemma_expand_len(counts.drop_first(), !first);
    }
}

/// Sum of all run lengths.
pub open spec fn counts_sum(counts: Seq<u32>) -> nat
    decreases counts.len(),
{
    if counts.len() == 0 {
        0
    } else {
        counts[0] as nat + counts_sum(counts.drop_first())
    }
}

/// Decoding is injective on canonical counts: two canonical run lists that
/// decode to the same pixels are equal. Together with the contract of
/// [`encode_rle`] this says its output is the one canonical encoding of the
/// mask.
pub proof fn lemma_rle_canonical_unique(a: Seq<u32>, b: Seq<u32>)
    requires
        rle_canonical(a),
        rle_canonical(b),
        rle_decode(a) == rle_decode(b),
    ensures
        a == b,
{
    lemma_expand_unique(a, b, false, true);
}

proof fn lemma_expand_unique(a: Seq<u32>, b: Seq<u32>, first: bool, may_start_empty: bool)
    requires
        forall|i: int| 0 <= i < a.len() && (i > 0 || !may_start_empty) ==> a[i] > 0,
        forall|i: int| 0 <= i < b.len() && (i > 0 || !may_start_empty) ==> b[i] > 0,
        may_start_empty ==> a.len() >= 1 && b.len() >= 1,
        expand_runs(a, first) == expand_runs(b, first),
    ensures
        a =~= b,
    decreases a.len() + b.len(),
{
    let ea = expand_runs(a, first);
    if a.len() == 0 {
        if b.len() > 0 {
            assert(expand_runs(b, first).len() >= b[0]) by {
                lemma_expand_len(b, first);
                lemma_expand_len(b.drop_first(), !first);
            }
            assert(ea.len() == 0);
        }
    } else if b.len() == 0 {
        assert(expand_runs(a, first).len() >= a[0]) by {
            lemma_expand_len(a, first);
            lemma_expand_len(a.drop_first(), !first);
        }
    } else {
        let ra = a.drop_first();
        let rb = b.drop_first();
        let xa = a[0] as nat;
        let xb = b[0] as nat;
        let ta = expand_runs(ra, !first);
        let tb = expand_runs(rb, !first);
        assert(ea =~= run_of(first, xa) + ta);
        assert(expand_runs(b, first) =~= run_of(first, xb) + tb);
        // The first element of each tail (if any) has the opposite value.
        assert(ra.len() > 0 ==> ta.len() > 0 && ta[0] == !first) by {
            if ra.len() > 0 {
                assert(ta =~= run_of(!first, ra[0] as nat) + expand_runs(ra.drop_first(), first));
                assert(ra[0] == a[1]);
            }
        }
        assert(rb.len() > 0 ==> tb.len() > 0 && tb[0] == !first) by {
            if rb.len() > 0 {
                assert(tb =~= run_of(!first, rb[0] as nat) + expand_runs(rb.drop_first(), first));
                assert(rb[0] == b[1]);
            }
        }
        lemma_expand_len(ra, !first);
        lemma_expand_len(rb, !first);
        if xa < xb {
            // position xa is `first` in b's expansion but is either past the end
            // or `!first` in a's.
            assert(expand_runs(b, first)[xa as int] == first);
            if ra.len() > 0 {
                assert(ea[xa as int] == ta[0]);
            } else {
                assert(counts_sum(ra) == 0);
                assert(ea.len() == xa);
            }
            assert(false);
        } else if xb < xa {
            assert(ea[xb as int] == first);
            if rb.len() > 0 {
                assert(expand_runs(b, first)[xb as int] == tb[0]);
            } else {
                assert(counts_sum(rb) == 0);
                assert(expand_runs(b, first).len() == xb);
            }
            assert(false);
        } else {
            assert(ta =~= ea.subrange(xa as int, ea.len() as int));
            assert(tb =~= expand_runs(b, first).subrange(xb as int, ea.len() as int));
            lemma_expand_unique(ra, rb, !first, false);
            assert(a =~= seq![a[0]] + ra);
            assert(b =~= seq![b[0]] + rb);
        }
    }
}

/// Encode a row-major mask of shape `[h, w]` as uncompressed COCO RLE
/// counts: column-major, alternating runs starting with background, with a
/// leading zero when the first pixel is foreground.
pub fn encode_rle(mask: &[u8], h: usize, w: usize) -> (counts: Vec<u32>)
    requires
        h * w <= mask@.len(),
        h * w <= u32::MAX,
    ensures
        rle_canonical(counts@),
        rle_decode(counts@) == column_major_bits(mask@, h as nat, w as nat),
{
    let ghost bits = column_major_bits(mask@, h as nat, w as nat);
    let mut counts: Vec<u32> = Vec::new();
    let mut current_val: u8 = 0;
    let mut run: u32 = 0;
    let mut col: usize = 0;
    proof {
        lemma_expand_push(counts@, false, run);
        assert(expand_runs(Seq::<u32>::empty(), false) =~= Seq::<bool>::empty());
    }
    while col < w
        invariant
            col <= w,
            h * w <= mask@.len(),
            h * w <= u32::MAX,
            bits == column_major_bits(mask@, h as nat, w as nat),
            current_val == 0 || current_val == 1,
            (current_val == 1) == (counts@.len() % 2 == 1),
            forall|i: int| 1 <= i < counts@.len() ==> counts@[i] > 0,
            counts@.len() > 0 ==> run > 0,
            run <= col * h,
            rle_decode(counts@.push(run)) =~= bits.take((col * h) as int),
        decreases w - col,
    {
        let mut row: usize = 0;
        while row < h
            invariant
                col < w,
                row <= h,
                h * w <= mask@.len(),
                h * w <= u32::MAX,
                bits == column_major_bits(mask@, h as nat, w as nat),
                current_val == 0 || current_val == 1,
                (current_val == 1) == (counts@.len() % 2 == 1),
                forall|i: int| 1 <= i < counts@.len() ==> counts@[i] > 0,
                counts@.len() > 0 ==> run > 0,
                run <= col * h + row,
                rle_decode(counts@.push(run)) =~= bits.take((col * h + row) as int),
            decreases h - row,
        {
            proof {
                assert(col * h + row < h * w) by (nonlinear_arith)
                    requires
                        col < w,
                        row < h,
                ;
                assert(row * w + col < h * w) by (nonlinear_arith)
                    requires
                        col < w,
                        row < h,
                ;
                lemma_fundamental_div_mod_converse((col * h + row) as int, h as int, col as int, row as int);
            }
            let k_val = mask[row * w + col];
            let v: u8 = if k_val > 127 { 1 } else { 0 };
            let ghost k = (col * h + row) as int;
            assert(bits[k] == (v == 1));
            if v == current_val {
                proof {
                    lemma_expand_push(counts@, false, run);
                    lemma_expand_push(counts@, false, (run + 1) as u32);
                    assert(run_value(false, counts@.len()) == (current_val == 1));
                    assert(run_of(current_val == 1, (run + 1) as nat) =~= run_of(current_val == 1, run as nat).push(current_val == 1));
                    assert(bits.take(k + 1) =~= bits.take(k).push(bits[k]));
                }
                run = run + 1;
            } else {
                proof {
                    lemma_expand_push(counts@.push(run), false, 1);
                    assert(run_value(false, counts@.push(run).len()) == (v == 1));
                    assert(run_of(v == 1, 1) =~= seq![v == 1]);
                    assert(bits.take(k + 1) =~= bits.take(k).push(bits[k]));
                }
                counts.push(run);
                current_val = 1 - current_val;
                run = 1;
            }
            row = row + 1;
        }
        assert(col * h + h == (col + 1) * h) by (nonlinear_arith);
        col = col + 1;
    }
    assert(bits.take((w * h) as int) =~= bits) by {
        assert(w * h == h * w) by (nonlinear_arith);
    }
    counts.push(run);
    counts
}

/// Foreground flag of pixel `(row, col)` in a row-major mask of width `w`.
pub open spec fn fg_at(mask: Seq<u8>, w: nat, row: int, col: int) -> bool {
    is_foreground(mask[row * (w as int) + col])
}

/// Number of `true` entries.
pub open spec fn count_true(s: Seq<bool>) -> nat
    decreases s.len(),
{
    if s.len() == 0 {
        0
    } else {
        count_true(s.drop_last()) + if s.last() { 1nat } else { 0nat }
    }
}

/// The mask's pixels in row-major order, as foreground flags.
pub open spec fn row_major_bits(mask: Seq<u8>, h: nat, w: nat) -> Seq<bool> {
    Seq::new(h * w, |k: int| is_foreground(mask[k]))
}

/// Tight bounding box `[x, y, width, height]` (in whole pixels) of the
/// foreground of a `[h, w]` mask and its foreground pixel count: `box` holds
/// every foreground pixel and touches one on each of its four sides. An
/// empty mask gives `[0, 0, 0, 0]` and area `0`.
pub open spec fn is_tight_box(mask: Seq<u8>, h: nat, w: nat, b: [u64; 4]) -> bool {
    let (x, y, bw, bh) = (b[0] as int, b[1] as int, b[2] as int, b[3] as int);
    &&& bw >= 1 && bh >= 1
    &&& forall|r: int, c: int|
        0 <= r < h && 0 <= c < w && #[trigger] fg_at(mask, w, r, c) ==> x <= c < x + bw && y <= r < y
            + bh
    &&& exists|r: int, c: int| 0 <= r < h && 0 <= c < w && #[trigger] fg_at(mask, w, r, c) && c == x
    &&& exists|r: int, c: int|
        0 <= r < h && 0 <= c < w && #[trigger] fg_at(mask, w, r, c) && c == x + bw - 1
    &&& exists|r: int, c: int| 0 <= r < h && 0 <= c < w && #[trigger] fg_at(mask, w, r, c) && r == y
    &&& exists|r: int, c: int|
        0 <= r < h && 0 <= c < w && #[trigger] fg_at(mask, w, r, c) && r == y + bh - 1
}

proof fn lemma_count_push(s: Seq<bool>, b: bool)
    ensures
        count_true(s.push(b)) == count_true(s) + if b { 1nat } else { 0nat },
{
    assert(s.push(b).drop_last() =~= s);
}

/// Bounding box `[x, y, width, height]` and foreground pixel count of a
/// row-major `[h, w]` mask (foreground is a value above 127). An empty
/// mask gives `([0, 0, 0, 0], 0)`.
pub fn mask_bbox_and_area(mask: &[u8], h: usize, w: usize) -> (res: ([u64; 4], u64))
    requires
        h * w <= mask@.len(),
    ensures
        res.1 == count_true(row_major_bits(mask@, h as nat, w as nat)),
        res.1 == 0 ==> res.0@ == seq![0u64, 0, 0, 0],
        res.1 > 0 ==> is_tight_box(mask@, h as nat, w as nat, res.0),
{
    let ghost bits = row_major_bits(mask@, h as nat, w as nat);
    let mask_len = mask.len();
    let mut min_x: usize = 0;
    let mut min_y: usize = 0;
    let mut max_x: usize = 0;
    let mut max_y: usize = 0;
    let mut area: u64 = 0;
    let ghost mut wx_min: (int, int) = (0, 0);
    let ghost mut wx_max: (int, int) = (0, 0);
    let ghost mut wy_min: (int, int) = (0, 0);
    let ghost mut wy_max: (int, int) = (0, 0);
    let mut row: usize = 0;
    while row < h
        invariant
            row <= h,
            h * w <= mask@.len(),
            mask@.len() == mask_len,
            bits == row_major_bits(mask@, h as nat, w as nat),
            area as int == count_true(bits.take((row * w) as int)),
            area <= row * w,
            area > 0 ==> {
                &&& min_x <= max_x < w && min_y <= max_y < row
                &&& forall|r: int, c: int|
                    0 <= r < row && 0 <= c < w && #[trigger] fg_at(mask@, w as nat, r, c) ==> min_x
                        <= c <= max_x && min_y <= r <= max_y
                &&& 0 <= wx_min.0 < row && 0 <= wx_min.1 < w && fg_at(mask@, w as nat, wx_min.0, wx_min.1) && wx_min.1 == min_x
                &&& 0 <= wx_max.0 < row && 0 <= wx_max.1 < w && fg_at(mask@, w as nat, wx_max.0, wx_max.1) && wx_max.1 == max_x
                &&& 0 <= wy_min.0 < row && 0 <= wy_min.1 < w && fg_at(mask@, w as nat, wy_min.0, wy_min.1) && wy_min.0 == min_y
                &&& 0 <= wy_max.0 < row && 0 <= wy_max.1 < w && fg_at(mask@, w as nat, wy_max.0, wy_max.1) && wy_max.0 == max_y
            },
            area == 0 ==> forall|r: int, c: int|
                0 <= r < row && 0 <= c < w ==> !#[trigger] fg_at(mask@, w as nat, r, c),
        decreases h - row,
    {
        let mut col: usize = 0;
        while col < w
            invariant
                row < h,
                col <= w,
                h * w <= mask@.len(),
                mask@.len() == mask_len,
                bits == row_major_bits(mask@, h as nat, w as nat),
                area as int == count_true(bits.take((row * w + col) as int)),
                area <= row * w + col,
                area > 0 ==> {
                    &&& min_x <= max_x < w && min_y <= max_y <= row
                    &&& forall|r: int, c: int|
                        0 <= c < w && (0 <= r < row || (r == row && c < col)) && #[trigger] fg_at(
                            mask@,
                            w as nat,
                            r,
                            c,
                        ) ==> min_x <= c <= max_x && min_y <= r <= max_y
                    &&& (0 <= wx_min.0 < row || (wx_min.0 == row && wx_min.1 < col)) && 0 <= wx_min.1 < w && fg_at(mask@, w as nat, wx_min.0, wx_min.1) && wx_min.1 == min_x
                    &&& (0 <= wx_max.0 < row || (wx_max.0 == row && wx_max.1 < col)) && 0 <= wx_max.1 < w && fg_at(mask@, w as nat, wx_max.0, wx_max.1) && wx_max.1 == max_x
                    &&& (0 <= wy_min.0 < row || (wy_min.0 == row && wy_min.1 < col)) && 0 <= wy_min.1 < w && fg_at(mask@, w as nat, wy_min.0, wy_min.1) && wy_min.0 == min_y
                    &&& (0 <= wy_max.0 < row || (wy_max.0 == row && wy_max.1 < col)) && 0 <= wy_max.1 < w && fg_at(mask@, w as nat, wy_max.0, wy_max.1) && wy_max.0 == max_y
                },
                area == 0 ==> forall|r: int, c: int|
                    0 <= c < w && (0 <= r < row || (r == row && c < col)) ==> !#[trigger] fg_at(
                        mask@,
                        w as nat,
                        r,
                        c,
                    ),
            decreases w - col,
        {
            proof {
                assert(row * w + col < h * w) by (nonlinear_arith)
                    requires
                        col < w,
                        row < h,
                ;
            }
            let ghost k = (row * w + col) as int;
            let fg = mask[row * w + col] > 127;
            proof {
                assert(bits.take(k + 1) =~= bits.take(k).push(bits[k]));
                lemma_count_push(bits.take(k), bits[k]);
                assert(bits[k] == fg);
                assert(fg == fg_at(mask@, w as nat, row as int, col as int));
            }
            if fg {
                if area == 0 {
                    min_x = col;
                    max_x = col;
                    min_y = row;
                    max_y = row;
                    proof {
                        wx_min = (row as int, col as int);
                        wx_max = (row as int, col as int);
                        wy_min = (row as int, col as int);
                        wy_max = (row as int, col as int);
                    }
                } else {
                    if col < min_x {
                        min_x = col;
                        proof { wx_min = (row as int, col as int); }
                    }
                    if row < min_y {
                        min_y = row;
                        proof { wy_min = (row as int, col as int); }
                    }
                    if col > max_x {
                        max_x = col;
                        proof { wx_max = (row as int, col as int); }
                    }
                    if row > max_y {
                        max_y = row;
                        proof { wy_max = (row as int, col as int); }
                    }
                }
                area = area + 1;
            }
            col = col + 1;
        }
        assert(row * w + w == (row + 1) * w) by (nonlinear_arith);
        row = row + 1;
    }
    assert(bits.take((h * w) as int) =~= bits);
    if area == 0 {
        return ([0, 0, 0, 0], 0);
    }
    let b: [u64; 4] = [min_x as u64, min_y as u64, (max_x - min_x + 1) as u64, (max_y - min_y + 1) as u64];
    proof {
        assert(fg_at(mask@, w as nat, wx_min.0, wx_min.1));
        assert(fg_at(mask@, w as nat, wx_max.0, wx_max.1));
        assert(fg_at(mask@, w as nat, wy_min.0, wy_min.1));
        assert(fg_at(mask@, w as nat, wy_max.0, wy_max.1));
    }
    (b, area)
}

/// The runs of an encoding of an `h`×`w` mask add up to its pixel count.
pub proof fn lemma_rle_counts_cover(counts: Seq<u32>, mask: Seq<u8>, h: nat, w: nat)
    requires
        rle_decode(counts) == column_major_bits(mask, h, w),
    ensures
        counts_sum(counts) == h * w,
{
    lemma_expand_len(counts, false);
}

/// A canonical encoding starts with a zero-length background run exactly
/// when the first pixel (row 0, column 0) is foreground.
pub proof fn lemma_rle_leading_zero(counts: Seq<u32>, mask: Seq<u8>, h: nat, w: nat)
    requires
        rle_canonical(counts),
        rle_decode(counts) == column_major_bits(mask, h, w),
        h * w > 0,
    ensures
        counts[0] == 0 <==> is_foreground(mask[0]),
{
    let bits = column_major_bits(mask, h, w);
    assert(h > 0) by (nonlinear_arith)
        requires
            h * w > 0,
    ;
    assert(bits[0] == is_foreground(mask[0])) by {
        vstd::arithmetic::div_mod::lemma_small_mod(0, h);
        assert(0int / (h as int) == 0) by {
            vstd::arithmetic::div_mod::lemma_basic_div(0, h as int);
        }
    }
    let rest = counts.drop_first();
    if counts[0] > 0 {
        assert(rle_decode(counts)[0] == false);
    } else {
        assert(run_of(false, 0) =~= Seq::<bool>::empty());
        assert(rle_decode(counts) =~= expand_runs(rest, true));
        if rest.len() == 0 {
            lemma_expand_len(counts, false);
            assert(false);
        } else {
            assert(rest[0] > 0);
            assert(expand_runs(rest, true)[0] == true);
        }
    }
}

} // verus!

