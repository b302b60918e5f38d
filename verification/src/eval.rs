//! The evaluator: what a formula is worth on a given sheet.
//!
//! All arithmetic wraps modulo `2^32` and never traps; division by zero is a
//! cell error with value 0.  Aggregates walk their rectangle in row-major
//! order and short-circuit to an error when any member cell carries one.

use vstd::prelude::*;

use crate::ast::cell;
use crate::ast::rect_refs;
use crate::ast::CellRef;
use crate::ast::Formula;
use crate::ast::Op;

verus! {

/// The column count of a sheet: the width of its first row.
pub open spec fn spec_cols(sheet: Seq<Vec<cell>>) -> int {
    if sheet.len() == 0 {
        0
    } else {
        sheet[0]@.len() as int
    }
}

/// Every row of the sheet has the width of the first row.
pub open spec fn rect_sheet(sheet: Seq<Vec<cell>>) -> bool {
    forall|i: int| 0 <= i < sheet.len() ==> (#[trigger] sheet[i])@.len() == spec_cols(sheet)
}

/// The cell `r` lies inside a `rows x cols` grid.
pub open spec fn in_bounds(r: CellRef, rows: int, cols: int) -> bool {
    0 <= r.row < rows && 0 <= r.col < cols
}

/// Looking a cell up: an out-of-bounds reference or a cell whose error flag
/// is set yields an error with value 0; otherwise the stored value.
pub open spec fn spec_lookup(r: CellRef, sheet: Seq<Vec<cell>>) -> (i32, bool) {
    if !in_bounds(r, sheet.len() as int, spec_cols(sheet)) {
        (0i32, true)
    } else if sheet[r.row as int]@[r.col as int].err != 0 {
        (0i32, true)
    } else {
        (sheet[r.row as int]@[r.col as int].val, false)
    }
}

/// Truncating `i32` division, with the one overflowing quotient wrapped:
/// `i32::MIN / -1` gives `i32::MIN`.
pub open spec fn div_wrap(l: i32, r: i32) -> i32 {
    match l.checked_div(r) {
        Some(v) => v,
        None => i32::MIN,
    }
}

/// The values of the cells of a rectangle, in row-major order.
pub open spec fn rect_vals(sheet: Seq<Vec<cell>>, start: CellRef, end: CellRef) -> Seq<i32> {
    rect_refs(start, end).map_values(|r: CellRef| sheet[r.row as int]@[r.col as int].val)
}

/// Some cell of the rectangle has its error flag set.
pub open spec fn rect_has_err(sheet: Seq<Vec<cell>>, start: CellRef, end: CellRef) -> bool {
    exists|k: int|
        0 <= k < rect_refs(start, end).len() && sheet[rect_refs(start, end)[k].row as int]@[rect_refs(
            start,
            end,
        )[k].col as int].err != 0
}

/// The wrapping sum of a value sequence, folded left to right.
pub open spec fn wrap_sum(vals: Seq<i32>) -> i32
    decreases vals.len(),
{
    if vals.len() == 0 {
        0i32
    } else {
        vstd::wrapping::i32_specs::wrapping_add(wrap_sum(vals.drop_last()), vals.last())
    }
}

/// The exact (unwrapped) sum of a value sequence.
pub open spec fn exact_sum(vals: Seq<i32>) -> int
    decreases vals.len(),
{
    if vals.len() == 0 {
        0
    } else {
        exact_sum(vals.drop_last()) + vals.last()
    }
}

/// The exact sum of the squares of a value sequence.
pub open spec fn exact_sum_sq(vals: Seq<i32>) -> int
    decreases vals.len(),
{
    if vals.len() == 0 {
        0
    } else {
        exact_sum_sq(vals.drop_last()) + vals.last() * vals.last()
    }
}

/// The least element of a non-empty value sequence.
pub open spec fn seq_min(vals: Seq<i32>) -> i32
    decreases vals.len(),
{
    if vals.len() <= 1 {
        vals[0]
    } else if vals.last() < seq_min(vals.drop_last()) {
        vals.last()
    } else {
        seq_min(vals.drop_last())
    }
}

/// The greatest element of a non-empty value sequence.
pub open spec fn seq_max(vals: Seq<i32>) -> i32
    decreases vals.len(),
{
    if vals.len() <= 1 {
        vals[0]
    } else if vals.last() > seq_max(vals.drop_last()) {
        vals.last()
    } else {
        seq_max(vals.drop_last())
    }
}

/// The integer square root: the greatest `r` with `r * r <= x`.
pub open spec fn isqrt_spec(x: int) -> int
    decreases x,
{
    if x < 1 {
        0
    } else {
        let r = isqrt_spec(x - 1);
        if (r + 1) * (r + 1) <= x {
            r + 1
        } else {
            r
        }
    }
}

/// `isqrt_spec(x)` squared is at most `x`, and the next square is beyond it.
pub proof fn lemma_isqrt(x: int)
    requires
        x >= 0,
    ensures
        isqrt_spec(x) >= 0,
        isqrt_spec(x) * isqrt_spec(x) <= x,
        (isqrt_spec(x) + 1) * (isqrt_spec(x) + 1) > x,
    decreases x,
{
    if x >= 1 {
        lemma_isqrt(x - 1);
        let r = isqrt_spec(x - 1);
        if (r + 1) * (r + 1) <= x {
            assert((r + 2) * (r + 2) > (r + 1) * (r + 1)) by (nonlinear_arith)
                requires
                    r >= 0,
            ;
        }
    }
}

/// Any `r` whose square brackets `x` is the integer square root of `x`.
pub proof fn lemma_isqrt_unique(x: int, r: int)
    requires
        x >= 0,
        r >= 0,
        r * r <= x,
        (r + 1) * (r + 1) > x,
    ensures
        r == isqrt_spec(x),
{
    lemma_isqrt(x);
    let q = isqrt_spec(x);
    if r < q {
        assert((r + 1) * (r + 1) <= q * q) by (nonlinear_arith)
            requires
                0 <= r,
                r + 1 <= q,
        ;
    } else if q < r {
        assert((q + 1) * (q + 1) <= r * r) by (nonlinear_arith)
            requires
                0 <= q,
                q + 1 <= r,
        ;
    }
}

/// The sum of squared deviations from any point is non-negative:
/// `sum(v_i^2) + n*x^2 - 2*x*sum(v_i) >= 0`.
proof fn lemma_dev_sum_nonneg(vals: Seq<i32>, x: int)
    ensures
        exact_sum_sq(vals) + vals.len() * x * x - 2 * exact_sum(vals) * x >= 0,
    decreases vals.len(),
{
    if vals.len() == 0 {
    } else {
        let w = vals.drop_last();
        let v = vals.last() as int;
        lemma_dev_sum_nonneg(w, x);
        assert(exact_sum_sq(vals) + vals.len() * x * x - 2 * exact_sum(vals) * x == (exact_sum_sq(
            w,
        ) + w.len() * x * x - 2 * exact_sum(w) * x) + (v - x) * (v - x)) by (nonlinear_arith)
            requires
                exact_sum_sq(vals) == exact_sum_sq(w) + v * v,
                exact_sum(vals) == exact_sum(w) + v,
                vals.len() == w.len() + 1,
        ;
        assert((v - x) * (v - x) >= 0) by (nonlinear_arith);
    }
}

/// Cauchy-Schwarz for the variance numerator:
/// `n * sum(v_i^2) - sum(v_i)^2 >= 0`.
pub proof fn lemma_variance_nonneg(vals: Seq<i32>)
    ensures
        vals.len() * exact_sum_sq(vals) - exact_sum(vals) * exact_sum(vals) >= 0,
    decreases vals.len(),
{
    if vals.len() == 0 {
    } else {
        let w = vals.drop_last();
        let v = vals.last() as int;
        lemma_variance_nonneg(w);
        lemma_dev_sum_nonneg(w, v);
        assert(vals.len() * exact_sum_sq(vals) - exact_sum(vals) * exact_sum(vals) == (w.len()
            * exact_sum_sq(w) - exact_sum(w) * exact_sum(w)) + (exact_sum_sq(w) + w.len() * v * v
            - 2 * exact_sum(w) * v)) by (nonlinear_arith)
            requires
                exact_sum_sq(vals) == exact_sum_sq(w) + v * v,
                exact_sum(vals) == exact_sum(w) + v,
                vals.len() == w.len() + 1,
        ;
    }
}

/// The sample standard deviation of a value sequence, rounded to the nearest
/// integer with ties away from zero; `0` for fewer than two values.
///
/// For `n >= 2` the sample variance is
/// `(n * sum(v^2) - sum(v)^2) / (n * (n - 1))`, and rounding its square root
/// with `floor(sqrt(var) + 1/2)` equals `(isqrt(4 * var) + 1) / 2`.
pub open spec fn stdev_spec(vals: Seq<i32>) -> int {
    let n = vals.len() as int;
    if n < 2 {
        0
    } else {
        let m = n * exact_sum_sq(vals) - exact_sum(vals) * exact_sum(vals);
        (isqrt_spec((4 * m) / (n * (n - 1))) + 1) / 2
    }
}

/// `stdev_spec`, saturated to the `i32` range as a float-to-integer cast
/// saturates.
pub open spec fn stdev_val(vals: Seq<i32>) -> i32 {
    if stdev_spec(vals) > i32::MAX {
        i32::MAX
    } else {
        stdev_spec(vals) as i32
    }
}

/// Which aggregate a function name denotes: `0` SUM, `1` AVG, `2` MIN,
/// `3` MAX, `4` STDEV, `5` anything else.
pub open spec fn spec_func_kind(s: Seq<char>) -> int {
    if s =~= seq!['S', 'U', 'M'] {
        0
    } else if s =~= seq!['A', 'V', 'G'] {
        1
    } else if s =~= seq!['M', 'I', 'N'] {
        2
    } else if s =~= seq!['M', 'A', 'X'] {
        3
    } else if s =~= seq!['S', 'T', 'D', 'E', 'V'] {
        4
    } else {
        5
    }
}

/// What an aggregate of the given kind is worth on a non-empty value list.
pub open spec fn spec_agg(kind: int, vals: Seq<i32>) -> i32 {
    if kind == 0 {
        wrap_sum(vals)
    } else if kind == 1 {
        div_wrap(wrap_sum(vals), vals.len() as i32)
    } else if kind == 2 {
        seq_min(vals)
    } else if kind == 3 {
        seq_max(vals)
    } else {
        stdev_val(vals)
    }
}

/// What a formula is worth on a sheet: the pair of its value and its error
/// flag, by the rules of this module.
pub open spec fn spec_eval(f: Formula, sheet: Seq<Vec<cell>>) -> (i32, bool)
    decreases f,
{
    match f {
        Formula::Literal(n) => (n, false),
        Formula::Cell(r) => spec_lookup(r, sheet),
        Formula::Inc { base, offset } => {
            let (v, e) = spec_lookup(base, sheet);
            (vstd::wrapping::i32_specs::wrapping_add(v, offset), e)
        },
        Formula::Arith { op, left, right } => {
            let (lv, le) = spec_eval(*left, sheet);
            let (rv, re) = spec_eval(*right, sheet);
            if le || re {
                (0i32, true)
            } else {
                match op {
                    Op::Add => (vstd::wrapping::i32_specs::wrapping_add(lv, rv), false),
                    Op::Sub => (vstd::wrapping::i32_specs::wrapping_sub(lv, rv), false),
                    Op::Mul => (vstd::wrapping::i32_specs::wrapping_mul(lv, rv), false),
                    Op::Div => {
                        if rv == 0 {
                            (0i32, true)
                        } else {
                            (div_wrap(lv, rv), false)
                        }
                    },
                }
            }
        },
        Formula::Range { func, start, end } => {
            let rows = sheet.len() as int;
            let cols = spec_cols(sheet);
            if start.row < 0 || start.col < 0 || end.row < start.row || end.col < start.col
                || end.row >= rows || end.col >= cols {
                (0i32, true)
            } else if rect_has_err(sheet, start, end) {
                (0i32, true)
            } else if spec_func_kind(func@) == 5 {
                (0i32, true)
            } else {
                (spec_agg(spec_func_kind(func@), rect_vals(sheet, start, end)), false)
            }
        },
        Formula::SleepLiteral(n) => (n, false),
        Formula::SleepCell(r) => spec_lookup(r, sheet),
    }
}

/// Division caps squares: for `m >= 1`, `x / m >= m` holds exactly when
/// `m * m <= x`.
proof fn lemma_div_vs_square(x: int, m: int)
    requires
        x >= 0,
        m >= 1,
    ensures
        (x / m >= m) <==> (m * m <= x),
{
    vstd::arithmetic::div_mod::lemma_fundamental_div_mod(x, m);
    let q = x / m;
    let r = x % m;
    if q >= m {
        assert(m * q >= m * m) by (nonlinear_arith)
            requires
                m >= 1,
                q >= m,
        ;
        assert(r >= 0) by {
            vstd::arithmetic::div_mod::lemma_mod_bound(x, m);
        }
    }
    if m * m <= x && q < m {
        assert(r < m) by {
            vstd::arithmetic::div_mod::lemma_mod_bound(x, m);
        }
        assert(m * q + r < m * m) by (nonlinear_arith)
            requires
                q <= m - 1,
                r < m,
                m >= 1,
        ;
    }
}

/// Computes the integer square root of a 128-bit value by bisection.
fn isqrt_u128(x: u128) -> (r: u128)
    ensures
        r as int == isqrt_spec(x as int),
{
    if x == 0 {
        return 0;
    }
    let mut lo: u128 = 1;
    let mut hi: u128 = if x < 0xffff_ffff_ffff_ffff {
        x
    } else {
        0xffff_ffff_ffff_ffff
    };
    proof {
        assert((hi as int + 1) * (hi as int + 1) > x as int) by (nonlinear_arith)
            requires
                hi as int >= 1,
                x as int >= 1,
                hi as int >= x as int || hi as int == 0xffff_ffff_ffff_ffff,
                x as int <= 0xffff_ffff_ffff_ffff_ffff_ffff_ffff_ffff,
        ;
    }
    while lo < hi
        invariant
            1 <= lo <= hi,
            (lo as int) * (lo as int) <= x as int,
            (hi as int + 1) * (hi as int + 1) > x as int,
        decreases hi - lo,
    {
        let mid: u128 = lo + (hi - lo + 1) / 2;
        proof {
            lemma_div_vs_square(x as int, mid as int);
        }
        if mid <= x / mid {
            lo = mid;
        } else {
            hi = mid - 1;
        }
    }
    proof {
        lemma_isqrt_unique(x as int, lo as int);
    }
    lo
}

/// Which aggregate a function name string denotes.
fn func_kind(func: &str) -> (k: u8)
    ensures
        k as int == spec_func_kind(func@),
{
    let v = crate::text::str_to_chars(func);
    let n: usize = v.len();
    if n == 3 {
        let a = crate::text::char_at(&v, 0);
        let b = crate::text::char_at(&v, 1);
        let c = crate::text::char_at(&v, 2);
        proof {
            assert(v@.len() == 3 && v@[0] == a && v@[1] == b && v@[2] == c);
        }
        if a == 'S' && b == 'U' && c == 'M' {
            assert(v@ =~= seq!['S', 'U', 'M']);
            return 0;
        }
        if a == 'A' && b == 'V' && c == 'G' {
            assert(v@ =~= seq!['A', 'V', 'G']);
            return 1;
        }
        if a == 'M' && b == 'I' && c == 'N' {
            assert(v@ =~= seq!['M', 'I', 'N']);
            return 2;
        }
        if a == 'M' && b == 'A' && c == 'X' {
            assert(v@ =~= seq!['M', 'A', 'X']);
            return 3;
        }
        proof {
            assert(!(v@ =~= seq!['S', 'U', 'M']));
            assert(!(v@ =~= seq!['A', 'V', 'G']));
            assert(!(v@ =~= seq!['M', 'I', 'N']));
            assert(!(v@ =~= seq!['M', 'A', 'X']));
            assert(!(v@ =~= seq!['S', 'T', 'D', 'E', 'V']));
        }
        return 5;
    }
    if n == 5 {
        let a = crate::text::char_at(&v, 0);
        let b = crate::text::char_at(&v, 1);
        let c = crate::text::char_at(&v, 2);
        let d = crate::text::char_at(&v, 3);
        let e = crate::text::char_at(&v, 4);
        proof {
            assert(v@.len() == 5 && v@[0] == a && v@[1] == b && v@[2] == c && v@[3] == d && v@[4]
                == e);
        }
        if a == 'S' && b == 'T' && c == 'D' && d == 'E' && e == 'V' {
            assert(v@ =~= seq!['S', 'T', 'D', 'E', 'V']);
            return 4;
        }
        proof {
            assert(!(v@ =~= seq!['S', 'T', 'D', 'E', 'V']));
        }
        return 5;
    }
    5
}

/// Looks one cell up, by the lookup rules of the evaluator.
fn lookup(sheet: &Vec<Vec<cell>>, r: CellRef) -> (out: (i32, bool))
    requires
        rect_sheet(sheet@),
    ensures
        out == spec_lookup(r, sheet@),
{
    let rows: usize = sheet.len();
    let cols: usize = if rows > 0 {
        sheet[0].len()
    } else {
        0
    };
    if r.row < 0 || r.col < 0 {
        return (0, true);
    }
    if r.row as usize >= rows || r.col as usize >= cols {
        return (0, true);
    }
    let c = &sheet[r.row as usize][r.col as usize];
    if c.err != 0 {
        (0, true)
    } else {
        (c.val, false)
    }
}

/// Walks a rectangle in row-major order, collecting every cell's value;
/// stops empty-handed at the first cell whose error flag is set.
fn collect_rect(sheet: &Vec<Vec<cell>>, start: CellRef, end: CellRef) -> (out: Option<Vec<i32>>)
    requires
        rect_sheet(sheet@),
        0 <= start.row <= end.row < sheet@.len(),
        0 <= start.col <= end.col < spec_cols(sheet@),
    ensures
        out is Some <==> !rect_has_err(sheet@, start, end),
        out matches Some(v) ==> v@ == rect_vals(sheet@, start, end),
{
    let mut vals: Vec<i32> = Vec::new();
    let w: i64 = end.col as i64 - start.col as i64 + 1;
    let ghost refs = rect_refs(start, end);
    let mut r: i64 = start.row as i64;
    while r <= end.row as i64
        invariant
            start.row <= r <= end.row + 1,
            start.col <= end.col,
            start.row <= end.row < sheet@.len(),
            end.col < spec_cols(sheet@),
            0 <= start.row && 0 <= start.col,
            rect_sheet(sheet@),
            w == end.col - start.col + 1,
            refs == rect_refs(start, end),
            vals@ =~= rect_vals(sheet@, start, end).take((r - start.row) * w),
            forall|k: int|
                0 <= k < (r - start.row) * w ==> sheet@[(#[trigger] refs[k]).row as int]@[refs[k].col as int].err
                    == 0,
        decreases end.row - r + 1,
    {
        let mut c: i64 = start.col as i64;
        while c <= end.col as i64
            invariant
                start.row <= r <= end.row,
                start.col <= c <= end.col + 1,
                start.row <= end.row < sheet@.len(),
                end.col < spec_cols(sheet@),
                0 <= start.row && 0 <= start.col,
                rect_sheet(sheet@),
                w == end.col - start.col + 1,
                refs == rect_refs(start, end),
                vals@ =~= rect_vals(sheet@, start, end).take((r - start.row) * w + (c - start.col)),
                forall|k: int|
                    0 <= k < (r - start.row) * w + (c - start.col) ==> sheet@[(
                    #[trigger] refs[k]).row as int]@[refs[k].col as int].err == 0,
            decreases end.col - c + 1,
        {
            proof {
                crate::ast::lemma_rect_index(start, end, r as int, c as int);
            }
            let cl = &sheet[r as usize][c as usize];
            if cl.err != 0 {
                proof {
                    let k = (r - start.row) * w + (c - start.col);
                    assert(sheet@[refs[k].row as int]@[refs[k].col as int].err != 0);
                }
                return None;
            }
            vals.push(cl.val);
            c = c + 1;
        }
        proof {
            assert((r - start.row) * w + w == (r + 1 - start.row) * w) by (nonlinear_arith);
        }
        r = r + 1;
    }
    proof {
        crate::ast::lemma_rect_len(start, end);
        let h = end.row - start.row + 1;
        assert(h * w == w * h) by (nonlinear_arith);
        assert(vals@ =~= rect_vals(sheet@, start, end));
    }
    Some(vals)
}

/// Computes one aggregate over a non-empty value list.
fn agg_compute(vals: &Vec<i32>, kind: u8) -> (out: i32)
    requires
        1 <= vals@.len() <= 0x7fff_ffff,
        kind <= 4,
    ensures
        out == spec_agg(kind as int, vals@),
{
    let n: usize = vals.len();
    if kind == 0 || kind == 1 {
        let mut acc: i32 = 0;
        let mut i: usize = 0;
        while i < n
            invariant
                0 <= i <= n,
                n == vals@.len(),
                acc == wrap_sum(vals@.take(i as int)),
            decreases n - i,
        {
            proof {
                assert(vals@.take(i + 1).drop_last() =~= vals@.take(i as int));
            }
            acc = acc.wrapping_add(vals[i]);
            i = i + 1;
        }
        proof {
            assert(vals@.take(n as int) =~= vals@);
        }
        if kind == 0 {
            return acc;
        }
        let divisor: i32 = n as i32;
        match acc.checked_div(divisor) {
            Some(v) => v,
            None => {
                proof {
                    assert(false);
                }
                0
            },
        }
    } else if kind == 2 {
        let mut acc: i32 = vals[0];
        let mut i: usize = 1;
        proof {
            assert(vals@.take(1)[0] == vals@[0]);
        }
        while i < n
            invariant
                1 <= i <= n,
                n == vals@.len(),
                acc == seq_min(vals@.take(i as int)),
            decreases n - i,
        {
            proof {
                assert(vals@.take(i + 1).drop_last() =~= vals@.take(i as int));
                assert(vals@.take(i + 1).last() == vals@[i as int]);
            }
            let v = vals[i];
            if v < acc {
                acc = v;
            }
            i = i + 1;
        }
        proof {
            assert(vals@.take(n as int) =~= vals@);
        }
        acc
    } else if kind == 3 {
        let mut acc: i32 = vals[0];
        let mut i: usize = 1;
        proof {
            assert(vals@.take(1)[0] == vals@[0]);
        }
        while i < n
            invariant
                1 <= i <= n,
                n == vals@.len(),
                acc == seq_max(vals@.take(i as int)),
            decreases n - i,
        {
            proof {
                assert(vals@.take(i + 1).drop_last() =~= vals@.take(i as int));
                assert(vals@.take(i + 1).last() == vals@[i as int]);
            }
            let v = vals[i];
            if v > acc {
                acc = v;
            }
            i = i + 1;
        }
        proof {
            assert(vals@.take(n as int) =~= vals@);
        }
        acc
    } else {
        stdev(vals)
    }
}

/// Computes the sample standard deviation of a list of values, rounded to
/// the nearest integer with ties away from zero and saturated to the `i32`
/// range; `0` for fewer than two values.
pub fn stdev(values: &Vec<i32>) -> (out: i32)
    requires
        values@.len() <= 0x7fff_ffff,
    ensures
        out == stdev_val(values@),
{
    let n: usize = values.len();
    if n <= 1 {
        return 0;
    }
    let mut s: i128 = 0;
    let mut q: i128 = 0;
    let mut i: usize = 0;
    while i < n
        invariant
            0 <= i <= n,
            n == values@.len(),
            n <= 0x7fff_ffff,
            s == exact_sum(values@.take(i as int)),
            q == exact_sum_sq(values@.take(i as int)),
            -(i as int) * 0x8000_0000 <= s <= (i as int) * 0x8000_0000,
            0 <= q <= (i as int) * 0x4000_0000_0000_0000,
        decreases n - i,
    {
        let v: i128 = values[i] as i128;
        proof {
            assert(values@.take(i + 1).drop_last() =~= values@.take(i as int));
            assert(values@.take(i + 1).last() == values@[i as int]);
            assert(0 <= v * v <= 0x4000_0000_0000_0000) by (nonlinear_arith)
                requires
                    -0x8000_0000 <= v <= 0x7fff_ffff,
            ;
        }
        s = s + v;
        q = q + v * v;
        i = i + 1;
    }
    proof {
        assert(values@.take(n as int) =~= values@);
    }
    let nn: i128 = n as i128;
    proof {
        lemma_variance_nonneg(values@);
        assert(nn * q <= 0x10000000000000000000000000000000 && s * s
            <= 0x10000000000000000000000000000000 && s * s >= 0 && nn * (nn - 1)
            <= 0x4000_0000_0000_0000) by (nonlinear_arith)
            requires
                2 <= nn <= 0x7fff_ffff,
                0 <= q <= nn * 0x4000_0000_0000_0000,
                -nn * 0x8000_0000 <= s <= nn * 0x8000_0000,
        ;
    }
    let m: i128 = nn * q - s * s;
    let d: i128 = nn * (nn - 1);
    proof {
        assert(nn * (nn - 1) >= 2) by (nonlinear_arith)
            requires
                nn >= 2,
        ;
    }
    let x: u128 = ((4 * m) as u128) / (d as u128);
    let r = isqrt_u128(x);
    proof {
        lemma_isqrt(x as int);
        assert(r as int * (r as int) <= x as int);
        assert(r < 0xffff_ffff_ffff_ffff_ffff) by (nonlinear_arith)
            requires
                r as int * (r as int) <= x as int,
                x as int <= 0x100000000000000000000000000000000,
                r >= 0,
        ;
    }
    let half: u128 = (r + 1) / 2;
    if half > 0x7fff_ffff {
        i32::MAX
    } else {
        half as i32
    }
}

/// Evaluates a formula against the sheet and returns its value, setting the
/// error flag to 1 exactly when the evaluation rules report an error.
///
/// The flag is an out-parameter and must come in clear.
pub fn evaluate_formula(formula: &Formula, sheet: &Vec<Vec<cell>>, error_flag: &mut i32) -> (r:
    i32)
    requires
        rect_sheet(sheet@),
        sheet@.len() * spec_cols(sheet@) <= 0x7fff_ffff,
        *old(error_flag) == 0,
    ensures
        r == spec_eval(*formula, sheet@).0,
        *final(error_flag) == if spec_eval(*formula, sheet@).1 {
            1int
        } else {
            0int
        },
    decreases *formula,
{
    match formula {
        Formula::Literal(n) => *n,
        Formula::Cell(c) => {
            let (v, e) = lookup(sheet, *c);
            if e {
                *error_flag = 1;
            }
            v
        },
        Formula::Inc { base, offset } => {
            let (v, e) = lookup(sheet, *base);
            if e {
                *error_flag = 1;
            }
            v.wrapping_add(*offset)
        },
        Formula::Arith { op, left, right } => {
            let mut le: i32 = 0;
            let lv = evaluate_formula(left, sheet, &mut le);
            let mut re: i32 = 0;
            let rv = evaluate_formula(right, sheet, &mut re);
            if le != 0 || re != 0 {
                *error_flag = 1;
                return 0;
            }
            match op {
                Op::Add => lv.wrapping_add(rv),
                Op::Sub => lv.wrapping_sub(rv),
                Op::Mul => lv.wrapping_mul(rv),
                Op::Div => {
                    if rv == 0 {
                        *error_flag = 1;
                        0
                    } else {
                        match lv.checked_div(rv) {
                            Some(v) => v,
                            None => i32::MIN,
                        }
                    }
                },
            }
        },
        Formula::Range { func, start, end } => {
            let rows: usize = sheet.len();
            let cols: usize = if rows > 0 {
                sheet[0].len()
            } else {
                0
            };
            if start.row < 0 || start.col < 0 || end.row < start.row || end.col < start.col {
                *error_flag = 1;
                return 0;
            }
            if end.row as usize >= rows || end.col as usize >= cols {
                *error_flag = 1;
                return 0;
            }
            match collect_rect(sheet, *start, *end) {
                None => {
                    *error_flag = 1;
                    0
                },
                Some(vals) => {
                    let kind = func_kind(func.as_str());
                    if kind == 5 {
                        *error_flag = 1;
                        return 0;
                    }
                    proof {
                        crate::ast::lemma_rect_len(*start, *end);
                        let w = end.col - start.col + 1;
                        let h = end.row - start.row + 1;
                        assert(1 <= w * h <= sheet@.len() * spec_cols(sheet@))
                            by (nonlinear_arith)
                            requires
                                1 <= w <= spec_cols(sheet@),
                                1 <= h <= sheet@.len(),
                        ;
                    }
                    agg_compute(&vals, kind)
                },
            }
        },
        Formula::SleepLiteral(n) => *n,
        Formula::SleepCell(c) => {
            let (v, e) = lookup(sheet, *c);
            if e {
                *error_flag = 1;
            }
            v
        },
    }
}

/// What evaluating a textual range with a named aggregate yields: nothing
/// happens on a malformed or inverted range; a member error is reported in
/// the flag; an unknown function name gives 0 without an error.
pub open spec fn spec_eval_range(range: Seq<char>, func: Seq<char>, sheet: Seq<Vec<cell>>) -> (
    i32,
    bool,
) {
    match crate::parser::spec_split_range(range) {
        Some(((sr, sc), (er, ec))) => {
            if sr > er || sc > ec {
                (0i32, false)
            } else if rect_has_err(sheet, CellRef { row: sr, col: sc }, CellRef { row: er, col: ec
            }) {
                (0i32, true)
            } else if spec_func_kind(func) == 5 {
                (0i32, false)
            } else {
                (
                    spec_agg(
                        spec_func_kind(func),
                        rect_vals(sheet, CellRef { row: sr, col: sc }, CellRef { row: er, col: ec }),
                    ),
                    false,
                )
            }
        },
        None => (0i32, false),
    }
}

/// Evaluates an aggregate over a textual range such as `A1:B2`; sets the
/// error flag exactly when a member cell carries an error.
///
/// The caller guarantees that a well-formed, well-ordered range lies inside
/// the sheet; the flag is an out-parameter and must come in clear.
pub fn evaluate_range(
    range: &str,
    R: i32,
    C: i32,
    sheet: &Vec<Vec<cell>>,
    func: &str,
    error_flag: &mut i32,
) -> (out: i32)
    requires
        rect_sheet(sheet@),
        sheet@.len() * spec_cols(sheet@) <= 0x7fff_ffff,
        *old(error_flag) == 0,
        match crate::parser::spec_split_range(range@) {
            Some(((sr, sc), (er, ec))) => sr > er || sc > ec || (0 <= sr && 0 <= sc && er < sheet@.len()
                && ec < spec_cols(sheet@)),
            None => true,
        },
    ensures
        out == spec_eval_range(range@, func@, sheet@).0,
        *final(error_flag) == if spec_eval_range(range@, func@, sheet@).1 {
            1int
        } else {
            0int
        },
{
    let mut start_row: i32 = 0;
    let mut end_row: i32 = 0;
    let mut start_col: i32 = 0;
    let mut end_col: i32 = 0;
    let ret = crate::parser::parse_range(range, &mut start_row, &mut end_row, &mut start_col,
        &mut end_col);
    if ret != 0 {
        return 0;
    }
    match collect_rect(sheet, CellRef { row: start_row, col: start_col }, CellRef { row: end_row,
        col: end_col }) {
        None => {
            *error_flag = 1;
            0
        },
        Some(vals) => {
            let kind = func_kind(func);
            if kind == 5 {
                return 0;
            }
            proof {
                crate::ast::lemma_rect_len(
                    CellRef { row: start_row, col: start_col },
                    CellRef { row: end_row, col: end_col },
                );
                let w = end_col - start_col + 1;
                let h = end_row - start_row + 1;
                assert(1 <= w * h <= sheet@.len() * spec_cols(sheet@)) by (nonlinear_arith)
                    requires
                        1 <= w <= spec_cols(sheet@),
                        1 <= h <= sheet@.len(),
                ;
            }
            agg_compute(&vals, kind)
        },
    }
}

/// What reading a value from a simple formula yields: the lookup of a cell
/// reference, the value of a trimmed integer literal, or an error.
pub open spec fn spec_get_value(s: Seq<char>, sheet: Seq<Vec<cell>>) -> (i32, bool) {
    match crate::parser::spec_parse_cell_ref(s) {
        Some((r, c)) => spec_lookup(CellRef { row: r, col: c }, sheet),
        None => {
            match crate::text::spec_parse_int(crate::parser::spec_trim(s)) {
                Some(v) => (v, false),
                None => (0i32, true),
            }
        },
    }
}

/// Reads the value a simple formula stands for: a cell reference is looked
/// up with the usual bounds and error rules, anything else is read as an
/// integer literal; neither shape is an error.
///
/// The flag is an out-parameter and must come in clear.
pub fn get_value_from_formula(
    formula: &str,
    R: i32,
    C: i32,
    sheet: &Vec<Vec<cell>>,
    error_flag: &mut i32,
) -> (out: i32)
    requires
        rect_sheet(sheet@),
        R as int == sheet@.len(),
        C as int == spec_cols(sheet@),
        *old(error_flag) == 0,
    ensures
        out == spec_get_value(formula@, sheet@).0,
        *final(error_flag) == if spec_get_value(formula@, sheet@).1 {
            1int
        } else {
            0int
        },
{
    let v = crate::text::str_to_chars(formula);
    match crate::parser::cell_ref_chars(&v) {
        Some((row, col)) => {
            let (val, e) = lookup(sheet, CellRef { row, col });
            if e {
                *error_flag = 1;
                return 0;
            }
            val
        },
        None => {
            let t = crate::parser::trim_chars(&v);
            match crate::text::parse_int_chars(&t) {
                Some(x) => x,
                None => {
                    *error_flag = 1;
                    0
                },
            }
        },
    }
}

} // verus!
