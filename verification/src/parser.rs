//! The formula grammar and its parser.
//!
//! A formula is, in priority order: an integer literal; a cell reference
//! `[A-Z]+[0-9]+`; a flat binary arithmetic expression whose two operands are
//! literals or cell references; an aggregate call `FUNC(ref:ref)` for `FUNC`
//! in `SUM`, `AVG`, `MIN`, `MAX`, `STDEV`; or `SLEEP(n)` / `SLEEP(ref)`.
//! Whitespace here means ASCII whitespace.

use vstd::prelude::*;

use crate::ast::CellRef;
use crate::ast::Formula;
use crate::ast::Op;
use crate::text::all_digits;
use crate::text::char_at;
use crate::text::dec_val;
use crate::text::int_literal_ok;
use crate::text::int_literal_val;
use crate::text::is_digit_char;
use crate::text::parse_int_chars;
use crate::text::str_to_chars;

verus! {

/// ASCII whitespace: space, tab, line feed, vertical tab, form feed, return.
pub open spec fn is_ws_char(c: char) -> bool {
    c == ' ' || c == '\t' || c == '\n' || c == '\u{b}' || c == '\u{c}' || c == '\r'
}

/// An ASCII uppercase letter.
pub open spec fn is_upper_char(c: char) -> bool {
    'A' <= c && c <= 'Z'
}

/// One of the four operator characters.
pub open spec fn is_op_char(c: char) -> bool {
    c == '+' || c == '-' || c == '*' || c == '/'
}

/// The operator named by an operator character.
pub open spec fn op_of_char(c: char) -> Op {
    if c == '+' {
        Op::Add
    } else if c == '-' {
        Op::Sub
    } else if c == '*' {
        Op::Mul
    } else {
        Op::Div
    }
}

/// The length of the longest prefix of `s` whose characters all satisfy `p`.
pub open spec fn prefix_len(s: Seq<char>, p: spec_fn(char) -> bool) -> int
    decreases s.len(),
{
    if s.len() == 0 || !p(s[0]) {
        0
    } else {
        1 + prefix_len(s.drop_first(), p)
    }
}

/// What `prefix_len` returns: the first index whose character fails `p`, or
/// the length of `s` when none does.
pub proof fn lemma_prefix_len(s: Seq<char>, p: spec_fn(char) -> bool)
    ensures
        0 <= prefix_len(s, p) <= s.len(),
        forall|j: int| 0 <= j < prefix_len(s, p) ==> p(#[trigger] s[j]),
        prefix_len(s, p) < s.len() ==> !p(s[prefix_len(s, p)]),
    decreases s.len(),
{
    if s.len() > 0 && p(s[0]) {
        lemma_prefix_len(s.drop_first(), p);
        assert forall|j: int| 0 <= j < prefix_len(s, p) implies p(#[trigger] s[j]) by {
            if j >= 1 {
                assert(p(s.drop_first()[j - 1]));
                assert(s[j] == s.drop_first()[j - 1]);
            }
        }
        if prefix_len(s, p) < s.len() {
            assert(s[prefix_len(s, p)] == s.drop_first()[prefix_len(s.drop_first(), p)]);
        }
    }
}

/// An index that looks like the end of the `p`-prefix is `prefix_len`.
pub proof fn lemma_prefix_len_unique(s: Seq<char>, p: spec_fn(char) -> bool, f: int)
    requires
        0 <= f <= s.len(),
        forall|j: int| 0 <= j < f ==> p(#[trigger] s[j]),
        f < s.len() ==> !p(s[f]),
    ensures
        f == prefix_len(s, p),
{
    lemma_prefix_len(s, p);
}

/// The length of the longest suffix of `s` whose characters all satisfy `p`.
pub open spec fn suffix_len(s: Seq<char>, p: spec_fn(char) -> bool) -> int
    decreases s.len(),
{
    if s.len() == 0 || !p(s.last()) {
        0
    } else {
        1 + suffix_len(s.drop_last(), p)
    }
}

/// What `suffix_len` returns, as positions in `s`.
pub proof fn lemma_suffix_len(s: Seq<char>, p: spec_fn(char) -> bool)
    ensures
        0 <= suffix_len(s, p) <= s.len(),
        forall|j: int| s.len() - suffix_len(s, p) <= j < s.len() ==> p(#[trigger] s[j]),
        suffix_len(s, p) < s.len() ==> !p(s[s.len() - suffix_len(s, p) - 1]),
    decreases s.len(),
{
    if s.len() > 0 && p(s.last()) {
        lemma_suffix_len(s.drop_last(), p);
        assert forall|j: int| s.len() - suffix_len(s, p) <= j < s.len() implies p(
            #[trigger] s[j],
        ) by {
            if j < s.len() - 1 {
                assert(p(s.drop_last()[j]));
                assert(s[j] == s.drop_last()[j]);
            }
        }
        if suffix_len(s, p) < s.len() {
            let t = s.drop_last();
            assert(s[s.len() - suffix_len(s, p) - 1] == t[t.len() - suffix_len(t, p) - 1]);
        }
    }
}

/// An index that looks like the start of the `p`-suffix gives `suffix_len`.
pub proof fn lemma_suffix_len_unique(s: Seq<char>, p: spec_fn(char) -> bool, f: int)
    requires
        0 <= f <= s.len(),
        forall|j: int| s.len() - f <= j < s.len() ==> p(#[trigger] s[j]),
        f < s.len() ==> !p(s[s.len() - f - 1]),
    ensures
        f == suffix_len(s, p),
{
    lemma_suffix_len(s, p);
    let r = suffix_len(s, p);
    if f < r {
        assert(p(s[s.len() - f - 1]));
    } else if r < f {
        assert(p(s[s.len() - r - 1]));
    }
}

/// `s` with ASCII whitespace removed from both ends.
pub open spec fn spec_trim(s: Seq<char>) -> Seq<char> {
    let a = prefix_len(s, |c: char| is_ws_char(c));
    let b = s.len() - suffix_len(s, |c: char| is_ws_char(c));
    if a < b {
        s.subrange(a, b)
    } else {
        Seq::empty()
    }
}

/// The base-26 value of a column-letter string, `A` = 1 through `Z` = 26.
pub open spec fn col_val(s: Seq<char>) -> int
    decreases s.len(),
{
    if s.len() == 0 {
        0
    } else {
        col_val(s.drop_last()) * 26 + (s.last() as int - 'A' as int + 1)
    }
}

/// Every character of `s` is an ASCII uppercase letter.
pub open spec fn all_upper(s: Seq<char>) -> bool {
    forall|i: int| 0 <= i < s.len() ==> is_upper_char(#[trigger] s[i])
}

/// A column-letter string has a positive value.
pub proof fn lemma_col_val_pos(s: Seq<char>)
    requires
        all_upper(s),
        s.len() >= 1,
    ensures
        col_val(s) >= 1,
    decreases s.len(),
{
    assert(is_upper_char(s[s.len() - 1]));
    if s.len() > 1 {
        assert(forall|i: int|
            0 <= i < s.drop_last().len() ==> #[trigger] s.drop_last()[i] == s[i]);
        lemma_col_val_pos(s.drop_last());
    } else {
        assert(s.drop_last().len() == 0);
        assert(col_val(s.drop_last()) == 0);
    }
}

/// Reading more letters never decreases the column value.
pub proof fn lemma_col_val_prefix(s: Seq<char>, i: int)
    requires
        all_upper(s),
        1 <= i <= s.len(),
    ensures
        col_val(s.take(i)) <= col_val(s),
    decreases s.len() - i,
{
    if i < s.len() {
        lemma_col_val_prefix(s, i + 1);
        let t = s.take(i + 1);
        assert(t.drop_last() =~= s.take(i));
        lemma_col_val_pos(s.take(i));
        assert(col_val(s.take(i)) * 26 + (t.last() as int - 'A' as int + 1) >= col_val(s.take(i)))
            by (nonlinear_arith)
            requires
                col_val(s.take(i)) >= 1,
                1 <= t.last() as int - 'A' as int + 1 <= 26,
        ;
    } else {
        assert(s.take(i) =~= s);
    }
}

/// What `get_col_index` returns: the zero-based index of a column-letter
/// string, or `-1` when the string is empty, holds a character outside
/// `A`..`Z`, or names a column whose index does not fit in `i32`.
pub open spec fn spec_col_index(s: Seq<char>) -> int {
    if s.len() >= 1 && all_upper(s) && col_val(s) <= 0x8000_0000 {
        col_val(s) - 1
    } else {
        -1
    }
}

/// Converts a column label such as `A` or `AA` to a zero-based column index;
/// `-1` for an empty label, a character outside `A`..`Z`, or an index too
/// large for `i32`.
pub fn get_col_index(col: &str) -> (r: i32)
    ensures
        r == spec_col_index(col@),
{
    let v = str_to_chars(col);
    col_index_chars(&v)
}

/// `get_col_index` on a character vector.
pub(crate) fn col_index_chars(v: &Vec<char>) -> (r: i32)
    ensures
        r == spec_col_index(v@),
{
    let n: usize = v.len();
    if n == 0 {
        return -1;
    }
    let mut acc: i64 = 0;
    let mut i: usize = 0;
    while i < n
        invariant
            0 <= i <= n,
            n == v@.len(),
            all_upper(v@.take(i as int)),
            acc == col_val(v@.take(i as int)),
            0 <= acc <= 0x8000_0000,
        decreases n - i,
    {
        let c: char = char_at(v, i);
        if c < 'A' || c > 'Z' {
            assert(!is_upper_char(v@[i as int]));
            return -1;
        }
        let d: i64 = (c as u32 - 64) as i64;
        proof {
            let j = i as int;
            assert(v@.take(j + 1).drop_last() =~= v@.take(j));
            assert(v@.take(j + 1).last() == v@[j]);
            assert(forall|k: int|
                0 <= k < j + 1 ==> is_upper_char(#[trigger] v@.take(j + 1)[k]) || k == j);
        }
        acc = acc * 26 + d;
        i = i + 1;
        if acc > 0x8000_0000 {
            proof {
                if all_upper(v@) {
                    lemma_col_val_prefix(v@, i as int);
                }
            }
            return -1;
        }
    }
    proof {
        assert(v@.take(n as int) =~= v@);
    }
    (acc - 1) as i32
}

/// The split of a cell-reference string: the length of its letter prefix.
pub open spec fn cell_letters_len(s: Seq<char>) -> int {
    prefix_len(s, |c: char| is_upper_char(c))
}

/// `s` has the shape of a cell reference: one or more uppercase letters
/// followed by one or more digits.
pub open spec fn cell_shape(s: Seq<char>) -> bool {
    let k = cell_letters_len(s);
    1 <= k < s.len() && all_digits(s.skip(k))
}

/// What `parse_cell_ref` returns: for a string of cell-reference shape whose
/// row and column numbers fit in `i32`, the zero-based `(row, column)` pair;
/// nothing otherwise.  The textual row is one-based, so row `0` in text maps
/// to `-1`.
pub open spec fn spec_parse_cell_ref(s: Seq<char>) -> Option<(i32, i32)> {
    if cell_shape(s) {
        let k = cell_letters_len(s);
        let row = dec_val(s.skip(k));
        let col = col_val(s.take(k));
        if row <= 0x7fff_ffff && col <= 0x8000_0000 {
            Some((((row - 1) as i32), ((col - 1) as i32)))
        } else {
            None
        }
    } else {
        None
    }
}

/// Parses a cell reference such as `B3` into its zero-based `(row, column)`
/// pair; fails on any string that is not letters-then-digits or whose row or
/// column does not fit in `i32`.
pub fn parse_cell_ref(s: &str) -> (r: Option<(i32, i32)>)
    ensures
        r == spec_parse_cell_ref(s@),
{
    let v = str_to_chars(s);
    cell_ref_chars(&v)
}

/// `parse_cell_ref` on a character vector.
pub(crate) fn cell_ref_chars(v: &Vec<char>) -> (r: Option<(i32, i32)>)
    ensures
        r == spec_parse_cell_ref(v@),
{
    let n: usize = v.len();
    let mut k: usize = 0;
    loop
        invariant
            0 <= k <= n,
            n == v@.len(),
            forall|j: int| 0 <= j < k ==> is_upper_char(#[trigger] v@[j]),
        ensures
            0 <= k <= n,
            forall|j: int| 0 <= j < k ==> is_upper_char(#[trigger] v@[j]),
            k < n ==> !is_upper_char(v@[k as int]),
        decreases n - k,
    {
        if k >= n {
            break;
        }
        let c = char_at(v, k);
        if c < 'A' || c > 'Z' {
            assert(!is_upper_char(v@[k as int]));
            break;
        }
        k = k + 1;
    }
    proof {
        lemma_prefix_len_unique(v@, |c: char| is_upper_char(c), k as int);
    }
    if k < 1 || k >= n {
        return None;
    }
    let mut j: usize = k;
    while j < n
        invariant
            k <= j <= n,
            n == v@.len(),
            1 <= k < n,
            k as int == cell_letters_len(v@),
            forall|m: int| k <= m < j ==> is_digit_char(#[trigger] v@[m]),
        decreases n - j,
    {
        let c = char_at(v, j);
        if c < '0' || c > '9' {
            assert(!is_digit_char(v@[j as int]));
            assert(!all_digits(v@.skip(k as int))) by {
                assert(v@.skip(k as int)[j - k] == v@[j as int]);
            }
            return None;
        }
        j = j + 1;
    }
    proof {
        assert(all_digits(v@.skip(k as int))) by {
            assert(forall|m: int|
                0 <= m < v@.skip(k as int).len() ==> #[trigger] v@.skip(k as int)[m] == v@[
                    m + k
                ]);
        }
    }
    let row = match parse_digits_bounded(v, k, n) {
        Some(r) => r,
        None => {
            return None;
        },
    };
    proof {
        crate::text::lemma_dec_val_nonneg(v@.subrange(k as int, n as int));
        assert(v@.skip(k as int) =~= v@.subrange(k as int, n as int));
    }
    let letters = crate::text::subvec(v, 0, k);
    let col = col_index_chars(&letters);
    proof {
        assert(letters@ =~= v@.take(k as int));
        if col_val(v@.take(k as int)) <= 0x8000_0000 {
            lemma_col_val_pos(v@.take(k as int));
        }
    }
    if col < 0 {
        return None;
    }
    Some((row - 1, col))
}

/// Reads `v[from..to]` as an unsigned decimal number; fails when the value
/// exceeds `i32::MAX`.
fn parse_digits_bounded(v: &Vec<char>, from: usize, to: usize) -> (r: Option<i32>)
    requires
        0 <= from <= to <= v@.len(),
        all_digits(v@.subrange(from as int, to as int)),
    ensures
        dec_val(v@.subrange(from as int, to as int)) <= 0x7fff_ffff ==> r == Some(
            (dec_val(v@.subrange(from as int, to as int)) as i32),
        ),
        dec_val(v@.subrange(from as int, to as int)) > 0x7fff_ffff ==> r is None,
{
    let ghost s = v@.subrange(from as int, to as int);
    let mut acc: i64 = 0;
    let mut i: usize = from;
    while i < to
        invariant
            from <= i <= to <= v@.len(),
            s == v@.subrange(from as int, to as int),
            all_digits(s),
            acc == dec_val(s.take(i - from)),
            0 <= acc <= 0x7fff_ffff,
        decreases to - i,
    {
        let c: char = char_at(v, i);
        proof {
            assert(s[i - from] == v@[i as int]);
            let j = i - from;
            assert(s.take(j + 1).drop_last() =~= s.take(j));
            assert(s.take(j + 1).last() == s[j]);
        }
        let d: i64 = (c as u32 - 48) as i64;
        acc = acc * 10 + d;
        i = i + 1;
        if acc > 0x7fff_ffff {
            proof {
                crate::text::lemma_dec_val_prefix(s, i - from);
            }
            return None;
        }
    }
    proof {
        assert(s.take(to - from) =~= s);
    }
    Some(acc as i32)
}

/// Whether `c` is ASCII whitespace.
fn is_ws_c(c: char) -> (b: bool)
    ensures
        b == is_ws_char(c),
{
    c == ' ' || c == '\t' || c == '\n' || c == '\u{b}' || c == '\u{c}' || c == '\r'
}

/// Whether `c` is one of the four operator characters.
fn is_op_c(c: char) -> (b: bool)
    ensures
        b == is_op_char(c),
{
    c == '+' || c == '-' || c == '*' || c == '/'
}

/// Removes ASCII whitespace from both ends of a character vector.
pub(crate) fn trim_chars(v: &Vec<char>) -> (out: Vec<char>)
    ensures
        out@ == spec_trim(v@),
{
    let n: usize = v.len();
    let mut a: usize = 0;
    loop
        invariant
            0 <= a <= n,
            n == v@.len(),
            forall|j: int| 0 <= j < a ==> is_ws_char(#[trigger] v@[j]),
        ensures
            0 <= a <= n,
            forall|j: int| 0 <= j < a ==> is_ws_char(#[trigger] v@[j]),
            a < n ==> !is_ws_char(v@[a as int]),
        decreases n - a,
    {
        if a >= n {
            break;
        }
        if !is_ws_c(char_at(v, a)) {
            break;
        }
        a = a + 1;
    }
    let mut e: usize = 0;
    loop
        invariant
            0 <= e <= n,
            n == v@.len(),
            forall|j: int| n - e <= j < n ==> is_ws_char(#[trigger] v@[j]),
        ensures
            0 <= e <= n,
            forall|j: int| n - e <= j < n ==> is_ws_char(#[trigger] v@[j]),
            e < n ==> !is_ws_char(v@[n - e - 1]),
        decreases n - e,
    {
        if e >= n {
            break;
        }
        if !is_ws_c(char_at(v, n - e - 1)) {
            break;
        }
        e = e + 1;
    }
    proof {
        lemma_prefix_len_unique(v@, |c: char| is_ws_char(c), a as int);
        lemma_suffix_len_unique(v@, |c: char| is_ws_char(c), e as int);
    }
    if a < n - e {
        crate::text::subvec(v, a, n - e)
    } else {
        Vec::new()
    }
}

/// The index of the first operator character in `s`, or its length.
pub open spec fn first_op_index(s: Seq<char>) -> int {
    prefix_len(s, |c: char| !is_op_char(c))
}

/// An arithmetic operand: a run of digits, or a cell reference.
pub open spec fn operand_shape(s: Seq<char>) -> bool {
    s.len() >= 1 && (all_digits(s) || cell_shape(s))
}

/// What parsing an arithmetic operand yields: a literal for digits whose
/// value fits in `i32`, a cell lookup for a cell reference in range, and
/// nothing otherwise.
pub open spec fn spec_parse_operand(s: Seq<char>) -> Option<Formula> {
    if s.len() >= 1 && all_digits(s) {
        if dec_val(s) <= 0x7fff_ffff {
            Some(Formula::Literal(dec_val(s) as i32))
        } else {
            None
        }
    } else if cell_shape(s) {
        match spec_parse_cell_ref(s) {
            Some((r, c)) => Some(Formula::Cell(CellRef { row: r, col: c })),
            None => None,
        }
    } else {
        None
    }
}

/// `s` matches the flat arithmetic grammar: an operand, one operator
/// character, and a second operand, with whitespace allowed around each.
pub open spec fn arith_shape(s: Seq<char>) -> bool {
    let p = first_op_index(s);
    p < s.len() && operand_shape(spec_trim(s.take(p))) && operand_shape(
        spec_trim(s.skip(p + 1)),
    )
}

/// Both operands of an arithmetic expression parse to values in range.
pub open spec fn arith_operands_ok(s: Seq<char>) -> bool {
    let p = first_op_index(s);
    spec_parse_operand(spec_trim(s.take(p))) is Some && spec_parse_operand(
        spec_trim(s.skip(p + 1)),
    ) is Some
}

/// The formula an arithmetic match stands for: the special increment form
/// for `cell + literal`, a generic arithmetic node otherwise.
pub open spec fn arith_result(s: Seq<char>, f: Formula) -> bool {
    let p = first_op_index(s);
    let o = op_of_char(s[p]);
    let l = spec_parse_operand(spec_trim(s.take(p))) -> Some_0;
    let r = spec_parse_operand(spec_trim(s.skip(p + 1))) -> Some_0;
    if o == Op::Add && l is Cell && r is Literal {
        f == Formula::Inc { base: l -> Cell_0, offset: r -> Literal_0 }
    } else {
        &&& f matches Formula::Arith { op, left, right }
        &&& op == o
        &&& *left == l
        &&& *right == r
    }
}

/// The name of one of the five aggregate functions.
pub open spec fn is_agg_name(s: Seq<char>) -> bool {
    ||| s =~= seq!['S', 'U', 'M']
    ||| s =~= seq!['A', 'V', 'G']
    ||| s =~= seq!['M', 'I', 'N']
    ||| s =~= seq!['M', 'A', 'X']
    ||| s =~= seq!['S', 'T', 'D', 'E', 'V']
}

/// The two sides of `inner` around its first colon are cell references.
pub open spec fn inner_range_shape(inner: Seq<char>) -> bool {
    let m = prefix_len(inner, |c: char| c != ':');
    m < inner.len() && cell_shape(inner.take(m)) && cell_shape(inner.skip(m + 1))
}

/// `s` matches the aggregate grammar `FUNC(ref:ref)` exactly.
pub open spec fn range_shape(s: Seq<char>) -> bool {
    let q = prefix_len(s, |c: char| c != '(');
    q + 2 <= s.len() && is_agg_name(s.take(q)) && s.last() == ')' && inner_range_shape(
        s.subrange(q + 1, s.len() - 1),
    )
}

/// The function name of an aggregate match.
pub open spec fn range_name(s: Seq<char>) -> Seq<char> {
    s.take(prefix_len(s, |c: char| c != '('))
}

/// The cell reference before the colon of an aggregate match.
pub open spec fn range_left(s: Seq<char>) -> Seq<char> {
    let q = prefix_len(s, |c: char| c != '(');
    let inner = s.subrange(q + 1, s.len() - 1);
    inner.take(prefix_len(inner, |c: char| c != ':'))
}

/// The cell reference after the colon of an aggregate match.
pub open spec fn range_right(s: Seq<char>) -> Seq<char> {
    let q = prefix_len(s, |c: char| c != '(');
    let inner = s.subrange(q + 1, s.len() - 1);
    inner.skip(prefix_len(inner, |c: char| c != ':') + 1)
}

/// Both corners of an aggregate match parse to cell references in range.
pub open spec fn range_refs_ok(s: Seq<char>) -> bool {
    spec_parse_cell_ref(range_left(s)) is Some && spec_parse_cell_ref(range_right(s)) is Some
}

/// The formula an aggregate match stands for.
pub open spec fn range_result(s: Seq<char>, f: Formula) -> bool {
    &&& f matches Formula::Range { func, start, end }
    &&& func@ == range_name(s)
    &&& {
        let (r1, c1) = spec_parse_cell_ref(range_left(s)) -> Some_0;
        let (r2, c2) = spec_parse_cell_ref(range_right(s)) -> Some_0;
        start == (CellRef { row: r1, col: c1 }) && end == (CellRef { row: r2, col: c2 })
    }
}

/// The characters `SLEEP(`.
pub open spec fn sleep_head() -> Seq<char> {
    seq!['S', 'L', 'E', 'E', 'P', '(']
}

/// `s` matches the wait grammar `SLEEP(n)` or `SLEEP(ref)` exactly.
pub open spec fn sleep_shape(s: Seq<char>) -> bool {
    s.len() >= 8 && s.take(6) =~= sleep_head() && s.last() == ')' && {
        let inner = s.subrange(6, s.len() - 1);
        all_digits(inner) || cell_shape(inner)
    }
}

/// The argument text of a wait match.
pub open spec fn sleep_inner(s: Seq<char>) -> Seq<char> {
    s.subrange(6, s.len() - 1)
}

/// The argument of a wait match is a literal or cell reference in range.
pub open spec fn sleep_ok(s: Seq<char>) -> bool {
    let inner = sleep_inner(s);
    if all_digits(inner) {
        dec_val(inner) <= 0x7fff_ffff
    } else {
        spec_parse_cell_ref(inner) is Some
    }
}

/// The formula a wait match stands for.
pub open spec fn sleep_result(s: Seq<char>, f: Formula) -> bool {
    let inner = sleep_inner(s);
    if all_digits(inner) {
        f == Formula::SleepLiteral(dec_val(inner) as i32)
    } else {
        let (r, c) = spec_parse_cell_ref(inner) -> Some_0;
        f == Formula::SleepCell(CellRef { row: r, col: c })
    }
}

/// Whether a formula string parses: after trimming, it is an integer
/// literal, a cell reference, a flat arithmetic expression, an aggregate
/// call, or a wait call, with every number in range.
pub open spec fn spec_parse_ok(s: Seq<char>) -> bool {
    let t = spec_trim(s);
    ||| int_literal_ok(t)
    ||| spec_parse_cell_ref(t) is Some
    ||| (arith_shape(t) && arith_operands_ok(t))
    ||| (!arith_shape(t) && range_shape(t) && range_refs_ok(t))
    ||| (!arith_shape(t) && !range_shape(t) && sleep_shape(t) && sleep_ok(t))
}

/// The formula a successful parse yields, branch by branch in the grammar's
/// priority order.
pub open spec fn spec_parse_result(s: Seq<char>, f: Formula) -> bool {
    let t = spec_trim(s);
    if int_literal_ok(t) {
        f == Formula::Literal(int_literal_val(t) as i32)
    } else if spec_parse_cell_ref(t) is Some {
        let (r, c) = spec_parse_cell_ref(t) -> Some_0;
        f == Formula::Cell(CellRef { row: r, col: c })
    } else if arith_shape(t) {
        arith_result(t, f)
    } else if range_shape(t) {
        range_result(t, f)
    } else {
        sleep_result(t, f)
    }
}

/// Whether every character of `v` is a digit.
fn all_digits_chars(v: &Vec<char>) -> (b: bool)
    ensures
        b == all_digits(v@),
{
    let n: usize = v.len();
    let mut i: usize = 0;
    while i < n
        invariant
            0 <= i <= n,
            n == v@.len(),
            forall|j: int| 0 <= j < i ==> is_digit_char(#[trigger] v@[j]),
        decreases n - i,
    {
        let c = char_at(v, i);
        if c < '0' || c > '9' {
            assert(!is_digit_char(v@[i as int]));
            return false;
        }
        i = i + 1;
    }
    true
}

/// Whether `v` has the letters-then-digits shape of a cell reference.
fn cell_shape_chars(v: &Vec<char>) -> (b: bool)
    ensures
        b == cell_shape(v@),
{
    let n: usize = v.len();
    let mut k: usize = 0;
    loop
        invariant
            0 <= k <= n,
            n == v@.len(),
            forall|j: int| 0 <= j < k ==> is_upper_char(#[trigger] v@[j]),
        ensures
            0 <= k <= n,
            forall|j: int| 0 <= j < k ==> is_upper_char(#[trigger] v@[j]),
            k < n ==> !is_upper_char(v@[k as int]),
        decreases n - k,
    {
        if k >= n {
            break;
        }
        let c = char_at(v, k);
        if c < 'A' || c > 'Z' {
            assert(!is_upper_char(v@[k as int]));
            break;
        }
        k = k + 1;
    }
    proof {
        lemma_prefix_len_unique(v@, |c: char| is_upper_char(c), k as int);
    }
    if k < 1 || k >= n {
        return false;
    }
    let mut j: usize = k;
    while j < n
        invariant
            k <= j <= n,
            n == v@.len(),
            1 <= k < n,
            k as int == cell_letters_len(v@),
            forall|m: int| k <= m < j ==> is_digit_char(#[trigger] v@[m]),
        decreases n - j,
    {
        let c = char_at(v, j);
        if c < '0' || c > '9' {
            assert(!is_digit_char(v@[j as int]));
            assert(!all_digits(v@.skip(k as int))) by {
                assert(v@.skip(k as int)[j - k] == v@[j as int]);
            }
            return false;
        }
        j = j + 1;
    }
    proof {
        assert(all_digits(v@.skip(k as int))) by {
            assert(forall|m: int|
                0 <= m < v@.skip(k as int).len() ==> #[trigger] v@.skip(k as int)[m] == v@[
                    m + k
                ]);
        }
    }
    true
}

/// The index of the first occurrence of `stop` in `v`, or the length of `v`.
fn scan_until(v: &Vec<char>, stop: char) -> (k: usize)
    ensures
        0 <= k <= v@.len(),
        forall|j: int| 0 <= j < k ==> #[trigger] v@[j] != stop,
        k < v@.len() ==> v@[k as int] == stop,
{
    let n: usize = v.len();
    let mut k: usize = 0;
    loop
        invariant
            0 <= k <= n,
            n == v@.len(),
            forall|j: int| 0 <= j < k ==> #[trigger] v@[j] != stop,
        ensures
            0 <= k <= n,
            forall|j: int| 0 <= j < k ==> #[trigger] v@[j] != stop,
            k < n ==> v@[k as int] == stop,
        decreases n - k,
    {
        if k >= n {
            break;
        }
        if char_at(v, k) == stop {
            break;
        }
        k = k + 1;
    }
    k
}

/// The index of the first operator character in `v`, or the length of `v`.
fn scan_op(v: &Vec<char>) -> (k: usize)
    ensures
        k as int == first_op_index(v@),
{
    let n: usize = v.len();
    let mut k: usize = 0;
    loop
        invariant
            0 <= k <= n,
            n == v@.len(),
            forall|j: int| 0 <= j < k ==> !is_op_char(#[trigger] v@[j]),
        ensures
            0 <= k <= n,
            forall|j: int| 0 <= j < k ==> !is_op_char(#[trigger] v@[j]),
            k < n ==> is_op_char(v@[k as int]),
        decreases n - k,
    {
        if k >= n {
            break;
        }
        if is_op_c(char_at(v, k)) {
            break;
        }
        k = k + 1;
    }
    proof {
        lemma_prefix_len_unique(v@, |c: char| !is_op_char(c), k as int);
    }
    k
}

/// Parses one arithmetic operand; the first component reports whether the
/// text has an operand's shape at all.
fn parse_operand_chars(v: &Vec<char>) -> (r: (bool, Option<Formula>))
    ensures
        r.0 == operand_shape(v@),
        r.1 == spec_parse_operand(v@),
{
    let n: usize = v.len();
    if n >= 1 && all_digits_chars(v) {
        proof {
            assert(v@.subrange(0, n as int) =~= v@);
        }
        match parse_digits_bounded(v, 0, n) {
            Some(x) => {
                return (true, Some(Formula::Literal(x)));
            },
            None => {
                return (true, None);
            },
        }
    }
    if cell_shape_chars(v) {
        match cell_ref_chars(v) {
            Some((r, c)) => (true, Some(Formula::Cell(CellRef { row: r, col: c }))),
            None => (true, None),
        }
    } else {
        (false, None)
    }
}

/// Whether `v[0..q]` is one of the five aggregate function names.
fn agg_name_chars(v: &Vec<char>, q: usize) -> (b: bool)
    requires
        q <= v@.len(),
    ensures
        b == is_agg_name(v@.take(q as int)),
{
    if q == 3 {
        let a = char_at(v, 0);
        let b = char_at(v, 1);
        let c = char_at(v, 2);
        let hit = (a == 'S' && b == 'U' && c == 'M') || (a == 'A' && b == 'V' && c == 'G') || (a
            == 'M' && b == 'I' && c == 'N') || (a == 'M' && b == 'A' && c == 'X');
        proof {
            let t = v@.take(3);
            assert(t.len() == 3 && t[0] == v@[0] && t[1] == v@[1] && t[2] == v@[2]);
            if !hit {
                assert(!(t =~= seq!['S', 'U', 'M']));
                assert(!(t =~= seq!['A', 'V', 'G']));
                assert(!(t =~= seq!['M', 'I', 'N']));
                assert(!(t =~= seq!['M', 'A', 'X']));
                assert(!(t =~= seq!['S', 'T', 'D', 'E', 'V']));
            }
        }
        hit
    } else if q == 5 {
        let hit = char_at(v, 0) == 'S' && char_at(v, 1) == 'T' && char_at(v, 2) == 'D' && char_at(
            v,
            3,
        ) == 'E' && char_at(v, 4) == 'V';
        proof {
            let t = v@.take(5);
            assert(t.len() == 5 && t[0] == v@[0] && t[1] == v@[1] && t[2] == v@[2] && t[3] == v@[3]
                && t[4] == v@[4]);
            if !hit {
                assert(!(t =~= seq!['S', 'T', 'D', 'E', 'V']));
            }
        }
        hit
    } else {
        proof {
            let t = v@.take(q as int);
            assert(t.len() != 3 && t.len() != 5);
        }
        false
    }
}

/// Parses a formula string into an expression tree.
///
/// Succeeds exactly on the grammar of this module, in priority order:
/// integer literal, cell reference, flat arithmetic, aggregate call, wait
/// call; the result is the tree `spec_parse_result` describes.  Any other
/// input is rejected, and so is a matching shape whose number or cell
/// reference does not fit in `i32`.
pub fn parse_formula(formula: &str) -> (r: Result<Formula, ()>)
    ensures
        r is Ok <==> spec_parse_ok(formula@),
        r is Ok ==> spec_parse_result(formula@, r -> Ok_0),
{
    let v = str_to_chars(formula);
    let t = trim_chars(&v);
    match parse_int_chars(&t) {
        Some(x) => {
            return Ok(Formula::Literal(x));
        },
        None => {},
    }
    match cell_ref_chars(&t) {
        Some((row, c)) => {
            return Ok(Formula::Cell(CellRef { row, col: c }));
        },
        None => {},
    }
    let n: usize = t.len();
    let p = scan_op(&t);
    if p < n {
        let lraw = crate::text::subvec(&t, 0, p);
        let rraw = crate::text::subvec(&t, p + 1, n);
        proof {
            assert(lraw@ =~= t@.take(p as int));
            assert(rraw@ =~= t@.skip(p + 1));
        }
        let left = trim_chars(&lraw);
        let right = trim_chars(&rraw);
        let (lshape, lres) = parse_operand_chars(&left);
        let (rshape, rres) = parse_operand_chars(&right);
        if lshape && rshape {
            match (lres, rres) {
                (Some(l), Some(rr)) => {
                    let c = char_at(&t, p);
                    let op = if c == '+' {
                        Op::Add
                    } else if c == '-' {
                        Op::Sub
                    } else if c == '*' {
                        Op::Mul
                    } else {
                        Op::Div
                    };
                    if c == '+' {
                        match (&l, &rr) {
                            (Formula::Cell(base), Formula::Literal(off)) => {
                                return Ok(Formula::Inc { base: *base, offset: *off });
                            },
                            _ => {},
                        }
                    }
                    return Ok(Formula::Arith { op, left: Box::new(l), right: Box::new(rr) });
                },
                _ => {
                    return Err(());
                },
            }
        }
    }
    let q = scan_until(&t, '(');
    proof {
        lemma_prefix_len_unique(t@, |c: char| c != '(', q as int);
    }
    if n >= 2 && q <= n - 2 && agg_name_chars(&t, q) && char_at(&t, n - 1) == ')' {
        let inner = crate::text::subvec(&t, q + 1, n - 1);
        proof {
            assert(inner@ =~= t@.subrange(q + 1, n - 1));
        }
        let m = scan_until(&inner, ':');
        proof {
            lemma_prefix_len_unique(inner@, |c: char| c != ':', m as int);
        }
        if m < inner.len() {
            let lpart = crate::text::subvec(&inner, 0, m);
            let rpart = crate::text::subvec(&inner, m + 1, inner.len());
            proof {
                assert(lpart@ =~= inner@.take(m as int));
                assert(rpart@ =~= inner@.skip(m + 1));
            }
            if cell_shape_chars(&lpart) && cell_shape_chars(&rpart) {
                match (cell_ref_chars(&lpart), cell_ref_chars(&rpart)) {
                    (Some((r1, c1)), Some((r2, c2))) => {
                        let name_chars = crate::text::subvec(&t, 0, q);
                        proof {
                            assert(name_chars@ =~= t@.take(q as int));
                        }
                        let func = crate::text::chars_to_string(&name_chars);
                        return Ok(
                            Formula::Range {
                                func,
                                start: CellRef { row: r1, col: c1 },
                                end: CellRef { row: r2, col: c2 },
                            },
                        );
                    },
                    _ => {
                        return Err(());
                    },
                }
            }
        }
    }
    if n >= 8 && char_at(&t, 0) == 'S' && char_at(&t, 1) == 'L' && char_at(&t, 2) == 'E' && char_at(
        &t,
        3,
    ) == 'E' && char_at(&t, 4) == 'P' && char_at(&t, 5) == '(' && char_at(&t, n - 1) == ')' {
        proof {
            assert(t@.take(6) =~= sleep_head());
        }
        let inner = crate::text::subvec(&t, 6, n - 1);
        proof {
            assert(inner@ =~= t@.subrange(6, n - 1));
        }
        if all_digits_chars(&inner) {
            proof {
                assert(inner@.subrange(0, inner@.len() as int) =~= inner@);
            }
            match parse_digits_bounded(&inner, 0, inner.len()) {
                Some(x) => {
                    return Ok(Formula::SleepLiteral(x));
                },
                None => {
                    return Err(());
                },
            }
        }
        if cell_shape_chars(&inner) {
            match cell_ref_chars(&inner) {
                Some((row, c)) => {
                    return Ok(Formula::SleepCell(CellRef { row, col: c }));
                },
                None => {
                    return Err(());
                },
            }
        }
    }
    Err(())
}

/// Whether `v` has the shape of an arithmetic operand.
fn operand_shape_chars(v: &Vec<char>) -> (b: bool)
    ensures
        b == operand_shape(v@),
{
    if v.len() < 1 {
        return false;
    }
    if all_digits_chars(v) {
        return true;
    }
    cell_shape_chars(v)
}

/// A formula string that the grammar accepts by shape: an arithmetic
/// expression, an aggregate call, a wait call, a cell reference, or a
/// trimmed integer literal.  Shape only: numbers too large for `i32` still
/// count as valid here, as they match the grammar.
pub open spec fn spec_is_valid_formula(s: Seq<char>) -> bool {
    ||| arith_shape(s)
    ||| range_shape(s)
    ||| sleep_shape(s)
    ||| cell_shape(s)
    ||| int_literal_ok(spec_trim(s))
}

/// Checks whether a formula string matches the grammar by shape.
pub fn is_valid_formula(formula: &str) -> (r: bool)
    ensures
        r == spec_is_valid_formula(formula@),
{
    let v = str_to_chars(formula);
    let n: usize = v.len();
    let p = scan_op(&v);
    if p < n {
        let lraw = crate::text::subvec(&v, 0, p);
        let rraw = crate::text::subvec(&v, p + 1, n);
        proof {
            assert(lraw@ =~= v@.take(p as int));
            assert(rraw@ =~= v@.skip(p + 1));
        }
        let left = trim_chars(&lraw);
        let right = trim_chars(&rraw);
        if operand_shape_chars(&left) && operand_shape_chars(&right) {
            return true;
        }
    }
    if range_shape_chars(&v) {
        return true;
    }
    if sleep_shape_chars(&v) {
        return true;
    }
    if cell_shape_chars(&v) {
        return true;
    }
    let t = trim_chars(&v);
    match parse_int_chars(&t) {
        Some(_) => true,
        None => {
            proof {
                if int_literal_ok(spec_trim(v@)) {
                    crate::text::lemma_dec_val_nonneg(
                        if spec_trim(v@)[0] == '+' || spec_trim(v@)[0] == '-' {
                            spec_trim(v@).drop_first()
                        } else {
                            spec_trim(v@)
                        },
                    );
                }
            }
            false
        },
    }
}

/// Whether `v` matches the aggregate grammar by shape.
fn range_shape_chars(v: &Vec<char>) -> (b: bool)
    ensures
        b == range_shape(v@),
{
    let n: usize = v.len();
    let q = scan_until(v, '(');
    proof {
        lemma_prefix_len_unique(v@, |c: char| c != '(', q as int);
    }
    if n >= 2 && q <= n - 2 && agg_name_chars(v, q) && char_at(v, n - 1) == ')' {
        let inner = crate::text::subvec(v, q + 1, n - 1);
        proof {
            assert(inner@ =~= v@.subrange(q + 1, n - 1));
        }
        let m = scan_until(&inner, ':');
        proof {
            lemma_prefix_len_unique(inner@, |c: char| c != ':', m as int);
        }
        if m < inner.len() {
            let lpart = crate::text::subvec(&inner, 0, m);
            let rpart = crate::text::subvec(&inner, m + 1, inner.len());
            proof {
                assert(lpart@ =~= inner@.take(m as int));
                assert(rpart@ =~= inner@.skip(m + 1));
            }
            return cell_shape_chars(&lpart) && cell_shape_chars(&rpart);
        }
    }
    false
}

/// Whether `v` matches the wait grammar by shape.
fn sleep_shape_chars(v: &Vec<char>) -> (b: bool)
    ensures
        b == sleep_shape(v@),
{
    let n: usize = v.len();
    if n >= 8 && char_at(v, 0) == 'S' && char_at(v, 1) == 'L' && char_at(v, 2) == 'E' && char_at(
        v,
        3,
    ) == 'E' && char_at(v, 4) == 'P' && char_at(v, 5) == '(' && char_at(v, n - 1) == ')' {
        proof {
            assert(v@.take(6) =~= sleep_head());
        }
        let inner = crate::text::subvec(v, 6, n - 1);
        proof {
            assert(inner@ =~= v@.subrange(6, n - 1));
        }
        if all_digits_chars(&inner) {
            return true;
        }
        return cell_shape_chars(&inner);
    }
    false
}

/// What splitting a range string at its colon yields: the two cell
/// references of `L:R`, when the string has exactly one colon and both
/// sides parse.
pub open spec fn spec_split_range(s: Seq<char>) -> Option<((i32, i32), (i32, i32))> {
    let m = prefix_len(s, |c: char| c != ':');
    if m < s.len() && prefix_len(s.skip(m + 1), |c: char| c != ':') == s.len() - m - 1 {
        match (spec_parse_cell_ref(s.take(m)), spec_parse_cell_ref(s.skip(m + 1))) {
            (Some(a), Some(b)) => Some((a, b)),
            _ => None,
        }
    } else {
        None
    }
}

/// Splits a range string `L:R` into its two parsed cell references; fails
/// without touching the out-parameters unless the string has exactly one
/// colon and both sides are cell references.  On success the corners are
/// written out, and the result is `0` for a well-ordered rectangle and `-1`
/// for an inverted one.
pub fn parse_range(
    range: &str,
    start_row: &mut i32,
    end_row: &mut i32,
    start_col: &mut i32,
    end_col: &mut i32,
) -> (r: i32)
    ensures
        match spec_split_range(range@) {
            Some(((sr, sc), (er, ec))) => {
                &&& *final(start_row) == sr
                &&& *final(end_row) == er
                &&& *final(start_col) == sc
                &&& *final(end_col) == ec
                &&& r == if sr > er || sc > ec {
                    -1int
                } else {
                    0int
                }
            },
            None => {
                &&& r == -1
                &&& *final(start_row) == *old(start_row)
                &&& *final(end_row) == *old(end_row)
                &&& *final(start_col) == *old(start_col)
                &&& *final(end_col) == *old(end_col)
            },
        },
{
    let v = str_to_chars(range);
    let n: usize = v.len();
    let m = scan_until(&v, ':');
    proof {
        lemma_prefix_len_unique(v@, |c: char| c != ':', m as int);
    }
    if m >= n {
        return -1;
    }
    let rest = crate::text::subvec(&v, m + 1, n);
    proof {
        assert(rest@ =~= v@.skip(m + 1));
    }
    let m2 = scan_until(&rest, ':');
    proof {
        lemma_prefix_len_unique(rest@, |c: char| c != ':', m2 as int);
    }
    if m2 < rest.len() {
        return -1;
    }
    let lpart = crate::text::subvec(&v, 0, m);
    proof {
        assert(lpart@ =~= v@.take(m as int));
    }
    match (cell_ref_chars(&lpart), cell_ref_chars(&rest)) {
        (Some((sr, sc)), Some((er, ec))) => {
            *start_row = sr;
            *end_row = er;
            *start_col = sc;
            *end_col = ec;
            if sr > er || sc > ec {
                -1
            } else {
                0
            }
        },
        _ => -1,
    }
}

/// What `check_invalid_range` reports: `1` when the formula text holds a
/// parenthesised `L:R` range that is inverted or contains the given cell,
/// `0` otherwise.
pub open spec fn spec_check_invalid_range(s: Seq<char>, row: int, colv: int) -> int {
    let open = prefix_len(s, |c: char| c != '(');
    let close = prefix_len(s, |c: char| c != ')');
    if open < s.len() && close < s.len() && open < close {
        match spec_split_range(s.subrange(open + 1, close)) {
            Some(((sr, sc), (er, ec))) => {
                if sc > ec || sr > er {
                    1
                } else if sr <= row <= er && sc <= colv <= ec {
                    1
                } else {
                    0
                }
            },
            None => 0,
        }
    } else {
        0
    }
}

/// Checks a formula string for an invalid range: inverted corners, or a
/// rectangle that contains the cell being edited.  Returns `1` if invalid,
/// `0` otherwise.
pub fn check_invalid_range(formula: &str, current_row: i32, current_col: i32) -> (r: i32)
    ensures
        r == spec_check_invalid_range(formula@, current_row as int, current_col as int),
{
    let v = str_to_chars(formula);
    let n: usize = v.len();
    let open = scan_until(&v, '(');
    let close = scan_until(&v, ')');
    proof {
        lemma_prefix_len_unique(v@, |c: char| c != '(', open as int);
        lemma_prefix_len_unique(v@, |c: char| c != ')', close as int);
    }
    if open >= n || close >= n || open >= close {
        return 0;
    }
    let inner = crate::text::subvec(&v, open + 1, close);
    proof {
        assert(inner@ =~= v@.subrange(open + 1, close as int));
    }
    let im = scan_until(&inner, ':');
    proof {
        lemma_prefix_len_unique(inner@, |c: char| c != ':', im as int);
    }
    if im >= inner.len() {
        return 0;
    }
    let rest = crate::text::subvec(&inner, im + 1, inner.len());
    proof {
        assert(rest@ =~= inner@.skip(im + 1));
    }
    let im2 = scan_until(&rest, ':');
    proof {
        lemma_prefix_len_unique(rest@, |c: char| c != ':', im2 as int);
    }
    if im2 < rest.len() {
        return 0;
    }
    let lpart = crate::text::subvec(&inner, 0, im);
    proof {
        assert(lpart@ =~= inner@.take(im as int));
    }
    match (cell_ref_chars(&lpart), cell_ref_chars(&rest)) {
        (Some((s_row, s_col)), Some((e_row, e_col))) => {
            if s_col > e_col || s_row > e_row {
                return 1;
            }
            if current_row >= s_row && current_row <= e_row && current_col >= s_col && current_col
                <= e_col {
                return 1;
            }
            0
        },
        _ => 0,
    }
}

} // verus!

