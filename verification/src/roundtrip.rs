//! Round-trip law: writing a formula back as text and parsing that text
//! again yields an equivalent expression tree, for every formula class the
//! grammar can produce.

use vstd::prelude::*;

use crate::ast::CellRef;
use crate::ast::Formula;
use crate::ast::Op;
use crate::editor::col_chars;
use crate::editor::op_char;
use crate::editor::render_formula;
use crate::editor::render_ref;
use crate::editor::renderable_ref;
use crate::parser::all_upper;
use crate::parser::cell_letters_len;
use crate::parser::cell_shape;
use crate::parser::col_val;
use crate::parser::is_op_char;
use crate::parser::is_upper_char;
use crate::parser::is_ws_char;
use crate::parser::lemma_prefix_len_unique;
use crate::parser::lemma_suffix_len_unique;
use crate::parser::spec_parse_cell_ref;
use crate::parser::spec_trim;
use crate::text::all_digits;
use crate::text::dec_str;
use crate::text::dec_val;
use crate::text::int_literal_ok;
use crate::text::int_literal_val;
use crate::text::int_str;
use crate::text::is_digit_char;
use crate::text::lemma_dec_str_val;

verus! {

/// A column label is uppercase letters and reads back as its number.
proof fn lemma_col_chars_props(n: int)
    requires
        1 <= n <= 0x8000_0000,
    ensures
        all_upper(col_chars(n)),
        col_chars(n).len() >= 1,
        col_val(col_chars(n)) == n,
    decreases n,
{
    if n <= 26 {
        let s = col_chars(n);
        assert(s =~= seq![(((64 + n) as u8) as char)]);
        assert(s.drop_last() =~= Seq::<char>::empty());
        assert(col_val(s.drop_last()) == 0);
        assert(is_upper_char(s[0]));
    } else {
        vstd::arithmetic::div_mod::lemma_fundamental_div_mod(n - 1, 26);
        vstd::arithmetic::div_mod::lemma_mod_bound(n - 1, 26);
        assert(1 <= (n - 1) / 26 < n) by (nonlinear_arith)
            requires
                n >= 27,
                n - 1 == 26 * ((n - 1) / 26) + (n - 1) % 26,
                0 <= (n - 1) % 26 < 26,
        ;
        lemma_col_chars_props((n - 1) / 26);
        let s = col_chars(n);
        let last = (((65 + ((n - 1) % 26)) as u8) as char);
        assert(s.drop_last() =~= col_chars((n - 1) / 26));
        assert(s.last() == last);
        assert(is_upper_char(last));
        assert(forall|i: int|
            0 <= i < s.len() ==> is_upper_char(#[trigger] s[i]) || i == s.len() - 1);
        assert(col_val(s) == ((n - 1) / 26) * 26 + ((n - 1) % 26) + 1);
        assert(((n - 1) / 26) * 26 == 26 * ((n - 1) / 26)) by (nonlinear_arith);
    }
}

/// Trimming is the identity on text that starts and ends with non-blank
/// characters.
proof fn lemma_trim_nop(s: Seq<char>)
    requires
        s.len() >= 1,
        !is_ws_char(s[0]),
        !is_ws_char(s.last()),
    ensures
        spec_trim(s) == s,
{
    lemma_prefix_len_unique(s, |c: char| is_ws_char(c), 0);
    lemma_suffix_len_unique(s, |c: char| is_ws_char(c), 0);
    assert(s.subrange(0, s.len() as int) =~= s);
}

/// The text of a renderable reference has cell-reference shape and parses
/// back to the same cell.
proof fn lemma_render_ref(c: CellRef)
    requires
        renderable_ref(c),
    ensures
        cell_shape(render_ref(c)),
        spec_parse_cell_ref(render_ref(c)) == Some((c.row, c.col)),
        all_upper(render_ref(c).take(cell_letters_len(render_ref(c)))),
        cell_letters_len(render_ref(c)) == col_chars(c.col + 1).len(),
        render_ref(c).len() >= 2,
        forall|i: int|
            0 <= i < render_ref(c).len() ==> is_upper_char(#[trigger] render_ref(c)[i])
                || is_digit_char(render_ref(c)[i]),
{
    let letters = col_chars(c.col + 1);
    let digits = dec_str(c.row + 1);
    let s = render_ref(c);
    lemma_col_chars_props(c.col + 1);
    lemma_dec_str_val(c.row + 1);
    let nl = letters.len() as int;
    assert(forall|i: int| 0 <= i < nl ==> #[trigger] s[i] == letters[i]);
    assert(forall|i: int| nl <= i < s.len() ==> #[trigger] s[i] == digits[i - nl]);
    assert forall|i: int|
        0 <= i < s.len() implies is_upper_char(#[trigger] s[i]) || is_digit_char(s[i]) by {
        if i < nl {
            assert(is_upper_char(letters[i]));
        } else {
            assert(is_digit_char(digits[i - nl]));
        }
    }
    assert(cell_letters_len(s) == nl) by {
        assert(forall|j: int| 0 <= j < nl ==> is_upper_char(#[trigger] s[j]));
        assert(!is_upper_char(s[nl])) by {
            assert(is_digit_char(digits[0]));
        }
        lemma_prefix_len_unique(s, |ch: char| is_upper_char(ch), nl);
    }
    assert(s.take(nl) =~= letters);
    assert(s.skip(nl) =~= digits);
    assert(cell_shape(s));
    assert(dec_val(s.skip(nl)) == c.row + 1);
    assert(col_val(s.take(nl)) == c.col + 1);
}

/// A formula the round-trip law covers: its references can be rendered,
/// its arithmetic is flat with non-negative literal operands, its increment
/// offsets are non-negative, its aggregate names one of the five functions,
/// and its wait duration is non-negative -- exactly the trees the parser
/// itself produces.
pub open spec fn round_trippable(f: Formula) -> bool {
    match f {
        Formula::Literal(_) => true,
        Formula::Cell(c) => renderable_ref(c),
        Formula::Inc { base, offset } => renderable_ref(base) && offset >= 0,
        Formula::Arith { op, left, right } => operand_ok(*left) && operand_ok(*right),
        Formula::Range { func, start, end } => crate::parser::is_agg_name(func@)
            && renderable_ref(start) && renderable_ref(end),
        Formula::SleepLiteral(n) => n >= 0,
        Formula::SleepCell(c) => renderable_ref(c),
    }
}

/// A flat arithmetic operand: a non-negative literal or a renderable cell.
pub open spec fn operand_ok(f: Formula) -> bool {
    match f {
        Formula::Literal(n) => n >= 0,
        Formula::Cell(c) => renderable_ref(c),
        _ => false,
    }
}

/// Text without operator characters has no first operator.
proof fn lemma_no_ops(s: Seq<char>)
    requires
        forall|i: int| 0 <= i < s.len() ==> !is_op_char(#[trigger] s[i]),
    ensures
        crate::parser::first_op_index(s) == s.len(),
{
    lemma_prefix_len_unique(s, |c: char| !is_op_char(c), s.len() as int);
}

/// An integer literal's text trims to itself and reads back as its value.
proof fn lemma_rt_literal(n: i32)
    ensures
        spec_trim(int_str(n as int)) == int_str(n as int),
        int_literal_ok(int_str(n as int)),
        int_literal_val(int_str(n as int)) == n,
{
    let s = int_str(n as int);
    if n >= 0 {
        lemma_dec_str_val(n as int);
        assert(is_digit_char(s[0]));
        assert(is_digit_char(s.last()));
        lemma_trim_nop(s);
        assert(!(s[0] == '+' || s[0] == '-'));
    } else {
        lemma_dec_str_val(-(n as int));
        let d = dec_str(-(n as int));
        assert(s[0] == '-');
        assert(s.last() == d.last()) by {
            assert(s[s.len() - 1] == d[d.len() - 1]);
        }
        assert(is_digit_char(s.last()));
        lemma_trim_nop(s);
        assert(s.drop_first() =~= d);
        assert(dec_val(d) == -(n as int) <= 0x8000_0000);
    }
}

/// A rendered cell reference fails the literal branch and parses as the
/// same cell.
proof fn lemma_rt_cell(c: CellRef)
    requires
        renderable_ref(c),
    ensures
        spec_trim(render_ref(c)) == render_ref(c),
        !int_literal_ok(render_ref(c)),
        spec_parse_cell_ref(render_ref(c)) == Some((c.row, c.col)),
{
    let s = render_ref(c);
    lemma_render_ref(c);
    assert(is_upper_char(s[0]) || is_digit_char(s[0]));
    assert(is_upper_char(s[0])) by {
        assert(s[0] == col_chars(c.col + 1)[0]);
        lemma_col_chars_props(c.col + 1);
    }
    assert(!is_ws_char(s[0]));
    assert(is_upper_char(s.last()) || is_digit_char(s.last()));
    assert(!is_ws_char(s.last()));
    lemma_trim_nop(s);
    assert(!int_literal_ok(s)) by {
        assert(!(s[0] == '+' || s[0] == '-'));
        assert(!is_digit_char(s[0]));
    }
}

/// A wait call's head is five letters and an opening parenthesis, which
/// falsifies the literal, cell-reference, arithmetic and aggregate
/// branches.
proof fn lemma_rt_sleep_common(s: Seq<char>, inner: Seq<char>)
    requires
        s =~= seq!['S', 'L', 'E', 'E', 'P', '('] + inner + seq![')'],
        inner.len() >= 1,
        forall|i: int|
            0 <= i < inner.len() ==> is_upper_char(#[trigger] inner[i]) || is_digit_char(
                inner[i],
            ),
    ensures
        spec_trim(s) == s,
        !int_literal_ok(s),
        spec_parse_cell_ref(s) is None,
        !crate::parser::arith_shape(s),
        !crate::parser::range_shape(s),
        crate::parser::sleep_shape(s) == (all_digits(inner) || cell_shape(inner)),
        crate::parser::sleep_inner(s) == inner,
{
    assert(s[0] == 'S');
    assert(s.last() == ')');
    lemma_trim_nop(s);
    assert(!int_literal_ok(s)) by {
        assert(!(s[0] == '+' || s[0] == '-'));
        assert(!is_digit_char(s[0]));
    }
    assert(cell_letters_len(s) == 5) by {
        assert(forall|j: int| 0 <= j < 5 ==> is_upper_char(#[trigger] s[j]));
        assert(!is_upper_char(s[5]));
        lemma_prefix_len_unique(s, |ch: char| is_upper_char(ch), 5);
    }
    assert(!cell_shape(s)) by {
        assert(s.skip(5)[0] == '(');
        assert(!is_digit_char(s.skip(5)[0]));
    }
    assert(!crate::parser::arith_shape(s)) by {
        assert(forall|i: int| 0 <= i < s.len() ==> !is_op_char(#[trigger] s[i])) by {
            assert(forall|i: int|
                6 <= i < s.len() - 1 ==> (is_upper_char(#[trigger] s[i]) || is_digit_char(
                    s[i],
                ))) by {
                assert(forall|i: int|
                    6 <= i < s.len() - 1 ==> #[trigger] s[i] == inner[i - 6]);
            }
        }
        lemma_no_ops(s);
    }
    assert(!crate::parser::range_shape(s)) by {
        let q = crate::parser::prefix_len(s, |ch: char| ch != '(');
        assert(q == 5) by {
            assert(forall|j: int| 0 <= j < 5 ==> #[trigger] s[j] != '(');
            lemma_prefix_len_unique(s, |ch: char| ch != '(', 5);
        }
        assert(!crate::parser::is_agg_name(s.take(5))) by {
            assert(s.take(5)[1] == 'L');
        }
    }
    assert(crate::parser::sleep_shape(s) == (all_digits(inner) || cell_shape(inner))) by {
        assert(s.len() >= 8);
        assert(s.take(6) =~= crate::parser::sleep_head());
        assert(s.subrange(6, s.len() - 1) =~= inner);
    }
    assert(crate::parser::sleep_inner(s) == inner) by {
        assert(s.subrange(6, s.len() - 1) =~= inner);
    }
}

/// The text of an arithmetic operand parses back as that operand.
proof fn lemma_rt_operand(f: Formula)
    requires
        operand_ok(f),
    ensures
        render_formula(f).len() >= 1,
        forall|i: int|
            0 <= i < render_formula(f).len() ==> is_upper_char(#[trigger] render_formula(f)[i])
                || is_digit_char(render_formula(f)[i]),
        crate::parser::operand_shape(render_formula(f)),
        crate::parser::spec_parse_operand(render_formula(f)) == Some(f),
{
    match f {
        Formula::Literal(n) => {
            lemma_dec_str_val(n as int);
            assert(render_formula(f) =~= dec_str(n as int));
            assert(dec_val(dec_str(n as int)) <= 0x7fff_ffff);
        },
        Formula::Cell(c) => {
            lemma_render_ref(c);
            assert(render_formula(f) =~= render_ref(c));
            assert(!all_digits(render_ref(c))) by {
                lemma_col_chars_props(c.col + 1);
                assert(render_ref(c)[0] == col_chars(c.col + 1)[0]);
                assert(is_upper_char(render_ref(c)[0]));
            }
        },
        _ => {
            assert(false);
        },
    }
}

/// A spaced binary expression over two operands trims to itself, fails the
/// literal and cell branches, and splits at its one operator.
proof fn lemma_rt_binary(ls: Seq<char>, o: char, rs: Seq<char>)
    requires
        ls.len() >= 1,
        rs.len() >= 1,
        forall|i: int|
            0 <= i < ls.len() ==> is_upper_char(#[trigger] ls[i]) || is_digit_char(ls[i]),
        forall|i: int|
            0 <= i < rs.len() ==> is_upper_char(#[trigger] rs[i]) || is_digit_char(rs[i]),
        is_op_char(o),
        crate::parser::operand_shape(ls),
        crate::parser::operand_shape(rs),
    ensures
        ({
            let s = ls + seq![' ', o, ' '] + rs;
            &&& spec_trim(s) == s
            &&& !int_literal_ok(s)
            &&& spec_parse_cell_ref(s) is None
            &&& crate::parser::first_op_index(s) == ls.len() + 1
            &&& s[ls.len() as int + 1] == o
            &&& crate::parser::arith_shape(s)
            &&& spec_trim(s.take(ls.len() as int + 1)) == ls
            &&& spec_trim(s.skip(ls.len() as int + 2)) == rs
        }),
{
    let s = ls + seq![' ', o, ' '] + rs;
    let nl = ls.len() as int;
    assert(forall|i: int| 0 <= i < nl ==> #[trigger] s[i] == ls[i]);
    assert(s[nl] == ' ' && s[nl + 1] == o && s[nl + 2] == ' ');
    assert(forall|i: int| nl + 3 <= i < s.len() ==> #[trigger] s[i] == rs[i - nl - 3]);
    assert(!is_ws_char(s[0]));
    assert(s.last() == rs.last() && !is_ws_char(s.last())) by {
        assert(s[s.len() - 1] == rs[rs.len() - 1]);
    }
    lemma_trim_nop(s);
    assert(!int_literal_ok(s)) by {
        assert(!(s[0] == '+' || s[0] == '-'));
        assert(!is_digit_char(s[nl]));
    }
    assert(crate::parser::first_op_index(s) == nl + 1) by {
        assert(forall|j: int| 0 <= j < nl + 1 ==> !is_op_char(#[trigger] s[j]));
        lemma_prefix_len_unique(s, |c: char| !is_op_char(c), nl + 1);
    }
    assert(spec_parse_cell_ref(s) is None) by {
        if all_digits(ls) {
            assert(cell_letters_len(s) == 0) by {
                assert(!is_upper_char(s[0]));
                lemma_prefix_len_unique(s, |ch: char| is_upper_char(ch), 0);
            }
            assert(!cell_shape(s));
        } else {
            assert(cell_shape(ls));
            let kl = cell_letters_len(ls);
            crate::parser::lemma_prefix_len(ls, |ch: char| is_upper_char(ch));
            assert(cell_letters_len(s) == kl) by {
                assert(forall|j: int| 0 <= j < kl ==> is_upper_char(#[trigger] s[j]));
                assert(s[kl] == ls[kl]);
                assert(!is_upper_char(s[kl]));
                lemma_prefix_len_unique(s, |ch: char| is_upper_char(ch), kl);
            }
            assert(!all_digits(s.skip(kl))) by {
                assert(s.skip(kl)[nl - kl] == s[nl]);
                assert(!is_digit_char(s[nl]));
            }
            assert(!cell_shape(s));
        }
    }
    assert(spec_trim(s.take(nl + 1)) == ls) by {
        let t = s.take(nl + 1);
        assert(forall|i: int| 0 <= i < nl ==> #[trigger] t[i] == ls[i]);
        assert(t[nl] == ' ');
        lemma_prefix_len_unique(t, |c: char| is_ws_char(c), 0);
        lemma_suffix_len_unique(t, |c: char| is_ws_char(c), 1);
        assert(t.subrange(0, nl) =~= ls);
    }
    assert(spec_trim(s.skip(nl + 2)) == rs) by {
        let t = s.skip(nl + 2);
        assert(t[0] == ' ');
        assert(forall|i: int| 1 <= i < t.len() ==> #[trigger] t[i] == rs[i - 1]);
        assert(!is_ws_char(t[1]));
        lemma_prefix_len_unique(t, |c: char| is_ws_char(c), 1);
        assert(!is_ws_char(t[t.len() - 1]));
        lemma_suffix_len_unique(t, |c: char| is_ws_char(c), 0);
        assert(t.subrange(1, t.len() as int) =~= rs);
    }
    assert(crate::parser::arith_shape(s));
}

/// A rendered aggregate call trims to itself, fails every earlier branch,
/// and matches the aggregate grammar with its own name and corners.
proof fn lemma_rt_range(func: Seq<char>, start: CellRef, end: CellRef)
    requires
        crate::parser::is_agg_name(func),
        renderable_ref(start),
        renderable_ref(end),
    ensures
        ({
            let s = func + seq!['('] + render_ref(start) + seq![':'] + render_ref(end) + seq![
                ')'
            ];
            &&& spec_trim(s) == s
            &&& !int_literal_ok(s)
            &&& spec_parse_cell_ref(s) is None
            &&& !crate::parser::arith_shape(s)
            &&& crate::parser::range_shape(s)
            &&& crate::parser::range_name(s) == func
            &&& spec_parse_cell_ref(crate::parser::range_left(s)) == Some((start.row, start.col))
            &&& spec_parse_cell_ref(crate::parser::range_right(s)) == Some((end.row, end.col))
        }),
{
    let r1 = render_ref(start);
    let r2 = render_ref(end);
    let s = func + seq!['('] + r1 + seq![':'] + r2 + seq![')'];
    let nf = func.len() as int;
    let n1 = r1.len() as int;
    lemma_render_ref(start);
    lemma_render_ref(end);
    assert(forall|i: int| 0 <= i < nf ==> #[trigger] s[i] == func[i]);
    assert(s[nf] == '(');
    assert(forall|i: int| nf + 1 <= i < nf + 1 + n1 ==> #[trigger] s[i] == r1[i - nf - 1]);
    assert(s[nf + 1 + n1] == ':');
    assert(forall|i: int|
        nf + 2 + n1 <= i < s.len() - 1 ==> #[trigger] s[i] == r2[i - nf - 2 - n1]);
    assert(s.last() == ')') by {
        assert(s[s.len() - 1] == ')');
    }
    assert(forall|i: int| 0 <= i < nf ==> is_upper_char(#[trigger] func[i]));
    assert(!is_ws_char(s[0]));
    lemma_trim_nop(s);
    assert(!int_literal_ok(s)) by {
        assert(!(s[0] == '+' || s[0] == '-'));
        assert(!is_digit_char(s[0]));
    }
    assert(spec_parse_cell_ref(s) is None) by {
        assert(cell_letters_len(s) == nf) by {
            assert(!is_upper_char(s[nf]));
            lemma_prefix_len_unique(s, |ch: char| is_upper_char(ch), nf);
        }
        assert(!all_digits(s.skip(nf))) by {
            assert(s.skip(nf)[0] == '(');
        }
        assert(!cell_shape(s));
    }
    assert(!crate::parser::arith_shape(s)) by {
        assert(forall|i: int| 0 <= i < s.len() ==> !is_op_char(#[trigger] s[i]));
        lemma_no_ops(s);
    }
    let q = crate::parser::prefix_len(s, |ch: char| ch != '(');
    assert(q == nf) by {
        assert(forall|j: int| 0 <= j < nf ==> #[trigger] s[j] != '(');
        lemma_prefix_len_unique(s, |ch: char| ch != '(', nf);
    }
    assert(s.take(nf) =~= func);
    let inner = s.subrange(nf + 1, s.len() - 1);
    assert(inner =~= r1 + seq![':'] + r2);
    let m = crate::parser::prefix_len(inner, |ch: char| ch != ':');
    assert(m == n1) by {
        assert(forall|j: int| 0 <= j < n1 ==> #[trigger] inner[j] == r1[j] && r1[j] != ':');
        assert(inner[n1] == ':');
        lemma_prefix_len_unique(inner, |ch: char| ch != ':', n1);
    }
    assert(inner.take(n1) =~= r1);
    assert(inner.skip(n1 + 1) =~= r2);
    assert(crate::parser::range_shape(s)) by {
        assert(nf + 2 <= s.len());
        assert(crate::parser::is_agg_name(s.take(nf)));
        assert(crate::parser::inner_range_shape(inner));
    }
    assert(crate::parser::range_name(s) =~= func);
    assert(crate::parser::range_left(s) == inner.take(n1));
    assert(crate::parser::range_right(s) == inner.skip(n1 + 1));
}

/// The one normalization re-parsing may apply: a sum of a cell and a
/// non-negative literal comes back in its increment form; everything else
/// comes back as it was, with aggregate names compared by their text.
pub open spec fn norm_eq(f: Formula, g: Formula) -> bool {
    match f {
        Formula::Literal(n) => g == Formula::Literal(n),
        Formula::Cell(c) => g == Formula::Cell(c),
        Formula::Inc { base, offset } => g == Formula::Inc { base, offset },
        Formula::SleepLiteral(n) => g == Formula::SleepLiteral(n),
        Formula::SleepCell(c) => g == Formula::SleepCell(c),
        Formula::Range { func, start, end } => {
            &&& g matches Formula::Range { func: gf, start: gs, end: ge }
            &&& gf@ == func@
            &&& gs == start
            &&& ge == end
        },
        Formula::Arith { op, left, right } => {
            if op == Op::Add && *left is Cell && *right is Literal {
                g == Formula::Inc { base: (*left) -> Cell_0, offset: (*right) -> Literal_0 }
            } else {
                &&& g matches Formula::Arith { op: go, left: gl, right: gr }
                &&& go == op
                &&& *gl == *left
                &&& *gr == *right
            }
        },
    }
}


/// Round trip: for every formula class, writing the tree back as text and
/// parsing that text again succeeds and yields an equivalent tree -- the
/// same tree, except that a sum of a cell and a literal returns in its
/// increment form, and an aggregate's function name is compared by its
/// text.
pub proof fn lemma_render_parse_round_trip(f: Formula)
    requires
        round_trippable(f),
    ensures
        crate::parser::spec_parse_ok(render_formula(f)),
        forall|g: Formula|
            crate::parser::spec_parse_result(render_formula(f), g) ==> norm_eq(f, g),
{
    let s = render_formula(f);
    match f {
        Formula::Literal(n) => {
            assert(s == int_str(n as int));
            lemma_rt_literal(n);
        },
        Formula::Cell(c) => {
            assert(s == render_ref(c));
            lemma_rt_cell(c);
        },
        Formula::Inc { base, offset } => {
            let ls = render_ref(base);
            let rs = dec_str(offset as int);
            assert(s =~= ls + seq![' ', '+', ' '] + rs);
            lemma_rt_operand(Formula::Cell(base));
            lemma_rt_operand(Formula::Literal(offset));
            assert(render_formula(Formula::Cell(base)) == ls);
            assert(render_formula(Formula::Literal(offset)) == rs);
            lemma_rt_binary(ls, '+', rs);
            let p = crate::parser::first_op_index(s);
            assert(crate::parser::spec_parse_operand(spec_trim(s.take(p))) == Some(
                Formula::Cell(base),
            ));
            assert(crate::parser::spec_parse_operand(spec_trim(s.skip(p + 1))) == Some(
                Formula::Literal(offset),
            ));
            assert(crate::parser::op_of_char(s[p]) == Op::Add);
            assert(crate::parser::arith_operands_ok(s));
            assert forall|g: Formula|
                crate::parser::spec_parse_result(s, g) implies norm_eq(f, g) by {
                assert(crate::parser::arith_result(s, g));
            }
        },
        Formula::Arith { op, left, right } => {
            let ls = render_formula(*left);
            let rs = render_formula(*right);
            let o = op_char(op);
            assert(s =~= ls + seq![' ', o, ' '] + rs);
            lemma_rt_operand(*left);
            lemma_rt_operand(*right);
            assert(is_op_char(o));
            lemma_rt_binary(ls, o, rs);
            let p = crate::parser::first_op_index(s);
            assert(crate::parser::spec_parse_operand(spec_trim(s.take(p))) == Some(*left));
            assert(crate::parser::spec_parse_operand(spec_trim(s.skip(p + 1))) == Some(*right));
            assert(crate::parser::op_of_char(s[p]) == op);
            assert(crate::parser::arith_operands_ok(s));
            assert forall|g: Formula|
                crate::parser::spec_parse_result(s, g) implies norm_eq(f, g) by {
                assert(crate::parser::arith_result(s, g));
            }
        },
        Formula::Range { func, start, end } => {
            assert(s =~= func@ + seq!['('] + render_ref(start) + seq![':'] + render_ref(end)
                + seq![')']);
            lemma_rt_range(func@, start, end);
            assert(crate::parser::range_refs_ok(s));
            assert forall|g: Formula|
                crate::parser::spec_parse_result(s, g) implies norm_eq(f, g) by {
                assert(crate::parser::range_result(s, g));
                let (r1, c1) = crate::parser::spec_parse_cell_ref(
                    crate::parser::range_left(s),
                ) -> Some_0;
                assert(r1 == start.row && c1 == start.col);
                let (r2, c2) = crate::parser::spec_parse_cell_ref(
                    crate::parser::range_right(s),
                ) -> Some_0;
                assert(r2 == end.row && c2 == end.col);
                assert((CellRef { row: r1, col: c1 }) == start);
                assert((CellRef { row: r2, col: c2 }) == end);
            }
        },
        Formula::SleepLiteral(n) => {
            let inner = dec_str(n as int);
            lemma_dec_str_val(n as int);
            assert(s =~= seq!['S', 'L', 'E', 'E', 'P', '('] + inner + seq![')']);
            assert(forall|i: int|
                0 <= i < inner.len() ==> is_upper_char(#[trigger] inner[i]) || is_digit_char(
                    inner[i],
                ));
            lemma_rt_sleep_common(s, inner);
            assert(crate::parser::sleep_ok(s));
            assert forall|g: Formula|
                crate::parser::spec_parse_result(s, g) implies norm_eq(f, g) by {
                assert(crate::parser::sleep_result(s, g));
            }
        },
        Formula::SleepCell(c) => {
            let inner = render_ref(c);
            lemma_render_ref(c);
            assert(s =~= seq!['S', 'L', 'E', 'E', 'P', '('] + inner + seq![')']);
            lemma_rt_sleep_common(s, inner);
            assert(!all_digits(inner)) by {
                lemma_col_chars_props(c.col + 1);
                assert(inner[0] == col_chars(c.col + 1)[0]);
                assert(is_upper_char(inner[0]));
            }
            assert(cell_shape(inner));
            assert(crate::parser::sleep_ok(s));
            assert forall|g: Formula|
                crate::parser::spec_parse_result(s, g) implies norm_eq(f, g) by {
                assert(crate::parser::sleep_result(s, g));
            }
        },
    }
}

} // verus!
