//! Editor state for a modal front end, and the textual rendering of
//! formulas that it shows and stores.

use vstd::prelude::*;

use vstd::string::StringExecFns;

use crate::ast::cell;
use crate::ast::CellRef;
use crate::ast::Formula;
use crate::ast::Op;
use crate::eval::rect_sheet;
use crate::eval::spec_cols;
use crate::text::char_at;
use crate::text::chars_to_string;
use crate::text::dec_str;
use crate::text::int_str;
use crate::text::push_int_chars;

verus! {

/// The current editing mode of the modal interface.
#[derive(Clone, Debug, PartialEq)]
pub enum Mode {
    /// Normal mode for navigation and commands.
    Normal,
    /// Insert mode for editing cell content.
    Insert,
    /// Command mode for executing commands.
    Command,
    /// Visual mode for selecting ranges.
    Visual {
        /// Starting row of the selection.
        start_row: usize,
        /// Starting column of the selection.
        start_col: usize,
    },
}

/// Content held by the editor clipboard.
#[derive(Clone)]
pub enum ClipboardContent {
    /// A single cell.
    Cell { row: usize, col: usize, value: String },
    /// A rectangular range of cells.
    Range {
        start_row: usize,
        start_col: usize,
        end_row: usize,
        end_col: usize,
        data: Vec<Vec<String>>,
    },
    /// An entire row.
    Row { row: usize, data: Vec<String> },
    /// An entire column.
    Column { col: usize, data: Vec<String> },
}

/// The current state of the editor.
pub struct EditorState {
    /// Current editing mode.
    pub mode: Mode,
    /// Current cursor row position (zero-based).
    pub cursor_row: usize,
    /// Current cursor column position (zero-based).
    pub cursor_col: usize,
    /// Buffer for command input.
    pub command_buffer: String,
    /// Status message to display.
    pub status_message: String,
    /// Clipboard content for copy and paste.
    pub clipboard: Option<ClipboardContent>,
    /// Current row offset of the viewport.
    pub row_offset: usize,
    /// Current column offset of the viewport.
    pub col_offset: usize,
    /// The cell text being edited in insert mode.
    pub edit_buffer: String,
    /// The active search pattern, if any.
    pub search_pattern: Option<String>,
    /// Direction of the search: `true` for forward.
    pub search_forward: bool,
    /// The positions that matched the last search.
    pub search_matches: Vec<(usize, usize)>,
    /// Index of the current match within the match list.
    pub current_match: Option<usize>,
}

/// The column label of a one-based column number, `A` through `Z`, then
/// `AA` onward.
pub open spec fn col_chars(n: int) -> Seq<char>
    decreases n,
{
    if n <= 26 {
        seq![(((64 + (if n < 1 { 1int } else { n })) as u8) as char)]
    } else {
        col_chars((n - 1) / 26).push((((65 + ((n - 1) % 26)) as u8) as char))
    }
}

/// Every reference of the formula can be written back as text: rows start
/// at `-1` (shown as row `0`) and columns at `0`, and both leave room for
/// the one-based form.
pub open spec fn renderable_ref(r: CellRef) -> bool {
    -1 <= r.row < 0x7fff_ffff && 0 <= r.col < 0x7fff_ffff
}

/// The formula's references can all be written back as text.
pub open spec fn renderable(f: Formula) -> bool
    decreases f,
{
    match f {
        Formula::Literal(_) => true,
        Formula::Cell(c) => renderable_ref(c),
        Formula::Inc { base, .. } => renderable_ref(base),
        Formula::Arith { left, right, .. } => renderable(*left) && renderable(*right),
        Formula::Range { start, end, .. } => renderable_ref(start) && renderable_ref(end),
        Formula::SleepLiteral(_) => true,
        Formula::SleepCell(c) => renderable_ref(c),
    }
}

/// The text of a cell reference: column letters, then the one-based row.
pub open spec fn render_ref(r: CellRef) -> Seq<char> {
    col_chars(r.col + 1) + dec_str(r.row + 1)
}

/// The character of an operator.
pub open spec fn op_char(op: Op) -> char {
    match op {
        Op::Add => '+',
        Op::Sub => '-',
        Op::Mul => '*',
        Op::Div => '/',
    }
}

/// The textual form of a formula, as the editor shows it.
pub open spec fn render_formula(f: Formula) -> Seq<char>
    decreases f,
{
    match f {
        Formula::Literal(n) => int_str(n as int),
        Formula::Cell(c) => render_ref(c),
        Formula::Inc { base, offset } => render_ref(base) + seq![' ', '+', ' '] + int_str(
            offset as int,
        ),
        Formula::Arith { op, left, right } => render_formula(*left) + seq![' ', op_char(op), ' ']
            + render_formula(*right),
        Formula::Range { func, start, end } => func@ + seq!['('] + render_ref(start) + seq![':']
            + render_ref(end) + seq![')'],
        Formula::SleepLiteral(n) => seq!['S', 'L', 'E', 'E', 'P', '('] + int_str(n as int) + seq![
            ')'
        ],
        Formula::SleepCell(c) => seq!['S', 'L', 'E', 'E', 'P', '('] + render_ref(c) + seq![')'],
    }
}

/// Appends the column label of a one-based column number.
fn push_col_chars(n: u32, out: &mut Vec<char>)
    requires
        1 <= n,
    ensures
        final(out)@ == old(out)@ + col_chars(n as int),
    decreases n,
{
    if n <= 26 {
        out.push(((64 + n) as u8) as char);
    } else {
        push_col_chars((n - 1) / 26, out);
        out.push(((65 + ((n - 1) % 26)) as u8) as char);
    }
}

/// Appends the text of a cell reference.
fn push_ref_chars(r: CellRef, out: &mut Vec<char>)
    requires
        renderable_ref(r),
    ensures
        final(out)@ == old(out)@ + render_ref(r),
{
    push_col_chars((r.col + 1) as u32, out);
    crate::text::push_dec_u64((r.row + 1) as u64, out);
    proof {
        assert(out@ =~= old(out)@ + render_ref(r));
    }
}

/// Appends the textual form of a formula.
pub(crate) fn push_formula_chars(f: &Formula, out: &mut Vec<char>)
    requires
        renderable(*f),
    ensures
        final(out)@ == old(out)@ + render_formula(*f),
    decreases *f,
{
    match f {
        Formula::Literal(n) => {
            push_int_chars(*n, out);
        },
        Formula::Cell(c) => {
            push_ref_chars(*c, out);
        },
        Formula::Inc { base, offset } => {
            push_ref_chars(*base, out);
            out.push(' ');
            out.push('+');
            out.push(' ');
            push_int_chars(*offset, out);
            proof {
                assert(out@ =~= old(out)@ + render_formula(*f));
            }
        },
        Formula::Arith { op, left, right } => {
            push_formula_chars(left, out);
            out.push(' ');
            match op {
                Op::Add => out.push('+'),
                Op::Sub => out.push('-'),
                Op::Mul => out.push('*'),
                Op::Div => out.push('/'),
            }
            out.push(' ');
            push_formula_chars(right, out);
            proof {
                assert(out@ =~= old(out)@ + render_formula(*f));
            }
        },
        Formula::Range { func, start, end } => {
            let fc = crate::text::str_to_chars(func.as_str());
            let nf: usize = fc.len();
            let mut k: usize = 0;
            while k < nf
                invariant
                    0 <= k <= nf,
                    nf == fc@.len(),
                    out@ == old(out)@ + render_formula(*f).take(k as int),
                    fc@ == func@,
                    f matches Formula::Range { func: f2, .. } && f2 == func,
                    renderable(*f),
                decreases nf - k,
            {
                proof {
                    assert(render_formula(*f)[k as int] == func@[k as int]);
                    assert((old(out)@ + render_formula(*f).take(k + 1)) =~= (old(out)@
                        + render_formula(*f).take(k as int)).push(func@[k as int]));
                }
                out.push(char_at(&fc, k));
                k = k + 1;
            }
            out.push('(');
            push_ref_chars(*start, out);
            out.push(':');
            push_ref_chars(*end, out);
            out.push(')');
            proof {
                assert(out@ =~= old(out)@ + render_formula(*f));
            }
        },
        Formula::SleepLiteral(n) => {
            out.push('S');
            out.push('L');
            out.push('E');
            out.push('E');
            out.push('P');
            out.push('(');
            push_int_chars(*n, out);
            out.push(')');
            proof {
                assert(out@ =~= old(out)@ + render_formula(*f));
            }
        },
        Formula::SleepCell(c) => {
            out.push('S');
            out.push('L');
            out.push('E');
            out.push('E');
            out.push('P');
            out.push('(');
            push_ref_chars(*c, out);
            out.push(')');
            proof {
                assert(out@ =~= old(out)@ + render_formula(*f));
            }
        },
    }
}

/// Writes a formula back as text, in the form the parser reads: operands
/// separated by spaced operators, one-based cell references, and aggregate
/// and wait calls spelled out.
pub fn formula_to_string(formula: &Formula) -> (s: String)
    requires
        renderable(*formula),
    ensures
        s@ == render_formula(*formula),
{
    let mut out: Vec<char> = Vec::new();
    push_formula_chars(formula, &mut out);
    chars_to_string(&out)
}

/// Converts a zero-based column index to its letter label, `A` for 0
/// through `Z`, then `AA` onward.
pub fn column_name(col: usize) -> (s: String)
    requires
        col < usize::MAX,
    ensures
        s@ == col_chars(col as int + 1),
{
    let mut out: Vec<char> = Vec::new();
    if col <= 0xfffe {
        push_col_chars((col + 1) as u32, &mut out);
        return chars_to_string(&out);
    }
    push_col_chars_u64(col as u64 + 1, &mut out);
    chars_to_string(&out)
}

/// Appends the column label of a one-based column number, for wide grids.
fn push_col_chars_u64(n: u64, out: &mut Vec<char>)
    requires
        1 <= n,
    ensures
        final(out)@ == old(out)@ + col_chars(n as int),
    decreases n,
{
    if n <= 26 {
        out.push(((64 + n) as u8) as char);
    } else {
        push_col_chars_u64((n - 1) / 26, out);
        out.push(((65 + ((n - 1) % 26)) as u8) as char);
    }
}

impl EditorState {
    /// A fresh editor: normal mode, cursor and viewport at the origin, and
    /// every buffer empty.
    pub fn new() -> (s: EditorState)
        ensures
            s.mode == Mode::Normal,
            s.cursor_row == 0,
            s.cursor_col == 0,
            s.command_buffer@ == Seq::<char>::empty(),
            s.clipboard is None,
            s.row_offset == 0,
            s.col_offset == 0,
            s.edit_buffer@ == Seq::<char>::empty(),
            s.search_pattern is None,
            s.search_forward == true,
            s.search_matches@ == Seq::<(usize, usize)>::empty(),
            s.current_match is None,
    {
        EditorState {
            mode: Mode::Normal,
            cursor_row: 0,
            cursor_col: 0,
            command_buffer: String::new(),
            status_message: String::from_str("Normal mode"),
            clipboard: None,
            row_offset: 0,
            col_offset: 0,
            edit_buffer: String::new(),
            search_pattern: None,
            search_forward: true,
            search_matches: Vec::new(),
            current_match: None,
        }
    }

    /// Puts the cursor and the viewport back at the origin.
    pub fn reset_view(&mut self)
        ensures
            *final(self) == (EditorState {
                row_offset: 0,
                col_offset: 0,
                cursor_row: 0,
                cursor_col: 0,
                ..*old(self)
            }),
    {
        self.row_offset = 0;
        self.col_offset = 0;
        self.cursor_row = 0;
        self.cursor_col = 0;
    }

    /// Switches to insert mode and loads the cursor cell into the edit
    /// buffer: `=` and the formula text when the cell has a formula, its
    /// value otherwise.
    pub fn enter_insert_mode(&mut self, sheet: &Vec<Vec<cell>>)
        requires
            rect_sheet(sheet@),
            old(self).cursor_row < sheet@.len(),
            old(self).cursor_col < spec_cols(sheet@),
            match sheet@[old(self).cursor_row as int]@[old(self).cursor_col as int].formula {
                Some(f) => renderable(f),
                None => true,
            },
        ensures
            final(self).mode == Mode::Insert,
            final(self).edit_buffer@ == match sheet@[old(self).cursor_row as int]@[old(
                self,
            ).cursor_col as int].formula {
                Some(f) => seq!['='] + render_formula(f),
                None => int_str(
                    sheet@[old(self).cursor_row as int]@[old(self).cursor_col as int].val as int,
                ),
            },
            final(self).cursor_row == old(self).cursor_row,
            final(self).cursor_col == old(self).cursor_col,
    {
        self.mode = Mode::Insert;
        self.status_message = String::from_str("-- INSERT MODE --");
        let row = self.cursor_row;
        let col = self.cursor_col;
        let mut buf: Vec<char> = Vec::new();
        match &sheet[row][col].formula {
            Some(formula) => {
                buf.push('=');
                push_formula_chars(formula, &mut buf);
            },
            None => {
                push_int_chars(sheet[row][col].val, &mut buf);
            },
        }
        self.edit_buffer = chars_to_string(&buf);
    }

    /// Switches back to normal mode and clears the edit buffer.
    pub fn enter_normal_mode(&mut self)
        ensures
            final(self).mode == Mode::Normal,
            final(self).edit_buffer@ == Seq::<char>::empty(),
            final(self).cursor_row == old(self).cursor_row,
            final(self).cursor_col == old(self).cursor_col,
    {
        self.mode = Mode::Normal;
        self.status_message = String::from_str("-- NORMAL MODE --");
        self.edit_buffer = String::new();
    }

    /// Switches to command mode with a fresh `:` prompt.
    pub fn enter_command_mode(&mut self)
        ensures
            final(self).mode == Mode::Command,
            final(self).command_buffer@ == seq![':'],
            final(self).cursor_row == old(self).cursor_row,
            final(self).cursor_col == old(self).cursor_col,
    {
        self.mode = Mode::Command;
        self.status_message = String::from_str("-- COMMAND MODE --");
        let mut buf: Vec<char> = Vec::new();
        buf.push(':');
        self.command_buffer = chars_to_string(&buf);
    }

    /// Switches to visual mode, anchoring the selection at the cursor.
    pub fn enter_visual_mode(&mut self)
        ensures
            final(self).mode == (Mode::Visual {
                start_row: old(self).cursor_row,
                start_col: old(self).cursor_col,
            }),
            final(self).cursor_row == old(self).cursor_row,
            final(self).cursor_col == old(self).cursor_col,
    {
        self.mode = Mode::Visual { start_row: self.cursor_row, start_col: self.cursor_col };
        self.status_message = String::from_str("-- VISUAL MODE --");
    }

    /// The rectangle selected in visual mode, as
    /// `(top row, left column, bottom row, right column)`; nothing outside
    /// visual mode.
    pub fn get_visual_selection(&self) -> (out: Option<(usize, usize, usize, usize)>)
        ensures
            match self.mode {
                Mode::Visual { start_row, start_col } => out == Some(
                    (
                        if start_row <= self.cursor_row {
                            start_row
                        } else {
                            self.cursor_row
                        },
                        if start_col <= self.cursor_col {
                            start_col
                        } else {
                            self.cursor_col
                        },
                        if start_row >= self.cursor_row {
                            start_row
                        } else {
                            self.cursor_row
                        },
                        if start_col >= self.cursor_col {
                            start_col
                        } else {
                            self.cursor_col
                        },
                    ),
                ),
                _ => out is None,
            },
    {
        match self.mode {
            Mode::Visual { start_row, start_col } => {
                let min_row = if start_row <= self.cursor_row {
                    start_row
                } else {
                    self.cursor_row
                };
                let max_row = if start_row >= self.cursor_row {
                    start_row
                } else {
                    self.cursor_row
                };
                let min_col = if start_col <= self.cursor_col {
                    start_col
                } else {
                    self.cursor_col
                };
                let max_col = if start_col >= self.cursor_col {
                    start_col
                } else {
                    self.cursor_col
                };
                Some((min_row, min_col, max_row, max_col))
            },
            _ => None,
        }
    }

    /// Applies the edit buffer to the cell under the cursor: an empty
    /// buffer clears the cell; a leading `=` introduces a formula; a bare
    /// number stores a value; any other text is tried as a formula, and on
    /// failure the cell is cleared with its error flag set.
    pub fn apply_edit(&self, sheet: &mut Vec<Vec<cell>>)
        requires
            rect_sheet(old(sheet)@),
            self.cursor_row < old(sheet)@.len(),
            self.cursor_col < spec_cols(old(sheet)@),
        ensures
            final(sheet)@.len() == old(sheet)@.len(),
            forall|i: int|
                0 <= i < old(sheet)@.len() && i != self.cursor_row
                    ==> (#[trigger] final(sheet)@[i]) == old(sheet)@[i],
            final(sheet)@[self.cursor_row as int]@.len() == old(sheet)@[self.cursor_row as int]@.len(),
            forall|j: int|
                0 <= j < old(sheet)@[self.cursor_row as int]@.len() && j != self.cursor_col
                    ==> (#[trigger] final(sheet)@[self.cursor_row as int]@[j])
                    == old(sheet)@[self.cursor_row as int]@[j],
            ({
                let c = final(sheet)@[self.cursor_row as int]@[self.cursor_col as int];
                let oldc = old(sheet)@[self.cursor_row as int]@[self.cursor_col as int];
                let b = self.edit_buffer@;
                if b.len() == 0 {
                    c.formula is None && c.val == 0 && c.err == 0
                } else if b[0] == '=' {
                    let rest = b.skip(1);
                    if crate::parser::spec_parse_ok(rest) {
                        c.formula matches Some(f) && crate::parser::spec_parse_result(rest, f)
                            && c.val == oldc.val && c.err == oldc.err
                    } else {
                        c.formula is None && c.val == 0 && c.err == 1
                    }
                } else if crate::text::spec_parse_int(b) is Some {
                    c.formula is None && c.val == crate::text::spec_parse_int(b) -> Some_0
                        && c.err == 0
                } else if crate::parser::spec_parse_ok(b) {
                    c.formula matches Some(f) && crate::parser::spec_parse_result(b, f) && c.val
                        == oldc.val && c.err == oldc.err
                } else {
                    c.formula is None && c.val == 0 && c.err == 1
                }
            }),
    {
        let row = self.cursor_row;
        let col = self.cursor_col;
        let chars = crate::text::str_to_chars(self.edit_buffer.as_str());
        let n: usize = chars.len();
        if n == 0 {
            let rowv = &mut sheet[row];
            let cl = &mut rowv[col];
            cl.formula = None;
            cl.val = 0;
            cl.err = 0;
            return ;
        }
        if char_at(&chars, 0) == '=' {
            let rest = crate::text::subvec(&chars, 1, n);
            let rest_s = chars_to_string(&rest);
            proof {
                assert(rest_s@ =~= self.edit_buffer@.skip(1));
            }
            match crate::parser::parse_formula(rest_s.as_str()) {
                Ok(ast) => {
                    let rowv = &mut sheet[row];
                    let cl = &mut rowv[col];
                    cl.formula = Some(ast);
                },
                Err(()) => {
                    let rowv = &mut sheet[row];
                    let cl = &mut rowv[col];
                    cl.formula = None;
                    cl.val = 0;
                    cl.err = 1;
                },
            }
            return ;
        }
        match crate::text::parse_int_chars(&chars) {
            Some(v) => {
                let rowv = &mut sheet[row];
                let cl = &mut rowv[col];
                cl.formula = None;
                cl.val = v;
                cl.err = 0;
                return ;
            },
            None => {},
        }
        match crate::parser::parse_formula(self.edit_buffer.as_str()) {
            Ok(ast) => {
                let rowv = &mut sheet[row];
                let cl = &mut rowv[col];
                cl.formula = Some(ast);
            },
            Err(()) => {
                let rowv = &mut sheet[row];
                let cl = &mut rowv[col];
                cl.formula = None;
                cl.val = 0;
                cl.err = 1;
            },
        }
    }
}


/// An ASCII letter, of either case.
pub open spec fn is_ascii_alpha(c: char) -> bool {
    (65 <= c as int <= 90) || (97 <= c as int <= 122)
}

/// The uppercase form of an ASCII letter; other characters are unchanged.
pub open spec fn to_upper(c: char) -> char {
    if 97 <= c as int <= 122 {
        ((c as int - 32) as u8) as char
    } else {
        c
    }
}

/// The letters of `s` in order, uppercased.
pub open spec fn collect_letters(s: Seq<char>) -> Seq<char>
    decreases s.len(),
{
    if s.len() == 0 {
        Seq::empty()
    } else if is_ascii_alpha(s.last()) {
        collect_letters(s.drop_last()).push(to_upper(s.last()))
    } else {
        collect_letters(s.drop_last())
    }
}

/// The digits of `s` in order.
pub open spec fn collect_digits(s: Seq<char>) -> Seq<char>
    decreases s.len(),
{
    if s.len() == 0 {
        Seq::empty()
    } else if crate::text::is_digit_char(s.last()) {
        collect_digits(s.drop_last()).push(s.last())
    } else {
        collect_digits(s.drop_last())
    }
}

/// What `parse_cell_reference` returns: the zero-based `(row, column)` named
/// by the letters and digits of the text, wherever they stand in it; nothing
/// when any character is neither, when letters or digits are missing, when
/// the textual row is `0`, or when either index does not fit in `usize`.
pub open spec fn spec_parse_cell_reference(s: Seq<char>) -> Option<(usize, usize)> {
    let letters = collect_letters(s);
    let digits = collect_digits(s);
    if exists|i: int|
        0 <= i < s.len() && !is_ascii_alpha(#[trigger] s[i]) && !crate::text::is_digit_char(
            s[i],
        ) {
        None
    } else if letters.len() == 0 || digits.len() == 0 {
        None
    } else if crate::text::dec_val(digits) > usize::MAX {
        None
    } else if crate::text::dec_val(digits) == 0 {
        None
    } else if crate::parser::col_val(letters) - 1 > usize::MAX {
        None
    } else {
        Some(
            (
                ((crate::text::dec_val(digits) - 1) as usize),
                ((crate::parser::col_val(letters) - 1) as usize),
            ),
        )
    }
}

/// Uppercased letters are uppercase.
proof fn lemma_collect_letters_upper(s: Seq<char>)
    ensures
        crate::parser::all_upper(collect_letters(s)),
        crate::text::all_digits(collect_digits(s)),
    decreases s.len(),
{
    if s.len() > 0 {
        lemma_collect_letters_upper(s.drop_last());
        if is_ascii_alpha(s.last()) {
            let t = collect_letters(s);
            assert(crate::parser::is_upper_char(to_upper(s.last())));
            assert(forall|i: int|
                0 <= i < t.len() ==> crate::parser::is_upper_char(#[trigger] t[i]) || i == t.len()
                    - 1);
        }
        if crate::text::is_digit_char(s.last()) {
            let t = collect_digits(s);
            assert(forall|i: int|
                0 <= i < t.len() ==> crate::text::is_digit_char(#[trigger] t[i]) || i == t.len()
                    - 1);
        }
    }
}

/// Parses text such as `A1` or `ab12` into a zero-based `(row, column)`
/// pair, taking its letters as the column label and its digits as the
/// one-based row, and rejecting anything else.
pub fn parse_cell_reference(s: &str) -> (out: Option<(usize, usize)>)
    ensures
        out == spec_parse_cell_reference(s@),
{
    let v = crate::text::str_to_chars(s);
    let n: usize = v.len();
    let mut letters: Vec<char> = Vec::new();
    let mut digits: Vec<char> = Vec::new();
    let mut i: usize = 0;
    while i < n
        invariant
            0 <= i <= n,
            n == v@.len(),
            v@ == s@,
            letters@ == collect_letters(s@.take(i as int)),
            digits@ == collect_digits(s@.take(i as int)),
            forall|j: int|
                0 <= j < i ==> is_ascii_alpha(#[trigger] s@[j]) || crate::text::is_digit_char(
                    s@[j],
                ),
        decreases n - i,
    {
        let c = char_at(&v, i);
        let cv: u32 = c as u32;
        proof {
            assert(s@.take(i + 1).drop_last() =~= s@.take(i as int));
            assert(s@.take(i + 1).last() == s@[i as int]);
        }
        if cv >= 65 && cv <= 90 {
            letters.push(c);
            proof {
                assert(to_upper(c) == c);
            }
        } else if cv >= 97 && cv <= 122 {
            letters.push(((cv - 32) as u8) as char);
        } else if cv >= 48 && cv <= 57 {
            digits.push(c);
        } else {
            proof {
                assert(!is_ascii_alpha(s@[i as int]) && !crate::text::is_digit_char(
                    s@[i as int],
                ));
            }
            return None;
        }
        i = i + 1;
    }
    proof {
        assert(s@.take(n as int) =~= s@);
        lemma_collect_letters_upper(s@);
    }
    if letters.len() == 0 || digits.len() == 0 {
        return None;
    }
    let nd: usize = digits.len();
    let mut row_acc: u128 = 0;
    let mut k: usize = 0;
    while k < nd
        invariant
            0 <= k <= nd,
            nd == digits@.len(),
            crate::text::all_digits(digits@),
            digits@ == collect_digits(s@),
            letters@ == collect_letters(s@),
            letters@.len() >= 1,
            digits@.len() >= 1,
            forall|j: int|
                0 <= j < s@.len() ==> is_ascii_alpha(#[trigger] s@[j])
                    || crate::text::is_digit_char(s@[j]),
            row_acc == crate::text::dec_val(digits@.take(k as int)),
            0 <= row_acc <= usize::MAX as u128,
        decreases nd - k,
    {
        let c = char_at(&digits, k);
        proof {
            assert(digits@.take(k + 1).drop_last() =~= digits@.take(k as int));
            assert(digits@.take(k + 1).last() == digits@[k as int]);
        }
        row_acc = row_acc * 10 + ((c as u32 - 48) as u128);
        k = k + 1;
        if row_acc > usize::MAX as u128 {
            proof {
                crate::text::lemma_dec_val_prefix(digits@, k as int);
            }
            return None;
        }
    }
    proof {
        assert(digits@.take(nd as int) =~= digits@);
    }
    if row_acc == 0 {
        return None;
    }
    let nl: usize = letters.len();
    let mut col_acc: u128 = 0;
    let mut k2: usize = 0;
    while k2 < nl
        invariant
            0 <= k2 <= nl,
            nl == letters@.len(),
            crate::parser::all_upper(letters@),
            digits@ == collect_digits(s@),
            letters@ == collect_letters(s@),
            letters@.len() >= 1,
            digits@.len() >= 1,
            crate::text::dec_val(digits@) <= usize::MAX,
            crate::text::dec_val(digits@) >= 1,
            forall|j: int|
                0 <= j < s@.len() ==> is_ascii_alpha(#[trigger] s@[j])
                    || crate::text::is_digit_char(s@[j]),
            col_acc == crate::parser::col_val(letters@.take(k2 as int)),
            0 <= col_acc <= usize::MAX as u128 + 1,
        decreases nl - k2,
    {
        let c = char_at(&letters, k2);
        proof {
            assert(letters@.take(k2 + 1).drop_last() =~= letters@.take(k2 as int));
            assert(letters@.take(k2 + 1).last() == letters@[k2 as int]);
        }
        col_acc = col_acc * 26 + ((c as u32 - 64) as u128);
        k2 = k2 + 1;
        if col_acc > usize::MAX as u128 + 1 {
            proof {
                crate::parser::lemma_col_val_prefix(letters@, k2 as int);
            }
            return None;
        }
    }
    proof {
        assert(letters@.take(nl as int) =~= letters@);
        crate::parser::lemma_col_val_pos(letters@);
    }
    Some(((row_acc - 1) as usize, (col_acc - 1) as usize))
}

} // verus!
