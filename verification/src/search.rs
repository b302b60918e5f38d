//! Searching the sheet: locating the cells whose text holds a pattern, and
//! stepping the cursor through the matches.

use vstd::prelude::*;

use vstd::string::StringExecFns;

use crate::ast::cell;
use crate::ast::Formula;
use crate::editor::render_formula;
use crate::editor::renderable;
use crate::editor::EditorState;
use crate::eval::rect_sheet;
use crate::eval::spec_cols;
use crate::text::char_at;
use crate::text::int_str;

verus! {

/// `needle` occurs as a contiguous run inside `hay`.
pub open spec fn has_sub(hay: Seq<char>, needle: Seq<char>) -> bool {
    exists|i: int|
        0 <= i <= hay.len() - needle.len() && #[trigger] hay.subrange(i, i + needle.len())
            == needle
}

/// Whether the needle occurs inside the haystack.
fn contains_sub(hay: &Vec<char>, needle: &Vec<char>) -> (r: bool)
    ensures
        r == has_sub(hay@, needle@),
{
    let nh: usize = hay.len();
    let nn: usize = needle.len();
    if nn > nh {
        proof {
            if has_sub(hay@, needle@) {
                let i = choose|i: int|
                    0 <= i <= hay@.len() - needle@.len() && #[trigger] hay@.subrange(
                        i,
                        i + needle@.len(),
                    ) == needle@;
            }
        }
        return false;
    }
    let mut i: usize = 0;
    while i <= nh - nn
        invariant
            nh == hay@.len(),
            nn == needle@.len(),
            nn <= nh,
            0 <= i <= nh - nn + 1,
            forall|j: int|
                0 <= j < i ==> #[trigger] hay@.subrange(j, j + needle@.len()) != needle@,
        decreases nh - nn - i + 1,
    {
        let mut k: usize = 0;
        let mut same = true;
        while k < nn
            invariant
                nh == hay@.len(),
                nn == needle@.len(),
                0 <= i <= nh - nn,
                0 <= k <= nn,
                same == (forall|m: int|
                    0 <= m < k ==> hay@[i + m] == #[trigger] needle@[m]),
            decreases nn - k,
        {
            if char_at(hay, i + k) != char_at(needle, k) {
                proof {
                    assert(hay@[i + k as int] != needle@[k as int]);
                }
                same = false;
            }
            k = k + 1;
        }
        if same {
            proof {
                assert(hay@.subrange(i as int, i + needle@.len()) =~= needle@);
            }
            return true;
        }
        proof {
            assert(hay@.subrange(i as int, i + needle@.len()) != needle@) by {
                let m = choose|m: int| 0 <= m < nn && hay@[i + m] != needle@[m];
                assert(hay@.subrange(i as int, i + needle@.len())[m] == hay@[i + m]);
            }
        }
        i = i + 1;
    }
    proof {
        if has_sub(hay@, needle@) {
            let j = choose|j: int|
                0 <= j <= hay@.len() - needle@.len() && #[trigger] hay@.subrange(
                    j,
                    j + needle@.len(),
                ) == needle@;
        }
    }
    false
}

/// The match at `m` lies strictly after the cursor in row-major order.
pub open spec fn match_after(m: (usize, usize), cr: usize, cc: usize) -> bool {
    m.0 > cr || (m.0 == cr && m.1 > cc)
}

/// The match at `m` lies strictly before the cursor in row-major order.
pub open spec fn match_before(m: (usize, usize), cr: usize, cc: usize) -> bool {
    m.0 < cr || (m.0 == cr && m.1 < cc)
}

/// Where the viewport row lands after jumping the cursor to row `r`, with a
/// 20-row window.
pub open spec fn scroll_row(off: int, r: int) -> int {
    if r < off {
        r
    } else if r >= off + 20 {
        if r >= 19 {
            r - 19
        } else {
            0
        }
    } else {
        off
    }
}

/// Where the viewport column lands after jumping the cursor to column `c`,
/// with a 10-column window.
pub open spec fn scroll_col(off: int, c: int) -> int {
    if c < off {
        c
    } else if c >= off + 10 {
        if c >= 9 {
            c - 9
        } else {
            0
        }
    } else {
        off
    }
}

/// Steps the cursor to the next or previous recorded match in row-major
/// order, wrapping around when none lies ahead, and scrolls the viewport to
/// keep the cursor visible; reports whether a match was selected.
pub fn find_next_match(state: &mut EditorState, forward: bool) -> (r: bool)
    ensures
        old(state).search_matches@.len() == 0 ==> r == false && *final(state) == *old(state),
        old(state).search_matches@.len() > 0 ==> {
            let ms = old(state).search_matches@;
            let cr = old(state).cursor_row;
            let cc = old(state).cursor_col;
            &&& r == true
            &&& final(state).current_match matches Some(idx) && 0 <= idx < ms.len() && {
                &&& if forward {
                    if exists|j: int| 0 <= j < ms.len() && match_after(#[trigger] ms[j], cr, cc) {
                        match_after(ms[idx as int], cr, cc) && forall|j: int|
                            0 <= j < idx ==> !match_after(#[trigger] ms[j], cr, cc)
                    } else {
                        idx == 0
                    }
                } else {
                    if exists|j: int| 0 <= j < ms.len() && match_before(#[trigger] ms[j], cr, cc) {
                        match_before(ms[idx as int], cr, cc) && forall|j: int|
                            idx < j < ms.len() ==> !match_before(#[trigger] ms[j], cr, cc)
                    } else {
                        idx == ms.len() - 1
                    }
                }
                &&& final(state).cursor_row == ms[idx as int].0
                &&& final(state).cursor_col == ms[idx as int].1
                &&& final(state).row_offset == scroll_row(
                    old(state).row_offset as int,
                    ms[idx as int].0 as int,
                )
                &&& final(state).col_offset == scroll_col(
                    old(state).col_offset as int,
                    ms[idx as int].1 as int,
                )
            }
            &&& final(state).search_matches == old(state).search_matches
            &&& final(state).mode == old(state).mode
            &&& final(state).search_pattern == old(state).search_pattern
            &&& final(state).search_forward == old(state).search_forward
            &&& final(state).edit_buffer == old(state).edit_buffer
            &&& final(state).command_buffer == old(state).command_buffer
        },
{
    let n: usize = state.search_matches.len();
    if n == 0 {
        return false;
    }
    let cr = state.cursor_row;
    let cc = state.cursor_col;
    let mut found = false;
    let mut best: usize = 0;
    if forward {
        let mut j: usize = 0;
        while j < n
            invariant
                0 <= j <= n,
                n == state.search_matches@.len(),
                found == exists|m: int|
                    0 <= m < j && match_after(#[trigger] state.search_matches@[m], cr, cc),
                found ==> 0 <= best < j && match_after(state.search_matches@[best as int], cr, cc)
                    && forall|m: int|
                    0 <= m < best ==> !match_after(#[trigger] state.search_matches@[m], cr, cc),
                *state == *old(state),
                cr == old(state).cursor_row,
                cc == old(state).cursor_col,
            decreases n - j,
        {
            let m = state.search_matches[j];
            if !found && (m.0 > cr || (m.0 == cr && m.1 > cc)) {
                found = true;
                best = j;
            }
            j = j + 1;
        }
        if !found {
            best = 0;
        }
    } else {
        let mut j: usize = 0;
        while j < n
            invariant
                0 <= j <= n,
                n == state.search_matches@.len(),
                found == exists|m: int|
                    0 <= m < j && match_before(#[trigger] state.search_matches@[m], cr, cc),
                found ==> 0 <= best < j && match_before(
                    state.search_matches@[best as int],
                    cr,
                    cc,
                ) && forall|m: int|
                    best < m < j ==> !match_before(#[trigger] state.search_matches@[m], cr, cc),
                *state == *old(state),
                cr == old(state).cursor_row,
                cc == old(state).cursor_col,
            decreases n - j,
        {
            let m = state.search_matches[j];
            if m.0 < cr || (m.0 == cr && m.1 < cc) {
                found = true;
                best = j;
            }
            j = j + 1;
        }
        if !found {
            best = n - 1;
        }
    }
    state.current_match = Some(best);
    let (mr, mc) = state.search_matches[best];
    state.cursor_row = mr;
    state.cursor_col = mc;
    if state.cursor_row < state.row_offset {
        state.row_offset = state.cursor_row;
    } else if state.cursor_row >= state.row_offset && state.cursor_row - state.row_offset >= 20 {
        state.row_offset = if state.cursor_row >= 19 {
            state.cursor_row - 19
        } else {
            0
        };
    }
    if state.cursor_col < state.col_offset {
        state.col_offset = state.cursor_col;
    } else if state.cursor_col >= state.col_offset && state.cursor_col - state.col_offset >= 10 {
        state.col_offset = if state.cursor_col >= 9 {
            state.cursor_col - 9
        } else {
            0
        };
    }
    true
}

/// Position `a` comes strictly before position `b` in row-major order.
pub open spec fn row_major_before(a: (usize, usize), b: (usize, usize)) -> bool {
    a.0 < b.0 || (a.0 == b.0 && a.1 < b.1)
}

/// The text a search reads from a cell: its formula written out, or its
/// bare value.
pub open spec fn cell_text(sheet: Seq<Vec<cell>>, r: int, c: int) -> Seq<char> {
    match sheet[r]@[c].formula {
        Some(f) => render_formula(f),
        None => int_str(sheet[r]@[c].val as int),
    }
}

/// Scans the whole grid for cells whose text holds the pattern, records the
/// matches in row-major order, and steps the cursor to the first of them.
/// Fails on an empty pattern or when nothing matches, leaving only the
/// recorded search state changed.
pub fn search_sheet(
    state: &mut EditorState,
    sheet: &Vec<Vec<cell>>,
    pattern: &str,
    forward: bool,
    rows: i32,
    cols: i32,
) -> (out: Result<(), String>)
    requires
        rect_sheet(sheet@),
        0 <= rows,
        sheet@.len() == rows as int,
        spec_cols(sheet@) == cols as int,
        0 <= cols,
        forall|r: int, c: int|
            0 <= r < rows as int && 0 <= c < cols as int ==> match (#[trigger] sheet@[r]@[c]).formula {
                Some(f) => renderable(f),
                None => true,
            },
    ensures
        out is Err <==> pattern@.len() == 0 || (forall|r: int, c: int|
            0 <= r < rows as int && 0 <= c < cols as int ==> !has_sub(
                #[trigger] cell_text(sheet@, r, c),
                pattern@,
            )),
        out is Ok ==> {
            let ms = final(state).search_matches@;
            &&& final(state).search_pattern matches Some(p) && p@ == pattern@
            &&& final(state).search_forward == forward
            &&& forall|k: int|
                0 <= k < ms.len() ==> {
                    let m = #[trigger] ms[k];
                    &&& m.0 < rows as int
                    &&& m.1 < cols as int
                    &&& has_sub(cell_text(sheet@, m.0 as int, m.1 as int), pattern@)
                }
            &&& forall|r: int, c: int|
                0 <= r < rows as int && 0 <= c < cols as int && has_sub(
                    #[trigger] cell_text(sheet@, r, c),
                    pattern@,
                ) ==> ms.contains((r as usize, c as usize))
            &&& forall|k1: int, k2: int|
                0 <= k1 < k2 < ms.len() ==> row_major_before(#[trigger] ms[k1], #[trigger] ms[k2])
            &&& final(state).current_match is Some
        },
{
    let pat = crate::text::str_to_chars(pattern);
    if pat.len() == 0 {
        return Err(String::from_str("Empty search pattern"));
    }
    state.search_pattern = Some(String::from_str(pattern));
    state.search_forward = forward;
    state.search_matches = Vec::new();
    state.current_match = None;
    let mut r: usize = 0;
    while r < rows as usize
        invariant
            0 <= r <= rows as int,
            rect_sheet(sheet@),
            sheet@.len() == rows as int,
            spec_cols(sheet@) == cols as int,
            0 <= cols,
            pat@ == pattern@,
            pat@.len() > 0,
            forall|r2: int, c2: int|
                0 <= r2 < rows as int && 0 <= c2 < cols as int ==> match (#[trigger] sheet@[r2]@[c2]).formula {
                    Some(f) => renderable(f),
                    None => true,
                },
            state.search_pattern matches Some(p) && p@ == pattern@,
            state.search_forward == forward,
            state.current_match is None,
            state.mode == old(state).mode,
            state.edit_buffer == old(state).edit_buffer,
            state.cursor_row == old(state).cursor_row,
            state.cursor_col == old(state).cursor_col,
            state.row_offset == old(state).row_offset,
            state.col_offset == old(state).col_offset,
            forall|k: int|
                0 <= k < state.search_matches@.len() ==> {
                    let m = #[trigger] state.search_matches@[k];
                    &&& m.0 < rows as int
                    &&& m.1 < cols as int
                    &&& has_sub(cell_text(sheet@, m.0 as int, m.1 as int), pat@)
                },
            forall|r2: int, c2: int|
                0 <= r2 < r && 0 <= c2 < cols as int && has_sub(
                    #[trigger] cell_text(sheet@, r2, c2),
                    pat@,
                ) ==> state.search_matches@.contains((r2 as usize, c2 as usize)),
            forall|k: int|
                0 <= k < state.search_matches@.len() ==> (#[trigger] state.search_matches@[k]).0
                    < r,
            forall|k1: int, k2: int|
                0 <= k1 < k2 < state.search_matches@.len() ==> row_major_before(
                    #[trigger] state.search_matches@[k1],
                    #[trigger] state.search_matches@[k2],
                ),
        decreases rows as int - r,
    {
        let mut c: usize = 0;
        while c < cols as usize
            invariant
                0 <= r < rows as int,
                0 <= c <= cols as int,
                rect_sheet(sheet@),
                sheet@.len() == rows as int,
                spec_cols(sheet@) == cols as int,
                pat@ == pattern@,
                pat@.len() > 0,
                forall|r2: int, c2: int|
                    0 <= r2 < rows as int && 0 <= c2 < cols as int ==> match (#[trigger] sheet@[r2]@[c2]).formula {
                        Some(f) => renderable(f),
                        None => true,
                    },
                state.search_pattern matches Some(p) && p@ == pattern@,
                state.search_forward == forward,
                state.current_match is None,
                state.mode == old(state).mode,
                state.edit_buffer == old(state).edit_buffer,
                state.cursor_row == old(state).cursor_row,
                state.cursor_col == old(state).cursor_col,
                state.row_offset == old(state).row_offset,
                state.col_offset == old(state).col_offset,
                forall|k: int|
                    0 <= k < state.search_matches@.len() ==> {
                        let m = #[trigger] state.search_matches@[k];
                        &&& m.0 < rows as int
                        &&& m.1 < cols as int
                        &&& has_sub(cell_text(sheet@, m.0 as int, m.1 as int), pat@)
                    },
                forall|r2: int, c2: int|
                    0 <= r2 < r && 0 <= c2 < cols as int && has_sub(
                        #[trigger] cell_text(sheet@, r2, c2),
                        pat@,
                    ) ==> state.search_matches@.contains((r2 as usize, c2 as usize)),
                forall|c2: int|
                    0 <= c2 < c && has_sub(#[trigger] cell_text(sheet@, r as int, c2), pat@)
                        ==> state.search_matches@.contains((r as usize, c2 as usize)),
                forall|k: int|
                    0 <= k < state.search_matches@.len() ==> row_major_before(
                        #[trigger] state.search_matches@[k],
                        (r, c),
                    ),
                forall|k1: int, k2: int|
                    0 <= k1 < k2 < state.search_matches@.len() ==> row_major_before(
                        #[trigger] state.search_matches@[k1],
                        #[trigger] state.search_matches@[k2],
                    ),
            decreases cols as int - c,
        {
            let mut text: Vec<char> = Vec::new();
            match &sheet[r][c].formula {
                Some(f) => {
                    crate::editor::push_formula_chars(f, &mut text);
                },
                None => {
                    crate::text::push_int_chars(sheet[r][c].val, &mut text);
                },
            }
            proof {
                assert(text@ == cell_text(sheet@, r as int, c as int));
            }
            let ghost pre = state.search_matches@;
            if contains_sub(&text, &pat) {
                state.search_matches.push((r, c));
                proof {
                    assert(state.search_matches@[pre.len() as int] == (r, c));
                    assert(forall|k: int|
                        0 <= k < pre.len() ==> #[trigger] state.search_matches@[k] == pre[k]);
                }
            }
            proof {
                assert forall|c2: int|
                    0 <= c2 < c + 1 && has_sub(
                        #[trigger] cell_text(sheet@, r as int, c2),
                        pat@,
                    ) implies state.search_matches@.contains((r as usize, c2 as usize)) by {
                    if c2 < c {
                        let k = choose|k: int|
                            0 <= k < pre.len() && pre[k] == (r as usize, c2 as usize);
                        assert(state.search_matches@[k] == (r as usize, c2 as usize));
                    }
                }
                assert forall|r2: int, c2: int|
                    0 <= r2 < r && 0 <= c2 < cols as int && has_sub(
                        #[trigger] cell_text(sheet@, r2, c2),
                        pat@,
                    ) implies state.search_matches@.contains((r2 as usize, c2 as usize)) by {
                    let k = choose|k: int|
                        0 <= k < pre.len() && pre[k] == (r2 as usize, c2 as usize);
                    assert(state.search_matches@[k] == (r2 as usize, c2 as usize));
                }
            }
            c = c + 1;
        }
        r = r + 1;
    }
    if state.search_matches.len() == 0 {
        proof {
            assert forall|r2: int, c2: int|
                0 <= r2 < rows as int && 0 <= c2 < cols as int implies !has_sub(
                #[trigger] cell_text(sheet@, r2, c2),
                pattern@,
            ) by {
                if has_sub(cell_text(sheet@, r2, c2), pattern@) {
                    assert(state.search_matches@.contains((r2 as usize, c2 as usize)));
                }
            }
        }
        let mut msg = String::from_str("Pattern not found: ");
        msg.append(pattern);
        return Err(msg);
    }
    proof {
        let m0 = state.search_matches@[0];
        assert(has_sub(cell_text(sheet@, m0.0 as int, m0.1 as int), pattern@));
    }
    find_next_match(state, forward);
    Ok(())
}


/// `s` with every non-overlapping occurrence of `pat` replaced by `rep`,
/// scanning left to right.
pub open spec fn replace_all(s: Seq<char>, pat: Seq<char>, rep: Seq<char>) -> Seq<char>
    decreases s.len(),
{
    if pat.len() == 0 || s.len() < pat.len() {
        s
    } else if s.subrange(0, pat.len() as int) == pat {
        rep + replace_all(s.skip(pat.len() as int), pat, rep)
    } else {
        seq![s[0]] + replace_all(s.drop_first(), pat, rep)
    }
}

/// `s` with its first occurrence of `pat`, if any, replaced by `rep`.
pub open spec fn replace_first(s: Seq<char>, pat: Seq<char>, rep: Seq<char>) -> Seq<char>
    decreases s.len(),
{
    if pat.len() == 0 || s.len() < pat.len() {
        s
    } else if s.subrange(0, pat.len() as int) == pat {
        rep + s.skip(pat.len() as int)
    } else {
        seq![s[0]] + replace_first(s.drop_first(), pat, rep)
    }
}

/// Whether two character vectors hold the same text.
fn eq_chars(a: &Vec<char>, b: &Vec<char>) -> (r: bool)
    ensures
        r == (a@ == b@),
{
    let n: usize = a.len();
    if n != b.len() {
        proof {
            assert(a@.len() != b@.len());
        }
        return false;
    }
    let mut i: usize = 0;
    while i < n
        invariant
            0 <= i <= n,
            n == a@.len(),
            n == b@.len(),
            forall|j: int| 0 <= j < i ==> a@[j] == #[trigger] b@[j],
        decreases n - i,
    {
        if char_at(a, i) != char_at(b, i) {
            proof {
                assert(a@[i as int] != b@[i as int]);
            }
            return false;
        }
        i = i + 1;
    }
    proof {
        assert(a@ =~= b@);
    }
    true
}

/// Whether `pat` stands at position `i` of `s`.
fn match_at(s: &Vec<char>, i: usize, pat: &Vec<char>) -> (r: bool)
    requires
        i + pat@.len() <= s@.len(),
    ensures
        r == (s@.subrange(i as int, i + pat@.len()) == pat@),
{
    let np: usize = pat.len();
    let ns: usize = s.len();
    let mut k: usize = 0;
    while k < np
        invariant
            0 <= k <= np,
            np == pat@.len(),
            ns == s@.len(),
            i + np <= ns,
            forall|m: int| 0 <= m < k ==> s@[i + m] == #[trigger] pat@[m],
        decreases np - k,
    {
        if char_at(s, i + k) != char_at(pat, k) {
            proof {
                assert(s@.subrange(i as int, i + pat@.len())[k as int] == s@[i + k as int]);
            }
            return false;
        }
        k = k + 1;
    }
    proof {
        assert(s@.subrange(i as int, i + pat@.len()) =~= pat@);
    }
    true
}

/// Replaces occurrences of `pat` in `s` by `rep`: all of them, or only the
/// first.
fn replace_chars(s: &Vec<char>, pat: &Vec<char>, rep: &Vec<char>, global: bool) -> (out: Vec<
    char,
>)
    requires
        pat@.len() >= 1,
    ensures
        global ==> out@ == replace_all(s@, pat@, rep@),
        !global ==> out@ == replace_first(s@, pat@, rep@),
{
    let n: usize = s.len();
    let np: usize = pat.len();
    let mut out: Vec<char> = Vec::new();
    let mut i: usize = 0;
    let mut done = false;
    proof {
        assert(s@.skip(0) =~= s@);
    }
    while i < n
        invariant
            0 <= i <= n,
            n == s@.len(),
            np == pat@.len(),
            np >= 1,
            global ==> out@ + replace_all(s@.skip(i as int), pat@, rep@) == replace_all(
                s@,
                pat@,
                rep@,
            ),
            !global && !done ==> out@ + replace_first(s@.skip(i as int), pat@, rep@)
                == replace_first(s@, pat@, rep@),
            !global && done ==> out@ + s@.skip(i as int) == replace_first(s@, pat@, rep@),
        decreases n - i,
    {
        let ghost tail = s@.skip(i as int);
        if (global || !done) && np <= n - i && match_at(s, i, pat) {
            proof {
                assert(tail.subrange(0, np as int) =~= s@.subrange(i as int, i + np));
                assert(tail.skip(np as int) =~= s@.skip(i + np));
            }
            let mut k: usize = 0;
            let ghost out0 = out@;
            while k < rep.len()
                invariant
                    0 <= k <= rep@.len(),
                    out@ == out0 + rep@.take(k as int),
                decreases rep@.len() - k,
            {
                out.push(char_at(rep, k));
                proof {
                    assert(rep@.take(k + 1) =~= rep@.take(k as int).push(rep@[k as int]));
                }
                k = k + 1;
            }
            proof {
                assert(rep@.take(rep@.len() as int) =~= rep@);
                assert(out@ =~= out0 + rep@);
            }
            i = i + np;
            done = true;
        } else {
            proof {
                if i + np <= n && (global || !done) {
                    assert(tail.subrange(0, np as int) =~= s@.subrange(i as int, i + np));
                }
                if tail.len() >= np {
                    assert(tail.drop_first() =~= s@.skip(i + 1));
                }
                assert(tail[0] == s@[i as int]);
            }
            out.push(char_at(s, i));
            i = i + 1;
            proof {
                assert(tail.skip(1) =~= s@.skip(i as int));
                if tail.len() < np {
                    assert(replace_all(tail, pat@, rep@) == tail);
                    assert(replace_first(tail, pat@, rep@) == tail);
                }
            }
        }
    }
    proof {
        assert(s@.skip(n as int) =~= Seq::<char>::empty());
        assert(replace_all(Seq::<char>::empty(), pat@, rep@) =~= Seq::<char>::empty());
        assert(replace_first(Seq::<char>::empty(), pat@, rep@) =~= Seq::<char>::empty());
        assert(out@ + Seq::<char>::empty() =~= out@);
    }
    out
}


/// The position of the first `stop` character at or after `from`, or the
/// length of `s`.
pub open spec fn find_pos(s: Seq<char>, from: int, stop: char) -> int
    decreases s.len() - from,
{
    if from < 0 || from >= s.len() {
        s.len() as int
    } else if s[from] == stop {
        from
    } else {
        find_pos(s, from + 1, stop)
    }
}

/// Bounds and characterization of `find_pos`.
proof fn lemma_find_pos(s: Seq<char>, from: int, stop: char)
    requires
        0 <= from <= s.len(),
    ensures
        from <= find_pos(s, from, stop) <= s.len(),
        forall|j: int| from <= j < find_pos(s, from, stop) ==> s[j] != stop,
        find_pos(s, from, stop) < s.len() ==> s[find_pos(s, from, stop)] == stop,
    decreases s.len() - from,
{
    if from < s.len() && s[from] != stop {
        lemma_find_pos(s, from + 1, stop);
    }
}

/// An index that looks like the first occurrence is `find_pos`.
proof fn lemma_find_pos_unique(s: Seq<char>, from: int, stop: char, f: int)
    requires
        0 <= from <= f <= s.len(),
        forall|j: int| from <= j < f ==> s[j] != stop,
        f < s.len() ==> s[f] == stop,
    ensures
        f == find_pos(s, from, stop),
{
    lemma_find_pos(s, from, stop);
    let r = find_pos(s, from, stop);
    if f < r {
        assert(s[f] != stop);
    } else if r < f {
        assert(s[r] != stop);
    }
}

/// Finds the first occurrence of `stop` at or after `from`.
fn find_from(v: &Vec<char>, from: usize, stop: char) -> (k: usize)
    requires
        from <= v@.len(),
    ensures
        from <= k <= v@.len(),
        k as int == find_pos(v@, from as int, stop),
        k < v@.len() ==> v@[k as int] == stop,
        forall|j: int| from <= j < k ==> v@[j] != stop,
{
    let n: usize = v.len();
    let mut k: usize = from;
    loop
        invariant
            from <= k <= n,
            n == v@.len(),
            forall|j: int| from <= j < k ==> #[trigger] v@[j] != stop,
        ensures
            from <= k <= n,
            forall|j: int| from <= j < k ==> #[trigger] v@[j] != stop,
            k < n ==> v@[k as int] == stop,
        decreases n - k,
    {
        if k >= n {
            break;
        }
        if char_at(v, k) == stop {
            break;
        }
        k = k + 1;
    }
    proof {
        lemma_find_pos_unique(v@, from as int, stop, k as int);
    }
    k
}

/// The index of the first slash of a substitution command.
pub open spec fn sr_slash1(cmd: Seq<char>) -> int {
    find_pos(cmd, 0, '/')
}

/// The index of the second slash of a substitution command.
pub open spec fn sr_slash2(cmd: Seq<char>) -> int {
    find_pos(cmd, sr_slash1(cmd) + 1, '/')
}

/// The index of the third slash of a substitution command, or its length.
pub open spec fn sr_slash3(cmd: Seq<char>) -> int {
    find_pos(cmd, sr_slash2(cmd) + 1, '/')
}

/// The command has at least two slashes, so a pattern and a replacement can
/// be read out of it.
pub open spec fn sr_parts_ok(cmd: Seq<char>) -> bool {
    sr_slash1(cmd) < cmd.len() && sr_slash2(cmd) < cmd.len()
}

/// The search pattern of a substitution command: the text between its first
/// two slashes.
pub open spec fn sr_pattern(cmd: Seq<char>) -> Seq<char> {
    cmd.subrange(sr_slash1(cmd) + 1, sr_slash2(cmd))
}

/// The replacement of a substitution command: the text between its second
/// and third slashes, or to its end.
pub open spec fn sr_replacement(cmd: Seq<char>) -> Seq<char> {
    cmd.subrange(sr_slash2(cmd) + 1, sr_slash3(cmd))
}

/// The command asks for a global substitution: a `g` stands in its fourth
/// part.
pub open spec fn sr_global(cmd: Seq<char>) -> bool {
    sr_slash3(cmd) < cmd.len() && exists|j: int|
        sr_slash3(cmd) < j < find_pos(cmd, sr_slash3(cmd) + 1, '/') && #[trigger] cmd[j] == 'g'
}

/// What the substitution makes of one formula's text.
pub open spec fn sr_new_text(f: Formula, cmd: Seq<char>) -> Seq<char> {
    if sr_global(cmd) {
        replace_all(render_formula(f), sr_pattern(cmd), sr_replacement(cmd))
    } else {
        replace_first(render_formula(f), sr_pattern(cmd), sr_replacement(cmd))
    }
}

/// The substitution rewrites this formula: its text holds the pattern, the
/// replacement actually changes it, and the changed text still parses.
pub open spec fn sr_changes(f: Formula, cmd: Seq<char>) -> bool {
    &&& has_sub(render_formula(f), sr_pattern(cmd))
    &&& sr_new_text(f, cmd) != render_formula(f)
    &&& crate::parser::spec_parse_ok(sr_new_text(f, cmd))
}

/// How the substitution leaves one cell: a rewritten formula where it
/// applies, the cell untouched everywhere else.
pub open spec fn sr_cell_ok(oldc: cell, newc: cell, cmd: Seq<char>) -> bool {
    match oldc.formula {
        Some(f) => {
            if sr_changes(f, cmd) {
                &&& newc.formula matches Some(g) && crate::parser::spec_parse_result(
                    sr_new_text(f, cmd),
                    g,
                )
                &&& newc.val == oldc.val
                &&& newc.err == oldc.err
            } else {
                newc == oldc
            }
        },
        None => newc == oldc,
    }
}

/// Applies a substitution command of the form `:%s/pattern/replacement/[g]`
/// to every formula of the sheet: each formula whose text holds the pattern
/// is rewritten and reparsed, and left alone when the replacement changes
/// nothing or no longer parses.  Fails without touching the sheet on a
/// malformed command, an empty pattern, or when no formula was rewritten.
pub fn search_and_replace_vim(
    state: &mut EditorState,
    sheet: &mut Vec<Vec<cell>>,
    command: &str,
    rows: i32,
    cols: i32,
) -> (out: Result<(), String>)
    requires
        rect_sheet(old(sheet)@),
        0 <= rows,
        0 <= cols,
        old(sheet)@.len() == rows as int,
        spec_cols(old(sheet)@) == cols as int,
        rows as int * cols as int <= usize::MAX,
        forall|r: int, c: int|
            0 <= r < rows as int && 0 <= c < cols as int ==> match (
            #[trigger] old(sheet)@[r]@[c]).formula {
                Some(f) => renderable(f),
                None => true,
            },
    ensures
        out is Err <==> !sr_parts_ok(command@) || sr_pattern(command@).len() == 0 || (
        forall|r: int, c: int|
            0 <= r < rows as int && 0 <= c < cols as int ==> match (
            #[trigger] old(sheet)@[r]@[c]).formula {
                Some(f) => !sr_changes(f, command@),
                None => true,
            }),
        out is Err ==> final(sheet)@ == old(sheet)@,
        final(sheet)@.len() == old(sheet)@.len(),
        forall|r: int|
            0 <= r < rows as int ==> (#[trigger] final(sheet)@[r])@.len() == old(
                sheet,
            )@[r]@.len(),
        out is Ok ==> forall|r: int, c: int|
            0 <= r < rows as int && 0 <= c < cols as int ==> sr_cell_ok(
                old(sheet)@[r]@[c],
                #[trigger] final(sheet)@[r]@[c],
                command@,
            ),
        *final(state) == (EditorState { status_message: final(state).status_message, ..*old(
            state,
        ) }),
{
    let cmd = crate::text::str_to_chars(command);
    let ncmd: usize = cmd.len();
    let s1 = find_from(&cmd, 0, '/');
    if s1 >= ncmd {
        return Err(
            String::from_str("Invalid search and replace format. Use :%s/pattern/replacement/[g]"),
        );
    }
    let s2 = find_from(&cmd, s1 + 1, '/');
    if s2 >= ncmd {
        return Err(
            String::from_str("Invalid search and replace format. Use :%s/pattern/replacement/[g]"),
        );
    }
    let s3 = find_from(&cmd, s2 + 1, '/');
    let pat = crate::text::subvec(&cmd, s1 + 1, s2);
    let rep = crate::text::subvec(&cmd, s2 + 1, s3);
    proof {
        assert(pat@ =~= sr_pattern(command@));
        assert(rep@ =~= sr_replacement(command@));
    }
    if pat.len() == 0 {
        return Err(String::from_str("Empty search pattern"));
    }
    let global = if s3 < ncmd {
        let s4 = find_from(&cmd, s3 + 1, '/');
        let mut has_g = false;
        let mut j: usize = s3 + 1;
        while j < s4
            invariant
                s3 + 1 <= j <= s4,
                s4 <= ncmd,
                ncmd == cmd@.len(),
                has_g == exists|m: int| s3 < m < j && #[trigger] cmd@[m] == 'g',
            decreases s4 - j,
        {
            if char_at(&cmd, j) == 'g' {
                proof {
                    assert(cmd@[j as int] == 'g');
                }
                has_g = true;
            }
            j = j + 1;
        }
        has_g
    } else {
        false
    };
    proof {
        assert(global == sr_global(command@));
    }
    let mut count: usize = 0;
    let ghost s0 = sheet@;
    let mut r: usize = 0;
    while r < rows as usize
        invariant
            0 <= r <= rows as int,
            rect_sheet(s0),
            s0.len() == rows as int,
            spec_cols(s0) == cols as int,
            0 <= cols,
            rows as int * cols as int <= usize::MAX,
            sheet@.len() == s0.len(),
            forall|r2: int|
                0 <= r2 < rows as int ==> (#[trigger] sheet@[r2])@.len() == s0[r2]@.len(),
            forall|r2: int, c2: int|
                0 <= r2 < rows as int && 0 <= c2 < cols as int ==> match (
                #[trigger] s0[r2]@[c2]).formula {
                    Some(f) => renderable(f),
                    None => true,
                },
            sr_parts_ok(command@),
            pat@ == sr_pattern(command@),
            rep@ == sr_replacement(command@),
            pat@.len() >= 1,
            global == sr_global(command@),
            forall|r2: int, c2: int|
                0 <= r2 < r && 0 <= c2 < cols as int ==> sr_cell_ok(
                    s0[r2]@[c2],
                    #[trigger] sheet@[r2]@[c2],
                    command@,
                ),
            forall|r2: int, c2: int|
                r <= r2 < rows as int && 0 <= c2 < cols as int ==> (#[trigger] sheet@[r2]@[c2])
                    == s0[r2]@[c2],
            count <= r * (cols as int),
            (count > 0) == exists|r2: int, c2: int|
                0 <= r2 < r && 0 <= c2 < cols as int && ((#[trigger] s0[r2]@[c2]).formula
                    matches Some(f) && sr_changes(f, command@)),
            (count == 0) ==> sheet@ =~= s0,
        decreases rows as int - r,
    {
        let mut c: usize = 0;
        while c < cols as usize
            invariant
                0 <= r < rows as int,
                0 <= c <= cols as int,
                rect_sheet(s0),
                s0.len() == rows as int,
                spec_cols(s0) == cols as int,
                rows as int * cols as int <= usize::MAX,
                sheet@.len() == s0.len(),
                forall|r2: int|
                    0 <= r2 < rows as int ==> (#[trigger] sheet@[r2])@.len() == s0[r2]@.len(),
                forall|r2: int, c2: int|
                    0 <= r2 < rows as int && 0 <= c2 < cols as int ==> match (
                    #[trigger] s0[r2]@[c2]).formula {
                        Some(f) => renderable(f),
                        None => true,
                    },
                sr_parts_ok(command@),
                pat@ == sr_pattern(command@),
                rep@ == sr_replacement(command@),
                pat@.len() >= 1,
                global == sr_global(command@),
                forall|r2: int, c2: int|
                    0 <= r2 < r && 0 <= c2 < cols as int ==> sr_cell_ok(
                        s0[r2]@[c2],
                        #[trigger] sheet@[r2]@[c2],
                        command@,
                    ),
                forall|c2: int|
                    0 <= c2 < c ==> sr_cell_ok(
                        s0[r as int]@[c2],
                        #[trigger] sheet@[r as int]@[c2],
                        command@,
                    ),
                forall|r2: int, c2: int|
                    0 <= r2 < rows as int && 0 <= c2 < cols as int && (r2 > r || (r2 == r && c2
                        >= c)) ==> (#[trigger] sheet@[r2]@[c2]) == s0[r2]@[c2],
                count <= r * (cols as int) + c,
                (count > 0) == exists|r2: int, c2: int|
                    0 <= r2 < rows as int && 0 <= c2 < cols as int && (r2 < r || (r2 == r && c2
                        < c)) && ((#[trigger] s0[r2]@[c2]).formula matches Some(f) && sr_changes(
                        f,
                        command@,
                    )),
                (count == 0) ==> sheet@ =~= s0,
            decreases cols as int - c,
        {
            let ghost pre_sheet = sheet@;
            let mut rewrote = false;
            let has_formula = sheet[r][c].formula.is_some();
            if has_formula {
                let mut text: Vec<char> = Vec::new();
                match &sheet[r][c].formula {
                    Some(f) => {
                        crate::editor::push_formula_chars(f, &mut text);
                    },
                    None => {
                        proof {
                            assert(false);
                        }
                    },
                }
                if contains_sub(&text, &pat) {
                    let new_text = replace_chars(&text, &pat, &rep, global);
                    if !eq_chars(&new_text, &text) {
                        let new_s = crate::text::chars_to_string(&new_text);
                        match crate::parser::parse_formula(new_s.as_str()) {
                            Ok(g) => {
                                let rowv = &mut sheet[r];
                                let cl = &mut rowv[c];
                                cl.formula = Some(g);
                                rewrote = true;
                                proof {
                                    assert(count < rows as int * cols as int) by (nonlinear_arith)
                                        requires
                                            count <= r * (cols as int) + c,
                                            0 <= r < rows as int,
                                            0 <= c < cols as int,
                                    ;
                                }
                                count = count + 1;
                            },
                            Err(()) => {},
                        }
                    }
                }
            }
            proof {
                let ri = r as int;
                let ci = c as int;
                assert(sr_cell_ok(s0[ri]@[ci], sheet@[ri]@[ci], command@));
                assert(forall|r2: int, c2: int|
                    0 <= r2 < rows as int && 0 <= c2 < cols as int && !(r2 == ri && c2 == ci)
                        ==> (#[trigger] sheet@[r2]@[c2]) == pre_sheet[r2]@[c2]);
                if rewrote {
                    assert(count > 0);
                } else {
                    assert(sheet@ =~= pre_sheet);
                }
            }
            c = c + 1;
        }
        proof {
            assert(r * (cols as int) + cols as int == (r + 1) * (cols as int))
                by (nonlinear_arith);
        }
        r = r + 1;
    }
    if count == 0 {
        let mut msg = String::from_str("Pattern not found: ");
        let ps = crate::text::chars_to_string(&pat);
        msg.append(ps.as_str());
        return Err(msg);
    }
    let mut msg = String::from_str("Replaced ");
    let mut digits: Vec<char> = Vec::new();
    crate::text::push_dec_u64(count as u64, &mut digits);
    let ds = crate::text::chars_to_string(&digits);
    msg.append(ds.as_str());
    msg.append(" occurrences");
    state.status_message = msg;
    Ok(())
}

} // verus!
