//! Characters, decimal numerals, and the bridge between `String` and
//! `Vec<char>` that the parser and the renderer work on.

use vstd::prelude::*;

verus! {

/// An ASCII decimal digit.
pub open spec fn is_digit_char(c: char) -> bool {
    48 <= c as int <= 57
}

/// The numeric value of a decimal digit character.
pub open spec fn digit_val(c: char) -> int {
    c as int - 48
}

/// The digit character for a value in `0..=9`.
pub open spec fn digit_char(d: int) -> char {
    ((48 + d) as u8) as char
}

/// Every character of `s` is a decimal digit.
pub open spec fn all_digits(s: Seq<char>) -> bool {
    forall|i: int| 0 <= i < s.len() ==> is_digit_char(#[trigger] s[i])
}

/// The value of a digit string read as a decimal numeral.
pub open spec fn dec_val(s: Seq<char>) -> int
    decreases s.len(),
{
    if s.len() == 0 {
        0
    } else {
        dec_val(s.drop_last()) * 10 + digit_val(s.last())
    }
}

/// The decimal numeral of a non-negative number, without leading zeros.
pub open spec fn dec_str(n: int) -> Seq<char>
    decreases n,
{
    if n < 10 {
        seq![digit_char(if n < 0 { 0 } else { n })]
    } else {
        dec_str(n / 10).push(digit_char(n % 10))
    }
}

/// The decimal numeral of an integer: a minus sign for negative numbers,
/// then the numeral of the absolute value.
pub open spec fn int_str(n: int) -> Seq<char> {
    if n < 0 {
        seq!['-'] + dec_str(-n)
    } else {
        dec_str(n)
    }
}

/// A digit string has a non-negative value.
pub proof fn lemma_dec_val_nonneg(s: Seq<char>)
    requires
        all_digits(s),
    ensures
        dec_val(s) >= 0,
    decreases s.len(),
{
    if s.len() > 0 {
        lemma_dec_val_nonneg(s.drop_last());
    }
}

/// Reading more digits never decreases the value of a digit string.
pub proof fn lemma_dec_val_prefix(s: Seq<char>, i: int)
    requires
        all_digits(s),
        0 <= i <= s.len(),
    ensures
        dec_val(s.take(i)) <= dec_val(s),
    decreases s.len() - i,
{
    if i < s.len() {
        lemma_dec_val_prefix(s, i + 1);
        let t = s.take(i + 1);
        assert(t.drop_last() =~= s.take(i));
        lemma_dec_val_nonneg(s.take(i));
    } else {
        assert(s.take(i) =~= s);
    }
}

/// The numeral of `n` is made of digits and reads back as `n`.
pub proof fn lemma_dec_str_val(n: int)
    requires
        n >= 0,
    ensures
        all_digits(dec_str(n)),
        dec_val(dec_str(n)) == n,
        dec_str(n).len() >= 1,
    decreases n,
{
    if n < 10 {
        let s = dec_str(n);
        assert(s =~= seq![digit_char(n)]);
        assert(s.drop_last() =~= Seq::<char>::empty());
        assert(dec_val(s.drop_last()) == 0);
        assert(digit_val(digit_char(n)) == n);
    } else {
        lemma_dec_str_val(n / 10);
        let s = dec_str(n / 10).push(digit_char(n % 10));
        assert(s.drop_last() =~= dec_str(n / 10));
        assert(forall|i: int|
            0 <= i < s.len() ==> is_digit_char(#[trigger] s[i]) || i == s.len() - 1);
    }
}

/// A well-formed integer literal: an optional sign, then at least one digit,
/// with a value that fits in `i32`.
pub open spec fn int_literal_ok(s: Seq<char>) -> bool {
    let body = if s.len() > 0 && (s[0] == '+' || s[0] == '-') {
        s.drop_first()
    } else {
        s
    };
    &&& body.len() > 0
    &&& all_digits(body)
    &&& if s.len() > 0 && s[0] == '-' {
        dec_val(body) <= 0x8000_0000
    } else {
        dec_val(body) <= 0x7fff_ffff
    }
}

/// The value of a well-formed integer literal.
pub open spec fn int_literal_val(s: Seq<char>) -> int {
    if s.len() > 0 && s[0] == '-' {
        -dec_val(s.drop_first())
    } else if s.len() > 0 && s[0] == '+' {
        dec_val(s.drop_first())
    } else {
        dec_val(s)
    }
}

/// What reading a character string as an `i32` yields: the value when the
/// string is a well-formed literal in range, nothing otherwise.
pub open spec fn spec_parse_int(s: Seq<char>) -> Option<i32> {
    if int_literal_ok(s) {
        Some(int_literal_val(s) as i32)
    } else {
        None
    }
}

/// Reads one character of the vector.
pub fn char_at(v: &Vec<char>, i: usize) -> (c: char)
    requires
        i < v@.len(),
    ensures
        c == v@[i as int],
{
    v[i]
}

/// Reads a whole character string as a decimal `i32`: an optional `+` or `-`
/// sign, then one or more digits; fails on anything else or on a value
/// outside the `i32` range.
pub fn parse_int_chars(v: &Vec<char>) -> (r: Option<i32>)
    ensures
        r == spec_parse_int(v@),
{
    let n: usize = v.len();
    if n == 0 {
        return None;
    }
    let c0: char = char_at(v, 0);
    let neg: bool = c0 == '-';
    let start: usize = if c0 == '-' || c0 == '+' {
        1
    } else {
        0
    };
    let ghost body = if start == 1 {
        v@.drop_first()
    } else {
        v@
    };
    if n == start {
        return None;
    }
    let mut acc: i64 = 0;
    let mut i: usize = start;
    while i < n
        invariant
            start <= i <= n,
            n == v@.len(),
            0 <= start <= 1,
            start < n,
            (start == 1) == (v@[0] == '+' || v@[0] == '-'),
            neg == (v@[0] == '-'),
            body == if start == 1 {
                v@.drop_first()
            } else {
                v@
            },
            all_digits(body.take(i - start)),
            acc == dec_val(body.take(i - start)),
            0 <= acc <= 0x8000_0000,
        decreases n - i,
    {
        let c: char = char_at(v, i);
        let cv: u32 = c as u32;
        proof {
            assert(body[i - start] == v@[i as int]);
            assert(c as int == cv as int);
        }
        if cv < 48 || cv > 57 {
            assert(!is_digit_char(v@[i as int]));
            return None;
        }
        let d: i64 = (cv - 48) as i64;
        proof {
            let j = i - start;
            assert(body.take(j + 1).drop_last() =~= body.take(j));
            assert(body.take(j + 1).last() == body[j]);
            assert(forall|k: int|
                0 <= k < j + 1 ==> is_digit_char(#[trigger] body.take(j + 1)[k]) || k == j);
        }
        acc = acc * 10 + d;
        i = i + 1;
        if acc > 0x8000_0000 {
            proof {
                lemma_dec_val_prefix_holds(body, i - start, acc as int);
            }
            return None;
        }
    }
    proof {
        assert(body.take(n - start) =~= body);
    }
    if neg {
        proof {
            assert(v@[0] == '-');
        }
        if acc == 0x8000_0000 {
            return Some(i32::MIN);
        }
        return Some(-(acc as i32));
    }
    if acc > 0x7fff_ffff {
        return None;
    }
    Some(acc as i32)
}

/// A digit string with a prefix already past the bound is itself past it.
proof fn lemma_dec_val_prefix_holds(body: Seq<char>, i: int, bound: int)
    requires
        0 <= i <= body.len(),
        all_digits(body.take(i)),
        dec_val(body.take(i)) == bound,
        bound > 0x8000_0000,
    ensures
        all_digits(body) ==> dec_val(body) > 0x8000_0000,
{
    if all_digits(body) {
        lemma_dec_val_prefix(body, i);
    }
}

/// Copies the characters `v[from..to]` into a fresh vector.
pub fn subvec(v: &Vec<char>, from: usize, to: usize) -> (out: Vec<char>)
    requires
        0 <= from <= to <= v@.len(),
    ensures
        out@ == v@.subrange(from as int, to as int),
{
    let mut out: Vec<char> = Vec::new();
    let mut i: usize = from;
    while i < to
        invariant
            from <= i <= to <= v@.len(),
            out@ == v@.subrange(from as int, i as int),
        decreases to - i,
    {
        out.push(v[i]);
        proof {
            assert(v@.subrange(from as int, i + 1) =~= v@.subrange(from as int, i as int).push(
                v@[i as int],
            ));
        }
        i = i + 1;
    }
    out
}

/// Relies on `String::push`: it appends the given character to the end of
/// the string.
#[verifier::external_body]
pub(crate) fn push_char(s: &mut String, c: char)
    ensures
        final(s)@ == old(s)@.push(c),
{
    s.push(c);
}

/// Builds the string holding exactly the given characters.
pub fn chars_to_string(v: &Vec<char>) -> (s: String)
    ensures
        s@ == v@,
{
    let mut s = String::new();
    let mut i: usize = 0;
    while i < v.len()
        invariant
            0 <= i <= v@.len(),
            s@ == v@.take(i as int),
        decreases v@.len() - i,
    {
        push_char(&mut s, v[i]);
        proof {
            assert(v@.take(i + 1) =~= v@.take(i as int).push(v@[i as int]));
        }
        i = i + 1;
    }
    proof {
        assert(v@.take(v@.len() as int) =~= v@);
    }
    s
}

/// Collects the characters of a string slice into a vector.
pub fn str_to_chars(s: &str) -> (v: Vec<char>)
    ensures
        v@ == s@,
{
    let n: usize = s.unicode_len();
    let mut v: Vec<char> = Vec::new();
    let mut i: usize = 0;
    while i < n
        invariant
            0 <= i <= n,
            n == s@.len(),
            v@ == s@.take(i as int),
        decreases n - i,
    {
        v.push(s.get_char(i));
        proof {
            assert(s@.take(i + 1) =~= s@.take(i as int).push(s@[i as int]));
        }
        i = i + 1;
    }
    proof {
        assert(s@.take(n as int) =~= s@);
    }
    v
}

/// Appends the decimal numeral of a non-negative 64-bit value.
pub(crate) fn push_dec_u64(n: u64, out: &mut Vec<char>)
    ensures
        final(out)@ == old(out)@ + dec_str(n as int),
    decreases n,
{
    if n < 10 {
        out.push(((48 + n) as u8) as char);
    } else {
        push_dec_u64(n / 10, out);
        out.push(((48 + n % 10) as u8) as char);
    }
}

/// Appends the decimal numeral of an `i32`, sign included.
pub fn push_int_chars(n: i32, out: &mut Vec<char>)
    ensures
        final(out)@ == old(out)@ + int_str(n as int),
{
    if n < 0 {
        out.push('-');
        let m: u64 = (-(n as i64)) as u64;
        push_dec_u64(m, out);
        proof {
            assert(out@ =~= old(out)@ + int_str(n as int));
        }
    } else {
        push_dec_u64(n as u64, out);
    }
}

} // verus!
