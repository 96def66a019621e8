//! Low-level text scanning: whitespace, decimal digit runs and quoted
//! literals, as mathematical functions over character sequences.

use vstd::prelude::*;
use crate::format::ParseError;

verus! {

/// Whitespace that the format parser skips between tokens.
pub open spec fn is_format_ws(c: char) -> bool {
    c == ' ' || c == '\t' || c == '\r' || c == '\n'
}

/// Decimal digit.
pub open spec fn is_dec_digit(c: char) -> bool {
    '0' <= c && c <= '9'
}

/// Numeric value of a decimal digit.
pub open spec fn digit_val(c: char) -> nat
    recommends
        is_dec_digit(c),
{
    (c as nat - '0' as nat) as nat
}

pub fn exec_is_format_ws(c: char) -> (r: bool)
    ensures
        r == is_format_ws(c),
{
    c == ' ' || c == '\t' || c == '\r' || c == '\n'
}

pub fn exec_is_dec_digit(c: char) -> (r: bool)
    ensures
        r == is_dec_digit(c),
{
    '0' <= c && c <= '9'
}

/// First index at or after `i` that does not hold format whitespace.
pub open spec fn skip_ws(s: Seq<char>, i: int) -> int
    decreases s.len() - i,
{
    if 0 <= i < s.len() && is_format_ws(s[i]) {
        skip_ws(s, i + 1)
    } else {
        i
    }
}

/// `skip_ws` stays between its start and the end of the input.
pub broadcast proof fn lemma_skip_ws_bounds(s: Seq<char>, i: int)
    requires
        0 <= i <= s.len(),
    ensures
        i <= #[trigger] skip_ws(s, i) <= s.len(),
    decreases s.len() - i,
{
    if i < s.len() && is_format_ws(s[i]) {
        lemma_skip_ws_bounds(s, i + 1);
    }
}

/// First index at or after `i` that does not hold a decimal digit.
pub open spec fn digits_end(s: Seq<char>, i: int) -> int
    decreases s.len() - i,
{
    if 0 <= i < s.len() && is_dec_digit(s[i]) {
        digits_end(s, i + 1)
    } else {
        i
    }
}

/// `digits_end` stays between its start and the end of the input.
pub broadcast proof fn lemma_digits_end_bounds(s: Seq<char>, i: int)
    requires
        0 <= i <= s.len(),
    ensures
        i <= #[trigger] digits_end(s, i) <= s.len(),
    decreases s.len() - i,
{
    if i < s.len() && is_dec_digit(s[i]) {
        lemma_digits_end_bounds(s, i + 1);
    }
}

/// Value of the decimal digit run `s[i..j]`, most significant first.
pub open spec fn digits_val(s: Seq<char>, i: int, j: int) -> nat
    decreases j - i,
{
    if j <= i {
        0
    } else {
        digits_val(s, i, j - 1) * 10 + digit_val(s[j - 1])
    }
}

/// Reading an optional unsigned decimal number: `None` when no digit is
/// there, the value when it fits, `NumberTooBig` located at the first digit
/// when it does not.
pub open spec fn sp_digits(s: Seq<char>, i: int) -> Result<(Option<usize>, int), ParseError> {
    let e = digits_end(s, i);
    if e == i {
        Ok((None, i))
    } else if digits_val(s, i, e) > usize::MAX {
        Err(ParseError::NumberTooBig(i as usize))
    } else {
        Ok((Some(digits_val(s, i, e) as usize), e))
    }
}

/// The result of `sp_digits` lies between its start and the end of input.
pub broadcast proof fn lemma_sp_digits_bounds(s: Seq<char>, i: int)
    requires
        0 <= i <= s.len(),
    ensures
        (#[trigger] sp_digits(s, i)) matches Ok((w, j)) ==> i <= j <= s.len() && (w is Some ==> i
            < j),
{
    lemma_digits_end_bounds(s, i);
}

/// A width that was read is never zero.
pub proof fn lemma_opt_width_props(s: Seq<char>, i: int)
    ensures
        sp_opt_width(s, i) matches Ok((w, j)) ==> (w matches Some(ww) ==> ww >= 1),
{
}

/// A width that was read is never zero, and the minimum digit count comes
/// only with a width.
pub proof fn lemma_int_format_props(s: Seq<char>, i: int)
    ensures
        sp_int_format(s, i) matches Ok((wd, j)) ==> (wd.0 matches Some(ww) ==> ww >= 1) && (wd.1
            is Some ==> wd.0 is Some),
{
}

/// The optional parts of a real descriptor come in order, and the widths
/// that were read are never zero.
pub proof fn lemma_real_format_props(s: Seq<char>, i: int)
    ensures
        sp_real_format(s, i) matches Ok((wde, j)) ==> (wde.0 matches Some(ww) ==> ww >= 1) && (
        wde.1 is Some ==> wde.0 is Some) && (wde.2 is Some ==> wde.1 is Some) && (wde.2
            matches Some(e) ==> e >= 1),
{
}

/// A quoted run with its delimiter `e` doubled as an escape: the content up
/// to the closing delimiter, or `UnexpectedEOF` when the input ends first.
pub open spec fn sp_quoted(s: Seq<char>, i: int, e: char) -> Result<(Seq<char>, int), ParseError>
    decreases s.len() - i,
{
    if i < 0 || i >= s.len() {
        Err(ParseError::UnexpectedEOF(s.len() as usize))
    } else if s[i] == e {
        if i + 1 < s.len() && s[i + 1] == e {
            match sp_quoted(s, i + 2, e) {
                Ok((t, j)) => Ok((seq![e] + t, j)),
                Err(x) => Err(x),
            }
        } else {
            Ok((Seq::empty(), i + 1))
        }
    } else {
        match sp_quoted(s, i + 1, e) {
            Ok((t, j)) => Ok((seq![s[i]] + t, j)),
            Err(x) => Err(x),
        }
    }
}

/// The position just past the current record: after the first `\n` at or
/// after `i`, or the end of the input.
pub open spec fn line_end(s: Seq<char>, i: int) -> int
    decreases s.len() - i,
{
    if 0 <= i < s.len() {
        if s[i] == '\n' {
            i + 1
        } else {
            line_end(s, i + 1)
        }
    } else {
        i
    }
}

/// A record read from within the input is never empty and stays within it.
pub broadcast proof fn lemma_line_end_bounds(s: Seq<char>, i: int)
    requires
        0 <= i <= s.len(),
    ensures
        i <= #[trigger] line_end(s, i) <= s.len(),
        i < s.len() ==> i < line_end(s, i),
    decreases s.len() - i,
{
    if 0 <= i < s.len() && s[i] != '\n' {
        lemma_line_end_bounds(s, i + 1);
    }
}

/// First index at or after `i` that ends a list-directed field: whitespace
/// or a comma.
pub open spec fn field_end(s: Seq<char>, i: int) -> int
    decreases s.len() - i,
{
    if 0 <= i < s.len() && !(is_format_ws(s[i]) || s[i] == ',') {
        field_end(s, i + 1)
    } else {
        i
    }
}

/// `field_end` stays between its start and the end of the input.
pub broadcast proof fn lemma_field_end_bounds(s: Seq<char>, i: int)
    requires
        0 <= i <= s.len(),
    ensures
        i <= #[trigger] field_end(s, i) <= s.len(),
    decreases s.len() - i,
{
    if 0 <= i < s.len() && !(is_format_ws(s[i]) || s[i] == ',') {
        lemma_field_end_bounds(s, i + 1);
    }
}

/// The position of the record terminator in a buffered line: the first
/// `\r` or `\n` at or after `i`, or the end of the line.
pub open spec fn term_pos(s: Seq<char>, i: int) -> int
    decreases s.len() - i,
{
    if 0 <= i < s.len() {
        if s[i] == '\r' || s[i] == '\n' {
            i
        } else {
            term_pos(s, i + 1)
        }
    } else {
        i
    }
}

/// The record terminator lies between the start and the end of the line.
pub broadcast proof fn lemma_term_pos_bounds(s: Seq<char>, i: int)
    requires
        0 <= i <= s.len(),
    ensures
        i <= #[trigger] term_pos(s, i) <= s.len(),
    decreases s.len() - i,
{
    if 0 <= i < s.len() && !(s[i] == '\r' || s[i] == '\n') {
        lemma_term_pos_bounds(s, i + 1);
    }
}

/// The characters of a field with the whitespace taken out.
pub open spec fn strip_ws(s: Seq<char>) -> Seq<char>
    decreases s.len(),
{
    if s.len() == 0 {
        Seq::empty()
    } else if is_format_ws(s[0]) {
        strip_ws(s.drop_first())
    } else {
        seq![s[0]] + strip_ws(s.drop_first())
    }
}

/// An optionally signed run of decimal digits: the sign flag and the
/// magnitude, or nothing when the text is not exactly that shape.
pub open spec fn sp_signed_int(s: Seq<char>) -> Option<(bool, nat)> {
    if s.len() == 0 {
        None
    } else {
        let neg = s[0] == '-';
        let digs = if s[0] == '-' || s[0] == '+' {
            s.drop_first()
        } else {
            s
        };
        if digs.len() > 0 && digits_end(digs, 0) == digs.len() {
            Some((neg, digits_val(digs, 0, digs.len() as int)))
        } else {
            None
        }
    }
}

/// A negative scale prefix, read just after its `-` sign at position `j`:
/// digits, whitespace, then the letter `P`, giving the negated value and
/// the position after the letter.
pub open spec fn sp_neg_scale(s: Seq<char>, j: int) -> Result<(isize, int), ParseError> {
    match sp_digits(s, j + 1) {
        Err(x) => Err(x),
        Ok((None, k)) => Err(ParseError::ExpectedNumber(k as usize)),
        Ok((Some(x), k)) => if x > isize::MAX as usize {
            Err(ParseError::NumberTooBig((j + 1) as usize))
        } else {
            let k2 = skip_ws(s, k);
            if k2 < s.len() && (s[k2] == 'P' || s[k2] == 'p') {
                Ok(((-(x as int)) as isize, k2 + 1))
            } else if k2 < s.len() {
                Err(ParseError::ExpectedScaleControl((k2 + 1) as usize))
            } else {
                Err(ParseError::ExpectedScaleControl(k2 as usize))
            }
        },
    }
}

/// `sp_neg_scale` ends past the sign and within the input.
pub broadcast proof fn lemma_neg_scale_bounds(s: Seq<char>, j: int)
    requires
        0 <= j < s.len(),
    ensures
        (#[trigger] sp_neg_scale(s, j)) matches Ok((v, t)) ==> j + 1 <= t <= s.len(),
{
    lemma_digits_end_bounds(s, j + 1);
    match sp_digits(s, j + 1) {
        Ok((w, k)) => {
            lemma_skip_ws_bounds(s, k);
        },
        Err(_) => {},
    }
}

/// The optional width after `L` or `A`: whitespace, digits, zero rejected.
pub open spec fn sp_opt_width(s: Seq<char>, i: int) -> Result<(Option<usize>, int), ParseError> {
    let j = skip_ws(s, i);
    match sp_digits(s, j) {
        Ok((w, k)) => if w == Some(0usize) {
            Err(ParseError::ExpectedNonZero(k as usize))
        } else {
            Ok((w, k))
        },
        Err(x) => Err(x),
    }
}

/// `sp_opt_width` stays within the input.
pub broadcast proof fn lemma_opt_width_bounds(s: Seq<char>, i: int)
    requires
        0 <= i <= s.len(),
    ensures
        (#[trigger] sp_opt_width(s, i)) matches Ok((w, j)) ==> i <= j <= s.len(),
{
    lemma_skip_ws_bounds(s, i);
    lemma_digits_end_bounds(s, skip_ws(s, i));
}

/// The `w` / `w.m` shape after an integer letter: an optional nonzero
/// width, then an optional minimum digit count after a dot.
pub open spec fn sp_int_format(s: Seq<char>, i: int) -> Result<
    ((Option<usize>, Option<usize>), int),
    ParseError,
> {
    let j = skip_ws(s, i);
    match sp_digits(s, j) {
        Err(x) => Err(x),
        Ok((w, k)) => if w == Some(0usize) {
            Err(ParseError::ExpectedNonZero(k as usize))
        } else if w is Some && k < s.len() && s[k] == '.' {
            let k2 = skip_ws(s, k + 1);
            match sp_digits(s, k2) {
                Err(x) => Err(x),
                Ok((d, m)) => if d is None {
                    Err(ParseError::ExpectedNumber(m as usize))
                } else {
                    Ok(((w, d), m))
                },
            }
        } else {
            Ok(((w, None), k))
        },
    }
}

/// `sp_int_format` stays within the input.
pub broadcast proof fn lemma_int_format_bounds(s: Seq<char>, i: int)
    requires
        0 <= i <= s.len(),
    ensures
        (#[trigger] sp_int_format(s, i)) matches Ok((wd, j)) ==> i <= j <= s.len(),
{
    lemma_skip_ws_bounds(s, i);
    let j = skip_ws(s, i);
    lemma_digits_end_bounds(s, j);
    match sp_digits(s, j) {
        Ok((w, k)) => {
            if w is Some && k < s.len() && s[k] == '.' {
                lemma_skip_ws_bounds(s, k + 1);
                lemma_digits_end_bounds(s, skip_ws(s, k + 1));
            }
        },
        Err(_) => {},
    }
}

/// The `w` / `w.d` / `w.dEe` shape after a real letter.
pub open spec fn sp_real_format(s: Seq<char>, i: int) -> Result<
    ((Option<usize>, Option<usize>, Option<usize>), int),
    ParseError,
> {
    let j = skip_ws(s, i);
    match sp_digits(s, j) {
        Err(x) => Err(x),
        Ok((w, k)) => if w == Some(0usize) {
            Err(ParseError::ExpectedNonZero(k as usize))
        } else if w is Some && k < s.len() && s[k] == '.' {
            let k2 = skip_ws(s, k + 1);
            match sp_digits(s, k2) {
                Err(x) => Err(x),
                Ok((d, m)) => if d is None {
                    Err(ParseError::ExpectedNumber(m as usize))
                } else if m < s.len() && (s[m] == '.' || s[m] == 'e' || s[m] == 'E') {
                    let m2 = skip_ws(s, m + 1);
                    match sp_digits(s, m2) {
                        Err(x) => Err(x),
                        Ok((ex, q)) => if ex == Some(0usize) {
                            Err(ParseError::ExpectedNonZero(q as usize))
                        } else if ex is None {
                            Err(ParseError::ExpectedNumber(q as usize))
                        } else {
                            Ok(((w, d, ex), q))
                        },
                    }
                } else {
                    Ok(((w, d, None), m))
                },
            }
        } else {
            Ok(((w, None, None), k))
        },
    }
}

/// `sp_real_format` stays within the input.
pub broadcast proof fn lemma_real_format_bounds(s: Seq<char>, i: int)
    requires
        0 <= i <= s.len(),
    ensures
        (#[trigger] sp_real_format(s, i)) matches Ok((wde, j)) ==> i <= j <= s.len(),
{
    lemma_skip_ws_bounds(s, i);
    let j = skip_ws(s, i);
    lemma_digits_end_bounds(s, j);
    match sp_digits(s, j) {
        Ok((w, k)) => {
            if w is Some && k < s.len() && s[k] == '.' {
                lemma_skip_ws_bounds(s, k + 1);
                let k2 = skip_ws(s, k + 1);
                lemma_digits_end_bounds(s, k2);
                match sp_digits(s, k2) {
                    Ok((d, m)) => {
                        if d is Some && m < s.len() && (s[m] == '.' || s[m] == 'e' || s[m]
                            == 'E') {
                            lemma_skip_ws_bounds(s, m + 1);
                            lemma_digits_end_bounds(s, skip_ws(s, m + 1));
                        }
                    },
                    Err(_) => {},
                }
            }
        },
        Err(_) => {},
    }
}

/// A quoted run ends past where it starts and within the input.
pub broadcast proof fn lemma_quoted_bounds(s: Seq<char>, i: int, e: char)
    requires
        0 <= i <= s.len(),
    ensures
        (#[trigger] sp_quoted(s, i, e)) matches Ok((t, j)) ==> i + 1 <= j <= s.len(),
    decreases s.len() - i,
{
    if 0 <= i < s.len() {
        if s[i] == e {
            if i + 1 < s.len() && s[i + 1] == e {
                lemma_quoted_bounds(s, i + 2, e);
            }
        } else {
            lemma_quoted_bounds(s, i + 1, e);
        }
    }
}

} // verus!
