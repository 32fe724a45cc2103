//! The window size handed to the child's terminal.
use vstd::prelude::*;

verus! {

/// Rows of the window when the environment does not give its size.
pub const DEFAULT_ROWS: u16 = 24;

/// Columns of the window when the environment does not give its size.
pub const DEFAULT_COLS: u16 = 80;

/// `c` is an ASCII decimal digit.
pub open spec fn is_digit(c: char) -> bool {
    '0' <= c <= '9'
}

/// The number a run of decimal digits spells.
pub open spec fn digits_value(d: Seq<char>) -> nat
    decreases d.len(),
{
    if d.len() == 0 {
        0
    } else {
        digits_value(d.drop_last()) * 10 + ((d.last() as int) - ('0' as int)) as nat
    }
}

/// Every character of `d` is an ASCII decimal digit.
pub open spec fn all_digits(d: Seq<char>) -> bool {
    forall|k: int| 0 <= k < d.len() ==> is_digit(#[trigger] d[k])
}

/// The digits of a text: what follows a leading `+`, or the whole text.
pub open spec fn unsigned_digits(s: Seq<char>) -> Seq<char> {
    if s.len() > 0 && s[0] == '+' {
        s.drop_first()
    } else {
        s
    }
}

/// What `str::parse::<u16>` makes of a text: an optional `+`, then one or
/// more ASCII digits spelling a value of at most 65535; anything else is
/// not a `u16`.
pub open spec fn u16_of_text(s: Seq<char>) -> Option<u16> {
    let d = unsigned_digits(s);
    if d.len() > 0 && all_digits(d) && digits_value(d) <= u16::MAX {
        Some(digits_value(d) as u16)
    } else {
        None
    }
}

/// Reads a text as a `u16` with `str::parse::<u16>`.
///
/// Trusted: the contract restates std's documented grammar for unsigned
/// integers in base 10 (`FromStr for u16`): an optional `+`, at least one
/// ASCII digit, and a value that fits in `u16`; every other text is an
/// error.
#[verifier::external_body]
fn parse_u16(s: &str) -> (r: Option<u16>)
    ensures
        r == u16_of_text(s@),
{
    s.parse::<u16>().ok()
}

/// The text of an optional variable.
pub open spec fn text_of(v: Option<&str>) -> Option<Seq<char>> {
    match v {
        Some(s) => Some(s@),
        None => None,
    }
}

/// One dimension read from a variable: the number it spells, or 0 when the
/// variable is unset or is not a `u16`.
pub open spec fn dimension_value(v: Option<Seq<char>>) -> u16 {
    match v {
        Some(t) => match u16_of_text(t) {
            Some(n) => n,
            None => 0,
        },
        None => 0,
    }
}

/// The window size, as (rows, columns), for the values of `COLUMNS` and
/// `LINES`: both read when both are positive numbers, otherwise 80×24.
pub open spec fn terminal_size_spec(columns: Option<Seq<char>>, lines: Option<Seq<char>>) -> (
    u16,
    u16,
) {
    let cols = dimension_value(columns);
    let rows = dimension_value(lines);
    if cols > 0 && rows > 0 {
        (rows, cols)
    } else {
        (DEFAULT_ROWS, DEFAULT_COLS)
    }
}

/// One dimension: the number the variable spells, or 0.
fn dimension(v: Option<&str>) -> (n: u16)
    ensures
        n == dimension_value(text_of(v)),
{
    match v {
        Some(s) => match parse_u16(s) {
            Some(n) => n,
            None => 0,
        },
        None => 0,
    }
}

/// The window size (rows, columns) from the values of the `COLUMNS` and
/// `LINES` variables, as most shells set them; 80×24 unless both are
/// positive numbers.
pub fn terminal_size(columns: Option<&str>, lines: Option<&str>) -> (size: (u16, u16))
    ensures
        size == terminal_size_spec(text_of(columns), text_of(lines)),
{
    let cols = dimension(columns);
    let rows = dimension(lines);
    if cols > 0 && rows > 0 {
        (rows, cols)
    } else {
        (DEFAULT_ROWS, DEFAULT_COLS)
    }
}

} // verus!
