//! ANSI byte sequences used for highlighting.
use vstd::prelude::*;
use crate::matcher::classifier::Severity;

verus! {

/// ANSI reset – always emitted at the end of a highlighted line: `ESC [ 0 m`.
pub open spec fn reset_bytes() -> Seq<u8> {
    seq![0x1Bu8, 0x5Bu8, 0x30u8, 0x6Du8]
}

/// Terminal bell (ASCII BEL, 0x07).
pub open spec fn bell_bytes() -> Seq<u8> {
    seq![0x07u8]
}

/// ANSI colour prefix for each severity level:
/// - Info: bold bright cyan, `ESC [1;96m`;
/// - Warn: bold bright yellow, `ESC [1;93m`;
/// - Error: bold bright white on red, `ESC [1;97;41m`;
/// - Critical: bold bright yellow on red, `ESC [1;93;41m`.
pub open spec fn color_bytes(severity: Severity) -> Seq<u8> {
    match severity {
        Severity::Info => seq![0x1Bu8, 0x5Bu8, 0x31u8, 0x3Bu8, 0x39u8, 0x36u8, 0x6Du8],
        Severity::Warn => seq![0x1Bu8, 0x5Bu8, 0x31u8, 0x3Bu8, 0x39u8, 0x33u8, 0x6Du8],
        Severity::Error => seq![
            0x1Bu8,
            0x5Bu8,
            0x31u8,
            0x3Bu8,
            0x39u8,
            0x37u8,
            0x3Bu8,
            0x34u8,
            0x31u8,
            0x6Du8,
        ],
        Severity::Critical => seq![
            0x1Bu8,
            0x5Bu8,
            0x31u8,
            0x3Bu8,
            0x39u8,
            0x33u8,
            0x3Bu8,
            0x34u8,
            0x31u8,
            0x6Du8,
        ],
    }
}

/// Only Error and Critical ring the bell.
pub open spec fn beeps(severity: Severity) -> bool {
    severity == Severity::Error || severity == Severity::Critical
}

/// The reset sequence.
pub fn reset() -> (r: Vec<u8>)
    ensures
        r@ == reset_bytes(),
{
    let r: Vec<u8> = vec![0x1B, 0x5B, 0x30, 0x6D];
    assert(r@ =~= reset_bytes());
    r
}

/// The bell byte.
pub fn bell() -> (r: Vec<u8>)
    ensures
        r@ == bell_bytes(),
{
    let r: Vec<u8> = vec![0x07];
    assert(r@ =~= bell_bytes());
    r
}

/// ANSI colour prefix for each severity level.
///
/// Background colours are used for Error/Critical so that the highlight is
/// visible even on lines that already carry their own ANSI foreground colour;
/// bold is always set so the line stands out in the scrollback buffer.
pub fn color_code(severity: Severity) -> (r: Vec<u8>)
    ensures
        r@ == color_bytes(severity),
{
    let r: Vec<u8> = match severity {
        // Bold bright cyan text – clearly visible, not alarming.
        Severity::Info => vec![0x1B, 0x5B, 0x31, 0x3B, 0x39, 0x36, 0x6D],
        // Bold bright yellow text – obvious but not panic-inducing.
        Severity::Warn => vec![0x1B, 0x5B, 0x31, 0x3B, 0x39, 0x33, 0x6D],
        // Bold bright white text on a vivid RED background – unmissable.
        Severity::Error => vec![0x1B, 0x5B, 0x31, 0x3B, 0x39, 0x37, 0x3B, 0x34, 0x31, 0x6D],
        // Bold bright yellow text on a vivid RED background – most alarming.
        Severity::Critical => vec![0x1B, 0x5B, 0x31, 0x3B, 0x39, 0x33, 0x3B, 0x34, 0x31, 0x6D],
    };
    assert(r@ =~= color_bytes(severity));
    r
}

/// Returns `true` if the severity warrants an audible alert.
///
/// Only Error and Critical beep.  Info and Warn are visual-only so that
/// routine warnings don't spam beeps.
pub fn should_beep(severity: Severity) -> (b: bool)
    ensures
        b == beeps(severity),
{
    matches!(severity, Severity::Error | Severity::Critical)
}

} // verus!
