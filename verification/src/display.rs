//! Terminal-width-aware truncation of a path for display: when the path and
//! a prefix of `prefix_len` columns do not fit the terminal, enough leading
//! characters are dropped to make up the overshoot.

use vstd::prelude::*;
use vstd::string::StrSliceExecFns;

verus! {

/// The displayed width of the characters in terminal columns, ambiguous
/// characters counted as two: a deterministic function of the characters.
pub uninterp spec fn display_width_cjk(s: Seq<char>) -> nat;

/// Relies on unicode_width::UnicodeWidthStr::width_cjk: the displayed width
/// depends on the characters alone.
#[verifier::external_body]
fn width_cjk_of(s: &String) -> (r: usize)
    ensures
        r == display_width_cjk(s@),
{
    unicode_width::UnicodeWidthStr::width_cjk(s.as_str())
}

/// Relies on terminal_size::terminal_size: the width of the attached
/// terminal, if there is one. The result depends on the environment, so
/// nothing is claimed of it.
#[verifier::external_body]
fn terminal_width() -> (r: Option<u16>) {
    terminal_size::terminal_size().map(|(terminal_size::Width(w), _)| w)
}

/// The path as displayed in `width` columns beside a prefix of `prefix_len`
/// columns: whole when it fits, otherwise with one leading character dropped
/// per column of overshoot.
pub open spec fn spec_truncated(p: Seq<char>, width: int, prefix_len: int) -> Seq<char> {
    let w = display_width_cjk(p) as int;
    if w + prefix_len <= width {
        p
    } else {
        let skip = w + prefix_len - width;
        if skip >= p.len() {
            Seq::empty()
        } else {
            p.skip(skip)
        }
    }
}

/// Truncate the path for a known terminal width.
pub fn truncate_for_width(path: &String, width: usize, prefix_len: usize) -> (r: String)
    ensures
        r@ == spec_truncated(path@, width as int, prefix_len as int),
{
    let cw = width_cjk_of(path);
    if prefix_len <= width && cw <= width - prefix_len {
        path.clone()
    } else {
        let skip128: u128 = (cw as u128) + (prefix_len as u128) - (width as u128);
        let n = path.as_str().unicode_len();
        if skip128 >= n as u128 {
            let r = String::new();
            proof {
                assert(r@ =~= spec_truncated(path@, width as int, prefix_len as int));
            }
            r
        } else {
            let skip = skip128 as usize;
            path.as_str().substring_char(skip, n).to_owned()
        }
    }
}

/// Truncate the path for the attached terminal (128 columns when none is
/// attached). The width is read from the environment, so the contract only
/// fixes the shape: the result is the path truncated for some width.
pub fn fmt_path_for_display(path: &String, prefix_len: usize) -> (r: String)
    ensures
        exists|w: int| w >= 0 && r@ == spec_truncated(path@, w, prefix_len as int),
{
    let width: u16 = match terminal_width() {
        Some(w) => w,
        None => 128,
    };
    let r = truncate_for_width(path, width as usize, prefix_len);
    proof {
        assert(width as usize as int >= 0 && r@ == spec_truncated(
            path@,
            width as usize as int,
            prefix_len as int,
        ));
    }
    r
}

} // verus!
