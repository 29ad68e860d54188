//! Terminal output helpers: conditional colored lines for errors and success.

use owo_colors::OwoColorize;

use vstd::prelude::*;
use vstd::string::*;

use crate::text;
use crate::text::Text;

verus! {

/// The sequence that sets the foreground color with the given number.
pub open spec fn color_code(number: Text) -> Text {
    "\u{1b}["@ + number + "m"@
}

/// `s` in the foreground color with the given number, followed by the default color.
pub open spec fn colored(s: Text, number: Text) -> Text {
    color_code(number) + s + color_code("39"@)
}

/// `OwoColorize::red`, displayed: the text between the codes for red and the default color.
#[verifier::external_body]
pub(crate) fn red(s: &str) -> (r: String)
    ensures
        r@ == colored(s@, "31"@),
{
    format!("{}", s.red())
}

/// `OwoColorize::green`, displayed: the text between the codes for green and the default color.
#[verifier::external_body]
pub(crate) fn green(s: &str) -> (r: String)
    ensures
        r@ == colored(s@, "32"@),
{
    format!("{}", s.green())
}

/// `OwoColorize::yellow`, displayed: the text between the codes for yellow and the default color.
#[verifier::external_body]
pub(crate) fn yellow(s: &str) -> (r: String)
    ensures
        r@ == colored(s@, "33"@),
{
    format!("{}", s.yellow())
}

/// The line for an error. When `use_color` is true, the message is red.
pub fn write_error(use_color: bool, msg: &str) -> (r: String)
    ensures
        r@ == (if use_color {
            colored(msg@, "31"@)
        } else {
            msg@
        }) + "\n"@,
{
    if use_color {
        red(msg).concat("\n")
    } else {
        msg.to_owned().concat("\n")
    }
}

/// The line for a success. When `use_color` is true, the message is green.
pub fn write_success(use_color: bool, msg: &str) -> (r: String)
    ensures
        r@ == (if use_color {
            colored(msg@, "32"@)
        } else {
            msg@
        }) + "\n"@,
{
    if use_color {
        green(msg).concat("\n")
    } else {
        msg.to_owned().concat("\n")
    }
}

/// `n` spaces.
pub open spec fn spaces(n: nat) -> Text {
    Seq::new(n, |i: int| ' ')
}

/// `s` in a field of `width` characters: padded on the right, or cut with `...` at the end where
/// the field has room for that.
pub open spec fn fixed_width(s: Text, width: nat) -> Text {
    if s.len() <= width {
        s + spaces((width - s.len()) as nat)
    } else if width <= 3 {
        s.take(width as int)
    } else {
        s.take(width - 3) + "..."@
    }
}

/// Left-aligns `s` in a field of `width` character cells (counting Unicode scalar values).
/// Truncates with `"..."` when `s` is longer than `width` (for `width > 3`).
pub fn format_fixed_width(s: &str, width: usize) -> (r: String)
    ensures
        r@ == fixed_width(s@, width as nat),
        r@.len() == width,
{
    let chars = text::chars_of(s);
    let count: usize = chars.len();
    if count <= width {
        let mut out = s.to_owned();
        let mut i: usize = count;
        while i < width
            invariant
                count <= i <= width,
                count == s@.len(),
                out@ == s@ + spaces((i - count) as nat),
            decreases width - i,
        {
            out.push(' ');
            i += 1;
            assert(out@ =~= s@ + spaces((i - count) as nat));
        }
        return out;
    }
    if width <= 3 {
        let cut = text::text_of(&chars, 0, width);
        assert(cut@ =~= s@.take(width as int));
        return cut;
    }
    let cut = text::text_of(&chars, 0, width - 3);
    assert(cut@ =~= s@.take(width - 3));
    proof {
        reveal_strlit("...");
    }
    cut.concat("...")
}

} // verus!
