//! Text layout of a complex number.

use vstd::prelude::*;
use vstd::string::*;

verus! {

/// The text of a complex number from the texts of its parts: `re + imi`
/// when the imaginary part is not negative, else `re imi` (the imaginary
/// text then carries its own minus sign).
pub open spec fn complex_text_spec(re: Seq<char>, im: Seq<char>, imag_nonnegative: bool) -> Seq<char> {
    if imag_nonnegative {
        re + " + "@ + im + "i"@
    } else {
        re + " "@ + im + "i"@
    }
}

/// Lays out a complex number from the texts of its parts.
pub fn complex_text(re: &str, im: &str, imag_nonnegative: bool) -> (text: String)
    ensures
        text@ == complex_text_spec(re@, im@, imag_nonnegative),
{
    let mut out = String::from_str(re);
    if imag_nonnegative {
        out.append(" + ");
    } else {
        out.append(" ");
    }
    out.append(im);
    out.append("i");
    out
}

} // verus!
