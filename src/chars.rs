//! Character classes used by the reflow engine.
use vstd::prelude::*;

verus! {

/// The characters that count as whitespace for word breaking: tab, space,
/// the no-break spaces, the Mongolian vowel separator, the typographic
/// spaces U+2000 to U+200B, the medium mathematical space, the ideographic
/// space and the zero width no-break space. A line feed is not one of them.
pub open spec fn is_whitespace(c: char) -> bool {
    c == '\u{0009}' || c == '\u{0020}' || c == '\u{00A0}' || c == '\u{180E}' || c == '\u{202F}'
        || c == '\u{205F}' || c == '\u{3000}' || c == '\u{FEFF}' || ('\u{2000}' <= c
        && c <= '\u{200B}')
}

/// Whether `c` is a whitespace character on which a line may be broken.
pub fn char_is_whitespace(c: char) -> (r: bool)
    ensures
        r == is_whitespace(c),
{
    match c {
        '\u{0009}' | '\u{0020}' | '\u{00A0}' | '\u{180E}' | '\u{202F}' | '\u{205F}' | '\u{3000}'
        | '\u{FEFF}' => true,
        _ => '\u{2000}' <= c && c <= '\u{200B}',
    }
}

} // verus!
