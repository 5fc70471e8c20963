//! Character classes for CJK-friendly emphasis delimiters.
use vstd::prelude::*;

verus! {

/// Whether the code point `c` is a CJK character for delimiter flanking:
/// the Unicode ranges published by markdown-cjk-friendly, without the
/// characters whose default presentation is emoji.
pub open spec fn cjk_code(c: u32) -> bool {
    ||| 0x1100 <= c <= 0x11ff
    ||| c == 0x20a9
    ||| 0x2329 <= c <= 0x232a
    ||| 0x2630 <= c <= 0x2637
    ||| 0x268a <= c <= 0x268f
    ||| 0x2e80 <= c <= 0x2e99
    ||| 0x2e9b <= c <= 0x2ef3
    ||| 0x2f00 <= c <= 0x2fd5
    ||| 0x2ff0 <= c <= 0x303e
    ||| 0x3041 <= c <= 0x3096
    ||| 0x3099 <= c <= 0x30ff
    ||| 0x3105 <= c <= 0x312f
    ||| 0x3131 <= c <= 0x318e
    ||| 0x3190 <= c <= 0x31e5
    ||| 0x31ef <= c <= 0x321e
    ||| 0x3220 <= c <= 0x3247
    ||| 0x3250 <= c <= 0xa48c
    ||| 0xa490 <= c <= 0xa4c6
    ||| 0xa960 <= c <= 0xa97c
    ||| 0xac00 <= c <= 0xd7a3
    ||| 0xd7b0 <= c <= 0xd7c6
    ||| 0xd7cb <= c <= 0xd7fb
    ||| 0xf900 <= c <= 0xfaff
    ||| 0xfe10 <= c <= 0xfe19
    ||| 0xfe30 <= c <= 0xfe52
    ||| 0xfe54 <= c <= 0xfe66
    ||| 0xfe68 <= c <= 0xfe6b
    ||| 0xff01 <= c <= 0xffbe
    ||| 0xffc2 <= c <= 0xffc7
    ||| 0xffca <= c <= 0xffcf
    ||| 0xffd2 <= c <= 0xffd7
    ||| 0xffda <= c <= 0xffdc
    ||| 0xffe0 <= c <= 0xffe6
    ||| 0xffe8 <= c <= 0xffee
    ||| 0x16fe0 <= c <= 0x16fe4
    ||| 0x16ff0 <= c <= 0x16ff6
    ||| 0x17000 <= c <= 0x18cd5
    ||| 0x18cff <= c <= 0x18d1e
    ||| 0x18d80 <= c <= 0x18df2
    ||| 0x1aff0 <= c <= 0x1aff3
    ||| 0x1aff5 <= c <= 0x1affb
    ||| 0x1affd <= c <= 0x1affe
    ||| 0x1b000 <= c <= 0x1b122
    ||| c == 0x1b132
    ||| 0x1b150 <= c <= 0x1b152
    ||| c == 0x1b155
    ||| 0x1b164 <= c <= 0x1b167
    ||| 0x1b170 <= c <= 0x1b2fb
    ||| 0x1d300 <= c <= 0x1d356
    ||| 0x1d360 <= c <= 0x1d376
    ||| c == 0x1f200
    ||| c == 0x1f202
    ||| 0x1f210 <= c <= 0x1f219
    ||| 0x1f21b <= c <= 0x1f22e
    ||| 0x1f230 <= c <= 0x1f231
    ||| c == 0x1f237
    ||| c == 0x1f23b
    ||| 0x1f240 <= c <= 0x1f248
    ||| 0x1f260 <= c <= 0x1f265
    ||| 0x20000 <= c <= 0x3fffd
}

/// Whether `ch` is a CJK character for delimiter flanking.
pub fn is_cjk(ch: char) -> (r: bool)
    ensures
        r == cjk_code(ch as u32),
{
    let c = ch as u32;
    if c < 0x3250 {
        (0x1100 <= c && c <= 0x11ff) || c == 0x20a9 || (0x2329 <= c && c <= 0x232a) || (0x2630 <= c && c <= 0x2637)
            || (0x268a <= c && c <= 0x268f) || (0x2e80 <= c && c <= 0x2e99) || (0x2e9b <= c && c <= 0x2ef3) || (0x2f00
            <= c && c <= 0x2fd5) || (0x2ff0 <= c && c <= 0x303e) || (0x3041 <= c && c <= 0x3096) || (0x3099 <= c && c
            <= 0x30ff) || (0x3105 <= c && c <= 0x312f) || (0x3131 <= c && c <= 0x318e) || (0x3190 <= c && c <= 0x31e5)
            || (0x31ef <= c && c <= 0x321e) || (0x3220 <= c && c <= 0x3247)
    } else if c < 0x10000 {
        c <= 0xa48c || (0xa490 <= c && c <= 0xa4c6) || (0xa960 <= c && c <= 0xa97c) || (0xac00 <= c && c <= 0xd7a3)
            || (0xd7b0 <= c && c <= 0xd7c6) || (0xd7cb <= c && c <= 0xd7fb) || (0xf900 <= c && c <= 0xfaff) || (0xfe10
            <= c && c <= 0xfe19) || (0xfe30 <= c && c <= 0xfe52) || (0xfe54 <= c && c <= 0xfe66) || (0xfe68 <= c && c
            <= 0xfe6b) || (0xff01 <= c && c <= 0xffbe) || (0xffc2 <= c && c <= 0xffc7) || (0xffca <= c && c <= 0xffcf)
            || (0xffd2 <= c && c <= 0xffd7) || (0xffda <= c && c <= 0xffdc) || (0xffe0 <= c && c <= 0xffe6) || (0xffe8
            <= c && c <= 0xffee)
    } else {
        (0x16fe0 <= c && c <= 0x16fe4) || (0x16ff0 <= c && c <= 0x16ff6) || (0x17000 <= c && c <= 0x18cd5) || (0x18cff
            <= c && c <= 0x18d1e) || (0x18d80 <= c && c <= 0x18df2) || (0x1aff0 <= c && c <= 0x1aff3) || (0x1aff5 <= c
            && c <= 0x1affb) || (0x1affd <= c && c <= 0x1affe) || (0x1b000 <= c && c <= 0x1b122) || c == 0x1b132 || (
        0x1b150 <= c && c <= 0x1b152) || c == 0x1b155 || (0x1b164 <= c && c <= 0x1b167) || (0x1b170 <= c && c
            <= 0x1b2fb) || (0x1d300 <= c && c <= 0x1d356) || (0x1d360 <= c && c <= 0x1d376) || c == 0x1f200 || c
            == 0x1f202 || (0x1f210 <= c && c <= 0x1f219) || (0x1f21b <= c && c <= 0x1f22e) || (0x1f230 <= c && c
            <= 0x1f231) || c == 0x1f237 || c == 0x1f23b || (0x1f240 <= c && c <= 0x1f248) || (0x1f260 <= c && c
            <= 0x1f265) || (0x20000 <= c && c <= 0x3fffd)
    }
}

/// Whether `ch` is a variation selector of general use, not the emoji one
/// (U+FE00 to U+FE0E).
pub fn is_non_emoji_general_use_variation_selector(ch: char) -> (r: bool)
    ensures
        r == (0xfe00 <= ch as u32 <= 0xfe0e),
{
    let c = ch as u32;
    0xfe00 <= c && c <= 0xfe0e
}

/// Whether `ch` is an ideographic variation selector (U+E0100 to U+E01EF).
pub fn is_ideographic_variation_selector(ch: char) -> (r: bool)
    ensures
        r == (0xe0100 <= ch as u32 <= 0xe01ef),
{
    let c = ch as u32;
    0xe0100 <= c && c <= 0xe01ef
}

/// Whether `ch` is a curly quotation mark (U+2018, U+2019, U+201C, U+201D).
pub fn is_quotation_mark(ch: char) -> (r: bool)
    ensures
        r == (ch == '\u{2018}' || ch == '\u{2019}' || ch == '\u{201c}' || ch == '\u{201d}'),
{
    ch == '\u{2018}' || ch == '\u{2019}' || ch == '\u{201c}' || ch == '\u{201d}'
}

} // verus!
