use markdown_it::cjk::{
    is_cjk, is_ideographic_variation_selector, is_non_emoji_general_use_variation_selector, is_quotation_mark,
};

#[test]
fn han_kana_hangul_and_fullwidth_punctuation_are_cjk() {
    for ch in ['这', '。', 'ア', 'ぁ', '한', '！', '\u{3000}', '\u{20000}', '\u{1100}', '\u{3fffd}'] {
        assert!(is_cjk(ch), "{ch:?}");
    }
}

#[test]
fn latin_digits_and_emoji_are_not_cjk() {
    for ch in ['a', 'Z', '1', '*', ' ', '\u{1f600}', '\u{1f201}', '\u{3040}', '\u{3fffe}', '\u{10ffff}'] {
        assert!(!is_cjk(ch), "{ch:?}");
    }
}

#[test]
fn range_edges_are_inclusive() {
    assert!(is_cjk('\u{a48c}'));
    assert!(!is_cjk('\u{a48d}'));
    assert!(is_cjk('\u{3250}'));
    assert!(!is_cjk('\u{3248}'));
    assert!(is_cjk('\u{1b132}'));
    assert!(!is_cjk('\u{1b133}'));
}

#[test]
fn variation_selectors_and_quotes() {
    assert!(is_non_emoji_general_use_variation_selector('\u{fe00}'));
    assert!(is_non_emoji_general_use_variation_selector('\u{fe0e}'));
    assert!(!is_non_emoji_general_use_variation_selector('\u{fe0f}'));
    assert!(is_ideographic_variation_selector('\u{e0100}'));
    assert!(!is_ideographic_variation_selector('\u{e01f0}'));
    assert!(is_quotation_mark('\u{201c}'));
    assert!(!is_quotation_mark('"'));
}
