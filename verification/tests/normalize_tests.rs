use redundant_sentences::normalize::normalize;
use redundant_sentences::text::{starts_with, str_eq, trim, u64_to_dec};

#[test]
fn normalize_folds_case_and_drops_punctuation() {
    assert_eq!(normalize("AbC, d!", true), "abcd");
}

#[test]
fn normalize_without_folding_keeps_case() {
    assert_eq!(normalize("AbC, d!", false), "AbCd");
}

#[test]
fn normalize_drops_whitespace() {
    assert_eq!(normalize("  Hello   world.  ", true), "helloworld");
}

#[test]
fn normalize_of_empty_is_empty() {
    assert_eq!(normalize("", true), "");
    assert_eq!(normalize("", false), "");
}

#[test]
fn normalize_equal_keys_for_case_and_punctuation_variants() {
    let a = normalize("The quick brown fox jumps over the lazy dog.", true);
    let b = normalize("THE QUICK, BROWN FOX; JUMPS over the lazy dog", true);
    assert_eq!(a, b);
}

#[test]
fn str_eq_compares_characters() {
    assert!(str_eq("Page", "Page"));
    assert!(!str_eq("Page", "page"));
    assert!(!str_eq("Page", "Pages"));
    assert!(str_eq("", ""));
}

#[test]
fn trim_drops_leading_and_trailing_whitespace() {
    assert_eq!(trim("  padded sentence \t"), "padded sentence");
    assert_eq!(trim("none"), "none");
    assert_eq!(trim("   "), "");
    assert_eq!(trim(""), "");
}

#[test]
fn starts_with_checks_prefix() {
    assert!(starts_with("Collapse Subdiscussion and move on", "Collapse Subdiscussion"));
    assert!(!starts_with("Collapse", "Collapse Subdiscussion"));
    assert!(!starts_with("collapse subdiscussion", "Collapse Subdiscussion"));
    assert!(starts_with("anything", ""));
}

#[test]
fn decimal_rendering_is_exact() {
    assert_eq!(u64_to_dec(0), "0");
    assert_eq!(u64_to_dec(7), "7");
    assert_eq!(u64_to_dec(40), "40");
    assert_eq!(u64_to_dec(1234567890), "1234567890");
    assert_eq!(u64_to_dec(u64::MAX), "18446744073709551615");
}
