use zspell_core::levenshtein;
use zspell_core::levenshtein_limit;
use zspell_core::levenshtein_weight;

#[test]
fn test_levenshtein_empty() {
    assert_eq!(levenshtein("", ""), 0);
}

#[test]
fn test_levenshtein_equal() {
    assert_eq!(levenshtein("abcdef", "abcdef"), 0);
}

#[test]
fn test_levenshtein_one_empty() {
    assert_eq!(levenshtein("abcdef", ""), 6);
    assert_eq!(levenshtein("", "abcdef"), 6);
}

#[test]
fn test_levenshtein_basic() {
    assert_eq!(levenshtein("abcd", "ab"), 2);
    assert_eq!(levenshtein("abcd", "ad"), 2);
    assert_eq!(levenshtein("abcd", "cd"), 2);
    assert_eq!(levenshtein("abcd", "a"), 3);
    assert_eq!(levenshtein("abcd", "c"), 3);
    assert_eq!(levenshtein("to be a bee", "not to bee"), 6);
}

#[test]
fn test_levenshtein_limit_one_empty() {
    assert_eq!(levenshtein_limit("abcdef", "", 3), 3);
    assert_eq!(levenshtein_limit("", "abcdef", 3), 3);
    assert_eq!(levenshtein_limit("abcdef", "", 8), 6);
    assert_eq!(levenshtein_limit("", "abcdef", 8), 6);
}

#[test]
fn test_levenshtein_limit() {
    assert_eq!(levenshtein_limit("abcdef", "000000", 3), 3);
    assert_eq!(levenshtein_limit("ab", "cccc", 3), 3);
}

#[test]
fn test_levenshtein_weight_insertion() {
    assert_eq!(levenshtein_weight("000", "000a", 10, 2, 10), 2);
}

#[test]
fn test_levenshtein_weight_deletion() {
    assert_eq!(levenshtein_weight("000a", "000", 2, 10, 10), 2);
}

#[test]
fn test_distance_identity_and_symmetry() {
    for s in ["", "a", "abcdef", "to be a bee"] {
        assert_eq!(levenshtein(s, s), 0);
    }
    for (a, b) in [("abcd", "ab"), ("kitten", "sitting"), ("", "xyz")] {
        assert_eq!(levenshtein(a, b), levenshtein(b, a));
    }
}

#[test]
fn test_distance_cap() {
    for limit in 0..8u32 {
        let d = levenshtein_limit("abcdef", "000000", limit);
        assert!(d <= limit);
    }
    // With room below the cap the exact distance comes back.
    assert_eq!(levenshtein_limit("abcd", "abcx", 4), 1);
    // The row-wise early exit saturates as soon as a completed row's last
    // cell reaches the limit, even when later rows would fall below it again.
    assert_eq!(levenshtein_limit("abcd", "abcx", 3), 3);
}

#[test]
fn test_distance_unicode_chars() {
    // Code points, not bytes: one substitution even though the replacement
    // encodes as two bytes.
    assert_eq!(levenshtein("hello", "h\u{e9}llo"), 1);
    assert_eq!(levenshtein("\u{e9}\u{e9}", ""), 2);
}

#[test]
fn test_weighted_boundary_unweighted_init() {
    // Row 0 and column 0 are initialized to the unweighted index, so a pure
    // insertion or pure deletion against the empty string scores the plain
    // length, whatever the costs.
    assert_eq!(levenshtein_weight("", "abc", 5, 5, 5), 3);
    assert_eq!(levenshtein_weight("abc", "", 5, 5, 5), 3);
}

#[test]
fn test_convertu32_fits() {
    assert_eq!(zspell_core::convertu32(7usize), 7u32);
    assert_eq!(zspell_core::convertu32(0usize), 0u32);
}
