use zspell_core::affix::AffixRule;
use zspell_core::affix::RuleGroup;
use zspell_core::pattern::CompileError;
use zspell_core::pattern::RuleType;
use zspell_core::pattern::compile_re_pattern;

#[test]
fn test_check_condition() {
    let mut kind = RuleType::Suffix;
    let mut ard = AffixRule::new(kind, "", None, Some("[^aeiou]y"), Vec::new()).unwrap();

    // General tests, including with pattern in the middle
    assert!(ard.check_condition("xxxy"));
    assert!(!ard.check_condition("xxxay"));
    assert!(!ard.check_condition("xxxyxx"));

    // Test with prefix
    kind = RuleType::Prefix;
    ard = AffixRule::new(kind, "", None, Some("y[^aeiou]"), Vec::new()).unwrap();
    assert!(ard.check_condition("yxxx"));
    assert!(!ard.check_condition("yaxxx"));
    assert!(!ard.check_condition("xxxyxxx"));

    // Test other real rules
    kind = RuleType::Suffix;
    ard = AffixRule::new(kind, "", None, Some("[sxzh]"), Vec::new()).unwrap();
    assert!(ard.check_condition("access"));
    assert!(ard.check_condition("abyss"));
    assert!(!ard.check_condition("accomplishment"));
    assert!(ard.check_condition("mmms"));
    assert!(!ard.check_condition("mmsmm"));

    // Check with default condition
    ard = AffixRule::new(kind, "", None, Some("."), Vec::new()).unwrap();
    assert!(ard.check_condition("xxx"));
}

#[test]
fn test_apply_pattern() {
    let mut kind = RuleType::Suffix;
    let mut rule = AffixRule::new(kind, "zzz", Some("y"), Some("[^aeiou]y"), Vec::new()).unwrap();
    assert_eq!(rule.apply_pattern("xxxy", kind), Some("xxxzzz".to_owned()));

    kind = RuleType::Prefix;
    rule = AffixRule::new(kind, "zzz", Some("y"), Some("y[^aeiou]"), Vec::new()).unwrap();
    assert_eq!(rule.apply_pattern("yxxx", kind), Some("zzzxxx".to_owned()));

    kind = RuleType::Suffix;
    rule = AffixRule::new(kind, "zzz", Some("y"), Some("."), Vec::new()).unwrap();
    assert_eq!(rule.apply_pattern("xxx", kind), Some("xxxzzz".to_owned()));
}

#[test]
fn test_rule_group_apply_pattern() {
    let kind = RuleType::Suffix;
    let group = RuleGroup {
        flag: "A".to_owned(),
        kind: RuleType::Suffix,
        can_combine: true,
        rules: vec![
            AffixRule::new(kind, "iness", Some("y"), Some("[^aeiou]y"), Vec::new()).unwrap(),
            AffixRule::new(kind, "ness", None, Some("[aeiou]y"), Vec::new()).unwrap(),
            AffixRule::new(kind, "ness", None, Some("[^y]"), Vec::new()).unwrap(),
        ],
    };

    assert_eq!(group.apply_pattern("blurry").unwrap(), "blurriness");
    assert_eq!(group.apply_pattern("coy").unwrap(), "coyness");
    assert_eq!(group.apply_pattern("acute").unwrap(), "acuteness");
}

#[test]
fn test_compile_universal_condition() {
    // The universal condition "." is represented as "no pattern".
    assert!(matches!(compile_re_pattern(".", RuleType::Prefix), Ok(None)));
    assert!(matches!(compile_re_pattern(".", RuleType::Suffix), Ok(None)));
    // Any other condition compiles to a real pattern.
    assert!(matches!(compile_re_pattern("a", RuleType::Prefix), Ok(Some(_))));
    assert!(matches!(
        compile_re_pattern("[^aeiou]y", RuleType::Suffix),
        Ok(Some(_))
    ));
}

#[test]
fn test_compile_invalid_condition() {
    // An unclosed class is not a valid pattern.
    assert_eq!(
        compile_re_pattern("[", RuleType::Suffix).unwrap_err(),
        CompileError::InvalidPattern
    );
    assert!(matches!(
        AffixRule::new(RuleType::Prefix, "a", None, Some("("), Vec::new()),
        Err(CompileError::InvalidPattern)
    ));
}

#[test]
fn test_pattern_anchoring_source() {
    let p = compile_re_pattern("abc", RuleType::Prefix).unwrap().unwrap();
    assert_eq!(p.source(), "^abc.*$");
    let s = compile_re_pattern("abc", RuleType::Suffix).unwrap().unwrap();
    assert_eq!(s.source(), "^.*abc$");
}

#[test]
fn test_pattern_equality_by_source() {
    let a = compile_re_pattern("xy", RuleType::Prefix).unwrap().unwrap();
    let b = compile_re_pattern("xy", RuleType::Prefix).unwrap().unwrap();
    let c = compile_re_pattern("xy", RuleType::Suffix).unwrap().unwrap();
    assert!(a == b);
    assert!(a != c);
}

#[test]
fn test_apply_pattern_no_match() {
    let kind = RuleType::Suffix;
    let rule = AffixRule::new(kind, "zzz", None, Some("[^aeiou]y"), Vec::new()).unwrap();
    assert_eq!(rule.apply_pattern("xxxay", kind), None);

    let group = RuleGroup {
        flag: "A".to_owned(),
        kind,
        can_combine: false,
        rules: vec![rule],
    };
    assert_eq!(group.apply_pattern("xxxay"), None);
}

#[test]
fn test_apply_pattern_strip_absent_from_word() {
    // A strip text the word does not carry at the affected end is not
    // removed; the affix is still attached.
    let kind = RuleType::Suffix;
    let rule = AffixRule::new(kind, "ing", Some("e"), Some("."), Vec::new()).unwrap();
    assert_eq!(rule.apply_pattern("bake", kind), Some("baking".to_owned()));
    assert_eq!(rule.apply_pattern("walk", kind), Some("walking".to_owned()));
}
