use zspell_core::affix::AffixRule;
use zspell_core::affix::RuleGroup;
use zspell_core::generate::GenerationResult;
use zspell_core::generate::WordGenerator;
use zspell_core::pattern::RuleType;

fn surfaces(results: &[GenerationResult]) -> Vec<String> {
    results.iter().map(|r| r.surface.clone()).collect()
}

fn simple_group(flag: &str, kind: RuleType, affix: &str, can_combine: bool) -> RuleGroup {
    RuleGroup {
        flag: flag.to_owned(),
        kind,
        can_combine,
        rules: vec![AffixRule::new(kind, affix, None, Some("."), Vec::new()).unwrap()],
    }
}

fn pfx_sfx_generator() -> WordGenerator {
    WordGenerator::new(vec![
        simple_group("A", RuleType::Prefix, "aa", true),
        simple_group("B", RuleType::Suffix, "cc", true),
    ])
}

#[test]
fn affix_create_words() {
    let afx = pfx_sfx_generator();

    assert_eq!(surfaces(&afx.generate("xxx", &["A"])), vec!["aaxxx"]);
    assert_eq!(surfaces(&afx.generate("xxx", &["B"])), vec!["xxxcc"]);
    assert_eq!(
        surfaces(&afx.generate("xxx", &["A", "B"])),
        vec!["aaxxx", "xxxcc", "aaxxxcc"]
    );
}

#[test]
fn test_generate_empty_and_unknown_flags() {
    let afx = pfx_sfx_generator();
    assert!(afx.generate("xxx", &[]).is_empty());
    // A flag the table does not know is ignored, not an error.
    assert!(afx.generate("xxx", &["Z"]).is_empty());
    assert_eq!(surfaces(&afx.generate("xxx", &["A", "Z"])), vec!["aaxxx"]);
}

#[test]
fn test_generate_duplicate_flags() {
    let afx = pfx_sfx_generator();
    // Duplicate flags are idempotent: one result per distinct application.
    assert_eq!(surfaces(&afx.generate("xxx", &["A", "A"])), vec!["aaxxx"]);
    assert_eq!(
        surfaces(&afx.generate("xxx", &["A", "B", "A", "B"])),
        vec!["aaxxx", "xxxcc", "aaxxxcc"]
    );
}

#[test]
fn test_generate_no_combine() {
    // When either side forbids combination there is no combined form.
    let afx = WordGenerator::new(vec![
        simple_group("A", RuleType::Prefix, "aa", true),
        simple_group("B", RuleType::Suffix, "cc", false),
    ]);
    assert_eq!(
        surfaces(&afx.generate("xxx", &["A", "B"])),
        vec!["aaxxx", "xxxcc"]
    );
}

#[test]
fn test_generate_strips_both_ends() {
    // Combined generation strips and attaches each end independently on the
    // original stem, never by nesting one rule's output into the other.
    let prefix = RuleGroup {
        flag: "P".to_owned(),
        kind: RuleType::Prefix,
        can_combine: true,
        rules: vec![
            AffixRule::new(RuleType::Prefix, "un", Some("re"), Some("."), Vec::new()).unwrap(),
        ],
    };
    let suffix = RuleGroup {
        flag: "S".to_owned(),
        kind: RuleType::Suffix,
        can_combine: true,
        rules: vec![
            AffixRule::new(RuleType::Suffix, "ing", Some("e"), Some("."), Vec::new()).unwrap(),
        ],
    };
    let afx = WordGenerator::new(vec![prefix, suffix]);
    assert_eq!(
        surfaces(&afx.generate("remake", &["P", "S"])),
        vec!["unmake", "remaking", "unmaking"]
    );
}

#[test]
fn test_generate_morph_info() {
    let prefix = RuleGroup {
        flag: "A".to_owned(),
        kind: RuleType::Prefix,
        can_combine: true,
        rules: vec![
            AffixRule::new(RuleType::Prefix, "aa", None, Some("."), vec!["pfx:aa".to_owned()])
                .unwrap(),
        ],
    };
    let suffix = RuleGroup {
        flag: "B".to_owned(),
        kind: RuleType::Suffix,
        can_combine: true,
        rules: vec![
            AffixRule::new(RuleType::Suffix, "cc", None, Some("."), vec!["sfx:cc".to_owned()])
                .unwrap(),
        ],
    };
    let afx = WordGenerator::new(vec![prefix, suffix]);
    let out = afx.generate("xxx", &["A", "B"]);
    assert_eq!(out.len(), 3);
    assert_eq!(out[0].morph_info, vec!["pfx:aa".to_owned()]);
    assert_eq!(out[1].morph_info, vec!["sfx:cc".to_owned()]);
    // Combined results carry prefix tags, then suffix tags.
    assert_eq!(
        out[2].morph_info,
        vec!["pfx:aa".to_owned(), "sfx:cc".to_owned()]
    );
    assert_eq!(out[2].morph_breakdown(), " pfx:aa sfx:cc");
    assert_eq!(out[0].morph_breakdown(), " pfx:aa");
}

#[test]
fn test_generate_flag_shared_by_both_kinds() {
    // One prefix and one suffix group may share a flag string: they are two
    // independent table entries, distinguished by kind.
    let afx = WordGenerator::new(vec![
        simple_group("A", RuleType::Prefix, "aa", true),
        simple_group("A", RuleType::Suffix, "cc", true),
    ]);
    assert_eq!(
        surfaces(&afx.generate("xxx", &["A"])),
        vec!["aaxxx", "xxxcc", "aaxxxcc"]
    );
}

#[test]
fn test_generate_first_match_wins_within_group() {
    let group = RuleGroup {
        flag: "N".to_owned(),
        kind: RuleType::Suffix,
        can_combine: false,
        rules: vec![
            AffixRule::new(RuleType::Suffix, "iness", Some("y"), Some("[^aeiou]y"), Vec::new())
                .unwrap(),
            AffixRule::new(RuleType::Suffix, "ness", None, Some("[aeiou]y"), Vec::new()).unwrap(),
            AffixRule::new(RuleType::Suffix, "ness", None, Some("[^y]"), Vec::new()).unwrap(),
        ],
    };
    let afx = WordGenerator::new(vec![group]);
    assert_eq!(surfaces(&afx.generate("blurry", &["N"])), vec!["blurriness"]);
    assert_eq!(surfaces(&afx.generate("coy", &["N"])), vec!["coyness"]);
    assert_eq!(surfaces(&afx.generate("acute", &["N"])), vec!["acuteness"]);
}
