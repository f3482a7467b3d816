//! Affix rules and rule groups: one strip/attach transformation per rule,
//! first-match-wins resolution within a group.

use crate::pattern::CompileError;
use crate::pattern::Pattern;
use crate::pattern::RuleType;
use crate::pattern::compile_re_pattern;
use crate::pattern::regex_match;
use crate::pattern::spec_compile;
use crate::text::concat_str;
use crate::text::is_prefix_of;
use crate::text::is_suffix_of;
use crate::text::str_ends_with;
use crate::text::str_starts_with;
use vstd::prelude::*;
use vstd::string::*;

verus! {

/// One strip/attach transformation, guarded by a compiled condition.
/// Immutable after construction.
pub struct AffixRule {
    /// Substring expected at the affected end of the stem, removed when the
    /// rule applies and the stem carries it there.
    pub strip: Option<String>,
    /// Substring attached at the affected end; may be empty.
    pub affix: String,
    /// Compiled condition; `None` is the universal matcher.
    pub condition: Option<Pattern>,
    /// Morphological tag strings carried through unchanged to generation
    /// output.
    pub morph_info: Vec<String>,
}

/// The view of an optional string slice.
pub open spec fn opt_str_view(s: Option<&str>) -> Option<Seq<char>> {
    match s {
        Some(x) => Some(x@),
        None => None,
    }
}

/// How many characters the strip text removes from `word` at the given end:
/// the strip's length when the strip is present there, otherwise zero.
pub open spec fn cut_len(word: Seq<char>, strip: Option<Seq<char>>, kind: RuleType) -> int {
    match strip {
        None => 0,
        Some(st) => match kind {
            RuleType::Prefix => if is_prefix_of(st, word) {
                st.len() as int
            } else {
                0
            },
            RuleType::Suffix => if is_suffix_of(st, word) {
                st.len() as int
            } else {
                0
            },
        },
    }
}

/// `word` with the strip removed from the affected end.
pub open spec fn stripped(word: Seq<char>, strip: Option<Seq<char>>, kind: RuleType) -> Seq<char> {
    match kind {
        RuleType::Prefix => word.subrange(cut_len(word, strip, kind), word.len() as int),
        RuleType::Suffix => word.subrange(0, word.len() - cut_len(word, strip, kind)),
    }
}

/// The surface form an applicable rule produces from the original `word` at
/// end `kind`: strip at that end, then attach the affix there.
pub open spec fn transformed(rule: AffixRule, word: Seq<char>, kind: RuleType) -> Seq<char> {
    match kind {
        RuleType::Prefix => rule.affix@ + stripped(word, rule.strip_view(), kind),
        RuleType::Suffix => stripped(word, rule.strip_view(), kind) + rule.affix@,
    }
}

/// All fields of a freshly built rule, stated against the constructor inputs.
pub open spec fn rule_built(
    rule: AffixRule,
    affix: Seq<char>,
    strip: Option<Seq<char>>,
    cond: Option<Seq<char>>,
    morph: Seq<String>,
) -> bool {
    &&& rule.wf()
    &&& rule.affix@ == affix
    &&& rule.strip_view() == strip
    &&& rule.cond_view() == cond
    &&& rule.morph_info@ == morph
}

impl AffixRule {
    /// The stored condition's compiled pattern is well formed.
    pub open spec fn wf(&self) -> bool {
        match self.condition {
            Some(p) => p.wf(),
            None => true,
        }
    }

    /// The strip text as a sequence, if any.
    pub open spec fn strip_view(&self) -> Option<Seq<char>> {
        match self.strip {
            Some(s) => Some(s@),
            None => None,
        }
    }

    /// The condition's anchored source text; `None` for the universal matcher.
    pub open spec fn cond_view(&self) -> Option<Seq<char>> {
        match self.condition {
            Some(p) => Some(p@),
            None => None,
        }
    }

    /// Whether the condition admits `word`.
    pub open spec fn condition_holds(&self, word: Seq<char>) -> bool {
        match self.condition {
            Some(p) => regex_match(p@, word),
            None => true,
        }
    }

    /// Compile the condition and build the rule. A missing condition is the
    /// universal matcher; otherwise the condition text is compiled with the
    /// kind-specific anchor, and construction fails exactly when that
    /// compilation fails.
    pub fn new(
        kind: RuleType,
        affix: &str,
        strip: Option<&str>,
        condition: Option<&str>,
        morph_info: Vec<String>,
    ) -> (r: Result<AffixRule, CompileError>)
        requires
            condition matches Some(c) ==> c@.len() >= 1,
        ensures
            ({
                let cres = match condition {
                    None => Ok::<Option<Seq<char>>, CompileError>(None),
                    Some(c) => spec_compile(c@, kind),
                };
                match r {
                    Ok(rule) => cres matches Ok(cv) && rule_built(
                        rule,
                        affix@,
                        opt_str_view(strip),
                        cv,
                        morph_info@,
                    ),
                    Err(e) => cres == Err::<Option<Seq<char>>, CompileError>(e),
                }
            }),
    {
        let compiled: Option<Pattern> = match condition {
            None => None,
            Some(c) => match compile_re_pattern(c, kind) {
                Ok(p) => p,
                Err(e) => {
                    return Err(e);
                },
            },
        };
        let strip_owned: Option<String> = match strip {
            Some(s) => Some(s.to_owned()),
            None => None,
        };
        Ok(
            AffixRule {
                strip: strip_owned,
                affix: affix.to_owned(),
                condition: compiled,
                morph_info,
            },
        )
    }

    /// True iff the compiled condition matches the whole candidate `word`
    /// (or the condition is universal).
    pub fn check_condition(&self, word: &str) -> (r: bool)
        requires
            self.wf(),
        ensures
            r == self.condition_holds(word@),
    {
        match &self.condition {
            Some(p) => p.is_match(word),
            None => true,
        }
    }

    /// The strip/attach step alone, on the original `word`, at end `kind`.
    pub fn transform(&self, word: &str, kind: RuleType) -> (r: String)
        ensures
            r@ == transformed(*self, word@, kind),
    {
        match kind {
            RuleType::Suffix => {
                let base: &str = match &self.strip {
                    Some(st) => {
                        if str_ends_with(word, st.as_str()) {
                            let n = word.unicode_len();
                            let m = st.unicode_len();
                            word.substring_char(0, n - m)
                        } else {
                            proof {
                                assert(word@.subrange(0, word@.len() as int) =~= word@);
                            }
                            word
                        }
                    },
                    None => {
                        proof {
                            assert(word@.subrange(0, word@.len() as int) =~= word@);
                        }
                        word
                    },
                };
                concat_str(base, self.affix.as_str())
            },
            RuleType::Prefix => {
                let base: &str = match &self.strip {
                    Some(st) => {
                        if str_starts_with(word, st.as_str()) {
                            let n = word.unicode_len();
                            let m = st.unicode_len();
                            word.substring_char(m, n)
                        } else {
                            proof {
                                assert(word@.subrange(0, word@.len() as int) =~= word@);
                            }
                            word
                        }
                    },
                    None => {
                        proof {
                            assert(word@.subrange(0, word@.len() as int) =~= word@);
                        }
                        word
                    },
                };
                concat_str(self.affix.as_str(), base)
            },
        }
    }

    /// Apply the rule to `word` at end `kind`: nothing when the condition
    /// rejects `word` (the rule is inapplicable, not an error); otherwise the
    /// strip/attach transform of the original word. Never a half-applied
    /// result.
    pub fn apply_pattern(&self, word: &str, kind: RuleType) -> (r: Option<String>)
        requires
            self.wf(),
        ensures
            r is Some <==> self.condition_holds(word@),
            r matches Some(s) ==> s@ == transformed(*self, word@, kind),
    {
        if !self.check_condition(word) {
            return None;
        }
        Some(self.transform(word, kind))
    }
}

/// The first rule in order whose condition admits `word`.
pub open spec fn first_matching_rule(rules: Seq<AffixRule>, word: Seq<char>) -> Option<AffixRule>
    decreases rules.len(),
{
    if rules.len() == 0 {
        None
    } else if rules[0].condition_holds(word) {
        Some(rules[0])
    } else {
        first_matching_rule(rules.drop_first(), word)
    }
}

/// The surface a rule sequence produces for `word`: the first matching
/// rule's transform, if any rule matches.
pub open spec fn first_match(rules: Seq<AffixRule>, word: Seq<char>, kind: RuleType) -> Option<
    Seq<char>,
> {
    match first_matching_rule(rules, word) {
        Some(rule) => Some(transformed(rule, word, kind)),
        None => None,
    }
}

/// First-match-wins: when rule `k` admits the word and no earlier rule does,
/// the sequence's application yields exactly rule `k`'s transform — specific
/// rules shadow more general fallbacks that follow them.
pub proof fn lemma_first_match_wins(rules: Seq<AffixRule>, word: Seq<char>, kind: RuleType, k: int)
    requires
        0 <= k < rules.len(),
        rules[k].condition_holds(word),
        forall|j: int| 0 <= j < k ==> !(#[trigger] rules[j]).condition_holds(word),
    ensures
        first_match(rules, word, kind) == Some(transformed(rules[k], word, kind)),
    decreases k,
{
    if k == 0 {
    } else {
        assert(!rules[0].condition_holds(word));
        assert forall|j: int| 0 <= j < k - 1 implies !(#[trigger] rules.drop_first()[j]).condition_holds(
            word,
        ) by {
            assert(rules.drop_first()[j] == rules[j + 1]);
        }
        assert(rules.drop_first()[k - 1] == rules[k]);
        lemma_first_match_wins(rules.drop_first(), word, kind, k - 1);
    }
}

/// A rule sequence yields nothing exactly when no rule's condition admits the
/// word: a silent non-match, the expected steady-state outcome.
pub proof fn lemma_no_rule_matches(rules: Seq<AffixRule>, word: Seq<char>)
    ensures
        first_matching_rule(rules, word) is None <==> forall|i: int|
            0 <= i < rules.len() ==> !(#[trigger] rules[i]).condition_holds(word),
    decreases rules.len(),
{
    if rules.len() == 0 {
    } else {
        lemma_no_rule_matches(rules.drop_first(), word);
        assert forall|i: int| 1 <= i < rules.len() implies rules.drop_first()[i - 1] == rules[i] by {}
        if first_matching_rule(rules, word) is None {
            assert forall|i: int| 0 <= i < rules.len() implies !(#[trigger] rules[i]).condition_holds(
                word,
            ) by {
                if i >= 1 {
                    assert(rules[i] == rules.drop_first()[i - 1]);
                }
            }
        } else {
            if !rules[0].condition_holds(word) {
                let r = choose|i: int|
                    0 <= i < rules.drop_first().len() && (#[trigger] rules.drop_first()[i]).condition_holds(
                        word,
                    );
                assert(rules[r + 1].condition_holds(word));
            }
        }
    }
}

/// The ordered affix rules sharing one flag identifier and one kind.
/// Built once by the loader; read-only thereafter.
pub struct RuleGroup {
    /// Dictionary-assigned flag identifier.
    pub flag: String,
    /// Which end the group's rules affect.
    pub kind: RuleType,
    /// Whether this group may be applied together with a complementary-kind
    /// group in the same generation request.
    pub can_combine: bool,
    /// Ordered rules; order is semantically significant (first match wins).
    pub rules: Vec<AffixRule>,
}

impl RuleGroup {
    /// Every rule's compiled pattern is well formed.
    pub open spec fn wf(&self) -> bool {
        forall|i: int| 0 <= i < self.rules@.len() ==> (#[trigger] self.rules@[i]).wf()
    }

    /// Index of the first rule whose condition admits `word`.
    pub fn first_match_index(&self, word: &str) -> (r: Option<usize>)
        requires
            self.wf(),
        ensures
            match r {
                Some(i) => i < self.rules@.len() && first_matching_rule(self.rules@, word@)
                    == Some(self.rules@[i as int]),
                None => first_matching_rule(self.rules@, word@) is None,
            },
    {
        proof {
            assert(self.rules@.skip(0) =~= self.rules@);
        }
        let mut i: usize = 0;
        while i < self.rules.len()
            invariant
                self.wf(),
                i <= self.rules@.len(),
                first_matching_rule(self.rules@, word@) == first_matching_rule(
                    self.rules@.skip(i as int),
                    word@,
                ),
            decreases self.rules@.len() - i,
        {
            proof {
                assert(self.rules@.skip(i as int)[0] == self.rules@[i as int]);
            }
            if self.rules[i].check_condition(word) {
                return Some(i);
            }
            proof {
                assert(self.rules@.skip(i as int).drop_first() =~= self.rules@.skip(i as int + 1));
            }
            i = i + 1;
        }
        proof {
            assert(self.rules@.skip(i as int) =~= Seq::<AffixRule>::empty());
        }
        None
    }

    /// First-match-wins application: the result of the first rule in stored
    /// order whose condition admits `word`; nothing when no rule matches
    /// (a normal outcome, not an error).
    pub fn apply_pattern(&self, word: &str) -> (r: Option<String>)
        requires
            self.wf(),
        ensures
            match r {
                Some(s) => first_match(self.rules@, word@, self.kind) == Some(s@),
                None => first_match(self.rules@, word@, self.kind) is None,
            },
    {
        match self.first_match_index(word) {
            Some(i) => Some(self.rules[i].transform(word, self.kind)),
            None => None,
        }
    }
}

} // verus!
