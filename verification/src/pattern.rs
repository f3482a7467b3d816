//! Condition compiler: anchored pattern matchers over candidate words.
//!
//! A textual condition is compiled once, at rule-construction time, into a
//! pattern anchored to the affected end of the word: start-anchored for
//! prefix rules, end-anchored for suffix rules. The distinguished condition
//! `"."` is the universal matcher and is represented as "no pattern".

use crate::text::concat_str;
use crate::text::str_eq;
use vstd::prelude::*;
use vstd::string::*;

verus! {

/// Which end of a stem an affix rule affects.
#[derive(Clone, Copy, PartialEq, Eq, Structural, Debug)]
pub enum RuleType {
    Prefix,
    Suffix,
}

/// Construction-time failure: the condition text does not compile into a
/// valid pattern. Never recovered internally; surfaced to the loader.
#[derive(Clone, Copy, PartialEq, Eq, Structural, Debug)]
pub enum CompileError {
    InvalidPattern,
}

#[verifier::external_type_specification]
#[verifier::external_body]
pub struct ExRegex(regex::Regex);

#[verifier::external_type_specification]
#[verifier::external_body]
pub struct ExRegexError(regex::Error);

/// Whether `regex::Regex::new` accepts `pattern`; compilation succeeds or
/// fails on the pattern text alone.
pub uninterp spec fn regex_valid(pattern: Seq<char>) -> bool;

/// The pattern text a compiled regex was built from (what
/// `regex::Regex::as_str` returns); a compiled regex determines it exactly.
pub uninterp spec fn re_source(re: regex::Regex) -> Seq<char>;

/// Whether the regex compiled from `pattern` matches somewhere in `text`
/// (what `regex::Regex::is_match` returns); a function of the two texts alone.
pub uninterp spec fn regex_match(pattern: Seq<char>, text: Seq<char>) -> bool;

/// Relies on `regex::Regex::new`: success depends on the pattern text alone,
/// and the compiled value remembers exactly the text it was built from.
#[verifier::external_body]
fn regex_new(pattern: &str) -> (r: Result<regex::Regex, regex::Error>)
    ensures
        r is Ok <==> regex_valid(pattern@),
        r matches Ok(re) ==> re_source(re) == pattern@,
{
    regex::Regex::new(pattern)
}

/// Relies on `regex::Regex::is_match`: the result depends only on the text
/// the regex was compiled from and on the candidate string.
#[verifier::external_body]
fn regex_is_match(re: &regex::Regex, text: &str) -> (r: bool)
    ensures
        r == regex_match(re_source(*re), text@),
{
    re.is_match(text)
}

/// A compiled condition matcher, owned by exactly one affix rule.
/// Its identity is its source text: two patterns are equal when their
/// source texts are equal.
#[derive(Debug)]
pub struct Pattern {
    source: String,
    re: regex::Regex,
}

impl View for Pattern {
    type V = Seq<char>;

    /// The pattern text this matcher was compiled from.
    closed spec fn view(&self) -> Seq<char> {
        self.source@
    }
}

impl Pattern {
    /// The compiled automaton was built from exactly the stored source text.
    pub closed spec fn wf(&self) -> bool {
        regex_valid(self.source@) && re_source(self.re) == self.source@
    }

    /// Compile `source` into a matcher; fails exactly when the pattern text
    /// is rejected by the pattern compiler.
    pub fn new(source: String) -> (r: Result<Pattern, CompileError>)
        ensures
            r is Ok <==> regex_valid(source@),
            r matches Ok(p) ==> p.wf() && p@ == source@,
            r is Err ==> r == Err::<Pattern, CompileError>(CompileError::InvalidPattern),
    {
        match regex_new(source.as_str()) {
            Ok(re) => Ok(Pattern { source, re }),
            Err(_) => Err(CompileError::InvalidPattern),
        }
    }

    /// Whether the pattern matches `text`.
    pub fn is_match(&self, text: &str) -> (r: bool)
        requires
            self.wf(),
        ensures
            r == regex_match(self@, text@),
    {
        regex_is_match(&self.re, text)
    }

    /// The source text of the pattern.
    pub fn source(&self) -> (r: &str)
        ensures
            r@ == self@,
    {
        self.source.as_str()
    }
}

impl PartialEq for Pattern {
    /// Value-based equality over the canonical source text.
    fn eq(&self, other: &Pattern) -> (r: bool) {
        str_eq(self.source.as_str(), other.source.as_str())
    }
}

impl vstd::std_specs::cmp::PartialEqSpecImpl for Pattern {
    open spec fn obeys_eq_spec() -> bool {
        true
    }

    open spec fn eq_spec(&self, other: &Pattern) -> bool {
        self.view() == other.view()
    }
}

/// The kind-specific anchored pattern text for a non-universal condition:
/// start-anchored for prefix rules, end-anchored for suffix rules.
pub open spec fn anchored_source(cond: Seq<char>, kind: RuleType) -> Seq<char> {
    match kind {
        RuleType::Prefix => seq!['^'] + cond + seq!['.', '*', '$'],
        RuleType::Suffix => seq!['^', '.', '*'] + cond + seq!['$'],
    }
}

/// What compiling a condition yields: no pattern for the universal condition
/// `"."`, the anchored pattern when it is valid, and an error otherwise.
pub open spec fn spec_compile(cond: Seq<char>, kind: RuleType) -> Result<
    Option<Seq<char>>,
    CompileError,
> {
    if cond == seq!['.'] {
        Ok(None)
    } else if regex_valid(anchored_source(cond, kind)) {
        Ok(Some(anchored_source(cond, kind)))
    } else {
        Err(CompileError::InvalidPattern)
    }
}

/// Build the anchored pattern text for `condition`.
fn build_anchored(condition: &str, kind: RuleType) -> (r: String)
    ensures
        r@ == anchored_source(condition@, kind),
{
    match kind {
        RuleType::Prefix => {
            let mut s = concat_str("^", condition);
            s.append(".*$");
            proof {
                reveal_strlit("^");
                reveal_strlit(".*$");
                assert(s@ =~= anchored_source(condition@, kind));
            }
            s
        },
        RuleType::Suffix => {
            let mut s = concat_str("^.*", condition);
            s.append("$");
            proof {
                reveal_strlit("^.*");
                reveal_strlit("$");
                assert(s@ =~= anchored_source(condition@, kind));
            }
            s
        },
    }
}

/// Compile a textual condition in the context of an affix rule.
///
/// The universal condition `"."` yields `Ok(None)` (always true, no pattern
/// object); any other condition is wrapped with the kind-specific anchor and
/// compiled, failing with `InvalidPattern` exactly when the pattern compiler
/// rejects the anchored text.
pub fn compile_re_pattern(condition: &str, kind: RuleType) -> (r: Result<
    Option<Pattern>,
    CompileError,
>)
    requires
        condition@.len() >= 1,
    ensures
        r == Ok::<Option<Pattern>, CompileError>(None) <==> condition@ == seq!['.'],
        match r {
            Ok(None) => spec_compile(condition@, kind) == Ok::<Option<Seq<char>>, CompileError>(
                None,
            ),
            Ok(Some(p)) => p.wf() && spec_compile(condition@, kind) == Ok::<
                Option<Seq<char>>,
                CompileError,
            >(Some(p@)),
            Err(e) => spec_compile(condition@, kind) == Err::<Option<Seq<char>>, CompileError>(e),
        },
{
    if str_eq(condition, ".") {
        proof {
            reveal_strlit(".");
            assert(condition@ =~= seq!['.']);
        }
        return Ok(None);
    }
    proof {
        reveal_strlit(".");
        assert(condition@ != seq!['.']) by {
            if condition@ == seq!['.'] {
                assert(condition@ =~= "."@);
            }
        }
    }
    let anchored = build_anchored(condition, kind);
    match Pattern::new(anchored) {
        Ok(p) => Ok(Some(p)),
        Err(_) => Err(CompileError::InvalidPattern),
    }
}

} // verus!
