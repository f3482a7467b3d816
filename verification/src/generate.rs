//! Word generator: combinatorial generation of inflected surface forms from a
//! dictionary stem and a set of morphological flags.
//!
//! The generator owns a flag table (flag and kind to rule group) built by an
//! external loader, and queries it per request: one result per matching
//! prefix group, then per matching suffix group, then one per combinable
//! (prefix, suffix) pair — the combined form strips and attaches each end
//! independently on the original stem, never by nesting one rule's output
//! into the other's input.

use crate::affix::AffixRule;
use crate::affix::RuleGroup;
use crate::affix::cut_len;
use crate::affix::first_matching_rule;
use crate::affix::transformed;
use crate::pattern::RuleType;
use crate::text::clone_strings;
use crate::text::concat_str;
use crate::text::str_ends_with;
use crate::text::str_eq;
use crate::text::str_starts_with;
use vstd::prelude::*;
use vstd::slice::slice_index_get;
use vstd::string::*;

verus! {

/// A single produced word: the surface string and the morphological tags of
/// the contributing rules (prefix rule's tags first, then suffix rule's).
pub struct GenerationResult {
    /// The generated surface form.
    pub surface: String,
    /// Morphological tag strings carried over from the producing rules.
    pub morph_info: Vec<String>,
}

/// Ghost model of a generation result.
pub ghost struct GenModel {
    pub surface: Seq<char>,
    pub morph: Seq<String>,
}

impl View for GenerationResult {
    type V = GenModel;

    open spec fn view(&self) -> GenModel {
        GenModel { surface: self.surface@, morph: self.morph_info@ }
    }
}

/// The tags joined in order, one space before each: the human-readable
/// breakdown of `tags`.
pub open spec fn spec_breakdown(tags: Seq<String>) -> Seq<char>
    decreases tags.len(),
{
    if tags.len() == 0 {
        Seq::empty()
    } else {
        spec_breakdown(tags.drop_last()) + seq![' '] + tags.last()@
    }
}

impl GenerationResult {
    /// A human-readable breakdown of the contributing rules' morphological
    /// tags, each preceded by one space.
    pub fn morph_breakdown(&self) -> (r: String)
        ensures
            r@ == spec_breakdown(self.morph_info@),
    {
        let mut out = String::new();
        proof {
            assert(self.morph_info@.take(0) =~= Seq::<String>::empty());
            assert(out@ =~= spec_breakdown(self.morph_info@.take(0)));
        }
        let mut i: usize = 0;
        while i < self.morph_info.len()
            invariant
                i <= self.morph_info@.len(),
                out@ == spec_breakdown(self.morph_info@.take(i as int)),
            decreases self.morph_info@.len() - i,
        {
            proof {
                assert(self.morph_info@.take(i as int + 1).drop_last() =~= self.morph_info@.take(
                    i as int,
                ));
                assert(self.morph_info@.take(i as int + 1).last() == self.morph_info@[i as int]);
                reveal_strlit(" ");
            }
            out.append(" ");
            out.append(self.morph_info[i].as_str());
            proof {
                assert(out@ =~= spec_breakdown(self.morph_info@.take(i as int + 1)));
            }
            i = i + 1;
        }
        proof {
            assert(self.morph_info@.take(self.morph_info@.len() as int) =~= self.morph_info@);
        }
        out
    }
}

/// The models of a sequence of generation results.
pub open spec fn models(s: Seq<GenerationResult>) -> Seq<GenModel> {
    s.map_values(|g: GenerationResult| g@)
}

/// Flags with duplicates removed: the subsequence of first occurrences, in
/// request order.
pub open spec fn dedup_flags(flags: Seq<Seq<char>>) -> Seq<Seq<char>>
    decreases flags.len(),
{
    if flags.len() == 0 {
        Seq::empty()
    } else {
        let init = dedup_flags(flags.drop_last());
        if flags.drop_last().contains(flags.last()) {
            init
        } else {
            init.push(flags.last())
        }
    }
}

/// Removing duplicates keeps exactly the flags that were present.
pub proof fn lemma_dedup_contains(flags: Seq<Seq<char>>, x: Seq<char>)
    ensures
        dedup_flags(flags).contains(x) <==> flags.contains(x),
    decreases flags.len(),
{
    if flags.len() == 0 {
    } else {
        lemma_dedup_contains(flags.drop_last(), x);
        assert(flags.contains(x) <==> (flags.drop_last().contains(x) || flags.last() == x)) by {
            if flags.contains(x) {
                let w = choose|w: int| 0 <= w < flags.len() && flags[w] == x;
                if w < flags.len() - 1 {
                    assert(flags.drop_last()[w] == x);
                }
            }
            if flags.drop_last().contains(x) {
                let w = choose|w: int| 0 <= w < flags.drop_last().len() && flags.drop_last()[w]
                    == x;
                assert(flags[w] == x);
            }
            if flags.last() == x {
                assert(flags[flags.len() - 1] == x);
            }
        }
        let init = dedup_flags(flags.drop_last());
        if !flags.drop_last().contains(flags.last()) {
            assert(dedup_flags(flags) == init.push(flags.last()));
            assert(init.push(flags.last()).contains(x) <==> (init.contains(x) || flags.last()
                == x)) by {
                if init.push(flags.last()).contains(x) {
                    let w = choose|w: int|
                        0 <= w < init.push(flags.last()).len() && init.push(flags.last())[w] == x;
                    if w < init.len() {
                        assert(init[w] == x);
                    }
                }
                if init.contains(x) {
                    let w = choose|w: int| 0 <= w < init.len() && init[w] == x;
                    assert(init.push(flags.last())[w] == x);
                }
                assert(init.push(flags.last())[init.len() as int] == flags.last());
            }
        }
    }
}

/// The first group in the table carrying `flag` with `kind`.
pub open spec fn lookup_group(groups: Seq<RuleGroup>, flag: Seq<char>, kind: RuleType) -> Option<
    RuleGroup,
>
    decreases groups.len(),
{
    if groups.len() == 0 {
        None
    } else if groups[0].flag@ == flag && groups[0].kind == kind {
        Some(groups[0])
    } else {
        lookup_group(groups.drop_first(), flag, kind)
    }
}

/// The groups, in flag order, that the request's flags resolve to for `kind`;
/// flags naming no group are ignored (a request may carry a superset of the
/// flags the table knows).
pub open spec fn resolved_groups(
    groups: Seq<RuleGroup>,
    flags: Seq<Seq<char>>,
    kind: RuleType,
) -> Seq<RuleGroup>
    decreases flags.len(),
{
    if flags.len() == 0 {
        Seq::empty()
    } else {
        let init = resolved_groups(groups, flags.drop_last(), kind);
        match lookup_group(groups, flags.last(), kind) {
            Some(g) => init.push(g),
            None => init,
        }
    }
}

/// One single-end result per resolved group with a matching rule, in order.
pub open spec fn single_results(gs: Seq<RuleGroup>, stem: Seq<char>) -> Seq<GenModel>
    decreases gs.len(),
{
    if gs.len() == 0 {
        Seq::empty()
    } else {
        let init = single_results(gs.drop_last(), stem);
        match first_matching_rule(gs.last().rules@, stem) {
            Some(rule) => init.push(
                GenModel {
                    surface: transformed(rule, stem, gs.last().kind),
                    morph: rule.morph_info@,
                },
            ),
            None => init,
        }
    }
}

/// The combined surface: prefix-transformed head, unchanged middle,
/// suffix-transformed tail — each end stripped and attached according to its
/// own rule as if the other transform were not happening.
pub open spec fn combined_surface(p: AffixRule, s: AffixRule, stem: Seq<char>) -> Seq<char> {
    let hc = cut_len(stem, p.strip_view(), RuleType::Prefix);
    let tc = cut_len(stem, s.strip_view(), RuleType::Suffix);
    if hc + tc <= stem.len() {
        p.affix@ + stem.subrange(hc, stem.len() - tc) + s.affix@
    } else {
        p.affix@ + s.affix@
    }
}

/// The model of one combined result: both transforms on the original stem,
/// morphological tags concatenated (prefix tags, then suffix tags).
pub open spec fn pair_model(p: AffixRule, s: AffixRule, stem: Seq<char>) -> GenModel {
    GenModel { surface: combined_surface(p, s, stem), morph: p.morph_info@ + s.morph_info@ }
}

/// Combined results of one prefix group against the suffix groups, in order:
/// one per suffix group when both groups allow combination and both have a
/// matching rule.
pub open spec fn pairs_for(pg: RuleGroup, ss: Seq<RuleGroup>, stem: Seq<char>) -> Seq<GenModel>
    decreases ss.len(),
{
    if ss.len() == 0 {
        Seq::empty()
    } else {
        let init = pairs_for(pg, ss.drop_last(), stem);
        let sg = ss.last();
        if pg.can_combine && sg.can_combine {
            match (first_matching_rule(pg.rules@, stem), first_matching_rule(sg.rules@, stem)) {
                (Some(pr), Some(sr)) => init.push(pair_model(pr, sr, stem)),
                _ => init,
            }
        } else {
            init
        }
    }
}

/// All combined results, prefix-major.
pub open spec fn pair_results(ps: Seq<RuleGroup>, ss: Seq<RuleGroup>, stem: Seq<char>) -> Seq<
    GenModel,
>
    decreases ps.len(),
{
    if ps.len() == 0 {
        Seq::empty()
    } else {
        pair_results(ps.drop_last(), ss, stem) + pairs_for(ps.last(), ss, stem)
    }
}

/// Everything one generation request produces, in order: single-prefix
/// results, then single-suffix results, then combined results.
pub open spec fn spec_generate(
    groups: Seq<RuleGroup>,
    stem: Seq<char>,
    flags: Seq<Seq<char>>,
) -> Seq<GenModel> {
    let df = dedup_flags(flags);
    let ps = resolved_groups(groups, df, RuleType::Prefix);
    let ss = resolved_groups(groups, df, RuleType::Suffix);
    single_results(ps, stem) + single_results(ss, stem) + pair_results(ps, ss, stem)
}

/// An empty flag set generates nothing: the empty result list is the normal
/// outcome, not an error.
pub proof fn lemma_generate_empty_flags(groups: Seq<RuleGroup>, stem: Seq<char>)
    ensures
        spec_generate(groups, stem, Seq::empty()) == Seq::<GenModel>::empty(),
{
    assert(spec_generate(groups, stem, Seq::empty()) =~= Seq::<GenModel>::empty());
}

/// Whether a vector of flags contains `x`.
fn contains_str(v: &Vec<&str>, x: &str) -> (r: bool)
    ensures
        r == v.deep_view().contains(x@),
{
    let mut i: usize = 0;
    while i < v.len()
        invariant
            i <= v@.len(),
            forall|k: int| 0 <= k < i ==> v.deep_view()[k] != x@,
        decreases v@.len() - i,
    {
        if str_eq(v[i], x) {
            proof {
                assert(v.deep_view()[i as int] == x@);
            }
            return true;
        }
        i = i + 1;
    }
    false
}

/// The request's flags with duplicates removed, keeping first occurrences.
fn dedup_exec<'a>(flags: &[&'a str]) -> (r: Vec<&'a str>)
    ensures
        r.deep_view() == dedup_flags(flags.deep_view()),
{
    let mut out: Vec<&str> = Vec::new();
    proof {
        assert(flags.deep_view().take(0) =~= Seq::<Seq<char>>::empty());
    }
    let mut i: usize = 0;
    while i < flags.len()
        invariant
            i <= flags@.len(),
            out.deep_view() == dedup_flags(flags.deep_view().take(i as int)),
        decreases flags@.len() - i,
    {
        let f: &str = *slice_index_get(flags, i);
        let ghost pre = flags.deep_view().take(i as int);
        proof {
            assert(flags.deep_view().take(i as int + 1).drop_last() =~= pre);
            assert(flags.deep_view().take(i as int + 1).last() == f@);
            lemma_dedup_contains(pre, f@);
        }
        if !contains_str(&out, f) {
            let ghost old_out = out.deep_view();
            out.push(f);
            proof {
                assert(out.deep_view() =~= old_out.push(f@));
            }
        }
        i = i + 1;
    }
    proof {
        assert(flags.deep_view().take(flags@.len() as int) =~= flags.deep_view());
    }
    out
}

/// Strip both ends of the original stem and attach both affixes.
fn combine_surfaces(p: &AffixRule, s: &AffixRule, stem: &str) -> (r: String)
    ensures
        r@ == combined_surface(*p, *s, stem@),
{
    let n = stem.unicode_len();
    let hc: usize = match &p.strip {
        Some(st) => {
            if str_starts_with(stem, st.as_str()) {
                st.unicode_len()
            } else {
                0
            }
        },
        None => 0,
    };
    let tc: usize = match &s.strip {
        Some(st) => {
            if str_ends_with(stem, st.as_str()) {
                st.unicode_len()
            } else {
                0
            }
        },
        None => 0,
    };
    if hc <= n && tc <= n - hc {
        let middle = stem.substring_char(hc, n - tc);
        let tail = concat_str(middle, s.affix.as_str());
        let r = concat_str(p.affix.as_str(), tail.as_str());
        proof {
            assert(r@ =~= combined_surface(*p, *s, stem@));
        }
        r
    } else {
        concat_str(p.affix.as_str(), s.affix.as_str())
    }
}

/// The word generator: owns the flag table built by an external loader and
/// queries it per request; generation never mutates the table or a rule.
pub struct WordGenerator {
    /// The flag table: rule groups keyed by flag identifier and kind.
    pub groups: Vec<RuleGroup>,
}

impl WordGenerator {
    /// Every group is well formed and no two groups share a flag and kind.
    pub open spec fn wf(&self) -> bool {
        &&& forall|i: int| 0 <= i < self.groups@.len() ==> (#[trigger] self.groups@[i]).wf()
        &&& forall|i: int, j: int|
            #![trigger self.groups@[i], self.groups@[j]]
            0 <= i < j < self.groups@.len() ==> !(self.groups@[i].flag@ == self.groups@[j].flag@
                && self.groups@[i].kind == self.groups@[j].kind)
    }

    /// Take ownership of a fully built flag table.
    pub fn new(groups: Vec<RuleGroup>) -> (r: WordGenerator)
        ensures
            r.groups == groups,
    {
        WordGenerator { groups }
    }

    /// Index of the group for `flag` and `kind`, if the table has one.
    fn find_group(&self, flag: &str, kind: RuleType) -> (r: Option<usize>)
        ensures
            match r {
                Some(i) => i < self.groups@.len() && lookup_group(self.groups@, flag@, kind)
                    == Some(self.groups@[i as int]),
                None => lookup_group(self.groups@, flag@, kind) is None,
            },
    {
        proof {
            assert(self.groups@.skip(0) =~= self.groups@);
        }
        let mut i: usize = 0;
        while i < self.groups.len()
            invariant
                i <= self.groups@.len(),
                lookup_group(self.groups@, flag@, kind) == lookup_group(
                    self.groups@.skip(i as int),
                    flag@,
                    kind,
                ),
            decreases self.groups@.len() - i,
        {
            proof {
                assert(self.groups@.skip(i as int)[0] == self.groups@[i as int]);
            }
            let g = &self.groups[i];
            if str_eq(g.flag.as_str(), flag) && g.kind == kind {
                return Some(i);
            }
            proof {
                assert(self.groups@.skip(i as int).drop_first() =~= self.groups@.skip(
                    i as int + 1,
                ));
            }
            i = i + 1;
        }
        proof {
            assert(self.groups@.skip(i as int) =~= Seq::<RuleGroup>::empty());
        }
        None
    }

    /// Indices of the groups the deduplicated flags resolve to for `kind`.
    fn resolve(&self, flags: &Vec<&str>, kind: RuleType) -> (r: Vec<usize>)
        ensures
            forall|k: int| 0 <= k < r@.len() ==> (#[trigger] r@[k]) < self.groups@.len(),
            r@.map_values(|i: usize| self.groups@[i as int]) == resolved_groups(
                self.groups@,
                flags.deep_view(),
                kind,
            ),
    {
        let ghost gmap = |i: usize| self.groups@[i as int];
        let mut out: Vec<usize> = Vec::new();
        proof {
            assert(flags.deep_view().take(0) =~= Seq::<Seq<char>>::empty());
            assert(out@.map_values(gmap) =~= resolved_groups(self.groups@, flags.deep_view().take(0), kind));
        }
        let mut i: usize = 0;
        while i < flags.len()
            invariant
                i <= flags@.len(),
                forall|k: int| 0 <= k < out@.len() ==> (#[trigger] out@[k]) < self.groups@.len(),
                gmap == (|i: usize| self.groups@[i as int]),
                out@.map_values(gmap) == resolved_groups(
                    self.groups@,
                    flags.deep_view().take(i as int),
                    kind,
                ),
            decreases flags@.len() - i,
        {
            let f: &str = flags[i];
            proof {
                assert(flags.deep_view().take(i as int + 1).drop_last() =~= flags.deep_view().take(
                    i as int,
                ));
                assert(flags.deep_view().take(i as int + 1).last() == f@);
            }
            match self.find_group(f, kind) {
                Some(gi) => {
                    let ghost old_out = out@;
                    out.push(gi);
                    proof {
                        assert(out@.map_values(gmap) =~= old_out.map_values(gmap).push(
                            self.groups@[gi as int],
                        ));
                    }
                },
                None => {},
            }
            i = i + 1;
        }
        proof {
            assert(flags.deep_view().take(flags@.len() as int) =~= flags.deep_view());
        }
        out
    }

    /// Generate every valid inflected surface form of `stem` under `flags`.
    ///
    /// Flags with no group in the table are ignored; duplicate flags are
    /// deduplicated first. Results come in order: one per matching prefix
    /// group, then one per matching suffix group, then one per combinable
    /// pair whose two rules both match the original stem. An empty result is
    /// the normal outcome when nothing applies, not an error.
    pub fn generate(&self, stem: &str, flags: &[&str]) -> (r: Vec<GenerationResult>)
        requires
            self.wf(),
        ensures
            ({
                let m = spec_generate(self.groups@, stem@, flags.deep_view());
                models(r@) == m
            }),
    {
        let ghost gflags = flags.deep_view();
        let ghost df = dedup_flags(gflags);
        let ghost ps = resolved_groups(self.groups@, df, RuleType::Prefix);
        let ghost ss = resolved_groups(self.groups@, df, RuleType::Suffix);

        let dedup = dedup_exec(flags);
        let pidx = self.resolve(&dedup, RuleType::Prefix);
        let sidx = self.resolve(&dedup, RuleType::Suffix);
        let ghost gmap = |i: usize| self.groups@[i as int];
        proof {
            assert(pidx@.map_values(gmap) == ps);
            assert(sidx@.map_values(gmap) == ss);
            assert(pidx@.len() == ps.len());
            assert(sidx@.len() == ss.len());
        }

        let mut out: Vec<GenerationResult> = Vec::new();
        proof {
            assert(models(out@) =~= Seq::<GenModel>::empty());
            assert(ps.take(0) =~= Seq::<RuleGroup>::empty());
        }

        // Single-prefix results.
        let mut k: usize = 0;
        while k < pidx.len()
            invariant
                self.wf(),
                k <= pidx@.len(),
                forall|t: int| 0 <= t < pidx@.len() ==> (#[trigger] pidx@[t]) < self.groups@.len(),
                gmap == (|i: usize| self.groups@[i as int]),
                pidx@.map_values(gmap) == ps,
                models(out@) == single_results(ps.take(k as int), stem@),
            decreases pidx@.len() - k,
        {
            let g = &self.groups[pidx[k]];
            proof {
                assert(ps[k as int] == gmap(pidx@[k as int]));
                assert(ps.take(k as int + 1).drop_last() =~= ps.take(k as int));
                assert(ps.take(k as int + 1).last() == ps[k as int]);
            }
            let ghost old_models = models(out@);
            match g.first_match_index(stem) {
                Some(ri) => {
                    let rule = &g.rules[ri];
                    let surface = rule.transform(stem, g.kind);
                    let morph = clone_strings(&rule.morph_info);
                    out.push(GenerationResult { surface, morph_info: morph });
                    proof {
                        assert(models(out@) =~= old_models.push(
                            GenModel {
                                surface: transformed(*rule, stem@, g.kind),
                                morph: rule.morph_info@,
                            },
                        ));
                    }
                },
                None => {},
            }
            k = k + 1;
        }
        proof {
            assert(ps.take(ps.len() as int) =~= ps);
            assert(ss.take(0) =~= Seq::<RuleGroup>::empty());
        }

        // Single-suffix results, on the original stem.
        let mut k2: usize = 0;
        while k2 < sidx.len()
            invariant
                self.wf(),
                k2 <= sidx@.len(),
                forall|t: int| 0 <= t < sidx@.len() ==> (#[trigger] sidx@[t]) < self.groups@.len(),
                gmap == (|i: usize| self.groups@[i as int]),
                sidx@.map_values(gmap) == ss,
                models(out@) == single_results(ps, stem@) + single_results(
                    ss.take(k2 as int),
                    stem@,
                ),
            decreases sidx@.len() - k2,
        {
            let g = &self.groups[sidx[k2]];
            proof {
                assert(ss[k2 as int] == gmap(sidx@[k2 as int]));
                assert(ss.take(k2 as int + 1).drop_last() =~= ss.take(k2 as int));
                assert(ss.take(k2 as int + 1).last() == ss[k2 as int]);
            }
            let ghost old_models = models(out@);
            match g.first_match_index(stem) {
                Some(ri) => {
                    let rule = &g.rules[ri];
                    let surface = rule.transform(stem, g.kind);
                    let morph = clone_strings(&rule.morph_info);
                    out.push(GenerationResult { surface, morph_info: morph });
                    proof {
                        assert(models(out@) =~= old_models.push(
                            GenModel {
                                surface: transformed(*rule, stem@, g.kind),
                                morph: rule.morph_info@,
                            },
                        ));
                    }
                },
                None => {},
            }
            k2 = k2 + 1;
        }
        proof {
            assert(ss.take(ss.len() as int) =~= ss);
            assert(pair_results(ps.take(0), ss, stem@) =~= Seq::<GenModel>::empty());
            assert(ps.take(0) =~= Seq::<RuleGroup>::empty());
        }

        // Combined results: cross product of combinable pairs.
        let ghost singles = single_results(ps, stem@) + single_results(ss, stem@);
        let mut kp: usize = 0;
        while kp < pidx.len()
            invariant
                self.wf(),
                kp <= pidx@.len(),
                forall|t: int| 0 <= t < pidx@.len() ==> (#[trigger] pidx@[t]) < self.groups@.len(),
                forall|t: int| 0 <= t < sidx@.len() ==> (#[trigger] sidx@[t]) < self.groups@.len(),
                gmap == (|i: usize| self.groups@[i as int]),
                pidx@.map_values(gmap) == ps,
                sidx@.map_values(gmap) == ss,
                singles == single_results(ps, stem@) + single_results(ss, stem@),
                models(out@) == singles + pair_results(ps.take(kp as int), ss, stem@),
            decreases pidx@.len() - kp,
        {
            let pg = &self.groups[pidx[kp]];
            proof {
                assert(ps[kp as int] == gmap(pidx@[kp as int]));
                assert(ss.take(0) =~= Seq::<RuleGroup>::empty());
            }
            let mut ks: usize = 0;
            while ks < sidx.len()
                invariant
                    self.wf(),
                    kp < pidx@.len(),
                    ks <= sidx@.len(),
                    forall|t: int|
                        0 <= t < pidx@.len() ==> (#[trigger] pidx@[t]) < self.groups@.len(),
                    forall|t: int|
                        0 <= t < sidx@.len() ==> (#[trigger] sidx@[t]) < self.groups@.len(),
                    gmap == (|i: usize| self.groups@[i as int]),
                    pidx@.map_values(gmap) == ps,
                    sidx@.map_values(gmap) == ss,
                    pg == &self.groups[pidx@[kp as int] as int],
                    ps[kp as int] == *pg,
                    singles == single_results(ps, stem@) + single_results(ss, stem@),
                    models(out@) == singles + pair_results(ps.take(kp as int), ss, stem@)
                        + pairs_for(ps[kp as int], ss.take(ks as int), stem@),
                decreases sidx@.len() - ks,
            {
                let sg = &self.groups[sidx[ks]];
                proof {
                    assert(ss[ks as int] == gmap(sidx@[ks as int]));
                    assert(ss.take(ks as int + 1).drop_last() =~= ss.take(ks as int));
                    assert(ss.take(ks as int + 1).last() == ss[ks as int]);
                }
                let ghost old_models = models(out@);
                if pg.can_combine && sg.can_combine {
                    match (pg.first_match_index(stem), sg.first_match_index(stem)) {
                        (Some(pi), Some(si)) => {
                            let pr = &pg.rules[pi];
                            let sr = &sg.rules[si];
                            let surface = combine_surfaces(pr, sr, stem);
                            let mut morph = clone_strings(&pr.morph_info);
                            let mut smorph = clone_strings(&sr.morph_info);
                            morph.append(&mut smorph);
                            proof {
                                assert(morph@ =~= pr.morph_info@ + sr.morph_info@);
                            }
                            out.push(GenerationResult { surface, morph_info: morph });
                            proof {
                                assert(models(out@) =~= old_models.push(
                                    pair_model(*pr, *sr, stem@),
                                ));
                            }
                        },
                        _ => {},
                    }
                }
                ks = ks + 1;
            }
            proof {
                assert(ss.take(ss.len() as int) =~= ss);
                assert(ps.take(kp as int + 1).drop_last() =~= ps.take(kp as int));
                assert(ps.take(kp as int + 1).last() == ps[kp as int]);
            }
            kp = kp + 1;
        }
        proof {
            assert(ps.take(ps.len() as int) =~= ps);
        }
        out
    }
}

} // verus!
