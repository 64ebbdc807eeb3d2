//! The range-remapping core: rules, stages, and the interval
//! classification that splits a range against a rule's domain.
//!
//! A `GardenRule` maps the half-open domain `[source, source + length)`
//! onto `[target, target + length)` by a fixed additive offset; a
//! `GardenMap` (one stage) is a set of rules sorted by domain start,
//! completed by the identity everywhere no rule applies.

use vstd::prelude::*;

verus! {

use crate::text::{
    digits_val, first_token, first_token_chars, has_token_chars, lines_bytes, parse_usize,
    parses_to_usize, spec_tokens, tokenize, vecs_view,
};
use vstd::string::StringSliceAdditionalSpecFns;

/// A half-open interval of non-negative integers, `[start, start + length)`.
#[derive(PartialEq, Eq, Structural, Debug, Clone, Copy)]
pub struct GardenRange {
    pub start: usize,
    pub length: usize,
}

impl GardenRange {
    pub open spec fn end(self) -> int {
        self.start + self.length
    }

    /// The interval fits in `usize` arithmetic.
    pub open spec fn bounded(self) -> bool {
        self.start + self.length <= usize::MAX
    }

    pub fn new(start: usize, length: usize) -> (r: GardenRange)
        ensures
            r == (GardenRange { start, length }),
    {
        GardenRange { start, length }
    }

    pub fn as_range(&self) -> (r: core::ops::Range<usize>)
        requires
            self.bounded(),
        ensures
            r.start == self.start,
            r.end == self.end(),
    {
        self.start..self.start + self.length
    }
}

pub open spec fn sum_lengths(rs: Seq<GardenRange>) -> int
    decreases rs.len(),
{
    if rs.len() == 0 {
        0
    } else {
        rs[0].length + sum_lengths(rs.drop_first())
    }
}

pub open spec fn all_positive(rs: Seq<GardenRange>) -> bool {
    forall|i: int| 0 <= i < rs.len() ==> (#[trigger] rs[i]).length >= 1
}

pub open spec fn all_bounded(rs: Seq<GardenRange>) -> bool {
    forall|i: int| 0 <= i < rs.len() ==> (#[trigger] rs[i]).bounded()
}

pub open spec fn rem_length(rem: Option<GardenRange>) -> int {
    match rem {
        Some(t) => t.length as int,
        None => 0,
    }
}

pub proof fn lemma_sum_lengths_nonneg(rs: Seq<GardenRange>)
    ensures
        sum_lengths(rs) >= 0,
    decreases rs.len(),
{
    if rs.len() > 0 {
        lemma_sum_lengths_nonneg(rs.drop_first());
    }
}

proof fn lemma_sum_lengths_concat(a: Seq<GardenRange>, b: Seq<GardenRange>)
    ensures
        sum_lengths(a + b) == sum_lengths(a) + sum_lengths(b),
    decreases a.len(),
{
    if a.len() == 0 {
        assert(a + b =~= b);
    } else {
        assert((a + b).drop_first() =~= a.drop_first() + b);
        lemma_sum_lengths_concat(a.drop_first(), b);
    }
}

/// One remapping rule: the domain `[source, source + length)` is sent to
/// `[target, target + length)`.
#[derive(PartialEq, Eq, Structural, Debug, Clone, Copy)]
pub struct GardenRule {
    pub source: usize,
    pub target: usize,
    pub length: usize,
}

impl GardenRule {
    /// A rule as the parsing layer promises to deliver it: a non-empty
    /// domain whose image stays within `usize`.
    pub open spec fn wf(self) -> bool {
        &&& self.length >= 1
        &&& self.source + self.length <= usize::MAX
        &&& self.target + self.length <= usize::MAX
    }

    pub open spec fn domain_end(self) -> int {
        self.source + self.length
    }

    pub open spec fn in_domain(self, n: int) -> bool {
        self.source <= n < self.domain_end()
    }

    /// The offset map, defined on the domain.
    pub open spec fn apply(self, n: int) -> int {
        n - self.source + self.target
    }

    /// Maps a single point, or reports that the domain does not cover it.
    pub fn map(&self, num: usize) -> (r: Option<usize>)
        requires
            self.wf(),
        ensures
            self.in_domain(num as int) ==> r == Some(self.apply(num as int) as usize),
            !self.in_domain(num as int) ==> r is None,
    {
        if num >= self.source && num - self.source < self.length {
            Some(self.target + (num - self.source))
        } else {
            None
        }
    }

    pub fn source_range(&self) -> (r: core::ops::Range<usize>)
        requires
            self.source + self.length <= usize::MAX,
        ensures
            r.start == self.source,
            r.end == self.domain_end(),
    {
        self.source..self.source + self.length
    }

    /// The pieces of `r` that are final for the enclosing stage: parts
    /// already offset-mapped by this rule, and identity parts lying
    /// strictly before the domain, which no later (sorted) rule can claim.
    /// Degenerate zero-length pieces are dropped, never emitted.
    pub open spec fn split_resolved(self, r: GardenRange) -> Seq<GardenRange> {
        let rs = r.start as int;
        let re = r.end();
        let ds = self.source as int;
        let de = self.domain_end();
        if r.length == 0 {
            Seq::empty()
        } else if de <= rs {
            // domain entirely before the range
            Seq::empty()
        } else if re <= ds {
            // domain entirely after the range: identity, final
            seq![r]
        } else if rs == ds && re == de {
            // range equals the domain
            seq![GardenRange { start: self.target, length: self.length }]
        } else if ds <= rs && re <= de {
            // domain covers the range
            seq![GardenRange { start: self.apply(rs) as usize, length: r.length }]
        } else if rs < ds && de < re {
            // range strictly contains the domain
            seq![
                GardenRange { start: r.start, length: (ds - rs) as usize },
                GardenRange { start: self.target, length: self.length },
            ]
        } else if rs < ds {
            // range overlaps the front of the domain
            seq![
                GardenRange { start: r.start, length: (ds - rs) as usize },
                GardenRange { start: self.target, length: (re - ds) as usize },
            ]
        } else {
            // range overlaps the back of the domain
            seq![GardenRange { start: self.apply(rs) as usize, length: (de - rs) as usize }]
        }
    }

    /// The suffix of `r` that later rules of the stage must still examine:
    /// exactly the part of `r` at or beyond the domain's end.
    pub open spec fn split_remainder(self, r: GardenRange) -> Option<GardenRange> {
        let rs = r.start as int;
        let re = r.end();
        let ds = self.source as int;
        let de = self.domain_end();
        if r.length == 0 {
            None
        } else if de <= rs {
            Some(r)
        } else if re <= ds {
            None
        } else if de < re {
            Some(GardenRange { start: de as usize, length: (re - de) as usize })
        } else {
            None
        }
    }

    /// Splits `r` against this rule's domain: the seven-way classification
    /// of the relative position of range and domain, written as one
    /// conditional chain so every boundary convention is auditable here.
    pub fn map_range(&self, range: &GardenRange) -> (r: (Vec<GardenRange>, Option<GardenRange>))
        requires
            self.wf(),
            range.bounded(),
        ensures
            r.0@ == self.split_resolved(*range),
            r.1 == self.split_remainder(*range),
    {
        let rs = range.start;
        let ds = self.source;
        let mut resolved: Vec<GardenRange> = Vec::new();
        let mut remainder: Option<GardenRange> = None;
        if range.length == 0 {
            // degenerate input: nothing to map
        } else if ds + self.length <= rs {
            // domain before range: everything is still unresolved
            remainder = Some(*range);
        } else if rs + range.length <= ds {
            // domain after range: identity, final for this stage
            resolved.push(*range);
        } else if rs == ds && range.length == self.length {
            // equal
            resolved.push(GardenRange { start: self.target, length: self.length });
        } else if ds <= rs && rs + range.length <= ds + self.length {
            // domain covers range
            resolved.push(GardenRange { start: self.target + (rs - ds), length: range.length });
        } else if rs < ds && ds + self.length < rs + range.length {
            // range strictly contains domain
            resolved.push(GardenRange { start: rs, length: ds - rs });
            resolved.push(GardenRange { start: self.target, length: self.length });
            remainder = Some(GardenRange {
                start: ds + self.length,
                length: (rs + range.length) - (ds + self.length),
            });
        } else if rs < ds {
            // range overlaps the front of the domain
            resolved.push(GardenRange { start: rs, length: ds - rs });
            resolved.push(GardenRange { start: self.target, length: (rs + range.length) - ds });
        } else {
            // range overlaps the back of the domain
            resolved.push(GardenRange {
                start: self.target + (rs - ds),
                length: (ds + self.length) - rs,
            });
            remainder = Some(GardenRange {
                start: ds + self.length,
                length: (rs + range.length) - (ds + self.length),
            });
        }
        proof {
            assert(resolved@ =~= self.split_resolved(*range));
        }
        (resolved, remainder)
    }
}

/// Splitting a range against a rule loses no length and creates none:
/// the resolved pieces and the remainder partition the input's length.
pub proof fn lemma_rule_split_conserves(rule: GardenRule, r: GardenRange)
    requires
        rule.wf(),
        r.bounded(),
    ensures
        sum_lengths(rule.split_resolved(r)) + rem_length(rule.split_remainder(r)) == r.length,
{
    reveal_with_fuel(sum_lengths, 3);
    let res = rule.split_resolved(r);
    if res.len() == 1 {
        assert(res.drop_first() =~= Seq::<GardenRange>::empty());
    }
    if res.len() == 2 {
        assert(res.drop_first()[0] == res[1]);
        assert(res.drop_first().drop_first() =~= Seq::<GardenRange>::empty());
    }
}

/// No piece a rule emits is empty, and every piece still fits `usize`.
pub proof fn lemma_rule_split_positive(rule: GardenRule, r: GardenRange)
    requires
        rule.wf(),
        r.bounded(),
    ensures
        all_positive(rule.split_resolved(r)),
        all_bounded(rule.split_resolved(r)),
        rule.split_remainder(r) matches Some(t) ==> t.length >= 1 && t.bounded(),
{
}

/// How a rule splits the one-point range `[n, n + 1)`.
proof fn lemma_rule_split_point(rule: GardenRule, n: usize)
    requires
        rule.wf(),
        n < usize::MAX,
    ensures
        rule.in_domain(n as int) ==> rule.split_resolved(GardenRange { start: n, length: 1 })
            =~= seq![GardenRange { start: rule.apply(n as int) as usize, length: 1 }]
            && rule.split_remainder(GardenRange { start: n, length: 1 }) is None,
        (n as int) < rule.source ==> rule.split_resolved(GardenRange { start: n, length: 1 })
            =~= seq![GardenRange { start: n, length: 1 }]
            && rule.split_remainder(GardenRange { start: n, length: 1 }) is None,
        (n as int) >= rule.domain_end() ==> rule.split_resolved(
            GardenRange { start: n, length: 1 },
        ) =~= Seq::<GardenRange>::empty()
            && rule.split_remainder(GardenRange { start: n, length: 1 })
            == Some(GardenRange { start: n, length: 1 }),
{
}

/// All rules of a stage are well formed and sorted ascending by domain
/// start, the invariant its constructor establishes.
pub open spec fn rules_wf(rules: Seq<GardenRule>) -> bool {
    &&& forall|i: int| 0 <= i < rules.len() ==> (#[trigger] rules[i]).wf()
    &&& forall|i: int, j: int|
        0 <= i < j < rules.len() ==> rules[i].source <= rules[j].source
}

/// Where a stage sends one point: the first rule whose domain holds it,
/// or the identity if none does.
pub open spec fn stage_point(rules: Seq<GardenRule>, n: int) -> int
    decreases rules.len(),
{
    if rules.len() == 0 {
        n
    } else if rules[0].in_domain(n) {
        rules[0].apply(n)
    } else {
        stage_point(rules.drop_first(), n)
    }
}

/// How a stage splits a range: each rule in order takes the current
/// remainder, resolves what it can, and passes the rest on.
pub open spec fn stage_split_from(rules: Seq<GardenRule>, rem: Option<GardenRange>) -> (Seq<
    GardenRange,
>, Option<GardenRange>)
    decreases rules.len(),
{
    if rules.len() == 0 {
        (Seq::empty(), rem)
    } else {
        match rem {
            None => (Seq::empty(), None),
            Some(t) => {
                let tail = stage_split_from(
                    rules.drop_first(),
                    rules[0].split_remainder(t),
                );
                (rules[0].split_resolved(t) + tail.0, tail.1)
            },
        }
    }
}

/// Conservation and positivity, lifted from one rule to a whole stage.
proof fn lemma_stage_split_props(rules: Seq<GardenRule>, rem: Option<GardenRange>)
    requires
        rules_wf(rules),
        rem matches Some(t) ==> t.bounded(),
    ensures
        sum_lengths(stage_split_from(rules, rem).0) + rem_length(stage_split_from(rules, rem).1)
            == rem_length(rem),
        all_positive(stage_split_from(rules, rem).0),
        all_bounded(stage_split_from(rules, rem).0),
        stage_split_from(rules, rem).1 matches Some(t) ==> t.bounded(),
    decreases rules.len(),
{
    if rules.len() > 0 {
        match rem {
            None => {},
            Some(t) => {
                let res = rules[0].split_resolved(t);
                let rem2 = rules[0].split_remainder(t);
                lemma_rule_split_conserves(rules[0], t);
                lemma_rule_split_positive(rules[0], t);
                assert(rules_wf(rules.drop_first())) by {
                    assert(forall|i: int|
                        0 <= i < rules.drop_first().len()
                            ==> #[trigger] rules.drop_first()[i] == rules[i + 1]);
                }
                lemma_stage_split_props(rules.drop_first(), rem2);
                let tail = stage_split_from(rules.drop_first(), rem2);
                lemma_sum_lengths_concat(res, tail.0);
                assert(all_positive(res + tail.0)) by {
                    assert(forall|i: int|
                        0 <= i < res.len() ==> #[trigger] (res + tail.0)[i] == res[i]);
                    assert(forall|i: int|
                        res.len() <= i < res.len() + tail.0.len()
                            ==> #[trigger] (res + tail.0)[i] == tail.0[i - res.len()]);
                }
            },
        }
    }
}

/// One stage of the pipeline: rules sorted ascending by domain start,
/// disjointness assumed from upstream, identity elsewhere.
#[derive(PartialEq, Eq, Debug)]
pub struct GardenMap {
    pub name: String,
    pub rules: Vec<GardenRule>,
}

impl GardenMap {
    pub open spec fn wf(self) -> bool {
        rules_wf(self.rules@)
    }

    /// Maps one point through the stage: the first matching rule's
    /// offset, or the point itself if no domain holds it.
    pub fn map(&self, num: usize) -> (r: usize)
        requires
            self.wf(),
        ensures
            r == stage_point(self.rules@, num as int),
    {
        let n = self.rules.len();
        let mut i: usize = 0;
        proof {
            assert(self.rules@.skip(0) =~= self.rules@);
        }
        while i < n
            invariant
                0 <= i <= n,
                n == self.rules@.len(),
                self.wf(),
                stage_point(self.rules@, num as int)
                    == stage_point(self.rules@.skip(i as int), num as int),
            decreases n - i,
        {
            let rule = self.rules[i];
            proof {
                assert(self.rules@.skip(i as int)[0] == self.rules@[i as int]);
                assert(self.rules@.skip(i as int).drop_first() =~= self.rules@.skip(i as int + 1));
            }
            if num >= rule.source && num - rule.source < rule.length {
                return rule.target + (num - rule.source);
            }
            i = i + 1;
        }
        proof {
            assert(self.rules@.skip(n as int) =~= Seq::<GardenRule>::empty());
        }
        num
    }

    /// Folds a range through the rules in order, keeping the resolved
    /// pieces and the still-unexamined remainder apart.
    ///
    /// The last two clauses are the stage laws: the output lengths sum
    /// to the input's length, and no emitted piece is empty.
    pub fn map_range(&self, range: &GardenRange) -> (r: (Vec<GardenRange>, Option<GardenRange>))
        requires
            self.wf(),
            range.bounded(),
        ensures
            r.0@ == stage_split_from(self.rules@, Some(*range)).0,
            r.1 == stage_split_from(self.rules@, Some(*range)).1,
            sum_lengths(r.0@) + rem_length(r.1) == range.length,
            all_positive(r.0@),
            all_bounded(r.0@),
            r.1 matches Some(t) ==> t.bounded() && (range.length >= 1 ==> t.length >= 1),
    {
        let n = self.rules.len();
        let mut out: Vec<GardenRange> = Vec::new();
        let mut rem: Option<GardenRange> = Some(*range);
        let mut i: usize = 0;
        proof {
            assert(self.rules@.skip(0) =~= self.rules@);
            assert(out@ + stage_split_from(self.rules@, rem).0
                =~= stage_split_from(self.rules@, rem).0);
        }
        while i < n
            invariant
                0 <= i <= n,
                n == self.rules@.len(),
                self.wf(),
                range.bounded(),
                rem matches Some(t) ==> t.bounded() && (range.length >= 1 ==> t.length >= 1),
                stage_split_from(self.rules@, Some(*range)).0
                    == out@ + stage_split_from(self.rules@.skip(i as int), rem).0,
                stage_split_from(self.rules@, Some(*range)).1
                    == stage_split_from(self.rules@.skip(i as int), rem).1,
                sum_lengths(out@) + rem_length(rem) == range.length,
                all_positive(out@),
                all_bounded(out@),
            decreases n - i,
        {
            proof {
                assert(self.rules@.skip(i as int)[0] == self.rules@[i as int]);
                assert(self.rules@.skip(i as int).drop_first() =~= self.rules@.skip(i as int + 1));
            }
            match rem {
                Some(t) => {
                    let rule = self.rules[i];
                    let (mut pieces, rem2) = rule.map_range(&t);
                    proof {
                        lemma_rule_split_conserves(rule, t);
                        lemma_rule_split_positive(rule, t);
                        lemma_sum_lengths_concat(out@, pieces@);
                        assert(all_positive(out@ + pieces@)) by {
                            assert(forall|k: int|
                                0 <= k < out@.len() ==> #[trigger] (out@ + pieces@)[k] == out@[k]);
                            assert(forall|k: int|
                                out@.len() <= k < out@.len() + pieces@.len()
                                    ==> #[trigger] (out@ + pieces@)[k]
                                    == pieces@[k - out@.len()]);
                        }
                        assert((out@ + pieces@) + stage_split_from(
                            self.rules@.skip(i as int + 1),
                            rule.split_remainder(t),
                        ).0 =~= out@ + (pieces@ + stage_split_from(
                            self.rules@.skip(i as int + 1),
                            rule.split_remainder(t),
                        ).0));
                    }
                    out.append(&mut pieces);
                    rem = rem2;
                },
                None => {
                    proof {
                        assert(stage_split_from(self.rules@.skip(i as int), rem).0
                            =~= Seq::<GardenRange>::empty());
                        assert(out@ + Seq::<GardenRange>::empty() =~= out@);
                        assert(out@ + stage_split_from(self.rules@.skip(i as int + 1), rem).0
                            =~= out@);
                    }
                },
            }
            i = i + 1;
        }
        proof {
            assert(self.rules@.skip(n as int) =~= Seq::<GardenRule>::empty());
            assert(out@ + Seq::<GardenRange>::empty() =~= out@);
        }
        (out, rem)
    }
}

/// Law: a point outside every rule's domain passes through a stage
/// unchanged.
pub proof fn lemma_identity_outside(rules: Seq<GardenRule>, n: int)
    requires
        forall|i: int| 0 <= i < rules.len() ==> !(#[trigger] rules[i]).in_domain(n),
    ensures
        stage_point(rules, n) == n,
    decreases rules.len(),
{
    if rules.len() > 0 {
        assert(forall|i: int|
            0 <= i < rules.drop_first().len()
                ==> #[trigger] rules.drop_first()[i] == rules[i + 1]);
        lemma_identity_outside(rules.drop_first(), n);
    }
}

/// The merged output of a stage split: resolved pieces, then the final
/// remainder carried over unchanged.
pub open spec fn merged(split: (Seq<GardenRange>, Option<GardenRange>)) -> Seq<GardenRange> {
    match split.1 {
        Some(t) => split.0 + seq![t],
        None => split.0,
    }
}

/// Law: splitting the one-point range `[n, n + 1)` through a stage
/// yields exactly the one-point range at `stage_point(n)` — the range
/// path and the point path of a stage agree everywhere.
pub proof fn lemma_point_range_consistent(rules: Seq<GardenRule>, n: usize)
    requires
        rules_wf(rules),
        n < usize::MAX,
    ensures
        merged(stage_split_from(rules, Some(GardenRange { start: n, length: 1 }))) =~= seq![
            GardenRange { start: stage_point(rules, n as int) as usize, length: 1 },
        ],
        0 <= stage_point(rules, n as int) <= usize::MAX,
    decreases rules.len(),
{
    let r = GardenRange { start: n, length: 1 };
    if rules.len() == 0 {
        assert(stage_split_from(rules, Some(r)) == (Seq::<GardenRange>::empty(), Some(r)));
        assert(merged((Seq::<GardenRange>::empty(), Some(r))) =~= seq![r]);
    } else {
        let rule = rules[0];
        let tail = rules.drop_first();
        assert(rules_wf(tail)) by {
            assert(forall|i: int|
                0 <= i < tail.len() ==> #[trigger] tail[i] == rules[i + 1]);
        }
        lemma_rule_split_point(rule, n);
        if rule.in_domain(n as int) {
            assert(stage_split_from(tail, Option::<GardenRange>::None).0
                =~= Seq::<GardenRange>::empty());
            assert(merged(stage_split_from(rules, Some(r))) =~= seq![
                GardenRange { start: rule.apply(n as int) as usize, length: 1 },
            ]);
        } else if (n as int) < rule.source {
            // identity, final here; no later sorted rule can hold n either
            assert(forall|i: int| 0 <= i < tail.len() ==> !(#[trigger] tail[i]).in_domain(n as int))
                by {
                assert(forall|i: int|
                    0 <= i < tail.len() ==> #[trigger] tail[i] == rules[i + 1]);
            }
            lemma_identity_outside(tail, n as int);
            assert(stage_point(rules, n as int) == n);
            assert(stage_split_from(tail, Option::<GardenRange>::None).0
                =~= Seq::<GardenRange>::empty());
            assert(merged(stage_split_from(rules, Some(r))) =~= seq![r]);
        } else {
            // n is at or past this domain's end: passed on as remainder
            lemma_point_range_consistent(tail, n);
            assert(rule.split_resolved(r) + stage_split_from(tail, Some(r)).0
                =~= stage_split_from(tail, Some(r)).0);
            assert(merged(stage_split_from(rules, Some(r)))
                =~= merged(stage_split_from(tail, Some(r))));
        }
    }
}

/// A rule line parses when it is exactly three `usize` numerals:
/// target start, source start, length.
pub open spec fn spec_parse_rule(line: Seq<u8>) -> Option<GardenRule> {
    let toks = spec_tokens(line);
    if toks.len() == 3 && parses_to_usize(toks[0]) && parses_to_usize(toks[1]) && parses_to_usize(
        toks[2],
    ) {
        Some(
            GardenRule {
                target: digits_val(toks[0]) as usize,
                source: digits_val(toks[1]) as usize,
                length: digits_val(toks[2]) as usize,
            },
        )
    } else {
        None
    }
}

impl GardenRule {
    /// Reads a `target source length` triple, as the stage blocks of the
    /// input carry them.
    pub fn parse(source: &str) -> (r: GardenRule)
        requires
            spec_parse_rule(source.spec_bytes()) is Some,
        ensures
            Some(r) == spec_parse_rule(source.spec_bytes()),
    {
        let toks = tokenize(source.as_bytes());
        proof {
            assert(vecs_view(toks@)[0] == toks@[0]@);
            assert(vecs_view(toks@)[1] == toks@[1]@);
            assert(vecs_view(toks@)[2] == toks@[2]@);
        }
        let target = parse_usize(toks[0].as_slice());
        let src = parse_usize(toks[1].as_slice());
        let length = parse_usize(toks[2].as_slice());
        match (target, src, length) {
            (Some(target), Some(source), Some(length)) => GardenRule { source, target, length },
            _ => {
                proof {
                    assert(false);
                }
                GardenRule { source: 0, target: 0, length: 0 }
            },
        }
    }
}

/// Stable insertion of a rule into a run already sorted by domain start.
pub open spec fn insert_rule(rs: Seq<GardenRule>, x: GardenRule) -> Seq<GardenRule>
    decreases rs.len(),
{
    if rs.len() == 0 {
        seq![x]
    } else if rs.last().source > x.source {
        insert_rule(rs.drop_last(), x).push(rs.last())
    } else {
        rs.push(x)
    }
}

/// The rules of a stage, sorted ascending by domain start; rules with
/// equal starts keep their input order.
pub open spec fn sort_rules(rs: Seq<GardenRule>) -> Seq<GardenRule>
    decreases rs.len(),
{
    if rs.len() == 0 {
        Seq::empty()
    } else {
        insert_rule(sort_rules(rs.drop_last()), rs.last())
    }
}

proof fn lemma_insert_rule_at(rs: Seq<GardenRule>, x: GardenRule, j: int)
    requires
        0 <= j <= rs.len(),
        forall|m: int| j <= m < rs.len() ==> (#[trigger] rs[m]).source > x.source,
        j > 0 ==> rs[j - 1].source <= x.source,
    ensures
        insert_rule(rs, x) == rs.insert(j, x),
    decreases rs.len(),
{
    if rs.len() == 0 {
        assert(insert_rule(rs, x) =~= rs.insert(0, x));
    } else if j == rs.len() {
        assert(insert_rule(rs, x) =~= rs.insert(j, x));
    } else {
        assert(rs[rs.len() - 1].source > x.source);
        lemma_insert_rule_at(rs.drop_last(), x, j);
        assert(insert_rule(rs.drop_last(), x).push(rs.last())
            =~= rs.drop_last().insert(j, x).push(rs.last()));
        assert(rs.drop_last().insert(j, x).push(rs.last()) =~= rs.insert(j, x));
    }
}

proof fn lemma_insert_rule_bound(rs: Seq<GardenRule>, x: GardenRule, b: int)
    requires
        forall|i: int| 0 <= i < rs.len() ==> (#[trigger] rs[i]).source <= b,
        x.source <= b,
    ensures
        forall|i: int|
            0 <= i < insert_rule(rs, x).len() ==> (#[trigger] insert_rule(rs, x)[i]).source <= b,
    decreases rs.len(),
{
    if rs.len() == 0 {
    } else if rs.last().source > x.source {
        assert(forall|i: int|
            0 <= i < rs.drop_last().len() ==> #[trigger] rs.drop_last()[i] == rs[i]);
        lemma_insert_rule_bound(rs.drop_last(), x, b);
        let inner = insert_rule(rs.drop_last(), x);
        assert(forall|i: int|
            0 <= i < inner.len() ==> #[trigger] inner.push(rs.last())[i] == inner[i]);
    } else {
    }
}

proof fn lemma_insert_rule_props(rs: Seq<GardenRule>, x: GardenRule)
    requires
        rules_wf(rs),
        x.wf(),
    ensures
        rules_wf(insert_rule(rs, x)),
    decreases rs.len(),
{
    if rs.len() == 0 {
    } else if rs.last().source > x.source {
        assert(rules_wf(rs.drop_last())) by {
            assert(forall|i: int|
                0 <= i < rs.drop_last().len() ==> #[trigger] rs.drop_last()[i] == rs[i]);
        }
        lemma_insert_rule_props(rs.drop_last(), x);
        let inner = insert_rule(rs.drop_last(), x);
        assert(forall|i: int|
            0 <= i < rs.drop_last().len() ==> (#[trigger] rs.drop_last()[i]).source
                <= rs.last().source);
        lemma_insert_rule_bound(rs.drop_last(), x, rs.last().source as int);
        assert(forall|i: int|
            0 <= i < inner.len() ==> #[trigger] inner.push(rs.last())[i] == inner[i]);
    } else {
    }
}

/// Index of the line that ends the block starting at `i`: the first
/// empty line at or after it, or the end of the input.
pub open spec fn spec_block_end(lines: Seq<String>, i: int) -> int
    decreases lines.len() - i,
{
    if i < 0 || i >= lines.len() {
        i
    } else if lines[i]@.len() == 0 {
        i
    } else {
        spec_block_end(lines, i + 1)
    }
}

proof fn lemma_block_end_ge(lines: Seq<String>, i: int)
    requires
        0 <= i <= lines.len(),
    ensures
        i <= spec_block_end(lines, i) <= lines.len(),
    decreases lines.len() - i,
{
    if i < lines.len() && lines[i]@.len() != 0 {
        lemma_block_end_ge(lines, i + 1);
    }
}

/// The rules parsed from the lines `i .. end`.
pub open spec fn spec_parsed_rules(lines: Seq<Seq<u8>>, i: int, end: int) -> Seq<GardenRule>
    decreases end - i,
{
    if i < 0 || i >= end {
        Seq::empty()
    } else {
        match spec_parse_rule(lines[i]) {
            Some(r) => seq![r] + spec_parsed_rules(lines, i + 1, end),
            None => spec_parsed_rules(lines, i + 1, end),
        }
    }
}

/// A stage block is readable at `start`: a header line bearing a name,
/// then rule lines, each a well-formed triple, up to an empty line or
/// the end of the input.
pub open spec fn spec_stage_ok(lines: Seq<String>, start: int) -> bool {
    &&& 0 <= start < lines.len()
    &&& has_token_chars(lines[start]@)
    &&& forall|i: int|
        start + 1 <= i < spec_block_end(lines, start + 1) ==> (spec_parse_rule(
            #[trigger] lines_bytes(lines)[i],
        ) matches Some(r) && r.wf())
}

/// Where reading resumes after the block at `start`: past the block's
/// terminating empty line, or at the end of the input.
pub open spec fn spec_stage_next(lines: Seq<String>, start: int) -> int {
    let be = spec_block_end(lines, start + 1);
    if be < lines.len() {
        be + 1
    } else {
        lines.len() as int
    }
}

/// The sorted rules of the stage block at `start`.
pub open spec fn spec_stage_rules(lines: Seq<String>, start: int) -> Seq<GardenRule> {
    sort_rules(
        spec_parsed_rules(lines_bytes(lines), start + 1, spec_block_end(lines, start + 1)),
    )
}

impl GardenMap {
    /// Reads one stage block: the header's first token names the stage,
    /// the following lines up to an empty line are its rules, sorted by
    /// domain start. Returns the stage and the index where the next
    /// block begins.
    pub fn parse(lines: &Vec<String>, start: usize) -> (r: (GardenMap, usize))
        requires
            spec_stage_ok(lines@, start as int),
        ensures
            r.0.name@ == first_token_chars(lines@[start as int]@),
            r.0.rules@ == spec_stage_rules(lines@, start as int),
            r.0.wf(),
            r.1 == spec_stage_next(lines@, start as int),
            start < r.1 <= lines@.len(),
    {
        let ghost lb = lines_bytes(lines@);
        let name = first_token(lines[start].as_str());
        let n = lines.len();
        let mut parsed: Vec<GardenRule> = Vec::new();
        let mut i: usize = start + 1;
        proof {
            assert(lb.len() == lines@.len());
            lemma_block_end_ge(lines@, start as int + 1);
            assert(spec_parsed_rules(lb, start as int + 1, start as int + 1)
                =~= Seq::<GardenRule>::empty());
        }
        let mut go: bool = true;
        while go
            invariant
                start + 1 <= i <= n,
                n == lines@.len(),
                spec_stage_ok(lines@, start as int),
                lb == lines_bytes(lines@),
                spec_block_end(lines@, start as int + 1) == spec_block_end(lines@, i as int),
                i as int <= spec_block_end(lines@, start as int + 1),
                parsed@ == spec_parsed_rules(lb, start as int + 1, i as int),
                forall|k: int| 0 <= k < parsed@.len() ==> (#[trigger] parsed@[k]).wf(),
                !go ==> spec_block_end(lines@, i as int) == i as int,
            decreases n - i + (if go { 1int } else { 0int }),
        {
            if i < n {
                let line = lines[i].as_str();
                proof {
                    assert(lb[i as int] == crate::text::sbytes(lines@[i as int]@));
                    assert(line.spec_bytes() == lb[i as int]);
                }
                if !line.is_empty() {
                    proof {
                        lemma_block_end_ge(lines@, i as int + 1);
                        assert(spec_block_end(lines@, i as int) == spec_block_end(
                            lines@,
                            i as int + 1,
                        ));
                        assert((i as int) < spec_block_end(lines@, start as int + 1));
                    }
                    let rule = GardenRule::parse(line);
                    parsed.push(rule);
                    proof {
                        lemma_parsed_rules_snoc(lb, start as int + 1, i as int);
                    }
                    i = i + 1;
                } else {
                    go = false;
                }
            } else {
                go = false;
            }
        }
        proof {
            assert(parsed@ == spec_parsed_rules(lb, start as int + 1,
                spec_block_end(lines@, start as int + 1)));
        }
        let next = if i < n {
            i + 1
        } else {
            n
        };
        // sort the rules ascending by domain start, keeping input order
        // among equal starts
        let mut rules: Vec<GardenRule> = Vec::new();
        let mut k: usize = 0;
        proof {
            assert(parsed@.take(0) =~= Seq::<GardenRule>::empty());
        }
        while k < parsed.len()
            invariant
                0 <= k <= parsed@.len(),
                rules@ == sort_rules(parsed@.take(k as int)),
                forall|m: int| 0 <= m < parsed@.len() ==> (#[trigger] parsed@[m]).wf(),
                rules_wf(rules@),
            decreases parsed@.len() - k,
        {
            let x = parsed[k];
            let mut j: usize = rules.len();
            while j > 0 && rules[j - 1].source > x.source
                invariant
                    0 <= j <= rules@.len(),
                    forall|m: int| j <= m < rules@.len() ==> (#[trigger] rules@[m]).source
                        > x.source,
                decreases j,
            {
                j = j - 1;
            }
            proof {
                lemma_insert_rule_at(rules@, x, j as int);
                lemma_insert_rule_props(rules@, x);
                assert(parsed@.take(k as int + 1).drop_last() =~= parsed@.take(k as int));
                assert(parsed@.take(k as int + 1).last() == parsed@[k as int]);
            }
            rules.insert(j, x);
            k = k + 1;
        }
        proof {
            assert(parsed@.take(parsed@.len() as int) =~= parsed@);
        }
        (GardenMap { name, rules }, next)
    }
}

proof fn lemma_parsed_rules_snoc(lines: Seq<Seq<u8>>, lo: int, i: int)
    requires
        0 <= lo <= i,
    ensures
        spec_parsed_rules(lines, lo, i + 1) == spec_parsed_rules(lines, lo, i) + (
        match spec_parse_rule(lines[i]) {
            Some(r) => seq![r],
            None => Seq::<GardenRule>::empty(),
        }),
    decreases i - lo,
{
    if lo == i {
        assert(spec_parsed_rules(lines, lo, i) =~= Seq::<GardenRule>::empty());
        assert(spec_parsed_rules(lines, i + 1, i + 1) =~= Seq::<GardenRule>::empty());
        match spec_parse_rule(lines[i]) {
            Some(r) => {
                assert(seq![r] + Seq::<GardenRule>::empty() =~= seq![r]);
                assert(spec_parsed_rules(lines, lo, i + 1) =~= seq![r]);
                assert(spec_parsed_rules(lines, lo, i) + seq![r] =~= seq![r]);
            },
            None => {
                assert(spec_parsed_rules(lines, lo, i + 1) =~= Seq::<GardenRule>::empty());
                assert(spec_parsed_rules(lines, lo, i) + Seq::<GardenRule>::empty()
                    =~= Seq::<GardenRule>::empty());
            },
        }
    } else {
        lemma_parsed_rules_snoc(lines, lo + 1, i);
        match spec_parse_rule(lines[lo]) {
            Some(r) => {
                assert((seq![r] + spec_parsed_rules(lines, lo + 1, i)) + (
                match spec_parse_rule(lines[i]) {
                    Some(x) => seq![x],
                    None => Seq::<GardenRule>::empty(),
                }) =~= seq![r] + (spec_parsed_rules(lines, lo + 1, i) + (
                match spec_parse_rule(lines[i]) {
                    Some(x) => seq![x],
                    None => Seq::<GardenRule>::empty(),
                })));
            },
            None => {},
        }
    }
}

/// Law: reading the same stage text twice yields stages with identical
/// sorted rule sequences — parsing is a function of the text alone.
pub proof fn lemma_parse_idempotent(m1: GardenMap, m2: GardenMap, lines: Seq<String>, start: int)
    requires
        m1.rules@ == spec_stage_rules(lines, start),
        m2.rules@ == spec_stage_rules(lines, start),
    ensures
        m1.rules@ == m2.rules@,
{
}

/// Every stage block from `i` to the end of the input is readable.
pub open spec fn spec_pipeline_ok(lines: Seq<String>, i: int) -> bool
    decreases lines.len() - i,
{
    if i < 0 || i >= lines.len() {
        true
    } else {
        let next = spec_stage_next(lines, i);
        spec_stage_ok(lines, i) && (if next <= i {
            false
        } else {
            spec_pipeline_ok(lines, next)
        })
    }
}

/// The pipeline read from `i`: the sorted rules of each stage block, in
/// input order.
pub open spec fn spec_pipeline(lines: Seq<String>, i: int) -> Seq<Seq<GardenRule>>
    decreases lines.len() - i,
{
    if i < 0 || i >= lines.len() {
        Seq::empty()
    } else {
        let next = spec_stage_next(lines, i);
        if next <= i {
            Seq::empty()
        } else {
            seq![spec_stage_rules(lines, i)] + spec_pipeline(lines, next)
        }
    }
}

/// Where a pipeline sends one point: the stages applied left to right.
pub open spec fn pipeline_point(stages: Seq<Seq<GardenRule>>, n: int) -> int
    decreases stages.len(),
{
    if stages.len() == 0 {
        n
    } else {
        pipeline_point(stages.drop_first(), stage_point(stages[0], n))
    }
}

/// One stage applied to a whole collection: the merged split of each
/// range, concatenated in order.
pub open spec fn stage_ranges(rules: Seq<GardenRule>, ranges: Seq<GardenRange>) -> Seq<GardenRange>
    decreases ranges.len(),
{
    if ranges.len() == 0 {
        Seq::empty()
    } else {
        merged(stage_split_from(rules, Some(ranges[0]))) + stage_ranges(
            rules,
            ranges.drop_first(),
        )
    }
}

/// A pipeline applied to a whole collection, stage by stage.
pub open spec fn pipeline_ranges(
    stages: Seq<Seq<GardenRule>>,
    ranges: Seq<GardenRange>,
) -> Seq<GardenRange>
    decreases stages.len(),
{
    if stages.len() == 0 {
        ranges
    } else {
        pipeline_ranges(stages.drop_first(), stage_ranges(stages[0], ranges))
    }
}

/// The merged output of one stage on one range keeps its length, stays
/// within `usize`, and is all positive when the input is.
pub proof fn lemma_merged_props(rules: Seq<GardenRule>, r: GardenRange)
    requires
        rules_wf(rules),
        r.bounded(),
    ensures
        sum_lengths(merged(stage_split_from(rules, Some(r)))) == r.length,
        all_bounded(merged(stage_split_from(rules, Some(r)))),
        r.length >= 1 ==> all_positive(merged(stage_split_from(rules, Some(r)))),
{
    lemma_stage_split_props(rules, Some(r));
    let out = stage_split_from(rules, Some(r));
    match out.1 {
        Some(t) => {
            lemma_sum_lengths_concat(out.0, seq![t]);
            reveal_with_fuel(sum_lengths, 2);
            assert(seq![t].drop_first() =~= Seq::<GardenRange>::empty());
            assert(forall|i: int|
                0 <= i < out.0.len() ==> #[trigger] (out.0 + seq![t])[i] == out.0[i]);
            assert((out.0 + seq![t])[out.0.len() as int] == t);
            // the remainder of a positive-length range is positive:
            // conservation of a positive total needs every piece counted
            if r.length >= 1 {
                lemma_rem_positive(rules, r);
            }
        },
        None => {},
    }
}

/// A remainder that survives the whole stage on a positive-length input
/// is itself positive.
proof fn lemma_rem_positive(rules: Seq<GardenRule>, r: GardenRange)
    requires
        rules_wf(rules),
        r.bounded(),
        r.length >= 1,
    ensures
        stage_split_from(rules, Some(r)).1 matches Some(t) ==> t.length >= 1,
    decreases rules.len(),
{
    if rules.len() > 0 {
        lemma_rule_split_positive(rules[0], r);
        assert(rules_wf(rules.drop_first())) by {
            assert(forall|i: int|
                0 <= i < rules.drop_first().len()
                    ==> #[trigger] rules.drop_first()[i] == rules[i + 1]);
        }
        match rules[0].split_remainder(r) {
            Some(t) => {
                lemma_rem_positive(rules.drop_first(), t);
                assert(stage_split_from(rules, Some(r)).1 == stage_split_from(
                    rules.drop_first(),
                    Some(t),
                ).1);
            },
            None => {
                assert(stage_split_from(rules, Some(r)).1 == stage_split_from(
                    rules.drop_first(),
                    Option::<GardenRange>::None,
                ).1);
                assert(stage_split_from(rules.drop_first(), Option::<GardenRange>::None).1
                    is None);
            },
        }
    }
}

/// One stage on a collection: total length conserved, all pieces
/// bounded, and positive when the inputs are.
pub proof fn lemma_stage_ranges_props(rules: Seq<GardenRule>, ranges: Seq<GardenRange>)
    requires
        rules_wf(rules),
        all_bounded(ranges),
    ensures
        sum_lengths(stage_ranges(rules, ranges)) == sum_lengths(ranges),
        all_bounded(stage_ranges(rules, ranges)),
        all_positive(ranges) ==> all_positive(stage_ranges(rules, ranges)),
    decreases ranges.len(),
{
    if ranges.len() > 0 {
        let head = merged(stage_split_from(rules, Some(ranges[0])));
        lemma_merged_props(rules, ranges[0]);
        assert(all_bounded(ranges.drop_first()) && (all_positive(ranges) ==> all_positive(
            ranges.drop_first(),
        ))) by {
            assert(forall|i: int|
                0 <= i < ranges.drop_first().len()
                    ==> #[trigger] ranges.drop_first()[i] == ranges[i + 1]);
        }
        lemma_stage_ranges_props(rules, ranges.drop_first());
        let tail = stage_ranges(rules, ranges.drop_first());
        lemma_sum_lengths_concat(head, tail);
        assert(forall|i: int| 0 <= i < head.len() ==> #[trigger] (head + tail)[i] == head[i]);
        assert(forall|i: int|
            head.len() <= i < head.len() + tail.len() ==> #[trigger] (head + tail)[i] == tail[i
                - head.len()]);
    }
}

/// The rule sequences of a parsed pipeline.
pub open spec fn pipeline_view(maps: Seq<GardenMap>) -> Seq<Seq<GardenRule>> {
    maps.map_values(|m: GardenMap| m.rules@)
}

pub open spec fn pipeline_wf(maps: Seq<GardenMap>) -> bool {
    forall|i: int| 0 <= i < maps.len() ==> (#[trigger] maps[i]).wf()
}

/// Reads every stage block from `start` to the end of the input, in
/// order: the pipeline is built once and queried many times.
pub fn parse_pipeline(lines: &Vec<String>, start: usize) -> (r: Vec<GardenMap>)
    requires
        spec_pipeline_ok(lines@, start as int),
    ensures
        pipeline_view(r@) == spec_pipeline(lines@, start as int),
        pipeline_wf(r@),
{
    let n = lines.len();
    let mut maps: Vec<GardenMap> = Vec::new();
    let mut i: usize = start;
    proof {
        assert(pipeline_view(maps@) + spec_pipeline(lines@, i as int)
            =~= spec_pipeline(lines@, i as int));
    }
    while i < n
        invariant
            start <= i,
            n == lines@.len(),
            spec_pipeline_ok(lines@, i as int),
            spec_pipeline(lines@, start as int) == pipeline_view(maps@) + spec_pipeline(
                lines@,
                i as int,
            ),
            pipeline_wf(maps@),
        decreases n - i,
    {
        let ghost prev = maps@;
        let (map, next) = GardenMap::parse(lines, i);
        maps.push(map);
        i = next;
        proof {
            assert(pipeline_view(maps@) =~= pipeline_view(prev) + seq![map.rules@]);
            assert(pipeline_view(prev) + seq![map.rules@] + spec_pipeline(lines@, i as int)
                =~= pipeline_view(prev) + (seq![map.rules@] + spec_pipeline(lines@, i as int)));
        }
    }
    proof {
        assert(pipeline_view(maps@) + Seq::<Seq<GardenRule>>::empty() =~= pipeline_view(maps@));
    }
    maps
}

/// Where the whole pipeline sends one point: each stage's map applied
/// left to right.
pub fn map_point(maps: &Vec<GardenMap>, num: usize) -> (r: usize)
    requires
        pipeline_wf(maps@),
    ensures
        r == pipeline_point(pipeline_view(maps@), num as int),
{
    let mut cur = num;
    let mut k: usize = 0;
    proof {
        assert(pipeline_view(maps@).skip(0) =~= pipeline_view(maps@));
    }
    while k < maps.len()
        invariant
            0 <= k <= maps@.len(),
            pipeline_wf(maps@),
            pipeline_point(pipeline_view(maps@), num as int) == pipeline_point(
                pipeline_view(maps@).skip(k as int),
                cur as int,
            ),
        decreases maps@.len() - k,
    {
        proof {
            assert(pipeline_view(maps@).skip(k as int)[0] == pipeline_view(maps@)[k as int]);
            assert(pipeline_view(maps@).skip(k as int).drop_first() =~= pipeline_view(
                maps@,
            ).skip(k as int + 1));
        }
        cur = maps[k].map(cur);
        k = k + 1;
    }
    proof {
        assert(pipeline_view(maps@).skip(maps@.len() as int)
            =~= Seq::<Seq<GardenRule>>::empty());
    }
    cur
}

/// The reduction helper: the smallest start of a collection of ranges,
/// or nothing when the collection is empty — an empty result is
/// reported as absent data, never as the answer zero.
pub fn min_start(ranges: &Vec<GardenRange>) -> (r: Option<usize>)
    ensures
        r is Some <==> ranges@.len() > 0,
        r matches Some(v) ==> (exists|k: int|
            0 <= k < ranges@.len() && v == (#[trigger] ranges@[k]).start) && (forall|k: int|
            0 <= k < ranges@.len() ==> v <= (#[trigger] ranges@[k]).start),
{
    if ranges.len() == 0 {
        return None;
    }
    let mut best: usize = ranges[0].start;
    let mut i: usize = 1;
    while i < ranges.len()
        invariant
            1 <= i <= ranges@.len(),
            exists|k: int| 0 <= k < i && best == (#[trigger] ranges@[k]).start,
            forall|k: int| 0 <= k < i ==> best <= (#[trigger] ranges@[k]).start,
        decreases ranges@.len() - i,
    {
        if ranges[i].start < best {
            best = ranges[i].start;
        }
        i = i + 1;
    }
    Some(best)
}

} // verus!
