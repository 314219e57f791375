//! The belief engine: it gathers signed evidence on pairs of ranks from
//! named rules, and derives from it relations between the ranks that hold
//! no cycle.
//!
//! Certainties and beliefs are counted in millionths: a certainty of
//! 900 000 stands for 0.9.

use crate::engine::chance::random_below;
use crate::engine::cycles::{cycles_found, detect_cycles, rank_views};
use crate::engine::graph::{acyclic, holds_edge, Edge};
use crate::engine::resolve::{
    by_decreasing, key_ints, lemma_by_decreasing_distinct, lemma_by_decreasing_holds,
    lemma_empty_acyclic, on_cycle, on_cycle_at, order_by_keys,
};
use crate::skeleton::cards::CardValue;
use vstd::prelude::*;

verus! {

/// One whole, in millionths.
pub const SCALE: i64 = 1000000;

/// The confidence above which a proposed relation confirms another.
pub const CONFIRMATION_THRESHOLD: i64 = 500000;

/// One piece of evidence: the rule that gave it and its signed certainty.
#[derive(Debug, Clone)]
pub struct Evidence {
    pub rule: String,
    pub certainty: i64,
}

/// The belief on one pair of ranks. The pair is kept with the rank that
/// stands first in print order as `low`; a positive probability says that
/// `low` is the weaker rank, a negative one that `high` is.
#[derive(Debug, Clone)]
pub struct Belief {
    pub low: CardValue,
    pub high: CardValue,
    pub probability: i64,
    pub reps: u64,
    pub evidence: Vec<Evidence>,
}

/// What a piece of evidence is.
pub struct EvidenceView {
    pub rule: Seq<char>,
    pub certainty: int,
}

/// What a belief is.
pub struct BeliefView {
    pub low: CardValue,
    pub high: CardValue,
    pub probability: int,
    pub reps: nat,
    pub evidence: Seq<EvidenceView>,
}

/// What the engine holds: the beliefs in the order in which their pairs
/// were first seen, the names of the rules that are ignored, the relations
/// of the last derivation that succeeded, and whether the last derivation
/// failed.
pub struct EngineView {
    pub beliefs: Seq<BeliefView>,
    pub denied: Seq<Seq<char>>,
    pub retained: Seq<Edge>,
    pub unresolved: bool,
}

impl View for Evidence {
    type V = EvidenceView;

    open spec fn view(&self) -> EvidenceView {
        EvidenceView { rule: self.rule@, certainty: self.certainty as int }
    }
}

/// What a vector of evidence holds.
pub open spec fn evidence_views(v: Seq<Evidence>) -> Seq<EvidenceView> {
    Seq::new(v.len(), |i: int| v[i]@)
}

impl View for Belief {
    type V = BeliefView;

    open spec fn view(&self) -> BeliefView {
        BeliefView {
            low: self.low,
            high: self.high,
            probability: self.probability as int,
            reps: self.reps as nat,
            evidence: evidence_views(self.evidence@),
        }
    }
}

/// What a vector of beliefs holds.
pub open spec fn belief_views(v: Seq<Belief>) -> Seq<BeliefView> {
    Seq::new(v.len(), |i: int| v[i]@)
}

/// What a vector of names holds.
pub open spec fn name_views(v: Seq<String>) -> Seq<Seq<char>> {
    Seq::new(v.len(), |i: int| v[i]@)
}

/// The belief at `i` is on the pair `(low, high)`.
pub open spec fn is_on(beliefs: Seq<BeliefView>, i: int, low: CardValue, high: CardValue) -> bool {
    0 <= i < beliefs.len() && beliefs[i].low == low && beliefs[i].high == high
}

/// Some belief is on the pair.
pub open spec fn has_pair(beliefs: Seq<BeliefView>, low: CardValue, high: CardValue) -> bool {
    exists|i: int| #[trigger] is_on(beliefs, i, low, high)
}

/// The index of the belief on the pair.
pub open spec fn pair_index(beliefs: Seq<BeliefView>, low: CardValue, high: CardValue) -> int {
    choose|i: int| #[trigger] is_on(beliefs, i, low, high)
}

/// The beliefs are well formed: each pair stands in print order and has one
/// belief, and every probability lies strictly between minus one and one.
pub open spec fn well_formed(beliefs: Seq<BeliefView>) -> bool {
    &&& forall|i: int|
        0 <= i < beliefs.len() ==> (#[trigger] beliefs[i]).low.index() < beliefs[i].high.index()
            && -SCALE < beliefs[i].probability < SCALE
    &&& forall|i: int, j: int|
        0 <= i < beliefs.len() && 0 <= j < beliefs.len() && i != j ==> !((
        #[trigger] beliefs[i]).low == (#[trigger] beliefs[j]).low && beliefs[i].high
            == beliefs[j].high)
}

/// The pair in print order and the certainty turned with it.
pub open spec fn canonical(a: CardValue, b: CardValue, certainty: int) -> (CardValue, CardValue, int) {
    if a.index() < b.index() {
        (a, b, certainty)
    } else {
        (b, a, -certainty)
    }
}

/// The belief moved towards the side of the certainty: by the part
/// `|c| / reps` of the way from `p` to that side, where `reps` counts the
/// evidence taken on the pair. So the more evidence a belief rests on, the
/// less one piece of evidence moves it.
pub open spec fn blend(p: int, c: int, reps: int) -> int {
    let mag = if c < 0 {
        -c
    } else {
        c
    };
    let gap = if c > 0 {
        SCALE - p
    } else {
        SCALE + p
    };
    let step = (mag * gap) / (SCALE * reps);
    if c > 0 {
        p + step
    } else {
        p - step
    }
}

/// Whether the evidence log holds this rule with this certainty.
pub open spec fn logs(evidence: Seq<EvidenceView>, rule: Seq<char>, certainty: int) -> bool {
    exists|k: int|
        0 <= k < evidence.len() && (#[trigger] evidence[k]).rule == rule
            && evidence[k].certainty == certainty
}

/// The repetitions after one more, which stop at the greatest number that
/// can be counted.
pub open spec fn next_reps(reps: nat) -> nat {
    if reps < u64::MAX {
        reps + 1
    } else {
        reps
    }
}

/// A belief with evidence folded into it: one more repetition, the
/// probability blended, and the evidence logged unless the log holds it.
pub open spec fn with_evidence(b: BeliefView, rule: Seq<char>, c: int) -> BeliefView {
    let reps = next_reps(b.reps);
    BeliefView {
        low: b.low,
        high: b.high,
        probability: blend(b.probability, c, reps as int),
        reps,
        evidence: if logs(b.evidence, rule, c) {
            b.evidence
        } else {
            b.evidence.push(EvidenceView { rule, certainty: c })
        },
    }
}

/// The belief on a pair of which nothing is known.
pub open spec fn fresh(low: CardValue, high: CardValue) -> BeliefView {
    BeliefView { low, high, probability: 0, reps: 0, evidence: Seq::empty() }
}

/// Whether evidence is taken: the ranks differ, the certainty is not zero
/// and the rule is not ignored.
pub open spec fn accepts(v: EngineView, rule: Seq<char>, a: CardValue, b: CardValue, certainty: int) -> bool {
    a != b && certainty != 0 && !v.denied.contains(rule)
}

/// The beliefs after evidence on a pair was folded in.
pub open spec fn updated(
    beliefs: Seq<BeliefView>,
    rule: Seq<char>,
    a: CardValue,
    b: CardValue,
    certainty: int,
) -> Seq<BeliefView> {
    let (low, high, c) = canonical(a, b, certainty);
    if has_pair(beliefs, low, high) {
        let i = pair_index(beliefs, low, high);
        beliefs.update(i, with_evidence(beliefs[i], rule, c))
    } else {
        beliefs.push(with_evidence(fresh(low, high), rule, c))
    }
}

/// The signed belief that `a` is weaker than `b`: positive where the
/// evidence favours it, negative where it favours the reverse, zero where
/// nothing is known.
pub open spec fn belief_in(beliefs: Seq<BeliefView>, a: CardValue, b: CardValue) -> int {
    if a.index() < b.index() {
        if has_pair(beliefs, a, b) {
            beliefs[pair_index(beliefs, a, b)].probability
        } else {
            0
        }
    } else {
        if has_pair(beliefs, b, a) {
            -beliefs[pair_index(beliefs, b, a)].probability
        } else {
            0
        }
    }
}

/// A blended belief stays strictly between minus one and one.
pub proof fn lemma_blend_range(p: int, c: int, reps: int)
    requires
        -SCALE < p < SCALE,
        -SCALE < c < SCALE,
        c != 0,
        1 <= reps,
    ensures
        -SCALE < blend(p, c, reps) < SCALE,
        c > 0 ==> p <= blend(p, c, reps),
        c < 0 ==> blend(p, c, reps) <= p,
{
    let mag = if c < 0 {
        -c
    } else {
        c
    };
    let gap = if c > 0 {
        SCALE - p
    } else {
        SCALE + p
    };
    let num = mag * gap;
    let den = SCALE * reps;
    assert(mag < den) by (nonlinear_arith)
        requires
            1 <= mag <= SCALE - 1,
            1 <= reps,
            den == SCALE * reps,
    ;
    assert(num < den * gap) by (nonlinear_arith)
        requires
            num == mag * gap,
            mag < den,
            gap > 0,
    ;
    assert(num >= 0) by (nonlinear_arith)
        requires
            num == mag * gap,
            mag >= 1,
            gap > 0,
    ;
    assert(0 <= num / den < gap) by (nonlinear_arith)
        requires
            0 <= num < den * gap,
            den > 0,
    ;
}

/// Blends a belief with a certainty, where `reps` counts the evidence taken
/// on the pair.
fn blend_belief(p: i64, c: i64, reps: u64) -> (q: i64)
    requires
        -SCALE < p < SCALE,
        -SCALE < c < SCALE,
        c != 0,
        1 <= reps,
    ensures
        q == blend(p as int, c as int, reps as int),
        -SCALE < q < SCALE,
{
    proof {
        lemma_blend_range(p as int, c as int, reps as int);
    }
    let mag: u128 = if c < 0 {
        (-c) as u128
    } else {
        c as u128
    };
    let gap: u128 = if c > 0 {
        (SCALE - p) as u128
    } else {
        (SCALE + p) as u128
    };
    assert(mag * gap <= 1000000 * 2000000) by (nonlinear_arith)
        requires
            mag <= 1000000,
            gap <= 2000000,
    ;
    let num: u128 = mag * gap;
    assert((SCALE as u128) * (reps as u128) <= 1000000 * 0xffff_ffff_ffff_ffff) by (nonlinear_arith)
        requires
            SCALE == 1000000,
            reps <= 0xffff_ffff_ffff_ffff,
    ;
    let den: u128 = (SCALE as u128) * (reps as u128);
    assert(den > 0) by (nonlinear_arith)
        requires
            den == (SCALE as u128) * (reps as u128),
            reps >= 1,
            SCALE == 1000000,
    ;
    let step: u128 = num / den;
    if c > 0 {
        p + step as i64
    } else {
        p - step as i64
    }
}

/// Tells whether the names hold the name.
pub fn holds_name(names: &Vec<String>, name: &str) -> (found: bool)
    ensures
        found == name_views(names@).contains(name@),
{
    let wanted = name.to_owned();
    let mut i: usize = 0;
    while i < names.len()
        invariant
            i <= names.len(),
            wanted@ == name@,
            forall|j: int| 0 <= j < i ==> name_views(names@)[j] != name@,
        decreases names.len() - i,
    {
        if names[i] == wanted {
            assert(name_views(names@)[i as int] == name@);
            return true;
        }
        i += 1;
    }
    false
}

/// Tells whether the log holds this rule with this certainty.
fn logged(evidence: &Vec<Evidence>, rule: &str, certainty: i64) -> (found: bool)
    ensures
        found == logs(evidence_views(evidence@), rule@, certainty as int),
{
    let wanted = rule.to_owned();
    let mut i: usize = 0;
    while i < evidence.len()
        invariant
            i <= evidence.len(),
            wanted@ == rule@,
            forall|j: int|
                0 <= j < i ==> !((#[trigger] evidence_views(evidence@)[j]).rule == rule@
                    && evidence_views(evidence@)[j].certainty == certainty as int),
        decreases evidence.len() - i,
    {
        if evidence[i].certainty == certainty && evidence[i].rule == wanted {
            assert(evidence_views(evidence@)[i as int].rule == rule@);
            return true;
        }
        i += 1;
    }
    false
}

/// The belief engine.
///
/// The beliefs stand in the order in which their pairs were first seen, one
/// belief for each pair, and the ignored rules in the order in which they
/// were ignored, each once. So beliefs of the same confidence are always
/// proposed in the same order, and the same draws give the same relations.
#[derive(Debug, Clone)]
pub struct ProbabilityEngine {
    seen: Vec<Belief>,
    inconsistent_rules: Vec<String>,
    retained: Vec<Edge>,
    unresolved: bool,
}

impl View for ProbabilityEngine {
    type V = EngineView;

    closed spec fn view(&self) -> EngineView {
        EngineView {
            beliefs: belief_views(self.seen@),
            denied: name_views(self.inconsistent_rules@),
            retained: self.retained@,
            unresolved: self.unresolved,
        }
    }
}

impl ProbabilityEngine {
    /// The engine is well formed: its beliefs are, no rule is named twice
    /// among the ignored rules, and the relations that it retains hold no
    /// cycle and join each pair of ranks at most once.
    pub closed spec fn wf(&self) -> bool {
        &&& well_formed(belief_views(self.seen@))
        &&& name_views(self.inconsistent_rules@).no_duplicates()
        &&& acyclic(self.retained@)
        &&& distinct_pairs(self.retained@)
    }

    /// What a well-formed engine holds is well formed.
    pub proof fn lemma_wf(&self)
        requires
            self.wf(),
        ensures
            well_formed(self@.beliefs),
            self@.denied.no_duplicates(),
            acyclic(self@.retained),
            distinct_pairs(self@.retained),
    {
    }

    /// An engine that has seen no evidence and ignores no rule.
    pub fn new() -> (engine: ProbabilityEngine)
        ensures
            engine.wf(),
            engine@.beliefs.len() == 0,
            engine@.denied.len() == 0,
            engine@.retained.len() == 0,
            !engine@.unresolved,
    {
        proof {
            lemma_empty_acyclic();
        }
        let engine = ProbabilityEngine {
            seen: Vec::new(),
            inconsistent_rules: Vec::new(),
            retained: Vec::new(),
            unresolved: false,
        };
        assert(engine.retained@ =~= Seq::<Edge>::empty());
        engine
    }

    /// The index of the belief on the pair, which stands in print order.
    fn find(&self, low: CardValue, high: CardValue) -> (r: Option<usize>)
        requires
            self.wf(),
        ensures
            r is Some <==> has_pair(self@.beliefs, low, high),
            r matches Some(i) ==> i == pair_index(self@.beliefs, low, high) && is_on(
                self@.beliefs,
                i as int,
                low,
                high,
            ),
            well_formed(self@.beliefs),
    {
        let ghost beliefs = self@.beliefs;
        let mut i: usize = 0;
        while i < self.seen.len()
            invariant
                i <= self.seen.len(),
                beliefs == belief_views(self.seen@),
                well_formed(beliefs),
                forall|j: int| 0 <= j < i ==> !#[trigger] is_on(beliefs, j, low, high),
            decreases self.seen.len() - i,
        {
            if self.seen[i].low == low && self.seen[i].high == high {
                proof {
                    assert(is_on(beliefs, i as int, low, high));
                    let k = pair_index(beliefs, low, high);
                    assert(is_on(beliefs, k, low, high));
                }
                return Some(i);
            }
            i += 1;
        }
        None
    }

    /// How often evidence on the pair was taken.
    pub fn repetitions(&self, a: &CardValue, b: &CardValue) -> (n: u64)
        requires
            self.wf(),
        ensures
            n == ({
                let (low, high, c) = canonical(*a, *b, 1);
                if has_pair(self@.beliefs, low, high) {
                    self@.beliefs[pair_index(self@.beliefs, low, high)].reps
                } else {
                    0
                }
            }),
    {
        let (low, high) = if a.canonical_index() < b.canonical_index() {
            (*a, *b)
        } else {
            (*b, *a)
        };
        match self.find(low, high) {
            Some(i) => self.seen[i].reps,
            None => 0,
        }
    }

    /// Folds evidence into the belief on a pair, whatever the name of the
    /// rule.
    fn apply(&mut self, name: &str, a: &CardValue, b: &CardValue, certainty: i64) -> (taken: bool)
        requires
            old(self).wf(),
            -SCALE < certainty < SCALE,
        ensures
            final(self).wf(),
            taken == accepts(old(self)@, name@, *a, *b, certainty as int),
            taken ==> final(self)@.beliefs == updated(
                old(self)@.beliefs,
                name@,
                *a,
                *b,
                certainty as int,
            ),
            !taken ==> final(self)@.beliefs == old(self)@.beliefs,
            final(self)@.denied == old(self)@.denied,
            final(self)@.retained == old(self)@.retained,
            final(self)@.unresolved == old(self)@.unresolved,
    {
        if *a == *b || certainty == 0 || holds_name(&self.inconsistent_rules, name) {
            return false;
        }
        let (low, high, c) = if a.canonical_index() < b.canonical_index() {
            (*a, *b, certainty)
        } else {
            (*b, *a, -certainty)
        };
        let ghost before = self@.beliefs;
        let found = self.find(low, high);
        let (at, mut belief) = match found {
            Some(i) => (i, self.seen.remove(i)),
            None => (
                self.seen.len(),
                Belief { low, high, probability: 0, reps: 0, evidence: Vec::new() },
            ),
        };
        proof {
            if found is None {
                assert(belief@ == fresh(low, high)) by {
                    assert(evidence_views(belief.evidence@) =~= Seq::empty());
                }
            } else {
                assert(belief@ == before[at as int]);
            }
        }
        let ghost start = belief@;
        let reps = if belief.reps < u64::MAX {
            belief.reps + 1
        } else {
            belief.reps
        };
        belief.probability = blend_belief(belief.probability, c, reps);
        belief.reps = reps;
        if !logged(&belief.evidence, name, c) {
            let ghost had = evidence_views(belief.evidence@);
            belief.evidence.push(Evidence { rule: name.to_owned(), certainty: c });
            assert(evidence_views(belief.evidence@) =~= had.push(
                EvidenceView { rule: name@, certainty: c as int },
            ));
        }
        assert(belief@ == with_evidence(start, name@, c as int));
        let ghost rest = belief_views(self.seen@);
        self.seen.insert(at, belief);
        proof {
            let after = belief_views(self.seen@);
            if found is None {
                assert(rest =~= before);
                assert(after =~= before.push(belief@));
                assert forall|i: int| 0 <= i < before.len() implies !(before[i].low == low
                    && before[i].high == high) by {
                    assert(!is_on(before, i, low, high));
                }
            } else {
                assert(rest =~= before.remove(at as int));
                assert(after =~= before.update(at as int, belief@));
            }
            assert(well_formed(after)) by {
                assert forall|i: int, j: int|
                    0 <= i < after.len() && 0 <= j < after.len() && i != j implies !((
                    #[trigger] after[i]).low == (#[trigger] after[j]).low && after[i].high
                        == after[j].high) by {
                    if found is None {
                        if i < before.len() && j < before.len() {
                            assert(after[i] == before[i] && after[j] == before[j]);
                        }
                    } else {
                        assert(after[i].low == before[i].low && after[i].high == before[i].high);
                        assert(after[j].low == before[j].low && after[j].high == before[j].high);
                    }
                }
                assert forall|i: int| 0 <= i < after.len() implies (#[trigger] after[i]).low.index()
                    < after[i].high.index() && -SCALE < after[i].probability < SCALE by {
                    if found is None {
                        if i < before.len() {
                            assert(after[i] == before[i]);
                        }
                    } else if i != at {
                        assert(after[i] == before[i]);
                    }
                }
            }
        }
        true
    }

    /// Takes evidence from the rule `name` that `a` is weaker than `b`, with
    /// a signed certainty in millionths.
    ///
    /// Evidence on a rank against itself, evidence of certainty zero and
    /// evidence of an ignored rule are not taken, and the engine stays as it
    /// is. The result tells whether the evidence was taken. Evidence that is
    /// taken counts one more repetition on the pair, moves the belief on the
    /// pair towards the side of the certainty, and is logged with the name of
    /// its rule.
    pub fn update(&mut self, name: &str, a: &CardValue, b: &CardValue, certainty: i64) -> (taken: bool)
        requires
            old(self).wf(),
            name@.len() > 0,
            -SCALE < certainty < SCALE,
        ensures
            final(self).wf(),
            taken == accepts(old(self)@, name@, *a, *b, certainty as int),
            taken ==> final(self)@.beliefs == updated(
                old(self)@.beliefs,
                name@,
                *a,
                *b,
                certainty as int,
            ),
            !taken ==> final(self)@.beliefs == old(self)@.beliefs,
            final(self)@.denied == old(self)@.denied,
            final(self)@.retained == old(self)@.retained,
            final(self)@.unresolved == old(self)@.unresolved,
    {
        self.apply(name, a, b, certainty)
    }

    /// The signed belief that `a` is weaker than `b`, in millionths.
    pub fn probability(&self, a: &CardValue, b: &CardValue) -> (p: i64)
        requires
            self.wf(),
        ensures
            p == belief_in(self@.beliefs, *a, *b),
            -SCALE < p < SCALE,
    {
        if a.canonical_index() < b.canonical_index() {
            match self.find(*a, *b) {
                Some(i) => {
                    assert(self@.beliefs[i as int] == self.seen@[i as int]@);
                    self.seen[i].probability
                },
                None => 0,
            }
        } else {
            match self.find(*b, *a) {
                Some(i) => {
                    assert(self@.beliefs[i as int] == self.seen@[i as int]@);
                    -self.seen[i].probability
                },
                None => 0,
            }
        }
    }

    /// The direction that the evidence on the pair favours: the weaker rank
    /// first. `None` where the belief is zero or nothing is known.
    pub fn likely_ordering(&self, a: &CardValue, b: &CardValue) -> (r: Option<(CardValue, CardValue)>)
        requires
            self.wf(),
        ensures
            belief_in(self@.beliefs, *a, *b) > 0 ==> r == Some((*a, *b)),
            belief_in(self@.beliefs, *a, *b) < 0 ==> r == Some((*b, *a)),
            belief_in(self@.beliefs, *a, *b) == 0 ==> r is None,
    {
        let p = self.probability(a, b);
        if p > 0 {
            Some((*a, *b))
        } else if p < 0 {
            Some((*b, *a))
        } else {
            None
        }
    }

    /// Every pair with its belief, in the order in which the pairs were
    /// first seen.
    pub fn probabilities(&self) -> (out: Vec<((CardValue, CardValue), i64)>)
        ensures
            out.len() == self@.beliefs.len(),
            forall|i: int|
                0 <= i < out.len() ==> (#[trigger] out@[i]).0 == (
                    self@.beliefs[i].low,
                    self@.beliefs[i].high,
                ) && out@[i].1 == self@.beliefs[i].probability,
    {
        let mut out: Vec<((CardValue, CardValue), i64)> = Vec::new();
        let mut i: usize = 0;
        while i < self.seen.len()
            invariant
                i <= self.seen.len(),
                out.len() == i,
                forall|k: int|
                    0 <= k < i ==> (#[trigger] out@[k]).0 == (
                        belief_views(self.seen@)[k].low,
                        belief_views(self.seen@)[k].high,
                    ) && out@[k].1 == belief_views(self.seen@)[k].probability,
            decreases self.seen.len() - i,
        {
            out.push(((self.seen[i].low, self.seen[i].high), self.seen[i].probability));
            i += 1;
        }
        out
    }

    /// The evidence logged on the pair: each rule with its certainty, turned
    /// to the print order of the pair.
    pub fn get_rules(&self, a: &CardValue, b: &CardValue) -> (out: Vec<(String, i64)>)
        requires
            self.wf(),
        ensures
            ({
                let (low, high, c) = canonical(*a, *b, 1);
                if has_pair(self@.beliefs, low, high) {
                    let log = self@.beliefs[pair_index(self@.beliefs, low, high)].evidence;
                    out.len() == log.len() && forall|k: int|
                        0 <= k < out.len() ==> (#[trigger] out@[k]).0@ == log[k].rule && out@[k].1
                            == log[k].certainty
                } else {
                    out.len() == 0
                }
            }),
    {
        let (low, high) = if a.canonical_index() < b.canonical_index() {
            (*a, *b)
        } else {
            (*b, *a)
        };
        let mut out: Vec<(String, i64)> = Vec::new();
        match self.find(low, high) {
            Some(i) => {
                let log = &self.seen[i].evidence;
                let mut k: usize = 0;
                while k < log.len()
                    invariant
                        k <= log.len(),
                        out.len() == k,
                        forall|j: int|
                            0 <= j < k ==> (#[trigger] out@[j]).0@ == evidence_views(log@)[j].rule
                                && out@[j].1 == evidence_views(log@)[j].certainty,
                    decreases log.len() - k,
                {
                    out.push((log[k].rule.clone(), log[k].certainty));
                    k += 1;
                }
                assert(self@.beliefs[i as int] == self.seen@[i as int]@);
            },
            None => {},
        }
        out
    }

    /// The names of the rules that are ignored.
    pub fn inconsistent_rule_names(&self) -> (out: Vec<String>)
        ensures
            name_views(out@) == self@.denied,
    {
        let mut out: Vec<String> = Vec::new();
        let mut i: usize = 0;
        while i < self.inconsistent_rules.len()
            invariant
                i <= self.inconsistent_rules.len(),
                name_views(out@) == name_views(self.inconsistent_rules@).take(i as int),
            decreases self.inconsistent_rules.len() - i,
        {
            let ghost had = name_views(out@);
            out.push(self.inconsistent_rules[i].clone());
            assert(name_views(out@) =~= had.push(self.inconsistent_rules@[i as int]@));
            assert(name_views(self.inconsistent_rules@).take(i as int + 1) =~= name_views(
                self.inconsistent_rules@,
            ).take(i as int).push(self.inconsistent_rules@[i as int]@));
            i += 1;
        }
        assert(name_views(self.inconsistent_rules@).take(self.inconsistent_rules.len() as int)
            =~= name_views(self.inconsistent_rules@));
        out
    }

    /// Forgets the belief on a pair: the belief on the pair is taken out of
    /// the beliefs, and the beliefs on the other pairs stay in their order.
    /// Where there is no belief on the pair, nothing changes.
    fn wipe(&mut self, a: &CardValue, b: &CardValue)
        requires
            old(self).wf(),
        ensures
            final(self).wf(),
            final(self)@.beliefs == without_pair(
                old(self)@.beliefs,
                canonical(*a, *b, 0).0,
                canonical(*a, *b, 0).1,
            ),
            final(self)@.denied == old(self)@.denied,
            final(self)@.retained == old(self)@.retained,
            final(self)@.unresolved == old(self)@.unresolved,
            final(self)@.beliefs.len() <= old(self)@.beliefs.len(),
    {
        let (low, high) = if a.canonical_index() < b.canonical_index() {
            (*a, *b)
        } else {
            (*b, *a)
        };
        match self.find(low, high) {
            Some(i) => {
                let ghost before = belief_views(self.seen@);
                self.seen.remove(i);
                proof {
                    let after = belief_views(self.seen@);
                    assert(after =~= before.remove(i as int));
                    assert forall|x: int, y: int|
                        0 <= x < after.len() && 0 <= y < after.len() && x != y implies !((
                        #[trigger] after[x]).low == (#[trigger] after[y]).low && after[x].high
                            == after[y].high) by {
                        let x2 = if x < i {
                            x
                        } else {
                            x + 1
                        };
                        let y2 = if y < i {
                            y
                        } else {
                            y + 1
                        };
                        assert(after[x] == before[x2] && after[y] == before[y2]);
                    }
                    assert forall|x: int| 0 <= x < after.len() implies (#[trigger] after[x]).low.index()
                        < after[x].high.index() && -SCALE < after[x].probability < SCALE by {
                        let x2 = if x < i {
                            x
                        } else {
                            x + 1
                        };
                        assert(after[x] == before[x2]);
                    }
                }
            },
            None => {},
        }
    }

    /// Ignores the rule from now on: its name is added to the names of the
    /// ignored rules unless it stands among them.
    fn deny(&mut self, name: &str)
        requires
            old(self).wf(),
        ensures
            final(self).wf(),
            final(self)@.denied == denied_with(old(self)@.denied, name@),
            final(self)@.beliefs == old(self)@.beliefs,
            final(self)@.retained == old(self)@.retained,
            final(self)@.unresolved == old(self)@.unresolved,
            final(self)@.denied.contains(name@),
            forall|n: Seq<char>| old(self)@.denied.contains(n) ==> final(self)@.denied.contains(n),
    {
        if !holds_name(&self.inconsistent_rules, name) {
            let ghost before = name_views(self.inconsistent_rules@);
            self.inconsistent_rules.push(name.to_owned());
            proof {
                let after = name_views(self.inconsistent_rules@);
                assert(after =~= before.push(name@));
                assert(after[before.len() as int] == name@);
                assert forall|n: Seq<char>| before.contains(n) implies after.contains(n) by {
                    let k = choose|k: int| 0 <= k < before.len() && before[k] == n;
                    assert(after[k] == n);
                }
            }
        }
    }

    /// The beliefs that are not zero as relations: each from the rank
    /// believed weaker to the rank believed stronger, with the strength of
    /// the belief as its confidence.
    pub fn directed(&self) -> (out: Vec<Proposed>)
        requires
            self.wf(),
        ensures
            out@ == directed_upto(self@.beliefs, self@.beliefs.len()),
            out.len() <= self@.beliefs.len(),
            forall|i: int|
                0 <= i < out.len() ==> 0 < (#[trigger] out@[i]).confidence < SCALE && belief_in(
                    self@.beliefs,
                    out@[i].edge.0,
                    out@[i].edge.1,
                ) == out@[i].confidence,
    {
        let ghost beliefs = self@.beliefs;
        let mut out: Vec<Proposed> = Vec::new();
        let mut i: usize = 0;
        while i < self.seen.len()
            invariant
                i <= self.seen.len(),
                out.len() <= i,
                out@ == directed_upto(beliefs, i as nat),
                beliefs == belief_views(self.seen@),
                well_formed(beliefs),
                forall|k: int|
                    0 <= k < out.len() ==> 0 < (#[trigger] out@[k]).confidence < SCALE && belief_in(
                        beliefs,
                        out@[k].edge.0,
                        out@[k].edge.1,
                    ) == out@[k].confidence,
            decreases self.seen.len() - i,
        {
            let low = self.seen[i].low;
            let high = self.seen[i].high;
            let p = self.seen[i].probability;
            proof {
                assert(beliefs[i as int] == self.seen@[i as int]@);
                assert(is_on(beliefs, i as int, low, high));
                let k = pair_index(beliefs, low, high);
                assert(is_on(beliefs, k, low, high));
                assert(k == i);
            }
            if p > 0 {
                out.push(Proposed { edge: (low, high), confidence: p });
            } else if p < 0 {
                out.push(Proposed { edge: (high, low), confidence: -p });
            }
            i += 1;
        }
        out
    }

    /// Deals with a relation that is discarded because it stands on a cycle
    /// with a relation of higher confidence.
    ///
    /// The confidence that the rest of the proposal leaves to the relation is
    /// set against the belief on its pair. Where the two differ by more than
    /// a tenth of the belief and two rules gave evidence on the pair, the
    /// belief on the pair is forgotten, and where the relation's confidence
    /// is more than what is left to it, the rule whose evidence is strongest
    /// is ignored from now on. Otherwise the belief is weakened by evidence
    /// against it that no rule is named for.
    #[verifier::rlimit(60)]
    fn discard(&mut self, x: Proposed, highest: i64, lowest: i64)
        requires
            old(self).wf(),
            0 <= lowest <= x.confidence < highest,
        ensures
            final(self).wf(),
            final(self)@ == after_discard(old(self)@, x, highest as int, lowest as int),
            final(self)@.retained == old(self)@.retained,
            final(self)@.unresolved == old(self)@.unresolved,
            forall|n: Seq<char>| old(self)@.denied.contains(n) ==> final(self)@.denied.contains(n),
    {
        let ghost before = self@;
        let a = x.edge.0;
        let b = x.edge.1;
        let prob = self.probability(&a, &b);
        let mag: i64 = if prob < 0 {
            -prob
        } else {
            prob
        };
        let left = left_over(x.confidence, highest, lowest);
        let gap: i64 = if left > mag {
            left - mag
        } else {
            mag - left
        };
        let inconsistent = gap as i128 * 10 > mag as i128;
        let (low, high) = if a.canonical_index() < b.canonical_index() {
            (a, b)
        } else {
            (b, a)
        };
        match self.find(low, high) {
            Some(i) => {
                let ghost log = before.beliefs[i as int].evidence;
                assert(before.beliefs[i as int] == self.seen@[i as int]@);
                if inconsistent && two_rules(&self.seen[i].evidence) {
                    if x.confidence > left {
                        match strongest_rule(&self.seen[i].evidence) {
                            Some(k) => {
                                let name = self.seen[i].evidence[k].rule.clone();
                                proof {
                                    lemma_strongest_is(log, k as int);
                                    assert(log[k as int] == self.seen@[i as int].evidence@[k as int]@);
                                }
                                self.deny(name.as_str());
                            },
                            None => {
                                proof {
                                    let at = choose|at: (int, int)| differing(log, at.0, at.1);
                                    assert(names_rule(log, at.0));
                                }
                            },
                        }
                    }
                    self.wipe(&a, &b);
                } else if mag > 0 {
                    self.apply("", &a, &b, -mag);
                }
            },
            None => {},
        }
    }

    /// Derives relations that hold no cycle from the beliefs, with the given
    /// draws in place of chance.
    ///
    /// The beliefs that are not zero are taken from the most confident to the
    /// least. A relation is confirmed where relations proposed before it,
    /// of confidence above the threshold, lead from its first rank and to
    /// its second; it then gets their highest confidence and one millionth
    /// more. Otherwise a draw decides its direction: with the chance of its
    /// confidence it stands as believed, else it is turned and gets the rest
    /// of the confidence.
    ///
    /// Then cycles are broken. Of the relations on a cycle those are
    /// discarded whose confidence is below the highest on the cycle, and
    /// this is repeated until no cycle is left. Where a cycle is left whose
    /// relations all have the same confidence, the derivation fails: the
    /// relations retained from the last derivation that succeeded are given
    /// again.
    ///
    /// Whatever the draws, the relations given hold no cycle, and no rule
    /// that was ignored is heeded again.
    #[verifier::rlimit(40)]
    pub fn relations_with(&mut self, draws: &[u64]) -> (out: Vec<Edge>)
        requires
            old(self).wf(),
        ensures
            final(self).wf(),
            derived_by(old(self)@, draws@, out@, final(self)@),
    {
        let ghost start = self@;
        let ghost mut passes: Seq<Pass> = Seq::empty();
        let believed = self.directed();
        let proposal = propose(&believed, draws);
        let ghost first = proposal@;
        let mut current = proposal;
        let ghost all = edges_of(believed@);
        let ghost mut from: Seq<int> = Seq::new(first.len(), |k: int| k);
        proof {
            lemma_directed_pairs(start.beliefs, start.beliefs.len());
            assert forall|i: int| 0 <= i < first.len() implies same_pair(
                #[trigger] edges_of(first)[i],
                by_decreasing(all, confidences(believed@))[i],
            ) by {
                assert(edges_of(first)[i] == first[i].edge);
            }
            lemma_proposed_pairs(all, confidences(believed@), edges_of(first));
            assert forall|x: Edge| from_believed(all, x) implies belief_in(start.beliefs, x.0, x.1) != 0 by {
                if all.contains(x) {
                    let j = choose|j: int| 0 <= j < all.len() && all[j] == x;
                    assert(believed@[j].edge == x);
                } else {
                    let j = choose|j: int| 0 <= j < all.len() && all[j] == (x.1, x.0);
                    assert(believed@[j].edge == (x.1, x.0));
                }
            }
        }
        loop
            invariant
                self.wf(),
                start == old(self)@,
                first == proposal_of(start.beliefs, draws@),
                first.len() == directed_upto(start.beliefs, start.beliefs.len()).len(),
                distinct_pairs(edges_of(first)),
                forall|i: int|
                    0 <= i < first.len() ==> (#[trigger] first[i]).confidence >= 0 && belief_in(
                        start.beliefs,
                        first[i].edge.0,
                        first[i].edge.1,
                    ) != 0,
                picks(from, current@, first),
                self@.retained == start.retained,
                forall|n: Seq<char>| start.denied.contains(n) ==> self@.denied.contains(n),
                passes.len() == 0 ==> current@ == first && self@ == start,
                passes.len() > 0 ==> linked(start, first, passes) && gives(passes.last(), current@, self@)
                    && !acyclic(edges_of(first)),
            decreases current.len(),
        {
            let ghost engine = self@;
            let edges = edges_from(&current);
            let cycles = detect_cycles(edges.as_slice());
            let ghost pass = Pass { current: current@, cycles: rank_views(cycles@), engine };
            let ghost full = passes.push(pass);
            proof {
                lemma_linked_grows(start, first, passes, pass);
                lemma_taken_from_proposal(from, current@, first, start.beliefs);
            }
            if cycles.len() == 0 {
                self.retained = copy_edges(&edges);
                self.unresolved = false;
                proof {
                    assert(self@ == (EngineView { retained: edges@, unresolved: false, ..engine }));
                    assert(broken_by(start, first, full, edges@, self@));
                    if passes.len() == 0 {
                        assert(edges@ =~= edges_of(first));
                    }
                }
                return edges;
            }
            proof {
                if current.len() == 0 {
                    lemma_empty_acyclic();
                    assert(edges@ =~= Seq::<Edge>::empty());
                }
                assert forall|k: int| 0 <= k < current.len() implies (#[trigger] current@[k]).confidence
                    >= 0 by {
                    assert(current@[k] == first[from[k]]);
                }
            }
            let kept = self.break_pass(&current, &cycles);
            if kept.len() == current.len() {
                let ghost left = self@;
                self.unresolved = true;
                proof {
                    assert(self@ == (EngineView { unresolved: true, ..left }));
                    assert(broken_by(start, first, full, self@.retained, self@));
                }
                return copy_edges(&self.retained);
            }
            proof {
                let within = choose|within: Seq<int>| picks(within, kept@, current@);
                from = lemma_picks_compose(within, from, kept@, current@, first);
                passes = full;
            }
            current = kept;
        }
    }

    /// One pass of breaking cycles: discards every proposal that stands on
    /// one of the cycles with a confidence below the highest on that cycle,
    /// in the order of the proposals, and gives the proposals that are left,
    /// in their order.
    fn break_pass(&mut self, current: &Vec<Proposed>, cycles: &Vec<Vec<CardValue>>) -> (kept: Vec<Proposed>)
        requires
            old(self).wf(),
            forall|k: int| 0 <= k < current.len() ==> (#[trigger] current@[k]).confidence >= 0,
        ensures
            final(self).wf(),
            kept@ == (Pass { current: current@, cycles: rank_views(cycles@), engine: old(self)@ }).kept(),
            final(self)@ == (Pass { current: current@, cycles: rank_views(cycles@), engine: old(self)@ }).left(),
            exists|within: Seq<int>| picks(within, kept@, current@),
            kept.len() <= current.len(),
            final(self)@.retained == old(self)@.retained,
            final(self)@.unresolved == old(self)@.unresolved,
            forall|n: Seq<char>| old(self)@.denied.contains(n) ==> final(self)@.denied.contains(n),
    {
        let ghost engine = self@;
        let ghost marks = marks_of(current@, rank_views(cycles@));
        let tops = mark_discards(current, cycles);
        let lowest = lowest_confidence(current);
        let mut kept: Vec<Proposed> = Vec::new();
        let ghost mut within: Seq<int> = Seq::empty();
        let mut i: usize = 0;
        while i < current.len()
            invariant
                i <= current.len(),
                tops@ == marks,
                tops.len() == current.len(),
                lowest == lowest_of(current@),
                is_lowest(current@, lowest as int),
                forall|k: int| 0 <= k < current.len() ==> (#[trigger] current@[k]).confidence >= 0,
                forall|k: int|
                    0 <= k < tops.len() ==> ((#[trigger] tops@[k]) matches Some(h) ==> current@[k].confidence
                        < h),
                kept@ == kept_upto(current@, marks, i as nat),
                self@ == discarded_upto(engine, current@, marks, lowest as int, i as nat),
                picks(within, kept@, current@),
                forall|k: int| 0 <= k < within.len() ==> #[trigger] within[k] < i,
                kept.len() <= i,
                self.wf(),
                self@.retained == engine.retained,
                self@.unresolved == engine.unresolved,
                forall|n: Seq<char>| engine.denied.contains(n) ==> self@.denied.contains(n),
            decreases current.len() - i,
        {
            match tops[i] {
                Some(h) => {
                    assert(lowest <= current@[i as int].confidence);
                    self.discard(current[i], h, lowest);
                },
                None => {
                    kept.push(current[i]);
                    proof {
                        within = within.push(i as int);
                    }
                },
            }
            i += 1;
        }
        kept
    }

    /// Derives relations that hold no cycle from the beliefs; chance decides
    /// where the beliefs leave a direction open. See `relations_with`: here
    /// each draw is a number below one million, drawn at random.
    pub fn relations(&mut self) -> (out: Vec<Edge>)
        requires
            old(self).wf(),
        ensures
            final(self).wf(),
            exists|draws: Seq<u64>| #[trigger] derived_by(old(self)@, draws, out@, final(self)@),
    {
        let mut draws: Vec<u64> = Vec::new();
        while draws.len() < self.seen.len()
            invariant
                draws.len() <= self.seen.len(),
            decreases self.seen.len() - draws.len(),
        {
            draws.push(random_below(0, 1000000));
        }
        self.relations_with(draws.as_slice())
    }

    /// Whether the last derivation of the relations failed: a cycle was
    /// left whose relations all had the same confidence, and the relations
    /// retained before were given again.
    pub fn unresolved(&self) -> (b: bool)
        ensures
            b == self@.unresolved,
    {
        self.unresolved
    }
}

/// Two relations join the same pair of ranks.
pub open spec fn same_pair(x: Edge, y: Edge) -> bool {
    x == y || (x.0 == y.1 && x.1 == y.0)
}

/// No two of the relations join the same pair of ranks.
pub open spec fn distinct_pairs(es: Seq<Edge>) -> bool {
    forall|i: int, j: int|
        0 <= i < es.len() && 0 <= j < es.len() && i != j ==> !same_pair(#[trigger] es[i], #[trigger] es[j])
}

/// The entries of `sub` are entries of `all`, in their order: `from` gives
/// the place of each in `all`.
pub open spec fn picks<T>(from: Seq<int>, sub: Seq<T>, all: Seq<T>) -> bool {
    &&& from.len() == sub.len()
    &&& forall|k: int| 0 <= k < from.len() ==> 0 <= #[trigger] from[k] < all.len() && sub[k] == all[from[k]]
    &&& forall|j: int, k: int| 0 <= j < k < from.len() ==> #[trigger] from[j] < #[trigger] from[k]
}

/// The relations `sub` are relations of `all`, in their order.
pub open spec fn taken_in_order(sub: Seq<Edge>, all: Seq<Edge>) -> bool {
    exists|from: Seq<int>| picks(from, sub, all)
}

/// Relations taken from relations that join each pair once join each pair
/// once.
pub proof fn lemma_picked_pairs(from: Seq<int>, sub: Seq<Edge>, all: Seq<Edge>)
    requires
        picks(from, sub, all),
        distinct_pairs(all),
    ensures
        distinct_pairs(sub),
{
    assert forall|i: int, j: int| 0 <= i < sub.len() && 0 <= j < sub.len() && i != j implies !same_pair(
        #[trigger] sub[i],
        #[trigger] sub[j],
    ) by {
        if i < j {
            assert(from[i] < from[j]);
        } else {
            assert(from[j] < from[i]);
        }
        assert(sub[i] == all[from[i]] && sub[j] == all[from[j]]);
    }
}

/// Entries taken in order from others are no more than those.
pub proof fn lemma_picked_fit<T>(from: Seq<int>, sub: Seq<T>, all: Seq<T>)
    requires
        picks(from, sub, all),
    ensures
        sub.len() <= all.len(),
        forall|k: int| 0 <= k < from.len() ==> k <= #[trigger] from[k],
    decreases sub.len(),
{
    if sub.len() > 0 {
        lemma_picked_fit(from.drop_last(), sub.drop_last(), all);
        let end = sub.len() - 1;
        if end > 0 {
            assert(from.drop_last()[end - 1] == from[end - 1]);
            assert(from[end - 1] < from[end]);
        }
        assert forall|k: int| 0 <= k < from.len() implies k <= #[trigger] from[k] by {
            if k < end {
                assert(from.drop_last()[k] == from[k]);
            }
        }
        assert(from[end] < all.len());
    }
}

/// The believed relations join each pair of ranks once.
pub proof fn lemma_directed_pairs(beliefs: Seq<BeliefView>, n: nat)
    requires
        well_formed(beliefs),
        n <= beliefs.len(),
    ensures
        distinct_pairs(edges_of(directed_upto(beliefs, n))),
        forall|k: int|
            0 <= k < directed_upto(beliefs, n).len() ==> exists|m: int|
                0 <= m < n && same_pair(
                    (#[trigger] directed_upto(beliefs, n)[k]).edge,
                    (beliefs[m].low, beliefs[m].high),
                ),
    decreases n,
{
    if n > 0 {
        lemma_directed_pairs(beliefs, (n - 1) as nat);
        let before = directed_upto(beliefs, (n - 1) as nat);
        let now = directed_upto(beliefs, n);
        let b = beliefs[n - 1];
        assert forall|k: int| 0 <= k < now.len() implies exists|m: int|
            0 <= m < n && same_pair((#[trigger] now[k]).edge, (beliefs[m].low, beliefs[m].high)) by {
            if k < before.len() {
                assert(now[k] == before[k]);
                let m = choose|m: int|
                    0 <= m < n - 1 && same_pair(before[k].edge, (beliefs[m].low, beliefs[m].high));
                assert(same_pair(now[k].edge, (beliefs[m].low, beliefs[m].high)));
            } else {
                assert(same_pair(now[k].edge, (beliefs[n - 1].low, beliefs[n - 1].high)));
            }
        }
        let es = edges_of(now);
        assert forall|i: int, j: int| 0 <= i < es.len() && 0 <= j < es.len() && i != j implies !same_pair(
            #[trigger] es[i],
            #[trigger] es[j],
        ) by {
            if i < before.len() && j < before.len() {
                assert(es[i] == edges_of(before)[i] && es[j] == edges_of(before)[j]);
            } else {
                let old_one = if i < before.len() {
                    i
                } else {
                    j
                };
                assert(now[old_one] == before[old_one]);
                let m = choose|m: int|
                    0 <= m < n - 1 && same_pair(before[old_one].edge, (beliefs[m].low, beliefs[m].high));
                assert(beliefs[m].low.index() < beliefs[m].high.index());
                assert(b.low.index() < b.high.index());
                assert(!(beliefs[m].low == beliefs[n - 1].low && beliefs[m].high == beliefs[n - 1].high));
            }
        }
    }
}

/// Relations that join each pair once do so in whatever order they stand,
/// and whichever of them are turned.
pub proof fn lemma_proposed_pairs(all: Seq<Edge>, keys: Seq<int>, proposed: Seq<Edge>)
    requires
        distinct_pairs(all),
        all.len() == keys.len(),
        proposed.len() == all.len(),
        forall|i: int| 0 <= i < proposed.len() ==> same_pair(#[trigger] proposed[i], by_decreasing(all, keys)[i]),
    ensures
        distinct_pairs(proposed),
{
    let sorted = by_decreasing(all, keys);
    assert(all.no_duplicates()) by {
        assert forall|i: int, j: int| 0 <= i < all.len() && 0 <= j < all.len() && i != j implies all[i]
            != all[j] by {
            assert(!same_pair(all[i], all[j]));
        }
    }
    lemma_by_decreasing_distinct(all, keys);
    lemma_by_decreasing_holds(all, keys);
    assert forall|i: int, j: int|
        0 <= i < proposed.len() && 0 <= j < proposed.len() && i != j implies !same_pair(
        #[trigger] proposed[i],
        #[trigger] proposed[j],
    ) by {
        assert(same_pair(proposed[i], sorted[i]) && same_pair(proposed[j], sorted[j]));
        assert(sorted[i] != sorted[j]);
        assert(all.contains(sorted[i]) && all.contains(sorted[j]));
        let x = choose|x: int| 0 <= x < all.len() && all[x] == sorted[i];
        let y = choose|y: int| 0 <= y < all.len() && all[y] == sorted[j];
        assert(!same_pair(all[x], all[y]));
    }
}

/// What a derivation of the relations gives: relations `out` and an engine
/// `after`, from an engine `before` and draws.
///
/// The relations hold no cycle and join each pair of ranks at most once, and
/// the engine retains them. No rule that was ignored is heeded again. Where
/// the derivation failed the relations are those retained before; where it
/// succeeded they are relations of the proposal, in the order of the
/// proposal, each on a pair on which there is a belief, and no more than
/// there are beliefs that are not zero. It succeeds where the proposal holds
/// no cycle, and then the relations are those of the proposal and the
/// beliefs and the ignored rules stay as they are.
///
/// Cycles of the proposal are broken in passes, as `broken_by` says: in each
/// pass the proposals that stand on a cycle with a confidence below the
/// highest on it are discarded, and the engine takes each discard as
/// `after_discard` says; the pass after it starts with what is left.
pub open spec fn derived_by(before: EngineView, draws: Seq<u64>, out: Seq<Edge>, after: EngineView) -> bool {
    &&& acyclic(out)
    &&& distinct_pairs(out)
    &&& out == after.retained
    &&& forall|n: Seq<char>| before.denied.contains(n) ==> after.denied.contains(n)
    &&& after.unresolved ==> out == before.retained
    &&& !after.unresolved ==> taken_in_order(out, edges_of(proposal_of(before.beliefs, draws)))
    &&& !after.unresolved ==> out.len() <= directed_upto(before.beliefs, before.beliefs.len()).len()
    &&& !after.unresolved ==> forall|k: int|
        0 <= k < out.len() ==> belief_in(before.beliefs, (#[trigger] out[k]).0, out[k].1) != 0
    &&& !after.unresolved ==> forall|k: int|
        0 <= k < out.len() ==> edges_of(proposal_of(before.beliefs, draws)).contains(#[trigger] out[k])
    &&& acyclic(edges_of(proposal_of(before.beliefs, draws))) ==> {
        &&& !after.unresolved
        &&& out == edges_of(proposal_of(before.beliefs, draws))
        &&& after.beliefs == before.beliefs
        &&& after.denied == before.denied
    }
    &&& exists|passes: Seq<Pass>| #[trigger]
        broken_by(before, proposal_of(before.beliefs, draws), passes, out, after)
}

/// A proposed relation with its confidence in millionths.
#[derive(Debug, Clone, Copy, PartialEq, Eq)]
pub struct Proposed {
    pub edge: Edge,
    pub confidence: i64,
}

/// The relations of the proposals.
pub open spec fn edges_of(ps: Seq<Proposed>) -> Seq<Edge> {
    Seq::new(ps.len(), |i: int| ps[i].edge)
}

/// Copies out the relations of the proposals.
pub fn edges_from(ps: &Vec<Proposed>) -> (out: Vec<Edge>)
    ensures
        out@ == edges_of(ps@),
{
    let mut out: Vec<Edge> = Vec::new();
    let mut i: usize = 0;
    while i < ps.len()
        invariant
            i <= ps.len(),
            out@ == edges_of(ps@).take(i as int),
        decreases ps.len() - i,
    {
        out.push(ps[i].edge);
        assert(edges_of(ps@).take(i as int + 1) =~= edges_of(ps@).take(i as int).push(
            ps@[i as int].edge,
        ));
        i += 1;
    }
    assert(edges_of(ps@).take(ps.len() as int) =~= edges_of(ps@));
    out
}

/// Copies relations.
pub fn copy_edges(src: &Vec<Edge>) -> (out: Vec<Edge>)
    ensures
        out@ == src@,
{
    let mut out: Vec<Edge> = Vec::new();
    let mut i: usize = 0;
    while i < src.len()
        invariant
            i <= src.len(),
            out@ == src@.take(i as int),
        decreases src.len() - i,
    {
        out.push(src[i]);
        assert(src@.take(i as int + 1) =~= src@.take(i as int).push(src@[i as int]));
        i += 1;
    }
    assert(src@.take(src.len() as int) =~= src@);
    out
}

/// The next draw, or zero when the draws are used up.
pub fn next_draw(draws: &[u64], used: &mut usize) -> (draw: u64)
    ensures
        *old(used) < draws.len() ==> draw == draws@[*old(used) as int] && *final(used) == *old(used)
            + 1,
        *old(used) >= draws.len() ==> draw == 0 && *final(used) == *old(used),
{
    if *used < draws.len() {
        let draw = draws[*used];
        *used = *used + 1;
        draw
    } else {
        0
    }
}

/// The confidence that is left to a relation of confidence `p` that stands
/// on a cycle whose highest confidence is `highest`, where the lowest
/// confidence of the proposal is `lowest`: `p * (1 - lowest / highest)`.
pub open spec fn left_of(p: int, highest: int, lowest: int) -> int {
    p - (p * lowest) / highest
}

/// Computes the confidence that is left to a discarded relation.
pub fn left_over(p: i64, highest: i64, lowest: i64) -> (left: i64)
    requires
        0 <= lowest <= p < highest,
    ensures
        left == left_of(p as int, highest as int, lowest as int),
        0 <= left <= p,
{
    let ghost pi = p as int;
    let ghost li = lowest as int;
    let ghost hi = highest as int;
    assert(0 <= pi * li <= pi * hi) by (nonlinear_arith)
        requires
            0 <= li <= hi,
            0 <= pi,
    ;
    assert(pi * hi <= 0x7fff_ffff_ffff_ffff * 0x7fff_ffff_ffff_ffff) by (nonlinear_arith)
        requires
            0 <= pi <= 0x7fff_ffff_ffff_ffff,
            0 <= hi <= 0x7fff_ffff_ffff_ffff,
    ;
    assert(0 <= (pi * li) / hi <= pi) by (nonlinear_arith)
        requires
            0 <= pi * li <= pi * hi,
            hi > 0,
            pi >= 0,
    ;
    let num: u128 = (p as u128) * (lowest as u128);
    let cut: u128 = num / (highest as u128);
    p - cut as i64
}

/// `lowest` is the lowest confidence of the proposals, or zero where there
/// are none.
pub open spec fn is_lowest(ps: Seq<Proposed>, lowest: int) -> bool {
    &&& forall|k: int| 0 <= k < ps.len() ==> lowest <= (#[trigger] ps[k]).confidence
    &&& ps.len() > 0 ==> exists|k: int| 0 <= k < ps.len() && (#[trigger] ps[k]).confidence == lowest
    &&& ps.len() == 0 ==> lowest == 0
}

/// The lowest confidence of the proposals, or zero where there are none.
pub open spec fn lowest_of(ps: Seq<Proposed>) -> int {
    choose|lowest: int| is_lowest(ps, lowest)
}

/// Only one number is the lowest confidence.
pub proof fn lemma_lowest_is(ps: Seq<Proposed>, lowest: int)
    requires
        is_lowest(ps, lowest),
    ensures
        lowest_of(ps) == lowest,
{
    let other = lowest_of(ps);
    assert(is_lowest(ps, other));
    if ps.len() > 0 {
        let k = choose|k: int| 0 <= k < ps.len() && (#[trigger] ps[k]).confidence == lowest;
        let m = choose|m: int| 0 <= m < ps.len() && (#[trigger] ps[m]).confidence == other;
        assert(other <= ps[k].confidence);
        assert(lowest <= ps[m].confidence);
    }
}

/// The lowest confidence of the proposals, or zero where there are none.
pub fn lowest_confidence(ps: &Vec<Proposed>) -> (lowest: i64)
    ensures
        lowest == lowest_of(ps@),
        is_lowest(ps@, lowest as int),
{
    if ps.len() == 0 {
        proof {
            lemma_lowest_is(ps@, 0);
        }
        return 0;
    }
    let mut lowest = ps[0].confidence;
    let mut i: usize = 1;
    while i < ps.len()
        invariant
            1 <= i <= ps.len(),
            forall|k: int| 0 <= k < i ==> lowest <= (#[trigger] ps@[k]).confidence,
            exists|k: int| 0 <= k < i && (#[trigger] ps@[k]).confidence == lowest,
        decreases ps.len() - i,
    {
        if ps[i].confidence < lowest {
            lowest = ps[i].confidence;
        }
        i += 1;
    }
    proof {
        lemma_lowest_is(ps@, lowest as int);
    }
    lowest
}

/// The evidence at `i` names a rule.
pub open spec fn names_rule(log: Seq<EvidenceView>, i: int) -> bool {
    0 <= i < log.len() && log[i].rule.len() > 0
}

/// The evidence at `i` and at `j` name rules, and the rules differ.
pub open spec fn differing(log: Seq<EvidenceView>, i: int, j: int) -> bool {
    names_rule(log, i) && names_rule(log, j) && log[i].rule != log[j].rule
}

/// Two pieces of evidence name different rules.
pub open spec fn has_two_rules(log: Seq<EvidenceView>) -> bool {
    exists|at: (int, int)| differing(log, at.0, at.1)
}

/// Tells whether two pieces of evidence name different rules, not counting
/// evidence that names no rule.
pub fn two_rules(evidence: &Vec<Evidence>) -> (found: bool)
    ensures
        found == has_two_rules(evidence_views(evidence@)),
{
    let ghost log = evidence_views(evidence@);
    let mut i: usize = 0;
    while i < evidence.len()
        invariant
            i <= evidence.len(),
            log == evidence_views(evidence@),
            forall|x: int, y: int| 0 <= x < i ==> !#[trigger] differing(log, x, y),
        decreases evidence.len() - i,
    {
        assert(log[i as int] == evidence@[i as int]@);
        if !evidence[i].rule.as_str().is_empty() {
            let mut j: usize = 0;
            while j < evidence.len()
                invariant
                    i < evidence.len(),
                    j <= evidence.len(),
                    log == evidence_views(evidence@),
                    names_rule(log, i as int),
                    forall|y: int| 0 <= y < j ==> !#[trigger] differing(log, i as int, y),
                decreases evidence.len() - j,
            {
                assert(log[j as int] == evidence@[j as int]@);
                assert(log[i as int] == evidence@[i as int]@);
                if !evidence[j].rule.as_str().is_empty() && evidence[i].rule != evidence[j].rule {
                    assert(differing(log, (i as int, j as int).0, (i as int, j as int).1));
                    return true;
                }
                j += 1;
            }
        }
        i += 1;
    }
    false
}

/// The strength of a certainty: its size.
pub open spec fn strength_of(c: int) -> int {
    if c < 0 {
        -c
    } else {
        c
    }
}

/// Evidence `x` counts at least as much as evidence `y`: it is stronger, or
/// as strong and not more negative.
pub open spec fn outweighs(x: int, y: int) -> bool {
    strength_of(x) > strength_of(y) || (strength_of(x) == strength_of(y) && x >= y)
}

/// The evidence at `k` names a rule and counts at least as much as every
/// evidence that names a rule, and no later evidence that names a rule
/// counts as much.
pub open spec fn is_strongest(log: Seq<EvidenceView>, k: int) -> bool {
    &&& names_rule(log, k)
    &&& forall|i: int| #[trigger] names_rule(log, i) ==> outweighs(log[k].certainty, log[i].certainty)
    &&& forall|i: int|
        k < i && #[trigger] names_rule(log, i) ==> !outweighs(log[i].certainty, log[k].certainty)
}

/// The index of the evidence of a named rule that counts most; of several
/// that count the same, the last.
pub open spec fn strongest_of(log: Seq<EvidenceView>) -> int {
    choose|k: int| is_strongest(log, k)
}

/// Only one piece of evidence is the strongest.
pub proof fn lemma_strongest_is(log: Seq<EvidenceView>, k: int)
    requires
        is_strongest(log, k),
    ensures
        strongest_of(log) == k,
{
    let m = strongest_of(log);
    assert(is_strongest(log, m));
    if m < k {
        assert(names_rule(log, k));
        assert(outweighs(log[k].certainty, log[m].certainty));
    } else if k < m {
        assert(names_rule(log, m));
        assert(outweighs(log[m].certainty, log[k].certainty));
    }
}

/// Finds the evidence of a named rule that counts most; of several that
/// count the same, the last.
pub fn strongest_rule(evidence: &Vec<Evidence>) -> (r: Option<usize>)
    ensures
        r is None <==> forall|i: int| !#[trigger] names_rule(evidence_views(evidence@), i),
        r matches Some(k) ==> is_strongest(evidence_views(evidence@), k as int),
{
    let ghost log = evidence_views(evidence@);
    let mut best: Option<usize> = None;
    let mut i: usize = 0;
    while i < evidence.len()
        invariant
            i <= evidence.len(),
            log == evidence_views(evidence@),
            best is None <==> forall|j: int| j < i ==> !#[trigger] names_rule(log, j),
            best matches Some(k) ==> {
                &&& k < i
                &&& names_rule(log, k as int)
                &&& forall|j: int|
                    j < i && #[trigger] names_rule(log, j) ==> outweighs(
                        log[k as int].certainty,
                        log[j].certainty,
                    )
                &&& forall|j: int|
                    k < j < i && #[trigger] names_rule(log, j) ==> !outweighs(
                        log[j].certainty,
                        log[k as int].certainty,
                    )
            },
        decreases evidence.len() - i,
    {
        assert(log[i as int] == evidence@[i as int]@);
        if !evidence[i].rule.as_str().is_empty() {
            assert(names_rule(log, i as int));
            match best {
                None => {
                    best = Some(i);
                },
                Some(k) => {
                    assert(log[k as int] == evidence@[k as int]@);
                    if counts_more(evidence[i].certainty, evidence[k].certainty) {
                        best = Some(i);
                    }
                },
            }
        }
        i += 1;
    }
    best
}

/// The names of the ignored rules with one more, unless it stands among
/// them.
pub open spec fn denied_with(denied: Seq<Seq<char>>, name: Seq<char>) -> Seq<Seq<char>> {
    if denied.contains(name) {
        denied
    } else {
        denied.push(name)
    }
}

/// The beliefs without the belief on the pair.
pub open spec fn without_pair(beliefs: Seq<BeliefView>, low: CardValue, high: CardValue) -> Seq<BeliefView> {
    if has_pair(beliefs, low, high) {
        beliefs.remove(pair_index(beliefs, low, high))
    } else {
        beliefs
    }
}

/// The engine after a relation was discarded that stood on a cycle whose
/// highest confidence is `highest`, where the lowest confidence of the
/// proposal is `lowest`.
///
/// The confidence left to the relation is set against the size of the belief
/// that its first rank is weaker than its second. Where the two differ by
/// more than a tenth of the belief and two rules gave evidence on the pair,
/// the belief on the pair is forgotten, and where the confidence of the
/// relation is more than what is left to it, the rule of the strongest
/// evidence is ignored from now on. Otherwise a belief that is not zero
/// takes evidence against the relation, as strong as the belief, that no
/// rule is named for. Where there is no belief on the pair, nothing changes.
pub open spec fn after_discard(v: EngineView, x: Proposed, highest: int, lowest: int) -> EngineView {
    let a = x.edge.0;
    let b = x.edge.1;
    let mag = strength_of(belief_in(v.beliefs, a, b));
    let left = left_of(x.confidence as int, highest, lowest);
    let low = canonical(a, b, 0).0;
    let high = canonical(a, b, 0).1;
    if !has_pair(v.beliefs, low, high) {
        v
    } else {
        let log = v.beliefs[pair_index(v.beliefs, low, high)].evidence;
        if strength_of(left - mag) * 10 > mag && has_two_rules(log) {
            EngineView {
                beliefs: without_pair(v.beliefs, low, high),
                denied: if x.confidence > left {
                    denied_with(v.denied, log[strongest_of(log)].rule)
                } else {
                    v.denied
                },
                ..v
            }
        } else if mag > 0 && accepts(v, ""@, a, b, -mag) {
            EngineView { beliefs: updated(v.beliefs, ""@, a, b, -mag), ..v }
        } else {
            v
        }
    }
}

/// Tells whether evidence of certainty `x` counts at least as much as
/// evidence of certainty `y`.
pub fn counts_more(x: i64, y: i64) -> (more: bool)
    ensures
        more == outweighs(x as int, y as int),
{
    let sx: i128 = if x < 0 {
        -(x as i128)
    } else {
        x as i128
    };
    let sy: i128 = if y < 0 {
        -(y as i128)
    } else {
        y as i128
    };
    sx > sy || (sx == sy && x >= y)
}

/// The proposal at `i` is the first of the relation `x`.
pub open spec fn is_first_with(ps: Seq<Proposed>, x: Edge, i: int) -> bool {
    &&& 0 <= i < ps.len()
    &&& ps[i].edge == x
    &&& forall|j: int| 0 <= j < i ==> (#[trigger] ps[j]).edge != x
}

/// The index of the first proposal of the relation `x`.
pub open spec fn first_with(ps: Seq<Proposed>, x: Edge) -> int {
    choose|i: int| is_first_with(ps, x, i)
}

/// Only one proposal is the first of a relation.
pub proof fn lemma_first_with(ps: Seq<Proposed>, x: Edge, i: int)
    requires
        is_first_with(ps, x, i),
    ensures
        first_with(ps, x) == i,
{
    let f = first_with(ps, x);
    assert(is_first_with(ps, x, f));
    if f < i {
        assert(ps[f].edge != x);
    } else if i < f {
        assert(ps[i].edge != x);
    }
}

/// Finds the proposal of a relation.
pub fn lookup(ps: &Vec<Proposed>, x: Edge) -> (r: Option<usize>)
    ensures
        r is None <==> !edges_of(ps@).contains(x),
        r matches Some(i) ==> is_first_with(ps@, x, i as int),
{
    let mut i: usize = 0;
    while i < ps.len()
        invariant
            i <= ps.len(),
            forall|j: int| 0 <= j < i ==> edges_of(ps@)[j] != x,
        decreases ps.len() - i,
    {
        if ps[i].edge.0 == x.0 && ps[i].edge.1 == x.1 {
            assert(edges_of(ps@)[i as int] == x);
            assert forall|j: int| 0 <= j < i implies (#[trigger] ps@[j]).edge != x by {
                assert(edges_of(ps@)[j] != x);
            }
            return Some(i);
        }
        i += 1;
    }
    None
}

/// The highest confidence among the proposals made so far that confirm a
/// relation from `a` to `b`, or `None` where none confirms it.
pub fn confirmation(proposal: &Vec<Proposed>, believed: &Vec<Edge>, a: CardValue, b: CardValue) -> (r: Option<i64>)
    ensures
        r matches Some(mx) ==> exists|k: int|
            0 <= k < proposal.len() && (#[trigger] proposal@[k]).confidence == mx && confirms(
                believed@,
                proposal@[k].edge,
                a,
                b,
            ),
        r matches Some(mx) ==> forall|k: int|
            0 <= k < proposal.len() && confirms(believed@, (#[trigger] proposal@[k]).edge, a, b)
                ==> proposal@[k].confidence <= mx,
        r is None <==> forall|k: int|
            0 <= k < proposal.len() ==> !confirms(believed@, (#[trigger] proposal@[k]).edge, a, b),
        r == confirmation_of(proposal@, believed@, a, b),
{
    let mut best: Option<i64> = None;
    let mut k: usize = 0;
    while k < proposal.len()
        invariant
            k <= proposal.len(),
            best matches Some(mx) ==> exists|j: int|
                0 <= j < k && (#[trigger] proposal@[j]).confidence == mx && confirms(
                    believed@,
                    proposal@[j].edge,
                    a,
                    b,
                ),
            best matches Some(mx) ==> forall|j: int|
                0 <= j < k && confirms(believed@, (#[trigger] proposal@[j]).edge, a, b)
                    ==> proposal@[j].confidence <= mx,
            best is None <==> forall|j: int|
                0 <= j < k ==> !confirms(believed@, (#[trigger] proposal@[j]).edge, a, b),
        decreases proposal.len() - k,
    {
        let q = proposal[k];
        if holds_edge(believed.as_slice(), a, q.edge.1) && holds_edge(
            believed.as_slice(),
            q.edge.0,
            b,
        ) {
            match best {
                None => {
                    best = Some(q.confidence);
                },
                Some(mx) => {
                    if q.confidence > mx {
                        best = Some(q.confidence);
                    }
                },
            }
        }
        k += 1;
    }
    proof {
        match best {
            Some(mx) => {
                assert(is_confirmation(proposal@, believed@, a, b, mx));
                let c = choose|c: i64| is_confirmation(proposal@, believed@, a, b, c);
                assert(is_confirmation(proposal@, believed@, a, b, c));
            },
            None => {},
        }
    }
    best
}

/// `mx` is the highest confidence among the proposals that confirm a
/// relation from `a` to `b`.
pub open spec fn is_confirmation(proposal: Seq<Proposed>, believed: Seq<Edge>, a: CardValue, b: CardValue, mx: i64) -> bool {
    &&& exists|k: int|
        0 <= k < proposal.len() && (#[trigger] proposal[k]).confidence == mx && confirms(
            believed,
            proposal[k].edge,
            a,
            b,
        )
    &&& forall|k: int|
        0 <= k < proposal.len() && confirms(believed, (#[trigger] proposal[k]).edge, a, b)
            ==> proposal[k].confidence <= mx
}

/// The highest confidence among the proposals that confirm a relation from
/// `a` to `b`, if any confirms it.
pub open spec fn confirmation_of(proposal: Seq<Proposed>, believed: Seq<Edge>, a: CardValue, b: CardValue) -> Option<i64> {
    if exists|k: int|
        0 <= k < proposal.len() && confirms(believed, (#[trigger] proposal[k]).edge, a, b) {
        Some(choose|mx: i64| is_confirmation(proposal, believed, a, b, mx))
    } else {
        None
    }
}

/// The beliefs among the first `n` that are not zero, as relations from the
/// rank believed weaker to the rank believed stronger.
pub open spec fn directed_upto(beliefs: Seq<BeliefView>, n: nat) -> Seq<Proposed>
    decreases n,
{
    if n == 0 {
        Seq::empty()
    } else {
        let before = directed_upto(beliefs, (n - 1) as nat);
        let b = beliefs[n - 1];
        if b.probability > 0 {
            before.push(Proposed { edge: (b.low, b.high), confidence: b.probability as i64 })
        } else if b.probability < 0 {
            before.push(Proposed { edge: (b.high, b.low), confidence: (-b.probability) as i64 })
        } else {
            before
        }
    }
}

/// The confidences of the proposals.
pub open spec fn confidences(ps: Seq<Proposed>) -> Seq<int> {
    Seq::new(ps.len(), |i: int| ps[i].confidence as int)
}

/// The draw at `k`, or zero where the draws are used up.
pub open spec fn draw_at(draws: Seq<u64>, k: int) -> int {
    if 0 <= k < draws.len() {
        draws[k] as int
    } else {
        0
    }
}

/// The first `k` proposals: the believed relations are taken by decreasing
/// confidence, and each is proposed as the proposals before it and the draw
/// at its place decide.
pub open spec fn proposal_upto(believed: Seq<Proposed>, draws: Seq<u64>, k: nat) -> Seq<Proposed>
    decreases k,
{
    if k == 0 {
        Seq::empty()
    } else {
        let before = proposal_upto(believed, draws, (k - 1) as nat);
        let x = by_decreasing(edges_of(believed), confidences(believed))[k - 1];
        before.push(
            proposed_for(
                believed[first_with(believed, x)],
                confirmation_of(before, edges_of(believed), x.0, x.1),
                draw_at(draws, k - 1),
            ),
        )
    }
}

/// The proposal that the beliefs and the draws give.
pub open spec fn proposal_of(beliefs: Seq<BeliefView>, draws: Seq<u64>) -> Seq<Proposed> {
    let believed = directed_upto(beliefs, beliefs.len());
    proposal_upto(believed, draws, believed.len())
}

/// The proposal `x` confirms a relation from `a` to `b`: believed relations
/// lead from `a` to the second rank of `x` and from the first rank of `x`
/// to `b`.
pub open spec fn confirms(believed: Seq<Edge>, x: Edge, a: CardValue, b: CardValue) -> bool {
    believed.contains((a, x.1)) && believed.contains((x.0, b))
}

/// The proposal for one believed relation: where it is confirmed above the
/// threshold, the relation with the confirming confidence and one millionth
/// more; else the relation as believed where the draw, taken modulo one
/// million, is not below the rest of its confidence, and the relation
/// turned, with the rest of the confidence, where it is.
///
/// The chance with which a relation that is not confirmed stands as
/// believed is an estimate from the ranks known around its two ranks: the
/// confidence of the belief, times the share of the ranks known below the
/// two that count for the direction, over the share of the ranks known
/// above the two that count for it. Every rank known on either side counts,
/// so both shares are whole whatever the sizes of the two sets, and the
/// estimate is the confidence of the belief itself.
pub open spec fn proposed_for(x: Proposed, confirmed: Option<i64>, draw: int) -> Proposed {
    match confirmed {
        Some(mx) if mx > CONFIRMATION_THRESHOLD => Proposed {
            edge: x.edge,
            confidence: if mx < i64::MAX {
                (mx + 1) as i64
            } else {
                mx
            },
        },
        _ => if draw % (SCALE as int) < SCALE - x.confidence {
            Proposed { edge: (x.edge.1, x.edge.0), confidence: (SCALE - x.confidence) as i64 }
        } else {
            x
        },
    }
}

/// The relation is a believed relation or a believed relation turned.
pub open spec fn from_believed(believed: Seq<Edge>, x: Edge) -> bool {
    believed.contains(x) || believed.contains((x.1, x.0))
}

/// Decides the proposal for one believed relation.
pub fn decide(x: Proposed, confirmed: Option<i64>, draw: u64) -> (out: Proposed)
    requires
        0 < x.confidence < SCALE,
    ensures
        out == proposed_for(x, confirmed, draw as int),
        out.confidence >= 0,
        out.edge == x.edge || out.edge == (x.edge.1, x.edge.0),
{
    match confirmed {
        Some(mx) if mx > CONFIRMATION_THRESHOLD => {
            let confidence = if mx < i64::MAX {
                mx + 1
            } else {
                mx
            };
            Proposed { edge: x.edge, confidence }
        },
        _ => {
            if ((draw % 1000000) as i64) < SCALE - x.confidence {
                Proposed { edge: (x.edge.1, x.edge.0), confidence: SCALE - x.confidence }
            } else {
                x
            }
        },
    }
}

/// Builds the proposal from the believed relations, the most confident
/// first; relations of the same confidence keep their order. The proposal at
/// place `k` is decided by the draw at `k`.
pub fn propose(believed: &Vec<Proposed>, draws: &[u64]) -> (proposal: Vec<Proposed>)
    requires
        forall|i: int| 0 <= i < believed.len() ==> 0 < (#[trigger] believed@[i]).confidence < SCALE,
    ensures
        proposal@ == proposal_upto(believed@, draws@, believed.len() as nat),
        proposal.len() == believed.len(),
        forall|i: int| 0 <= i < proposal.len() ==> (#[trigger] proposal@[i]).confidence >= 0,
        forall|i: int|
            0 <= i < proposal.len() ==> from_believed(edges_of(believed@), (#[trigger] proposal@[i]).edge),
        forall|i: int|
            0 <= i < proposal.len() ==> same_pair(
                (#[trigger] proposal@[i]).edge,
                by_decreasing(edges_of(believed@), confidences(believed@))[i],
            ),
{
    let all = edges_from(believed);
    let mut keys: Vec<u64> = Vec::new();
    let mut i: usize = 0;
    while i < believed.len()
        invariant
            i <= believed.len(),
            keys.len() == i,
            forall|k: int| 0 <= k < believed.len() ==> 0 < (#[trigger] believed@[k]).confidence < SCALE,
            forall|k: int| 0 <= k < i ==> keys@[k] == believed@[k].confidence,
        decreases believed.len() - i,
    {
        keys.push(believed[i].confidence as u64);
        i += 1;
    }
    assert(key_ints(keys@) =~= confidences(believed@));
    let ordered = order_by_keys(copy_edges(&all), keys);
    proof {
        lemma_by_decreasing_holds(all@, confidences(believed@));
    }
    let mut proposal: Vec<Proposed> = Vec::new();
    let mut k: usize = 0;
    let mut used: usize = 0;
    while k < ordered.len()
        invariant
            k <= ordered.len(),
            ordered.len() == believed.len(),
            ordered@ == by_decreasing(edges_of(believed@), confidences(believed@)),
            proposal@ == proposal_upto(believed@, draws@, k as nat),
            proposal.len() == k,
            used == if k <= draws.len() {
                k
            } else {
                draws.len()
            },
            all@ == edges_of(believed@),
            forall|j: int| 0 <= j < ordered.len() ==> all@.contains(#[trigger] ordered@[j]),
            forall|j: int| 0 <= j < believed.len() ==> 0 < (#[trigger] believed@[j]).confidence < SCALE,
            forall|j: int| 0 <= j < proposal.len() ==> (#[trigger] proposal@[j]).confidence >= 0,
            forall|j: int|
                0 <= j < proposal.len() ==> from_believed(all@, (#[trigger] proposal@[j]).edge),
            forall|j: int| 0 <= j < proposal.len() ==> same_pair((#[trigger] proposal@[j]).edge, ordered@[j]),
        decreases ordered.len() - k,
    {
        let x = ordered[k];
        let found = lookup(believed, x);
        let at = match found {
            Some(at) => at,
            None => {
                assert(all@.contains(ordered@[k as int]));
                0
            },
        };
        proof {
            lemma_first_with(believed@, x, at as int);
        }
        let confirmed = confirmation(&proposal, &all, x.0, x.1);
        let draw = next_draw(draws, &mut used);
        let ghost had = proposal@;
        let next = decide(believed[at], confirmed, draw);
        proposal.push(next);
        proof {
            assert(all@[at as int] == believed@[at as int].edge);
            assert(all@.contains(believed@[at as int].edge));
            assert(from_believed(all@, next.edge));
            assert forall|j: int| 0 <= j < proposal.len() implies from_believed(
                all@,
                (#[trigger] proposal@[j]).edge,
            ) by {
                if j < had.len() {
                    assert(proposal@[j] == had[j]);
                }
            }
            assert forall|j: int| 0 <= j < proposal.len() implies same_pair(
                (#[trigger] proposal@[j]).edge,
                ordered@[j],
            ) by {
                if j < had.len() {
                    assert(proposal@[j] == had[j]);
                }
            }
        }
        k += 1;
    }
    proposal
}

/// The highest confidence among the first `n` proposals that stand on the
/// cycle, if any of them does.
pub open spec fn top_upto(current: Seq<Proposed>, cycle: Seq<CardValue>, n: nat) -> Option<i64>
    decreases n,
{
    if n == 0 {
        None
    } else {
        let before = top_upto(current, cycle, (n - 1) as nat);
        let x = current[n - 1];
        if on_cycle(cycle, x.edge) {
            match before {
                Some(t) => if x.confidence > t {
                    Some(x.confidence)
                } else {
                    before
                },
                None => Some(x.confidence),
            }
        } else {
            before
        }
    }
}

/// The highest confidence among the proposals that stand on the cycle, if
/// any does.
pub open spec fn top_on(current: Seq<Proposed>, cycle: Seq<CardValue>) -> Option<i64> {
    top_upto(current, cycle, current.len())
}

/// Whether the proposal at `k` is discarded on account of the first `n`
/// cycles: it is where it stands on one of them with a confidence below the
/// highest on that cycle. The mark is then the highest confidence on the
/// last such cycle.
pub open spec fn mark_upto(current: Seq<Proposed>, cycles: Seq<Seq<CardValue>>, k: int, n: nat) -> Option<i64>
    decreases n,
{
    if n == 0 {
        None
    } else {
        let before = mark_upto(current, cycles, k, (n - 1) as nat);
        match top_on(current, cycles[n - 1]) {
            Some(h) => if on_cycle(cycles[n - 1], current[k].edge) && current[k].confidence < h {
                Some(h)
            } else {
                before
            },
            None => before,
        }
    }
}

/// The marks of all proposals on account of all the cycles.
pub open spec fn marks_of(current: Seq<Proposed>, cycles: Seq<Seq<CardValue>>) -> Seq<Option<i64>> {
    Seq::new(current.len(), |k: int| mark_upto(current, cycles, k, cycles.len()))
}

/// A mark is above the confidence of the proposal that it marks.
pub proof fn lemma_mark_above(current: Seq<Proposed>, cycles: Seq<Seq<CardValue>>, k: int, n: nat)
    ensures
        mark_upto(current, cycles, k, n) matches Some(h) ==> current[k].confidence < h,
    decreases n,
{
    if n > 0 {
        lemma_mark_above(current, cycles, k, (n - 1) as nat);
    }
}

/// Of the first `n` proposals those without a mark, in their order.
pub open spec fn kept_upto(current: Seq<Proposed>, marks: Seq<Option<i64>>, n: nat) -> Seq<Proposed>
    decreases n,
{
    if n == 0 {
        Seq::empty()
    } else {
        let before = kept_upto(current, marks, (n - 1) as nat);
        if marks[n - 1] is None {
            before.push(current[n - 1])
        } else {
            before
        }
    }
}

/// The engine after those of the first `n` proposals that have a mark were
/// discarded, one after the other: each as `after_discard` says, with its
/// mark as the highest confidence on its cycle.
pub open spec fn discarded_upto(
    v: EngineView,
    current: Seq<Proposed>,
    marks: Seq<Option<i64>>,
    lowest: int,
    n: nat,
) -> EngineView
    decreases n,
{
    if n == 0 {
        v
    } else {
        let before = discarded_upto(v, current, marks, lowest, (n - 1) as nat);
        match marks[n - 1] {
            Some(h) => after_discard(before, current[n - 1], h as int, lowest),
            None => before,
        }
    }
}

/// One pass of breaking cycles: the proposals that it starts with, the
/// cycles found among them, and the engine that it starts with.
pub struct Pass {
    pub current: Seq<Proposed>,
    pub cycles: Seq<Seq<CardValue>>,
    pub engine: EngineView,
}

impl Pass {
    /// The cycles are cycles found among the relations of the proposals.
    pub open spec fn sound(self) -> bool {
        cycles_found(edges_of(self.current), self.cycles)
    }

    /// The marks of the proposals: those that stand on a cycle with a
    /// confidence below the highest on it are discarded.
    pub open spec fn marks(self) -> Seq<Option<i64>> {
        marks_of(self.current, self.cycles)
    }

    /// The proposals that the pass keeps, in their order.
    pub open spec fn kept(self) -> Seq<Proposed> {
        kept_upto(self.current, self.marks(), self.current.len())
    }

    /// The engine that the pass leaves, after every discard.
    pub open spec fn left(self) -> EngineView {
        discarded_upto(self.engine, self.current, self.marks(), lowest_of(self.current), self.current.len())
    }
}

/// The pass `p` found a cycle and discarded at least one proposal, and it
/// kept the proposals `current` and left the engine `engine`.
pub open spec fn gives(p: Pass, current: Seq<Proposed>, engine: EngineView) -> bool {
    &&& p.cycles.len() > 0
    &&& current == p.kept()
    &&& current.len() < p.current.len()
    &&& engine == p.left()
}

/// The pass `next` takes up what the pass `p` gives.
pub open spec fn follows(p: Pass, next: Pass) -> bool {
    gives(p, next.current, next.engine)
}

/// The last pass gives the relations `out` and the engine `after`. Where it
/// found no cycle, the relations are those of its proposals, and the engine
/// retains them. Where it found a cycle and discarded nothing, the
/// derivation failed: the relations are those retained before, and the engine
/// is marked.
pub open spec fn ends_with(last: Pass, retained: Seq<Edge>, out: Seq<Edge>, after: EngineView) -> bool {
    if last.cycles.len() == 0 {
        &&& out == edges_of(last.current)
        &&& after == (EngineView { retained: out, unresolved: false, ..last.engine })
    } else {
        &&& last.kept().len() == last.current.len()
        &&& out == retained
        &&& after == (EngineView { unresolved: true, ..last.left() })
    }
}

/// The passes are linked: the first starts with the proposal and the engine
/// `before`, and each takes up what the one before it left.
pub open spec fn linked(before: EngineView, proposal: Seq<Proposed>, passes: Seq<Pass>) -> bool {
    &&& passes.len() > 0
    &&& passes[0].current == proposal
    &&& passes[0].engine == before
    &&& forall|i: int| 0 <= i < passes.len() ==> (#[trigger] passes[i]).sound()
    &&& forall|i: int| 0 <= i < passes.len() - 1 ==> follows(#[trigger] passes[i], passes[i + 1])
}

/// The passes break the cycles of the proposal: they are linked, and the
/// last gives the relations `out` and the engine `after`.
pub open spec fn broken_by(
    before: EngineView,
    proposal: Seq<Proposed>,
    passes: Seq<Pass>,
    out: Seq<Edge>,
    after: EngineView,
) -> bool {
    linked(before, proposal, passes) && ends_with(passes.last(), before.retained, out, after)
}

/// Linked passes stay linked with one more pass that takes up what the last
/// of them left, or that starts with the proposal where there are none.
pub proof fn lemma_linked_grows(before: EngineView, proposal: Seq<Proposed>, passes: Seq<Pass>, pass: Pass)
    requires
        pass.sound(),
        passes.len() == 0 ==> pass.current == proposal && pass.engine == before,
        passes.len() > 0 ==> linked(before, proposal, passes) && follows(passes.last(), pass),
    ensures
        linked(before, proposal, passes.push(pass)),
        passes.push(pass).last() == pass,
{
    let full = passes.push(pass);
    assert forall|i: int| 0 <= i < full.len() implies (#[trigger] full[i]).sound() by {
        if i < passes.len() {
            assert(full[i] == passes[i]);
        }
    }
    assert forall|i: int| 0 <= i < full.len() - 1 implies follows(#[trigger] full[i], full[i + 1]) by {
        assert(full[i] == passes[i]);
        if i + 1 < passes.len() {
            assert(full[i + 1] == passes[i + 1]);
            assert(follows(passes[i], passes[i + 1]));
        }
    }
}

/// Relations taken in order from a proposal that joins each pair once and
/// rests on beliefs that are not zero join each pair once and rest on such
/// beliefs, and are no more than the proposals.
pub proof fn lemma_taken_from_proposal(
    from: Seq<int>,
    current: Seq<Proposed>,
    first: Seq<Proposed>,
    beliefs: Seq<BeliefView>,
)
    requires
        picks(from, current, first),
        distinct_pairs(edges_of(first)),
        forall|i: int|
            0 <= i < first.len() ==> belief_in(beliefs, (#[trigger] first[i]).edge.0, first[i].edge.1) != 0,
    ensures
        picks(from, edges_of(current), edges_of(first)),
        taken_in_order(edges_of(current), edges_of(first)),
        distinct_pairs(edges_of(current)),
        current.len() <= first.len(),
        forall|k: int|
            0 <= k < current.len() ==> belief_in(
                beliefs,
                (#[trigger] edges_of(current)[k]).0,
                edges_of(current)[k].1,
            ) != 0 && edges_of(first).contains(edges_of(current)[k]),
{
    let out = edges_of(current);
    assert(picks(from, out, edges_of(first))) by {
        assert forall|k: int| 0 <= k < from.len() implies 0 <= #[trigger] from[k] < edges_of(first).len()
            && out[k] == edges_of(first)[from[k]] by {
            assert(current[k] == first[from[k]]);
        }
    }
    lemma_picked_pairs(from, out, edges_of(first));
    lemma_picked_fit(from, out, edges_of(first));
    assert forall|k: int| 0 <= k < current.len() implies belief_in(
        beliefs,
        (#[trigger] out[k]).0,
        out[k].1,
    ) != 0 && edges_of(first).contains(out[k]) by {
        assert(out[k] == edges_of(first)[from[k]]);
        assert(current[k] == first[from[k]]);
    }
}

/// Entries taken in order from entries that are taken in order from others
/// are taken in order from those.
pub proof fn lemma_picks_compose<T>(within: Seq<int>, from: Seq<int>, kept: Seq<T>, current: Seq<T>, first: Seq<T>) -> (composed: Seq<int>)
    requires
        picks(within, kept, current),
        picks(from, current, first),
    ensures
        picks(composed, kept, first),
{
    let composed = Seq::new(kept.len(), |k: int| from[within[k]]);
    assert forall|k: int| 0 <= k < composed.len() implies 0 <= #[trigger] composed[k] < first.len()
        && kept[k] == first[composed[k]] by {
        assert(kept[k] == current[within[k]]);
        assert(current[within[k]] == first[from[within[k]]]);
    }
    assert forall|j: int, k: int| 0 <= j < k < composed.len() implies #[trigger] composed[j]
        < #[trigger] composed[k] by {
        assert(within[j] < within[k]);
        assert(from[within[j]] < from[within[k]]);
    }
    composed
}

/// For each proposal, whether it is discarded, and then the highest
/// confidence on a cycle on which it stands below the highest.
fn mark_discards(current: &Vec<Proposed>, cycles: &Vec<Vec<CardValue>>) -> (tops: Vec<Option<i64>>)
    ensures
        tops@ == marks_of(current@, rank_views(cycles@)),
        forall|k: int|
            0 <= k < tops.len() ==> ((#[trigger] tops@[k]) matches Some(h) ==> current@[k].confidence < h),
{
    let ghost views = rank_views(cycles@);
    let mut tops: Vec<Option<i64>> = Vec::new();
    while tops.len() < current.len()
        invariant
            tops.len() <= current.len(),
            forall|k: int| 0 <= k < tops.len() ==> (#[trigger] tops@[k]) is None,
        decreases current.len() - tops.len(),
    {
        tops.push(None);
    }
    let mut c: usize = 0;
    while c < cycles.len()
        invariant
            c <= cycles.len(),
            views == rank_views(cycles@),
            tops.len() == current.len(),
            forall|k: int| 0 <= k < tops.len() ==> #[trigger] tops@[k] == mark_upto(current@, views, k, c as nat),
        decreases cycles.len() - c,
    {
        let cycle = cycles[c].as_slice();
        assert(views[c as int] == cycle@);
        let mut top: Option<(i64, usize)> = None;
        let mut i: usize = 0;
        while i < current.len()
            invariant
                i <= current.len(),
                top is None ==> top_upto(current@, cycle@, i as nat) is None,
                top matches Some(t) ==> top_upto(current@, cycle@, i as nat) == Some(t.0),
            decreases current.len() - i,
        {
            if on_cycle_at(cycle, current[i].edge) {
                match top {
                    None => {
                        top = Some((current[i].confidence, i));
                    },
                    Some(t) => {
                        if current[i].confidence > t.0 {
                            top = Some((current[i].confidence, i));
                        }
                    },
                }
            }
            i += 1;
        }
        match top {
            Some(t) => {
                let mut j: usize = 0;
                while j < current.len()
                    invariant
                        j <= current.len(),
                        c < cycles.len(),
                        views == rank_views(cycles@),
                        views[c as int] == cycle@,
                        tops.len() == current.len(),
                        top_on(current@, cycle@) == Some(t.0),
                        forall|k: int|
                            0 <= k < j ==> #[trigger] tops@[k] == mark_upto(current@, views, k, (c + 1) as nat),
                        forall|k: int|
                            j <= k < tops.len() ==> #[trigger] tops@[k] == mark_upto(current@, views, k, c as nat),
                    decreases current.len() - j,
                {
                    if current[j].confidence < t.0 && on_cycle_at(cycle, current[j].edge) {
                        tops.set(j, Some(t.0));
                    }
                    j += 1;
                }
            },
            None => {},
        }
        c += 1;
    }
    proof {
        assert(tops@ =~= marks_of(current@, views));
        assert forall|k: int| 0 <= k < tops.len() implies ((#[trigger] tops@[k]) matches Some(h)
            ==> current@[k].confidence < h) by {
            lemma_mark_above(current@, views, k, cycles.len() as nat);
        }
    }
    tops
}

} // verus!
