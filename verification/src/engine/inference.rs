//! The inference engine as the betting policy sees it: evidence goes in,
//! and relations, an ordering, a measure of uncertainty and a report come
//! out. Relations and ordering are derived anew only when evidence has
//! changed the beliefs.

use crate::engine::graph::{acyclic, Edge};
use crate::engine::ordering::is_ordering;
use crate::engine::probability::{
    accepts, copy_edges, derived_by, updated, EngineView, ProbabilityEngine, SCALE,
};
use crate::engine::relations::{
    count_orderings, debug_relations, generate_ordering, placed_after, possibilities, push_char,
    push_ranks, rank_char, ranks_text, relations_text, respects,
};
use crate::engine::resolve::lemma_empty_acyclic;
use crate::skeleton::cards::CardValue;
use vstd::prelude::*;

verus! {

/// The character of a digit.
pub open spec fn digit_char(d: int) -> char {
    (48 + d) as char
}

/// The decimal digits of a number.
pub open spec fn digits(n: nat) -> Seq<char>
    decreases n,
{
    if n < 10 {
        seq![digit_char(n as int)]
    } else {
        digits(n / 10).push(digit_char((n % 10) as int))
    }
}

/// A number in decimal, with a minus sign where it is negative.
pub open spec fn number_text(n: int) -> Seq<char> {
    if n < 0 {
        seq!['-'] + digits((-n) as nat)
    } else {
        digits(n as nat)
    }
}

/// The line of one belief: the two ranks, an arrow between them, and the
/// belief in millionths.
pub open spec fn belief_line(low: CardValue, high: CardValue, p: int) -> Seq<char> {
    seq![rank_char(low), ' ', '-', '>', ' ', rank_char(high), ' ', 'P', '('] + number_text(p)
        + seq![')', '\n']
}

/// The line of an ignored rule.
pub open spec fn ignored_line(rule: Seq<char>) -> Seq<char> {
    seq!['i', 'g', 'n', 'o', 'r', 'e', 'd', ' ', '['] + rule + seq![']', '\n']
}

/// The lines of the first `n` beliefs.
pub open spec fn belief_lines(v: EngineView, n: nat) -> Seq<char>
    decreases n,
{
    if n == 0 {
        Seq::empty()
    } else {
        belief_lines(v, (n - 1) as nat) + belief_line(
            v.beliefs[n - 1].low,
            v.beliefs[n - 1].high,
            v.beliefs[n - 1].probability,
        )
    }
}

/// The lines of the first `n` ignored rules.
pub open spec fn ignored_lines(v: EngineView, n: nat) -> Seq<char>
    decreases n,
{
    if n == 0 {
        Seq::empty()
    } else {
        ignored_lines(v, (n - 1) as nat) + ignored_line(v.denied[n - 1])
    }
}

/// The report: the relations, a line for each belief, a line for each
/// ignored rule, and the ordering.
pub open spec fn report_text(v: EngineView, relations: Seq<Edge>, ordering: Seq<CardValue>) -> Seq<char> {
    relations_text(relations) + seq!['\n'] + belief_lines(v, v.beliefs.len()) + ignored_lines(
        v,
        v.denied.len(),
    ) + ranks_text(ordering)
}

/// Appends the decimal digits of a number.
fn push_digits(text: &mut String, n: u64)
    ensures
        final(text)@ == old(text)@ + digits(n as nat),
{
    let ghost start = text@;
    let mut rev: Vec<u8> = Vec::new();
    let mut m = n;
    let ghost mut tail: Seq<char> = Seq::empty();
    assert(digits(m as nat) + tail =~= digits(n as nat));
    while m >= 10
        invariant
            digits(m as nat) + tail == digits(n as nat),
            tail.len() == rev.len(),
            forall|k: int|
                0 <= k < rev.len() ==> rev@[k] < 10 && tail[tail.len() - 1 - k] == digit_char(
                    #[trigger] rev@[k] as int,
                ),
        decreases m,
    {
        let d = (m % 10) as u8;
        let ghost old_tail = tail;
        let ghost old_m = m;
        rev.push(d);
        m = m / 10;
        proof {
            tail = seq![digit_char(d as int)] + old_tail;
            assert(digits(old_m as nat) == digits(m as nat).push(digit_char(d as int)));
            assert(digits(m as nat) + tail =~= digits(old_m as nat) + old_tail);
            assert forall|k: int| 0 <= k < rev.len() implies rev@[k] < 10 && tail[tail.len() - 1 - k]
                == digit_char(#[trigger] rev@[k] as int) by {
                if k < rev.len() - 1 {
                    assert(tail[tail.len() - 1 - k] == old_tail[old_tail.len() - 1 - k]);
                }
            }
        }
    }
    push_char(text, (48 + m as u8) as char);
    let mut i = rev.len();
    assert(tail.take(0) =~= Seq::<char>::empty());
    while i > 0
        invariant
            i <= rev.len(),
            m < 10,
            tail.len() == rev.len(),
            forall|k: int|
                0 <= k < rev.len() ==> rev@[k] < 10 && tail[tail.len() - 1 - k] == digit_char(
                    #[trigger] rev@[k] as int,
                ),
            text@ == start + digits(m as nat) + tail.take(rev.len() - i),
        decreases i,
    {
        i -= 1;
        push_char(text, (48 + rev[i]) as char);
        assert(tail.take(rev.len() - i) =~= tail.take(rev.len() - i - 1).push(
            digit_char(rev@[i as int] as int),
        ));
    }
    assert(tail.take(rev.len() as int) =~= tail);
    assert(text@ =~= start + (digits(m as nat) + tail));
}

/// Appends a number in decimal.
fn push_number(text: &mut String, n: i64)
    ensures
        final(text)@ == old(text)@ + number_text(n as int),
{
    let ghost start = text@;
    if n < 0 {
        push_char(text, '-');
        let size: u64 = if n == i64::MIN {
            9223372036854775808
        } else {
            (-n) as u64
        };
        push_digits(text, size);
        assert(text@ =~= start + number_text(n as int));
    } else {
        push_digits(text, n as u64);
    }
}

/// Appends the characters of a piece of text.
fn push_text(text: &mut String, more: &str)
    ensures
        final(text)@ == old(text)@ + more@,
{
    let ghost start = text@;
    let n = more.unicode_len();
    let mut i: usize = 0;
    assert(start + more@.take(0) =~= start);
    while i < n
        invariant
            i <= n,
            n == more@.len(),
            text@ == start + more@.take(i as int),
        decreases n - i,
    {
        push_char(text, more.get_char(i));
        assert(more@.take(i as int + 1) =~= more@.take(i as int).push(more@[i as int]));
        assert(text@ =~= start + more@.take(i as int + 1));
        i += 1;
    }
    assert(more@.take(n as int) =~= more@);
}

/// The inference engine behind its interface.
#[derive(Debug, Clone)]
pub struct Inference {
    beliefs: ProbabilityEngine,
    relations: Vec<Edge>,
    ordering: [CardValue; 13],
    dirty: bool,
}

impl Inference {
    /// The beliefs that the engine holds.
    pub closed spec fn beliefs(&self) -> EngineView {
        self.beliefs@
    }

    /// The relations last derived.
    pub closed spec fn derived(&self) -> Seq<Edge> {
        self.relations@
    }

    /// The ordering last generated.
    pub closed spec fn chosen(&self) -> Seq<CardValue> {
        self.ordering@
    }

    /// Whether evidence was taken since relations and ordering were derived.
    pub closed spec fn stale(&self) -> bool {
        self.dirty
    }

    /// The engine is well formed: its beliefs are, its relations hold no
    /// cycle, and its ordering is an ordering that respects them.
    pub closed spec fn wf(&self) -> bool {
        &&& self.beliefs.wf()
        &&& acyclic(self.relations@)
        &&& is_ordering(self.ordering@)
        &&& respects(self.relations@, self.ordering@)
    }

    /// What a well-formed engine holds.
    pub proof fn lemma_wf(&self)
        requires
            self.wf(),
        ensures
            acyclic(self.derived()),
            is_ordering(self.chosen()),
            respects(self.derived(), self.chosen()),
    {
    }

    /// An engine without evidence. Its ordering is drawn at random.
    pub fn new() -> (engine: Inference)
        ensures
            engine.wf(),
            engine.beliefs().beliefs.len() == 0,
            engine.beliefs().denied.len() == 0,
            engine.derived().len() == 0,
            !engine.stale(),
    {
        proof {
            lemma_empty_acyclic();
        }
        let relations: Vec<Edge> = Vec::new();
        assert(relations@ =~= Seq::<Edge>::empty());
        let ordering = generate_ordering(relations.as_slice());
        Inference { beliefs: ProbabilityEngine::new(), relations, ordering, dirty: false }
    }

    /// Takes evidence from a named rule that `a` is weaker than `b`, with a
    /// signed certainty in millionths. The result tells whether the evidence
    /// was taken: evidence on a rank against itself, of certainty zero or of
    /// an ignored rule is not.
    pub fn submit_evidence(&mut self, rule_name: &str, a: CardValue, b: CardValue, certainty: i64) -> (taken: bool)
        requires
            old(self).wf(),
            rule_name@.len() > 0,
            -SCALE < certainty < SCALE,
        ensures
            final(self).wf(),
            taken == accepts(old(self).beliefs(), rule_name@, a, b, certainty as int),
            taken ==> final(self).stale() && final(self).beliefs().beliefs == updated(
                old(self).beliefs().beliefs,
                rule_name@,
                a,
                b,
                certainty as int,
            ),
            !taken ==> final(self).beliefs() == old(self).beliefs() && final(self).stale() == old(self).stale(),
            final(self).beliefs().denied == old(self).beliefs().denied,
            final(self).beliefs().retained == old(self).beliefs().retained,
            final(self).beliefs().unresolved == old(self).beliefs().unresolved,
            final(self).derived() == old(self).derived(),
            final(self).chosen() == old(self).chosen(),
    {
        let ghost before = self.beliefs@;
        let taken = self.beliefs.update(rule_name, &a, &b, certainty);
        if taken {
            self.dirty = true;
        } else {
            assert(self.beliefs@ == before) by {
                assert(self.beliefs@.beliefs == before.beliefs);
                assert(self.beliefs@.denied == before.denied);
                assert(self.beliefs@.retained == before.retained);
                assert(self.beliefs@.unresolved == before.unresolved);
            }
        }
        taken
    }

    /// What bringing an engine up to date gives, from the engine `before`
    /// to the engine `after`.
    ///
    /// Where no evidence was taken since relations and ordering were
    /// derived, beliefs, relations and ordering stay as they are. Where
    /// evidence was taken, the relations are derived from the beliefs as
    /// `derived_by` says, for some draws, and the ordering is generated from
    /// these relations as `placed_after` says, for some draws. Either way the
    /// engine is up to date afterwards.
    pub open spec fn renewed(before: Inference, after: Inference) -> bool {
        &&& !after.stale()
        &&& !before.stale() ==> {
            &&& after.beliefs() == before.beliefs()
            &&& after.derived() == before.derived()
            &&& after.chosen() == before.chosen()
        }
        &&& before.stale() ==> {
            &&& exists|draws: Seq<u64>| #[trigger]
                derived_by(before.beliefs(), draws, after.derived(), after.beliefs())
            &&& exists|draws: Seq<usize>| after.chosen() == #[trigger] placed_after(after.derived(), draws, 13)
        }
    }

    /// Derives relations and ordering anew where evidence was taken since
    /// they were derived.
    fn refresh(&mut self)
        requires
            old(self).wf(),
        ensures
            final(self).wf(),
            Self::renewed(*old(self), *final(self)),
    {
        if self.dirty {
            let ghost before = *self;
            let relations = self.beliefs.relations();
            let ordering = generate_ordering(relations.as_slice());
            self.relations = relations;
            self.ordering = ordering;
            self.dirty = false;
            proof {
                let taken = choose|draws: Seq<u64>| #[trigger]
                    derived_by(before.beliefs(), draws, self.derived(), self.beliefs());
                assert(derived_by(before.beliefs(), taken, self.derived(), self.beliefs()));
                let picked = choose|draws: Seq<usize>|
                    self.chosen() == #[trigger] placed_after(self.derived(), draws, 13);
                assert(self.chosen() == placed_after(self.derived(), picked, 13));
            }
        }
    }

    /// Whether the last derivation of the relations failed, so that the
    /// relations derived before it are still in use.
    pub fn unresolved(&self) -> (b: bool)
        ensures
            b == self.beliefs().unresolved,
    {
        self.beliefs.unresolved()
    }

    /// The relations that the beliefs give. They hold no cycle.
    pub fn current_relations(&mut self) -> (out: Vec<Edge>)
        requires
            old(self).wf(),
        ensures
            final(self).wf(),
            Self::renewed(*old(self), *final(self)),
            out@ == final(self).derived(),
            acyclic(out@),
    {
        self.refresh();
        copy_edges(&self.relations)
    }

    /// The ordering in use: an ordering of the thirteen ranks that puts the
    /// first rank of every current relation below the second.
    pub fn current_ordering(&mut self) -> (out: [CardValue; 13])
        requires
            old(self).wf(),
        ensures
            final(self).wf(),
            Self::renewed(*old(self), *final(self)),
            out@ == final(self).chosen(),
            is_ordering(out@),
            respects(final(self).derived(), out@),
    {
        self.refresh();
        self.ordering
    }

    /// The estimate of how many orderings the current relations leave open;
    /// the smaller, the surer the engine is.
    pub fn uncertainty(&mut self) -> (count: u64)
        requires
            old(self).wf(),
        ensures
            final(self).wf(),
            Self::renewed(*old(self), *final(self)),
            count == count_orderings(final(self).derived()),
    {
        self.refresh();
        possibilities(self.relations.as_slice())
    }

    /// A report for the operator: the current relations, one line for each
    /// rank; the belief on each pair; the ignored rules; the ordering.
    pub fn diagnostics(&mut self) -> (text: String)
        requires
            old(self).wf(),
        ensures
            final(self).wf(),
            Self::renewed(*old(self), *final(self)),
            text@ == report_text(final(self).beliefs(), final(self).derived(), final(self).chosen()),
    {
        self.refresh();
        let ghost v = self.beliefs@;
        let mut text = debug_relations(self.relations.as_slice());
        push_char(&mut text, '\n');
        let ghost head = text@;
        let pairs = self.beliefs.probabilities();
        let mut i: usize = 0;
        assert(head + belief_lines(v, 0) =~= head);
        while i < pairs.len()
            invariant
                i <= pairs.len(),
                pairs.len() == v.beliefs.len(),
                forall|k: int|
                    0 <= k < pairs.len() ==> (#[trigger] pairs@[k]).0 == (
                        v.beliefs[k].low,
                        v.beliefs[k].high,
                    ) && pairs@[k].1 == v.beliefs[k].probability,
                text@ == head + belief_lines(v, i as nat),
            decreases pairs.len() - i,
        {
            let ghost had = text@;
            let low = (pairs[i].0).0;
            let high = (pairs[i].0).1;
            push_char(&mut text, low.to_byte() as char);
            push_char(&mut text, ' ');
            push_char(&mut text, '-');
            push_char(&mut text, '>');
            push_char(&mut text, ' ');
            push_char(&mut text, high.to_byte() as char);
            push_char(&mut text, ' ');
            push_char(&mut text, 'P');
            push_char(&mut text, '(');
            push_number(&mut text, pairs[i].1);
            push_char(&mut text, ')');
            push_char(&mut text, '\n');
            assert(text@ =~= had + belief_line(low, high, pairs@[i as int].1 as int));
            assert(text@ =~= head + belief_lines(v, (i + 1) as nat));
            i += 1;
        }
        let ghost body = text@;
        let names = self.beliefs.inconsistent_rule_names();
        let mut j: usize = 0;
        assert(body + ignored_lines(v, 0) =~= body);
        while j < names.len()
            invariant
                j <= names.len(),
                crate::engine::probability::name_views(names@) == v.denied,
                text@ == body + ignored_lines(v, j as nat),
            decreases names.len() - j,
        {
            let ghost had = text@;
            push_text(&mut text, "ignored [");
            proof {
                reveal_strlit("ignored [");
                assert("ignored ["@ =~= seq!['i', 'g', 'n', 'o', 'r', 'e', 'd', ' ', '[']);
            }
            push_text(&mut text, names[j].as_str());
            push_char(&mut text, ']');
            push_char(&mut text, '\n');
            assert(crate::engine::probability::name_views(names@)[j as int] == names@[j as int]@);
            assert(text@ =~= had + ignored_line(v.denied[j as int]));
            assert(text@ =~= body + ignored_lines(v, (j + 1) as nat));
            j += 1;
        }
        let ghost lines = text@;
        let ordering = copy_ordering(&self.ordering);
        push_ranks(&mut text, &ordering);
        assert(text@ =~= report_text(v, self.relations@, self.ordering@));
        text
    }
}

/// The ranks of an ordering as a vector.
fn copy_ordering(o: &[CardValue; 13]) -> (out: Vec<CardValue>)
    ensures
        out@ == o@,
{
    let mut out: Vec<CardValue> = Vec::new();
    let mut i: usize = 0;
    while i < 13
        invariant
            i <= 13,
            out@ == o@.take(i as int),
        decreases 13 - i,
    {
        out.push(o[i]);
        assert(o@.take(i as int + 1) =~= o@.take(i as int).push(o@[i as int]));
        i += 1;
    }
    assert(o@.take(13) =~= o@);
    out
}

} // verus!
