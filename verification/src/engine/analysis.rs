//! Reading back what was written: relations from their text, an ordering
//! from its ranks, and the relations that an ordering breaks.

use crate::engine::graph::Edge;
use crate::engine::ordering::{is_ordering, is_valid_ordering, position, position_in};
use crate::engine::relations::{
    line_text, predecessors, rank_char, ranks_text, successors,
};
use crate::skeleton::cards::{value_of_byte, CardValue};
use vstd::prelude::*;

verus! {

/// The rank that a character prints.
pub open spec fn char_value(c: char) -> Option<CardValue> {
    if (c as u32) < 128 {
        value_of_byte(c as u8)
    } else {
        None
    }
}

/// Reads a rank from its character.
pub fn rank_of_char(c: char) -> (r: Option<CardValue>)
    ensures
        r == char_value(c),
{
    if (c as u32) < 128 {
        CardValue::from_byte(c as u8)
    } else {
        None
    }
}

/// Every rank is read back from the character that prints it.
pub proof fn lemma_rank_char(v: CardValue)
    ensures
        char_value(rank_char(v)) == Some(v),
{
}

/// The ranks written from `i` on, up to a closing bracket or to the end of
/// the text, and the index after them. `None` where a character before the
/// bracket prints no rank.
pub open spec fn ranks_from(s: Seq<char>, i: int) -> Option<(Seq<CardValue>, int)>
    decreases s.len() - i,
{
    if i >= s.len() {
        Some((Seq::empty(), s.len() as int))
    } else if s[i] == ']' {
        Some((Seq::empty(), i + 1))
    } else {
        match char_value(s[i]) {
            Some(x) => match ranks_from(s, i + 1) {
                Some((rest, j)) => Some((seq![x] + rest, j)),
                None => None,
            },
            None => None,
        }
    }
}

/// The relations that lead from each of the ranks to `v`.
pub open spec fn edges_into(from: Seq<CardValue>, v: CardValue) -> Seq<Edge> {
    Seq::new(from.len(), |i: int| (from[i], v))
}

/// The relations that lead from `v` to each of the ranks.
pub open spec fn edges_out(v: CardValue, to: Seq<CardValue>) -> Seq<Edge> {
    Seq::new(to.len(), |i: int| (v, to[i]))
}

/// The relations that a line writes: `|<rank>|[<ranks before it>][<ranks
/// after it>]`. The second bracket may stay open at the end of the line, and
/// what follows it when it is closed is not read.
pub open spec fn line_relations(s: Seq<char>) -> Option<Seq<Edge>> {
    if s.len() >= 4 && s[0] == '|' && s[2] == '|' && s[3] == '[' {
        match (char_value(s[1]), ranks_from(s, 4)) {
            (Some(v), Some((pre, j))) => if j < s.len() && s[j] == '[' {
                match ranks_from(s, j + 1) {
                    Some((post, k)) => Some(edges_into(pre, v) + edges_out(v, post)),
                    None => None,
                }
            } else {
                None
            },
            _ => None,
        }
    } else {
        None
    }
}

/// Reads ranks up to a closing bracket or to the end of the text.
fn read_ranks(text: &str, from: usize) -> (r: Option<(Vec<CardValue>, usize)>)
    requires
        from <= text@.len(),
    ensures
        match ranks_from(text@, from as int) {
            Some((values, j)) => match r {
                Some(found) => found.0@ == values && found.1 == j && j <= text@.len(),
                None => false,
            },
            None => r is None,
        },
{
    let n = text.unicode_len();
    let mut out: Vec<CardValue> = Vec::new();
    let mut i: usize = from;
    let ghost s = text@;
    while i < n
        invariant
            from <= i <= n,
            n == s.len(),
            s == text@,
            ranks_from(s, from as int) == match ranks_from(s, i as int) {
                Some((rest, j)) => Some((out@ + rest, j)),
                None => None,
            },
        decreases n - i,
    {
        let c = text.get_char(i);
        if c == ']' {
            proof {
                assert(out@ + Seq::<CardValue>::empty() =~= out@);
            }
            return Some((out, i + 1));
        }
        match rank_of_char(c) {
            Some(x) => {
                let ghost had = out@;
                out.push(x);
                proof {
                    match ranks_from(s, i as int + 1) {
                        Some((rest, j)) => {
                            assert(had + (seq![x] + rest) =~= out@ + rest);
                        },
                        None => {},
                    }
                }
            },
            None => {
                return None;
            },
        }
        i += 1;
    }
    proof {
        assert(out@ + Seq::<CardValue>::empty() =~= out@);
        lemma_ranks_end(s, i as int);
    }
    Some((out, n))
}

/// The index after ranks that were read lies within the text.
proof fn lemma_ranks_end(s: Seq<char>, i: int)
    requires
        0 <= i <= s.len(),
    ensures
        ranks_from(s, i) matches Some((values, j)) ==> i <= j <= s.len(),
    decreases s.len() - i,
{
    if i < s.len() && s[i] != ']' {
        lemma_ranks_end(s, i + 1);
    }
}

/// Reads the relations that a line writes.
pub fn parse_relation_line(line: &str) -> (r: Option<Vec<Edge>>)
    ensures
        match line_relations(line@) {
            Some(edges) => r is Some && r->0@ == edges,
            None => r is None,
        },
{
    let n = line.unicode_len();
    if n < 4 {
        return None;
    }
    if line.get_char(0) != '|' || line.get_char(2) != '|' || line.get_char(3) != '[' {
        return None;
    }
    let v = match rank_of_char(line.get_char(1)) {
        Some(v) => v,
        None => {
            return None;
        },
    };
    let (pre, j) = match read_ranks(line, 4) {
        Some(found) => found,
        None => {
            return None;
        },
    };
    if j >= n || line.get_char(j) != '[' {
        return None;
    }
    let (post, k) = match read_ranks(line, j + 1) {
        Some(found) => found,
        None => {
            return None;
        },
    };
    let mut out: Vec<Edge> = Vec::new();
    let mut a: usize = 0;
    while a < pre.len()
        invariant
            a <= pre.len(),
            out@ == edges_into(pre@, v).take(a as int),
        decreases pre.len() - a,
    {
        out.push((pre[a], v));
        assert(edges_into(pre@, v).take(a as int + 1) =~= edges_into(pre@, v).take(a as int).push(
            (pre@[a as int], v),
        ));
        a += 1;
    }
    assert(edges_into(pre@, v).take(pre.len() as int) =~= edges_into(pre@, v));
    let mut b: usize = 0;
    assert(edges_out(v, post@).take(0) =~= Seq::<Edge>::empty());
    assert(out@ + Seq::<Edge>::empty() =~= out@);
    while b < post.len()
        invariant
            b <= post.len(),
            out@ == edges_into(pre@, v) + edges_out(v, post@).take(b as int),
        decreases post.len() - b,
    {
        out.push((v, post[b]));
        assert(edges_out(v, post@).take(b as int + 1) =~= edges_out(v, post@).take(b as int).push(
            (v, post@[b as int]),
        ));
        assert(out@ =~= edges_into(pre@, v) + edges_out(v, post@).take(b as int + 1));
        b += 1;
    }
    assert(edges_out(v, post@).take(post.len() as int) =~= edges_out(v, post@));
    Some(out)
}

/// Reading ranks that were written gives them back: where the text holds
/// the characters of the ranks from `i` on and a closing bracket after
/// them, the ranks are read and the index after the bracket.
proof fn lemma_ranks_round_trip(s: Seq<char>, i: int, vals: Seq<CardValue>)
    requires
        0 <= i,
        i + vals.len() < s.len(),
        forall|k: int| 0 <= k < vals.len() ==> s[i + k] == rank_char(#[trigger] vals[k]),
        s[i + vals.len()] == ']',
    ensures
        ranks_from(s, i) == Some((vals, i + vals.len() + 1)),
    decreases vals.len(),
{
    if vals.len() == 0 {
        assert(vals =~= Seq::<CardValue>::empty());
    } else {
        let rest = vals.drop_first();
        assert forall|k: int| 0 <= k < rest.len() implies s[i + 1 + k] == rank_char(
            #[trigger] rest[k],
        ) by {
            assert(rest[k] == vals[k + 1]);
        }
        lemma_ranks_round_trip(s, i + 1, rest);
        lemma_rank_char(vals[0]);
        assert(s[i] == rank_char(vals[0]));
        assert(seq![vals[0]] + rest =~= vals);
    }
}

/// Reading a line that was written gives its relations back: the line of a
/// rank is read as the relations into the rank from the ranks before it,
/// followed by the relations from the rank to the ranks after it.
pub proof fn lemma_line_round_trip(e: Seq<Edge>, v: CardValue)
    ensures
        line_relations(line_text(e, v)) == Some(
            edges_into(predecessors(e, v), v) + edges_out(v, successors(e, v)),
        ),
{
    let pre = predecessors(e, v);
    let post = successors(e, v);
    let s = line_text(e, v);
    let head = seq!['|', rank_char(v), '|', '['];
    assert(s == head + ranks_text(pre) + seq![']', '['] + ranks_text(post) + seq![']']);
    assert(s.len() == 4 + pre.len() + 2 + post.len() + 1);
    assert(s[0] == '|' && s[1] == rank_char(v) && s[2] == '|' && s[3] == '[');
    lemma_rank_char(v);
    assert forall|k: int| 0 <= k < pre.len() implies s[4 + k] == rank_char(#[trigger] pre[k]) by {
        assert(s[4 + k] == ranks_text(pre)[k]);
    }
    let np = pre.len() as int;
    let nq = post.len() as int;
    assert(s[4 + np] == ']');
    lemma_ranks_round_trip(s, 4, pre);
    let j: int = 4 + np + 1;
    assert(s[j] == '[');
    assert forall|k: int| 0 <= k < post.len() implies s[j + 1 + k] == rank_char(
        #[trigger] post[k],
    ) by {
        assert(s[j + 1 + k] == ranks_text(post)[k]);
    }
    assert(s[j + 1 + nq] == ']');
    lemma_ranks_round_trip(s, j + 1, post);
}

/// The ranks that the text writes, one for each character. `None` where a
/// character prints no rank.
pub open spec fn text_ranks(s: Seq<char>) -> Option<Seq<CardValue>>
    decreases s.len(),
{
    if s.len() == 0 {
        Some(Seq::empty())
    } else {
        match (text_ranks(s.drop_last()), char_value(s.last())) {
            (Some(before), Some(x)) => Some(before.push(x)),
            _ => None,
        }
    }
}

/// Reads an ordering from thirteen characters, the weakest rank first.
/// `None` where the characters are not the thirteen ranks, each once.
pub fn parse_ordering(text: &str) -> (r: Option<[CardValue; 13]>)
    ensures
        match text_ranks(text@) {
            Some(ranks) => if is_ordering(ranks) {
                r is Some && r->0@ == ranks
            } else {
                r is None
            },
            None => r is None,
        },
{
    let n = text.unicode_len();
    let mut out: Vec<CardValue> = Vec::new();
    let mut i: usize = 0;
    assert(text@.take(0) =~= Seq::<char>::empty());
    while i < n
        invariant
            i <= n,
            n == text@.len(),
            text_ranks(text@.take(i as int)) == Some(out@),
        decreases n - i,
    {
        assert(text@.take(i as int + 1).drop_last() =~= text@.take(i as int));
        match rank_of_char(text.get_char(i)) {
            Some(x) => {
                out.push(x);
            },
            None => {
                proof {
                    lemma_text_ranks_stop(text@, i as int + 1);
                }
                return None;
            },
        }
        i += 1;
    }
    assert(text@.take(n as int) =~= text@);
    if out.len() != 13 {
        return None;
    }
    let o = [
        out[0],
        out[1],
        out[2],
        out[3],
        out[4],
        out[5],
        out[6],
        out[7],
        out[8],
        out[9],
        out[10],
        out[11],
        out[12],
    ];
    assert(o@ =~= out@);
    if is_valid_ordering(&o) {
        Some(o)
    } else {
        None
    }
}

/// Text writes no ranks where a part of it writes none.
proof fn lemma_text_ranks_stop(s: Seq<char>, n: int)
    requires
        0 <= n <= s.len(),
        text_ranks(s.take(n)) is None,
    ensures
        text_ranks(s) is None,
    decreases s.len() - n,
{
    if n == s.len() {
        assert(s.take(n) =~= s);
    } else {
        assert(s.drop_last().take(n) =~= s.take(n));
        lemma_text_ranks_stop(s.drop_last(), n);
    }
}

/// The ordering breaks the relation: it does not put the first rank below
/// the second.
pub open spec fn breaks(o: Seq<CardValue>, x: Edge) -> bool {
    position(o, x.1) <= position(o, x.0)
}

/// The relations among the first `n` that the ordering breaks.
pub open spec fn broken_upto(e: Seq<Edge>, o: Seq<CardValue>, n: nat) -> Seq<Edge>
    decreases n,
{
    if n == 0 {
        Seq::empty()
    } else {
        let before = broken_upto(e, o, (n - 1) as nat);
        if breaks(o, e[n - 1]) {
            before.push(e[n - 1])
        } else {
            before
        }
    }
}

/// The relations that the ordering breaks, in the order of the relations.
pub fn violations(relations: &[Edge], order: &[CardValue; 13]) -> (out: Vec<Edge>)
    requires
        is_ordering(order@),
    ensures
        out@ == broken_upto(relations@, order@, relations.len() as nat),
{
    let mut out: Vec<Edge> = Vec::new();
    let mut i: usize = 0;
    while i < relations.len()
        invariant
            i <= relations.len(),
            is_ordering(order@),
            out@ == broken_upto(relations@, order@, i as nat),
        decreases relations.len() - i,
    {
        let a = position_in(order, relations[i].0);
        let b = position_in(order, relations[i].1);
        if b <= a {
            out.push(relations[i]);
        }
        i += 1;
    }
    out
}

} // verus!
