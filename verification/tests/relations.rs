use std::collections::HashSet;
use tinyrasputin::engine::graph::{is_acyclic, reach_set, reachable};
use tinyrasputin::engine::ordering::{canonical_ordering, is_valid_ordering, position_in};
use tinyrasputin::engine::relations::{
    debug_relations, detect_cycles, eligible_ranks, generate_ordering, generate_ordering_with,
    possibilities, relationships, remove_redundancies, resolve_cycles, simplify,
    try_generate_ordering, try_possibilities, RelationsExt,
};
use tinyrasputin::skeleton::cards::CardValue;

// test for correctness
#[test]
pub fn cycles_test() {
    let relations_to_test = [
        (vec![(CardValue::Three, CardValue::Ace), (CardValue::Ace, CardValue::King), (CardValue::King, CardValue::Three)], vec![vec![CardValue::Three, CardValue::Ace, CardValue::King]]),
        (vec![(CardValue::Two, CardValue::Ace), (CardValue::Ace, CardValue::Two)], vec![vec![CardValue::Ace, CardValue::Two]]),
        (vec![(CardValue::Two, CardValue::Ace), (CardValue::Ace, CardValue::Two), (CardValue::Three, CardValue::Two)], vec![vec![CardValue::Ace, CardValue::Two]]),
        (vec![(CardValue::Two, CardValue::Ace)], vec![]),
        (vec![(CardValue::Two, CardValue::Ace), (CardValue::Ace, CardValue::Two), (CardValue::Three, CardValue::Two), (CardValue::Two, CardValue::Three)], vec![vec![CardValue::Ace, CardValue::Two], vec![CardValue::Two, CardValue::Three]]),
        (vec![
            (CardValue::Two, CardValue::Three),
            (CardValue::Three, CardValue::Four),
            (CardValue::Four, CardValue::Five),
            (CardValue::Three, CardValue::Five),
            (CardValue::Five, CardValue::Two)],
        vec![
            vec![CardValue::Two, CardValue::Three, CardValue::Four, CardValue::Five],
        ]),
    ];

    for (rels, goals) in relations_to_test.into_iter() {
        let goals = goals.iter().map(|x| x.iter().copied().collect::<HashSet<_>>()).collect::<Vec<HashSet<CardValue>>>();
        let detected = detect_cycles(&rels).iter().map(|x| x.iter().copied().collect::<HashSet<_>>()).collect::<Vec<_>>();
        let intersection: Vec<_> = goals.iter().filter(|x| detected.contains(x)).cloned().collect();
        let failed: Vec<_> = goals.iter().filter(|x| !detected.contains(x)).cloned().collect();
        let extra: Vec<_> = detected.iter().filter(|x| !goals.contains(x)).cloned().collect();
        assert_eq!(failed, vec![], "Failed goals detected: {}", failed.len());
        assert_eq!(extra, vec![], "Extra cycles detected: {}", extra.len());
        assert_eq!(*intersection, *goals);
    }
}

#[test]
fn relations_ext_test() {
    let test: Vec<(CardValue, CardValue)> = vec![];
    let test2 = vec![(CardValue::Two, CardValue::Ace)];
    let test3 = vec![(CardValue::Two, CardValue::Ace), (CardValue::Three, CardValue::Ace)];
    assert_eq!(test.possibilities(), 13 * 12 * 11 * 10 * 9 * 8 * 7 * 6 * 5 * 4  * 3 * 2);
    assert_eq!(test2.possibilities(), 12 * 12 * 11 * 10 * 9 * 8 * 7 * 6 * 5 * 4  * 3 * 2);
    assert_eq!(test3.possibilities(), 12 * 11 * 11 * 10 * 9 * 8 * 7 * 6 * 5 * 4  * 3 * 2);
}

#[test]
fn a_three_cycle_is_detected_as_a_closed_walk() {
    let edges = vec![
        (CardValue::Three, CardValue::Ace),
        (CardValue::Ace, CardValue::King),
        (CardValue::King, CardValue::Three),
    ];
    let cycles = detect_cycles(&edges);
    assert_eq!(cycles, vec![vec![CardValue::Three, CardValue::Ace, CardValue::King, CardValue::Three]]);
}

#[test]
fn a_three_cycle_is_broken_by_resolution() {
    let edges = vec![
        (CardValue::Three, CardValue::Ace),
        (CardValue::Ace, CardValue::King),
        (CardValue::King, CardValue::Three),
    ];
    let cycles = detect_cycles(&edges);
    assert_eq!(cycles.len(), 1);
    let resolved = resolve_cycles(&edges, &cycles);
    assert!(detect_cycles(&resolved).is_empty());
    assert_eq!(
        resolved,
        vec![(CardValue::Three, CardValue::Ace), (CardValue::Ace, CardValue::King)]
    );
}

#[test]
fn resolution_keeps_relations_off_the_cycles_and_trusts_the_pinned_links() {
    // The Two and the Three are pinned by relations off the cycle, the Five
    // is not: the link between the Two and the Three is trusted most and
    // tried first, whatever the order in which the relations stand.
    let edges = vec![
        (CardValue::Five, CardValue::Two),
        (CardValue::Three, CardValue::Five),
        (CardValue::Two, CardValue::Three),
        (CardValue::Four, CardValue::Two),
        (CardValue::Six, CardValue::Three),
    ];
    let cycles = detect_cycles(&edges);
    assert_eq!(cycles.len(), 1);
    let resolved = resolve_cycles(&edges, &cycles);
    assert_eq!(
        resolved,
        vec![
            (CardValue::Four, CardValue::Two),
            (CardValue::Six, CardValue::Three),
            (CardValue::Two, CardValue::Three),
            (CardValue::Five, CardValue::Two),
        ]
    );
    assert!(is_acyclic(&resolved));
    for edge in edges.iter() {
        assert!(
            resolved.contains(edge) || edge.0 == edge.1 || reachable(&resolved, edge.1, edge.0)
        );
    }
}

#[test]
fn a_relation_of_a_rank_to_itself_is_never_kept() {
    let edges = vec![
        (CardValue::Three, CardValue::Two),
        (CardValue::Two, CardValue::Three),
        (CardValue::Four, CardValue::Two),
        (CardValue::Three, CardValue::Six),
        (CardValue::Two, CardValue::Two),
    ];
    // the cycle of the Two alone lies within the cycle of the Two and the Three
    let cycles = detect_cycles(&edges);
    assert_eq!(cycles.len(), 1);
    assert_eq!(cycles[0].len(), 3);
    let resolved = resolve_cycles(&edges, &cycles);
    assert_eq!(
        resolved,
        vec![
            (CardValue::Four, CardValue::Two),
            (CardValue::Three, CardValue::Six),
            (CardValue::Three, CardValue::Two),
        ]
    );
}

#[test]
fn resolution_never_leaves_a_cycle() {
    let all = canonical_ordering();
    // every relation between the first five ranks, in both directions
    let mut edges = vec![];
    for a in all.iter().take(5) {
        for b in all.iter().take(5) {
            edges.push((*a, *b));
        }
    }
    let cycles = detect_cycles(&edges);
    assert!(!cycles.is_empty());
    let resolved = resolve_cycles(&edges, &cycles);
    assert!(detect_cycles(&resolved).is_empty());
    // whatever cycles are named, even none
    let unaided = resolve_cycles(&edges, &[]);
    assert!(detect_cycles(&unaided).is_empty());
    assert_eq!(unaided.len(), 10);
}

#[test]
fn relationships_list_the_ranks_around_a_rank() {
    let edges = vec![
        (CardValue::Two, CardValue::Five),
        (CardValue::Five, CardValue::Ace),
        (CardValue::Three, CardValue::Five),
        (CardValue::Five, CardValue::Two),
        (CardValue::Two, CardValue::Five),
    ];
    let (pre, post, violations) = relationships(&edges, &CardValue::Five);
    assert_eq!(pre, vec![CardValue::Two, CardValue::Three, CardValue::Two]);
    assert_eq!(post, vec![CardValue::Ace, CardValue::Two]);
    assert_eq!(violations, vec![CardValue::Two, CardValue::Two]);
    let (pre, post, violations) = relationships(&edges, &CardValue::King);
    assert!(pre.is_empty() && post.is_empty() && violations.is_empty());
}

#[test]
fn repeated_relations_are_removed() {
    let edges = vec![
        (CardValue::Two, CardValue::Five),
        (CardValue::Five, CardValue::Ace),
        (CardValue::Two, CardValue::Five),
        (CardValue::Five, CardValue::Two),
        (CardValue::Five, CardValue::Ace),
    ];
    let distinct = vec![
        (CardValue::Two, CardValue::Five),
        (CardValue::Five, CardValue::Ace),
        (CardValue::Five, CardValue::Two),
    ];
    assert_eq!(remove_redundancies(&edges), distinct);
    assert_eq!(edges.remove_redundancies(), distinct);
}

#[test]
fn implied_relations_are_dropped() {
    let edges = vec![
        (CardValue::Two, CardValue::Three),
        (CardValue::Three, CardValue::Four),
        (CardValue::Two, CardValue::Four),
        (CardValue::Two, CardValue::Three),
        (CardValue::Four, CardValue::Ace),
        (CardValue::Two, CardValue::Ace),
    ];
    let kept = vec![
        (CardValue::Two, CardValue::Three),
        (CardValue::Three, CardValue::Four),
        (CardValue::Four, CardValue::Ace),
    ];
    assert_eq!(simplify(&edges), kept);
    assert_eq!(edges.simplify(), kept);
    let alone = vec![(CardValue::Two, CardValue::Four)];
    assert_eq!(simplify(&alone), alone);
}

#[test]
fn possibilities_never_grow_with_more_relations() {
    let all = canonical_ordering();
    let mut edges: Vec<(CardValue, CardValue)> = vec![];
    let mut last = possibilities(&edges);
    assert_eq!(last, 6227020800);
    for i in 0..12 {
        edges.push((all[i], all[i + 1]));
        let now = possibilities(&edges);
        assert!(now <= last);
        last = now;
    }
    assert_eq!(try_possibilities(&[(CardValue::Two, CardValue::Ace), (CardValue::Ace, CardValue::Two)]), None);
    assert_eq!(try_possibilities(&[(CardValue::Two, CardValue::Ace)]), Some(12 * 479001600));
}

#[test]
fn generated_orderings_respect_every_relation() {
    let edges = vec![
        (CardValue::Ace, CardValue::Two),
        (CardValue::King, CardValue::Ace),
        (CardValue::Five, CardValue::King),
        (CardValue::Two, CardValue::Three),
        (CardValue::Ten, CardValue::Three),
    ];
    for _ in 0..50 {
        let ordering = generate_ordering(&edges);
        assert!(is_valid_ordering(&ordering));
        for (a, b) in edges.iter() {
            assert!(position_in(&ordering, *a) < position_in(&ordering, *b));
        }
    }
    assert!(try_generate_ordering(&edges).is_some());
    assert!(try_generate_ordering(&[(CardValue::Two, CardValue::Two)]).is_none());
}

#[test]
fn draws_select_the_ordering() {
    let none: Vec<(CardValue, CardValue)> = vec![];
    // With every draw 0 the first eligible rank is taken: the print order.
    assert_eq!(generate_ordering_with(&none, &[0; 13]), canonical_ordering());
    // A draw is reduced modulo the number of eligible ranks.
    let drawn = generate_ordering_with(&none, &[12, 12, 0, 0, 0, 0, 0, 0, 0, 0, 0, 0, 13]);
    assert_eq!(drawn[0], CardValue::Ace);
    assert_eq!(drawn[1], CardValue::Two);
    assert_eq!(drawn[2], CardValue::Three);
    assert_eq!(drawn[12], CardValue::King);
    let edges = vec![(CardValue::Ace, CardValue::Two), (CardValue::Three, CardValue::Ace)];
    let forced = generate_ordering_with(&edges, &[0; 13]);
    assert_eq!(&forced[..4], &[CardValue::Three, CardValue::Four, CardValue::Five, CardValue::Six]);
    assert_eq!(&forced[11..], &[CardValue::Ace, CardValue::Two]);
    assert_eq!(
        eligible_ranks(&edges, &[CardValue::Three]),
        vec![
            CardValue::Four, CardValue::Five, CardValue::Six, CardValue::Seven, CardValue::Eight,
            CardValue::Nine, CardValue::Ten, CardValue::Jack, CardValue::Queen, CardValue::King,
            CardValue::Ace,
        ]
    );
}

#[test]
fn reachability_follows_walks() {
    let edges = vec![
        (CardValue::Two, CardValue::Three),
        (CardValue::Three, CardValue::Four),
        (CardValue::Five, CardValue::Two),
    ];
    assert!(reachable(&edges, CardValue::Five, CardValue::Four));
    assert!(!reachable(&edges, CardValue::Four, CardValue::Five));
    assert!(!reachable(&edges, CardValue::Two, CardValue::Two));
    let marks = reach_set(&edges, CardValue::Two);
    assert_eq!(marks.iter().filter(|m| **m).count(), 2);
    assert!(is_acyclic(&edges));
    let mut closed = edges.clone();
    closed.push((CardValue::Four, CardValue::Five));
    assert!(!is_acyclic(&closed));
    assert!(reachable(&closed, CardValue::Two, CardValue::Two));
}

#[test]
fn relations_print_one_line_for_each_rank() {
    let edges = vec![
        (CardValue::Two, CardValue::Ace),
        (CardValue::Three, CardValue::Ace),
        (CardValue::Ace, CardValue::King),
    ];
    let text = debug_relations(&edges);
    let lines: Vec<&str> = text.split('\n').collect();
    assert_eq!(lines.len(), 13);
    assert_eq!(lines[0], "|2|[][A]");
    assert_eq!(lines[1], "|3|[][A]");
    assert_eq!(lines[2], "|4|[][]");
    assert_eq!(lines[11], "|K|[A][]");
    assert_eq!(lines[12], "|A|[23][K]");
    assert_eq!(edges.debug_relations(), text);
}

#[test]
fn of_nested_cycles_only_the_largest_is_reported() {
    let edges = vec![
        (CardValue::Two, CardValue::Three),
        (CardValue::Three, CardValue::Four),
        (CardValue::Four, CardValue::Five),
        (CardValue::Three, CardValue::Five),
        (CardValue::Five, CardValue::Two),
    ];
    let cycles = detect_cycles(&edges);
    assert_eq!(cycles.len(), 1);
    let ranks: HashSet<CardValue> = cycles[0].iter().copied().collect();
    let wanted: HashSet<CardValue> =
        [CardValue::Two, CardValue::Three, CardValue::Four, CardValue::Five].iter().copied().collect();
    assert_eq!(ranks, wanted);
    // the same whichever of the two is met first
    let turned = vec![
        (CardValue::Two, CardValue::Three),
        (CardValue::Three, CardValue::Five),
        (CardValue::Three, CardValue::Four),
        (CardValue::Four, CardValue::Five),
        (CardValue::Five, CardValue::Two),
    ];
    let cycles = detect_cycles(&turned);
    assert_eq!(cycles.len(), 1);
    assert_eq!(cycles[0].iter().copied().collect::<HashSet<CardValue>>(), wanted);
}
