use dfa_min::DFA;

fn wikipedia_transitions() -> Vec<(u64, u64, u64)> {
    vec![
        (0, 0, 1),
        (0, 1, 2),
        (1, 0, 0),
        (1, 1, 3),
        (2, 0, 4),
        (2, 1, 5),
        (3, 0, 4),
        (3, 1, 5),
        (4, 0, 4),
        (4, 1, 5),
        (5, 0, 5),
        (5, 1, 5),
    ]
}

/// Runs the automaton on a word, following the unique transition per
/// (state, label) pair, and reports whether it ends in an accepting state.
fn accepts(d: &DFA, word: &[u64]) -> bool {
    let rows = d.transitions().rows();
    let mut state = d.initial_state();
    for &label in word {
        let mut next = None;
        for &(src, lab, dst) in &rows {
            if src == state && lab == label {
                next = Some(dst);
                break;
            }
        }
        match next {
            Some(dst) => state = dst,
            None => return false,
        }
    }
    d.final_states().contains(&state)
}

/// Every word over {0, 1} whose length is at most `max_len`.
fn words_up_to(max_len: usize) -> Vec<Vec<u64>> {
    let mut out: Vec<Vec<u64>> = vec![vec![]];
    let mut last: Vec<Vec<u64>> = vec![vec![]];
    for _ in 0..max_len {
        let mut next = Vec::new();
        for w in &last {
            for lab in 0..2u64 {
                let mut w2 = w.clone();
                w2.push(lab);
                next.push(w2);
            }
        }
        out.extend(next.iter().cloned());
        last = next;
    }
    out
}

#[test]
fn prune_wikipedia() {
    let transitions = wikipedia_transitions();
    let input = DFA::construct(0, vec![2, 3, 4], transitions);
    assert_eq!(input.transitions().len(), 12);
    assert_eq!(input.transitions().by_a().len(), 6);
    let pruned = input.prune_unreachable().unwrap();
    // We pruned out 5 transitions and 1 state.
    assert_eq!(pruned.transitions().len(), 7);
    assert_eq!(pruned.transitions().by_a().len(), 5);
}

#[test]
fn minimize_wikipedia() {
    let transitions = wikipedia_transitions();
    let input = DFA::construct(0, vec![2, 3, 4], transitions);
    assert_eq!(input.transitions().len(), 12);
    assert_eq!(input.transitions().by_a().len(), 6);
    let pruned = input.prune_unreachable().unwrap();
    let minified = pruned.minimize();
    assert_eq!(minified.transitions().len(), 3);
    assert_eq!(minified.transitions().by_a().len(), 2);
}

#[test]
fn minimize_example1() {
    let transitions: Vec<(u64, u64, u64)> = vec![
        (0, 0, 1),
        (1, 0, 2),
        (1, 1, 2),
        (2, 0, 2),
        (2, 1, 2),
        (0, 1, 3),
        (3, 0, 4),
        (3, 1, 4),
        (4, 0, 4),
        (4, 1, 4),
    ];
    let input = DFA::construct(0, vec![2, 4], transitions);
    assert_eq!(input.transitions().len(), 10);
    assert_eq!(input.transitions().by_a().len(), 5);
    let pruned = input.prune_unreachable().unwrap();
    let minified = pruned.minimize();
    assert_eq!(minified.transitions().len(), 6);
    assert_eq!(minified.transitions().by_a().len(), 3);
    assert_eq!(minified.final_states().len(), 1);
}

#[test]
fn prune_empty_language() {
    let input = DFA::construct(0, vec![], vec![]);
    let pruned = input.prune_unreachable();
    assert!(pruned.is_none());
}

#[test]
fn minimize_dfa_with_all_states_accepting() {
    // This is an already-minimal DFA that accepts 0*10*.
    // Every state is an accepting state.
    let transitions: Vec<(u64, u64, u64)> = vec![(0, 0, 0), (0, 1, 1), (1, 0, 1)];
    let input = DFA::construct(0, vec![0, 1], transitions);
    assert_eq!(input.transitions().len(), 3);
    assert_eq!(input.transitions().by_a().len(), 2);
    let pruned = input.prune_unreachable().unwrap();
    let minified = pruned.minimize();
    assert_eq!(minified.transitions().len(), 3);
    assert_eq!(minified.transitions().by_a().len(), 2);
    assert_eq!(minified.final_states().len(), 2);
}

#[test]
fn prune_unreachable_accepting_state() {
    // The only accepting state cannot be reached from the initial state.
    let input = DFA::construct(0, vec![2], vec![(0, 0, 1), (1, 0, 0), (2, 0, 2)]);
    assert!(input.prune_unreachable().is_none());
}

#[test]
fn prune_keeps_live_parts_exactly() {
    let input = DFA::construct(0, vec![2, 3, 4], wikipedia_transitions());
    let pruned = input.prune_unreachable().unwrap();
    // State 5 is the only dead state: everything reaching only 5 is dropped.
    assert_eq!(pruned.initial_state(), 0);
    assert_eq!(pruned.final_states(), vec![2, 3, 4]);
    let rows = pruned.transitions().rows();
    assert_eq!(
        rows,
        vec![(0, 0, 1), (0, 1, 2), (1, 0, 0), (1, 1, 3), (2, 0, 4), (3, 0, 4), (4, 0, 4)]
    );
}

#[test]
fn prune_is_idempotent_on_pruned_input() {
    let input = DFA::construct(0, vec![2, 3, 4], wikipedia_transitions());
    let once = input.prune_unreachable().unwrap();
    let rows_once = once.transitions().rows();
    let finals_once = once.final_states();
    let twice = once.prune_unreachable().unwrap();
    assert_eq!(twice.initial_state(), 0);
    assert_eq!(twice.final_states(), finals_once);
    assert_eq!(twice.transitions().rows(), rows_once);
}

#[test]
fn language_preserved_up_to_bound() {
    let reference = DFA::construct(0, vec![2, 3, 4], wikipedia_transitions());
    let input = DFA::construct(0, vec![2, 3, 4], wikipedia_transitions());
    let minified = input.prune_unreachable().unwrap().minimize();
    for word in words_up_to(7) {
        assert_eq!(
            accepts(&reference, &word),
            accepts(&minified, &word),
            "disagreement on {:?}",
            word
        );
    }
}

#[test]
fn minimize_is_idempotent_up_to_isomorphism() {
    let input = DFA::construct(0, vec![2, 3, 4], wikipedia_transitions());
    let once = input.prune_unreachable().unwrap().minimize();
    let twice = once.minimize();
    assert_eq!(twice.transitions().len(), once.transitions().len());
    assert_eq!(twice.transitions().by_a().len(), once.transitions().by_a().len());
    assert_eq!(twice.final_states().len(), once.final_states().len());
    for word in words_up_to(7) {
        assert_eq!(accepts(&once, &word), accepts(&twice, &word));
    }
}

#[test]
fn minimized_state_count_within_bound() {
    // The live part of this automaton can be recognized by a 3-state complete
    // automaton; the minimized partial automaton may not use more states, and
    // here it needs only 2.
    let input = DFA::construct(0, vec![2, 3, 4], wikipedia_transitions());
    let minified = input.prune_unreachable().unwrap().minimize();
    let mut states: Vec<u64> = vec![minified.initial_state()];
    for (src, _, dst) in minified.transitions().rows() {
        if !states.contains(&src) {
            states.push(src);
        }
        if !states.contains(&dst) {
            states.push(dst);
        }
    }
    assert!(states.len() <= 3);
    assert_eq!(states.len(), 2);
}

#[test]
fn construct_exposes_its_parts() {
    let d = DFA::construct(7, vec![9], vec![(7, 1, 9)]);
    assert_eq!(d.initial_state(), 7);
    assert_eq!(d.final_states(), vec![9]);
    assert_eq!(d.transitions().rows(), vec![(7, 1, 9)]);
    assert_eq!(d.transitions().len(), 1);
}

#[test]
fn minimize_single_state_loop() {
    let input = DFA::construct(0, vec![0], vec![(0, 1, 0)]);
    let pruned = input.prune_unreachable().unwrap();
    let minified = pruned.minimize();
    assert_eq!(minified.transitions().len(), 1);
    assert_eq!(minified.final_states().len(), 1);
    assert_eq!(minified.initial_state(), minified.final_states()[0]);
}

#[test]
fn minimize_isolated_initial_state() {
    // A pruned automaton with no transitions: its initial state accepts the
    // empty word and the minimal automaton is the same one-state automaton.
    let input = DFA::construct(3, vec![3], vec![]);
    let pruned = input.prune_unreachable().unwrap();
    let minified = pruned.minimize();
    assert_eq!(minified.initial_state(), 3);
    assert_eq!(minified.final_states(), vec![3]);
    assert_eq!(minified.transitions().len(), 0);
}

#[test]
fn language_preserved_example1() {
    let transitions: Vec<(u64, u64, u64)> = vec![
        (0, 0, 1),
        (1, 0, 2),
        (1, 1, 2),
        (2, 0, 2),
        (2, 1, 2),
        (0, 1, 3),
        (3, 0, 4),
        (3, 1, 4),
        (4, 0, 4),
        (4, 1, 4),
    ];
    let reference = DFA::construct(0, vec![2, 4], transitions.clone());
    let input = DFA::construct(0, vec![2, 4], transitions);
    let minified = input.prune_unreachable().unwrap().minimize();
    for word in words_up_to(6) {
        assert_eq!(accepts(&reference, &word), accepts(&minified, &word));
    }
}
