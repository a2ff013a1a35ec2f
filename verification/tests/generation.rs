use markov_chain::MarkovChain;

// A history shorter than the requested window length is looked up whole in
// the same round: "aab" trained at length 2, history [a], still matches.
#[test]
fn short_history_looked_up_whole() {
    let m = MarkovChain::new(2, vec![97, 97, 98]);
    for _ in 0..50 {
        let r = m.generate_with_length(2, &vec![97]).unwrap();
        assert!(r == 97 || r == 98);
    }
}

// An unknown one-element history falls back to the empty window and still
// predicts from the unconditional successors.
#[test]
fn unknown_history_falls_back_to_empty_window() {
    let m = MarkovChain::new(2, vec![97, 97, 98]);
    for _ in 0..50 {
        let r = m.generate_with_length(1, &vec![122]).unwrap();
        assert!(r == 97 || r == 98);
    }
}

// Training on empty input leaves nothing to predict from.
#[test]
fn empty_model_no_prediction() {
    let m = MarkovChain::new(3, vec![]);
    assert!(m.generate(&vec![]).is_none());
    assert!(m.generate(&vec![1, 2]).is_none());
    assert!(m.generate_with_length(0, &vec![]).is_none());
}

// Window length 0 predicts exactly when the model saw non-empty input.
#[test]
fn zero_length_iff_trained() {
    let trained = MarkovChain::new(2, vec![5, 6]);
    for _ in 0..20 {
        let r = trained.generate_with_length(0, &vec![99]).unwrap();
        assert!(r == 5 || r == 6);
    }
    let empty = MarkovChain::new(2, vec![]);
    assert!(empty.generate_with_length(0, &vec![99]).is_none());
}

// A model built with maximum chain length 0 never predicts.
#[test]
fn zero_max_length_never_predicts() {
    let m = MarkovChain::new(0, vec![1, 2, 3]);
    assert!(m.generate(&vec![]).is_none());
    assert!(m.generate(&vec![1]).is_none());
    assert!(m.generate_with_length(5, &vec![2]).is_none());
}

// A matching window is used, never a shorter fallback: [8] is always
// followed by 7 in the input, so prediction from [8] is always 7 even
// though the empty window offers other successors.
#[test]
fn match_wins_over_fallback() {
    let m = MarkovChain::new(2, vec![7, 8, 7, 9]);
    for _ in 0..50 {
        assert_eq!(m.generate_with_length(1, &vec![8]).unwrap(), 7);
        assert_eq!(m.generate(&vec![10, 8]).unwrap(), 7);
    }
}

// A single trained successor is returned exactly.
#[test]
fn single_successor_exact() {
    let m = MarkovChain::new(1, vec![42]);
    assert_eq!(m.generate(&vec![]), Some(42));
    assert_eq!(m.generate(&vec![7]), Some(42));
}

// Every prediction is a value that occurred in the training input.
#[test]
fn predictions_come_from_input() {
    let input = vec![1, 2, 3, 2, 5];
    let m = MarkovChain::new(3, input.clone());
    let histories = vec![vec![], vec![1], vec![2], vec![3, 2], vec![9, 9, 9], vec![5]];
    for h in &histories {
        for _ in 0..20 {
            let r = m.generate(h).unwrap();
            assert!(input.contains(&r));
        }
    }
}

// Repeated predictions from one history range over the matched window's
// distinct successors and over nothing else.
#[test]
fn support_set_is_matched_successors() {
    let m = MarkovChain::new(2, vec![97, 97, 98]);
    let mut seen_a = false;
    let mut seen_b = false;
    for _ in 0..200 {
        let r = m.generate(&vec![97]).unwrap();
        assert!(r == 97 || r == 98);
        if r == 97 {
            seen_a = true;
        }
        if r == 98 {
            seen_b = true;
        }
    }
    assert!(seen_a && seen_b);
}
