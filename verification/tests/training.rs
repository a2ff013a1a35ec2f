use markov_chain::MarkovChain;

// Training on "aab" (as byte codes) with maximum chain length 2 records the
// empty key with every element and each one-element key with what follows it.
#[test]
fn train_aab_table() {
    let m = MarkovChain::new(2, vec![97, 97, 98]);
    assert_eq!(m.successors(&vec![]).unwrap(), &vec![97, 97, 98]);
    assert_eq!(m.successors(&vec![97]).unwrap(), &vec![97, 98]);
    assert!(m.successors(&vec![98]).is_none());
}

// The table never holds a key as long as the maximum chain length.
#[test]
fn no_key_at_max_length() {
    let m = MarkovChain::new(2, vec![97, 97, 98]);
    assert!(m.successors(&vec![97, 97]).is_none());
    assert!(m.successors(&vec![97, 98]).is_none());
}

// Duplicate successors are kept, once per observed window.
#[test]
fn duplicates_kept() {
    let m = MarkovChain::new(1, vec![5, 5, 5]);
    assert_eq!(m.successors(&vec![]).unwrap(), &vec![5, 5, 5]);
}

// Successors are recorded in order of appearance in the input.
#[test]
fn successor_order_kept() {
    let m = MarkovChain::new(2, vec![7, 8, 7, 9]);
    assert_eq!(m.successors(&vec![7]).unwrap(), &vec![8, 9]);
    assert_eq!(m.successors(&vec![8]).unwrap(), &vec![7]);
    assert_eq!(m.successors(&vec![]).unwrap(), &vec![7, 8, 7, 9]);
}

// Empty input trains an empty table.
#[test]
fn empty_input_empty_table() {
    let m = MarkovChain::new(3, vec![]);
    assert!(m.successors(&vec![]).is_none());
    assert!(m.successors(&vec![1]).is_none());
}

// A zero maximum chain length trains an empty table even on non-empty input.
#[test]
fn zero_max_length_empty_table() {
    let m = MarkovChain::new(0, vec![1, 2, 3]);
    assert!(m.successors(&vec![]).is_none());
    assert!(m.successors(&vec![1]).is_none());
}

// A clone holds the same table as the original.
#[test]
fn clone_keeps_table() {
    let m = MarkovChain::new(2, vec![97, 97, 98]);
    let c = m.clone();
    assert_eq!(c.successors(&vec![]).unwrap(), &vec![97, 97, 98]);
    assert_eq!(c.successors(&vec![97]).unwrap(), &vec![97, 98]);
    assert!(c.successors(&vec![98]).is_none());
    for _ in 0..20 {
        let r = c.generate(&vec![97]).unwrap();
        assert!(r == 97 || r == 98);
    }
}

// A maximum chain length beyond the input length contributes nothing extra.
#[test]
fn max_length_beyond_input() {
    let m = MarkovChain::new(10, vec![1, 2]);
    assert_eq!(m.successors(&vec![]).unwrap(), &vec![1, 2]);
    assert_eq!(m.successors(&vec![1]).unwrap(), &vec![2]);
    assert!(m.successors(&vec![2]).is_none());
    assert!(m.successors(&vec![1, 2]).is_none());
}
