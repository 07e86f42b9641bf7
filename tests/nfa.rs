use token_scanner::{NFA};

fn word(s: &str) -> Vec<char> {
    s.chars().collect()
}

type Row = (i32, Option<char>, Vec<i32>);

fn five_label_rows() -> Vec<Row> {
    vec![
        (0, Some('0'), vec![1]),
        (1, Some('1'), vec![2]),
        (1, None, vec![3]),
        (2, Some('0'), vec![2]),
        (2, Some('1'), vec![1]),
        (3, Some('0'), vec![4]),
    ]
}

#[test]
fn nfa_empty_nfa() {
    let empty: NFA<i32> = NFA::from_map(0i32, Vec::<i32>::new(), Vec::<Row>::new());
    let tests = ["", "0", "01"];
    for ele in tests.iter() {
        assert!(!empty.accept(&word(ele)), "NFA should not accept string \"{}\"", ele);
    }
}

#[test]
fn nfa_nfa_empty_string() {
    let nfa: NFA<i32> = NFA::from_map(0, vec![0], Vec::<Row>::new());
    let tests = ["0", "01"];
    for ele in tests.iter() {
        assert!(!nfa.accept(&word(ele)), "NFA should not accept string \"{}\"", ele);
    }
    assert!(nfa.accept(&word("")), "NFA should accept empty string.",);
}

#[test]
fn nfa_nfa_1() {
    let nfa = NFA::from_map(0, vec![0, 2, 4], five_label_rows());
    assert!(!nfa.is_deterministic());
    let dfa = nfa.to_dfa();
    assert!(dfa.is_deterministic());

    let accept_strings = vec!["", "00", "01", "010", "0100", "01011"];
    let reject_strings = vec!["0", "001", "0101"];

    for string in accept_strings.iter() {
        assert!(nfa.accept(&word(string)));
        assert!(dfa.accept(&word(string)));
    }

    for string in reject_strings.iter() {
        assert!(!nfa.accept(&word(string)));
        assert!(!dfa.accept(&word(string)));
    }
}

#[test]
fn nfa_start_outside_states_is_rejected() {
    let r = NFA::from(vec![0, 1], vec!['0', '1'], 2, vec![1], Vec::<Row>::new());
    assert!(r.is_err());
}

#[test]
fn nfa_accepting_outside_states_is_rejected() {
    let r = NFA::from(vec![0, 1], vec!['0', '1'], 0, vec![5], Vec::<Row>::new());
    assert!(r.is_err());
}

#[test]
fn nfa_table_label_outside_states_is_rejected() {
    let r = NFA::from(vec![0, 1], vec!['0'], 0, vec![1], vec![(0, Some('0'), vec![7])]);
    assert!(r.is_err());
    let r = NFA::from(vec![0, 1], vec!['0'], 0, vec![1], vec![(9, Some('0'), vec![1])]);
    assert!(r.is_err());
}

#[test]
fn nfa_table_symbol_outside_alphabet_is_rejected() {
    let r = NFA::from(vec![0, 1], vec!['0'], 0, vec![1], vec![(0, Some('x'), vec![1])]);
    assert!(r.is_err());
}

#[test]
fn nfa_valid_formal_build() {
    let nfa = NFA::from(vec![0, 1, 1], vec!['a', 'a'], 0, vec![1], vec![(0, Some('a'), vec![1])]).unwrap();
    assert_eq!(nfa.states().len(), 2);
    assert_eq!(nfa.alphabets().len(), 1);
    assert_eq!(nfa.start_state(), 0);
    assert!(nfa.accept(&word("a")));
    assert!(!nfa.accept(&word("")));
    assert!(!nfa.accept(&word("aa")));
}

#[test]
fn nfa_epsilon_closure_is_reflexive() {
    let nfa = NFA::from_map(0, vec![0, 2, 4], five_label_rows());
    for s in 0..5 {
        assert!(nfa.epsilon_closure_states(&s).contains(&s));
    }
    let c = nfa.epsilon_closure_states(&1);
    assert_eq!(c.members(), &vec![1, 3]);
    let unknown = nfa.epsilon_closure_states(&42);
    assert_eq!(unknown.members(), &vec![42]);
}

#[test]
fn nfa_transition_and_closure_transition() {
    let nfa = NFA::from_map(0, vec![0, 2, 4], five_label_rows());
    assert_eq!(nfa.transition(&1, None).members(), &vec![3]);
    assert_eq!(nfa.transition(&1, Some('1')).members(), &vec![2]);
    assert_eq!(nfa.transition(&1, Some('0')).len(), 0);
    assert_eq!(nfa.transition(&8, Some('0')).len(), 0);
    // from 1: closure {1, 3}; on '0' only 3 moves, to 4
    assert_eq!(nfa.epsilon_closure_transition(&1, '0').members(), &vec![4]);
    assert_eq!(nfa.epsilon_closure_transition(&0, '0').members(), &vec![1, 3]);
    assert_eq!(nfa.accepted_states().members(), &vec![0, 2, 4]);
}

#[test]
fn nfa_unknown_symbol_rejects() {
    let nfa = NFA::from_map(0, vec![0, 2, 4], five_label_rows());
    assert!(!nfa.accept(&word("x")));
    assert!(!nfa.accept(&word("01x")));
    assert!(!nfa.accept(&word("x00")));
}

#[test]
fn nfa_enumeration_lists_each_move_once() {
    let rows: Vec<Row> = vec![(0, Some('a'), vec![1, 1]), (0, Some('a'), vec![1]), (1, None, vec![0])];
    let nfa = NFA::from_map(0, vec![1], rows);
    let nodes = nfa.nodes();
    assert_eq!(nodes.len(), 2);
    assert_eq!(nodes[0], (0, 0, false));
    assert_eq!(nodes[1], (1, 1, true));
    let mut edges = nfa.edges();
    edges.sort();
    assert_eq!(edges, vec![(0, 1, Some('a')), (1, 0, None)]);
}
