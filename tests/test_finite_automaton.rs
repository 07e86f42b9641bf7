use rand::{thread_rng, Rng};
use std::collections::hash_map::DefaultHasher;
use std::hash::{Hash, Hasher};
use token_scanner::{CommunicativeHashSet, DFA, NFA};

fn word(s: &str) -> Vec<char> {
    s.chars().collect()
}

type Row = (i32, Option<char>, Vec<i32>);

fn five_label_rows() -> Vec<Row> {
    vec![
        (0, Some('0'), vec![1]),
        (1, Some('1'), vec![2]),
        (1, None, vec![3]),
        (2, Some('0'), vec![2]),
        (2, Some('1'), vec![1]),
        (3, Some('0'), vec![4]),
    ]
}

fn eight_state_rows() -> Vec<Row> {
    vec![
        (0, Some('0'), vec![1]),
        (0, Some('1'), vec![5]),
        (1, Some('0'), vec![6]),
        (1, Some('1'), vec![2]),
        (2, Some('0'), vec![0]),
        (2, Some('1'), vec![2]),
        (3, Some('0'), vec![2]),
        (3, Some('1'), vec![6]),
        (4, Some('0'), vec![7]),
        (4, Some('1'), vec![5]),
        (5, Some('0'), vec![2]),
        (5, Some('1'), vec![6]),
        (6, Some('0'), vec![6]),
        (6, Some('1'), vec![4]),
        (7, Some('0'), vec![6]),
        (7, Some('1'), vec![2]),
    ]
}

fn div_by_3() -> DFA<i32> {
    DFA::from_formal(
        vec![0, 1, 2],
        vec!['0', '1'],
        0,
        vec![0],
        vec![
            (0, '0', 0),
            (0, '1', 1),
            (1, '0', 2),
            (1, '1', 0),
            (2, '0', 1),
            (2, '1', 2),
        ],
    )
    .unwrap()
}

fn hash_of<T: Hash>(t: &T) -> u64 {
    let mut h = DefaultHasher::new();
    t.hash(&mut h);
    h.finish()
}

fn gen_random_binary_string(length: usize) -> String {
    let mut rng = thread_rng();
    let mut res = String::with_capacity(length);
    for _ in 0..length {
        res.push(if rng.gen_bool(0.5) { '1' } else { '0' });
    }
    res
}

#[test]
fn test_finite_automaton_empty_nfa() {
    let empty: NFA<i32> = NFA::from_map(0i32, Vec::<i32>::new(), Vec::<Row>::new());
    let tests = ["", "0", "01"];
    for ele in tests.iter() {
        assert!(!empty.accept(&word(ele)), "NFA should not accept string \"{}\"", ele);
    }
}

#[test]
fn test_finite_automaton_nfa_empty_string() {
    let nfa: NFA<i32> = NFA::from_map(0, vec![0], Vec::<Row>::new());
    let tests = ["0", "01"];
    for ele in tests.iter() {
        assert!(!nfa.accept(&word(ele)), "NFA should not accept string \"{}\"", ele);
    }
    assert!(nfa.accept(&word("")), "NFA should accept empty string.",);
}

#[test]
fn test_finite_automaton_nfa_1() {
    let nfa = NFA::from_map(0, vec![0, 2, 4], five_label_rows());
    let dfa = nfa.to_dfa();
    let dfa_min = dfa.minimized();
    assert!(!nfa.is_deterministic());
    assert!(dfa.is_deterministic());
    assert!(dfa_min.is_deterministic());
    assert!(dfa_min.states().len() <= dfa.states().len());

    let accept_strings = vec!["", "00", "01", "010", "0100", "01011"];
    let reject_strings = vec!["0", "001", "0101"];

    for string in accept_strings.iter() {
        assert!(nfa.accept(&word(string)));
        assert!(dfa.accept(&word(string)));
        assert!(dfa_min.accept(&word(string)));
    }

    for string in reject_strings.iter() {
        assert!(!nfa.accept(&word(string)));
        assert!(!dfa.accept(&word(string)));
        assert!(!dfa_min.accept(&word(string)));
    }
}

#[test]
fn nfa_2() {
    let nfa = NFA::from_map(0, vec![2], eight_state_rows());
    let dfa = nfa.to_dfa();
    let dfa_min = dfa.minimized();

    assert!(nfa.is_deterministic());
    assert!(dfa.is_deterministic());
    assert!(dfa_min.is_deterministic());
    assert!(dfa_min.states().len() <= dfa.states().len());

    for length in 0..100usize {
        let string = gen_random_binary_string(length);
        let accepted = nfa.accept(&word(&string));
        assert_eq!(dfa.accept(&word(&string)), accepted);
        assert_eq!(dfa_min.accept(&word(&string)), accepted);
    }
}

#[test]
fn eight_state_nfa_agrees_on_every_short_word() {
    let nfa = NFA::from_map(0, vec![2], eight_state_rows());
    let dfa = nfa.to_dfa();
    let dfa_min = dfa.minimized();
    for len in 0..9u32 {
        for bits in 0..(1u32 << len) {
            let w: Vec<char> = (0..len).map(|i| if bits >> i & 1 == 1 { '1' } else { '0' }).collect();
            let a = nfa.accept(&w);
            assert_eq!(dfa.accept(&w), a);
            assert_eq!(dfa_min.accept(&w), a);
        }
    }
}

#[test]
fn divisible_by_three() {
    let dfa = div_by_3();
    for w in ["0", "11", "1001", "10010"] {
        assert!(dfa.accept(&word(w)), "{}", w);
    }
    for w in ["1", "110100"] {
        assert!(!dfa.accept(&word(w)), "{}", w);
    }
    assert!(dfa.is_deterministic());
    let min = dfa.minimized();
    assert_eq!(min.states().len(), 3);
    for n in 0..64u32 {
        let w = word(&format!("{:b}", n));
        assert_eq!(min.accept(&w), n % 3 == 0);
        assert_eq!(dfa.accept(&w), n % 3 == 0);
    }
}

#[test]
fn dfa_missing_entry_is_rejected() {
    let r = DFA::from_formal(
        vec![0, 1],
        vec!['a', 'b'],
        0,
        vec![1],
        vec![(0, 'a', 1), (0, 'b', 0), (1, 'a', 1)],
    );
    assert!(r.is_err());
}

#[test]
fn dfa_conflicting_entries_are_rejected() {
    let r = DFA::from_formal(
        vec![0, 1],
        vec!['a'],
        0,
        vec![1],
        vec![(0, 'a', 1), (0, 'a', 0), (1, 'a', 1)],
    );
    assert!(r.is_err());
}

#[test]
fn dfa_start_outside_states_is_rejected() {
    let r = DFA::from_formal(vec![0, 1], vec!['a'], 2, vec![1], vec![(0, 'a', 1), (1, 'a', 1)]);
    assert!(r.is_err());
}

#[test]
fn dfa_transition_gives_one_successor() {
    let dfa = div_by_3();
    assert_eq!(dfa.transition(&1, Some('0')).members(), &vec![2]);
    assert_eq!(dfa.transition(&1, None).len(), 0);
    assert_eq!(dfa.transition(&1, Some('7')).len(), 0);
    assert_eq!(dfa.start_state(), 0);
    assert!(!dfa.accept(&word("12")));
}

#[test]
fn minimisation_merges_equivalent_states() {
    // states 1 and 2 both accept everything from there on
    let dfa = DFA::from_formal(
        vec![0, 1, 2],
        vec!['a'],
        0,
        vec![1, 2],
        vec![(0, 'a', 1), (1, 'a', 2), (2, 'a', 1)],
    )
    .unwrap();
    let min = dfa.minimized();
    assert_eq!(min.states().len(), 2);
    let min2 = min.minimized();
    assert_eq!(min2.states().len(), 2);
    for n in 0..6 {
        let w: Vec<char> = std::iter::repeat('a').take(n).collect();
        assert_eq!(min.accept(&w), n >= 1);
        assert_eq!(min2.accept(&w), n >= 1);
    }
    let merged = min.states().iter().find(|s| s.len() == 2).unwrap();
    assert_eq!(merged.members(), &vec![1, 2]);
}

#[test]
fn minimisation_is_idempotent_on_five_label_nfa() {
    let nfa = NFA::from_map(0, vec![0, 2, 4], five_label_rows());
    let dfa = nfa.to_dfa();
    let m1 = dfa.minimized();
    let m2 = m1.minimized();
    assert_eq!(m1.states().len(), m2.states().len());
    for w in ["", "0", "00", "01", "001", "010", "0100", "0101", "01011"] {
        assert_eq!(m1.accept(&word(w)), m2.accept(&word(w)));
        assert_eq!(m1.accept(&word(w)), nfa.accept(&word(w)));
    }
}

#[test]
fn determinised_start_is_closure_of_start() {
    let nfa = NFA::from_map(1, vec![4], five_label_rows());
    let dfa = nfa.to_dfa();
    assert_eq!(dfa.start_state().members(), &vec![1, 3]);
}

#[test]
fn set_state_equality_ignores_insertion_order() {
    let a = CommunicativeHashSet::from(vec![3, 1, 2]);
    let b = CommunicativeHashSet::from(vec![2, 3, 1, 1]);
    assert_eq!(a, b);
    assert_eq!(hash_of(&a), hash_of(&b));
    let mut c = CommunicativeHashSet::from(vec![2]);
    assert!(c.insert(3));
    assert!(c.insert(1));
    assert!(c.insert(3));
    assert_eq!(c, a);
    assert_eq!(hash_of(&c), hash_of(&a));
    assert_eq!(a.len(), 3);
    assert!(a.contains(&2));
    assert!(!a.contains(&5));
    assert_ne!(a, CommunicativeHashSet::from(vec![1, 2]));
}

#[test]
fn single_accepting_start_accepts_empty_word_only() {
    let nfa = NFA::from(vec![0], vec!['0', '1'], 0, vec![0], Vec::<Row>::new()).unwrap();
    assert!(nfa.accept(&word("")));
    assert!(!nfa.accept(&word("0")));
    assert!(!nfa.accept(&word("1")));
    let dfa = nfa.to_dfa();
    assert!(dfa.accept(&word("")));
    assert!(!dfa.accept(&word("0")));
}

#[test]
fn divisible_by_three_from_map() {
    let dfa = DFA::from_map(
        0u64,
        vec![0],
        vec![(0, '0', 0), (0, '1', 1), (1, '0', 2), (1, '1', 0), (2, '0', 1), (2, '1', 2)],
    )
    .unwrap();
    assert_eq!(dfa.states().len(), 3);
    assert_eq!(dfa.alphabets().len(), 2);
    assert_eq!(dfa.accepted_states().members(), &vec![0]);
    let numbers = vec![("0", true), ("1", false), ("11", true), ("1001", true), ("10010", true), ("110100", false)];
    for (num, expected) in numbers {
        assert_eq!(dfa.accept(&word(num)), expected, "{}", num);
    }
}

#[test]
fn dfa_from_map_with_partial_table_is_rejected() {
    let r = DFA::from_map(0, vec![1], vec![(0, 'a', 1), (1, 'b', 0)]);
    assert!(r.is_err());
}

#[test]
fn dfa_enumeration_follows_the_table() {
    let dfa = div_by_3();
    let nodes = dfa.nodes();
    assert_eq!(nodes.len(), 3);
    assert_eq!(nodes[0], (0, 0, true));
    assert_eq!(nodes[2], (2, 2, false));
    let mut edges = dfa.edges();
    edges.sort();
    assert_eq!(
        edges,
        vec![(0, 0, '0'), (0, 1, '1'), (1, 0, '1'), (1, 2, '0'), (2, 1, '0'), (2, 2, '1')]
    );
}

#[test]
fn dfa_relabelled_as_singletons() {
    let dfa = div_by_3();
    let sets = dfa.to_dfa();
    assert_eq!(sets.states().len(), 3);
    for (i, s) in sets.states().iter().enumerate() {
        assert_eq!(s.members(), &vec![dfa.states()[i]]);
    }
    assert_eq!(sets.start_state().members(), &vec![0]);
    for w in ["0", "11", "1001", "10010", "1", "110100"] {
        assert_eq!(sets.accept(&word(w)), dfa.accept(&word(w)));
    }
}
