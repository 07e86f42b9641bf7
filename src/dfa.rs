use crate::label::{views, CommunicativeHashSet, StateIdentifier};
use crate::lookup::{distinct_labels, distinct_symbols, lemma_push_contains, mark_members, position, symbol_position};
use crate::label::lemma_push_to_set;
use crate::model::{
    class_labels, lemma_next_in_range, lemma_quotient_minimisation, lemma_refine_count, lemma_refine_separates,
    lemma_wf_deterministic, partition, quotient, used, DfaModel,
};
use crate::nfa::{copy_symbols, AutomatonError};
use vstd::prelude::*;

verus! {

/// One entry of a DFA's transition table: state, symbol, successor.
pub type DfaEntry<L> = (L, char, L);

pub open spec fn entries_view<L: View>(rows: Seq<DfaEntry<L>>) -> Seq<(L::V, char, L::V)> {
    rows.map_values(|r: DfaEntry<L>| (r.0@, r.1, r.2@))
}

pub open spec fn ints(s: Seq<usize>) -> Seq<int> {
    s.map_values(|x: usize| x as int)
}

pub open spec fn delta_model(d: Seq<Vec<usize>>) -> Seq<Seq<int>> {
    d.map_values(|row: Vec<usize>| ints(row@))
}

/// The parts of a DFA are consistent: the start and accepting states are
/// states; the table names only states and symbols of the alphabet, gives
/// each state and symbol a successor, and never two different ones.
pub open spec fn valid_dfa_parts<V>(
    states: Set<V>,
    alphabet: Set<char>,
    start: V,
    accepting: Set<V>,
    rows: Seq<(V, char, V)>,
) -> bool {
    &&& states.contains(start)
    &&& accepting.subset_of(states)
    &&& forall|r: int|
        0 <= r < rows.len() ==> {
            let row = #[trigger] rows[r];
            &&& states.contains(row.0)
            &&& alphabet.contains(row.1)
            &&& states.contains(row.2)
        }
    &&& table_single_valued(states, alphabet, rows)
}

/// The table gives each state and symbol a successor, and never two different ones.
pub open spec fn table_single_valued<V>(states: Set<V>, alphabet: Set<char>, rows: Seq<(V, char, V)>) -> bool {
    &&& forall|s: V, c: char|
        #![trigger states.contains(s), alphabet.contains(c)]
        states.contains(s) && alphabet.contains(c) ==> exists|r: int|
            0 <= r < rows.len() && (#[trigger] rows[r]).0 == s && rows[r].1 == c
    &&& forall|r1: int, r2: int|
        0 <= r1 < rows.len() && 0 <= r2 < rows.len() && (#[trigger] rows[r1]).0 == (#[trigger] rows[r2]).0
            && rows[r1].1 == rows[r2].1 ==> rows[r1].2 == rows[r2].2
}

/// The labels that the start state, the accepting states and the table mention.
pub open spec fn dfa_mentioned_states<V>(start: V, accepting: Seq<V>, rows: Seq<(V, char, V)>) -> Set<V> {
    Set::new(
        |v: V|
            v == start || accepting.contains(v) || exists|r: int|
                0 <= r < rows.len() && ((#[trigger] rows[r]).0 == v || rows[r].2 == v),
    )
}

/// The symbols that the table mentions.
pub open spec fn dfa_mentioned_symbols<V>(rows: Seq<(V, char, V)>) -> Set<char> {
    Set::new(|c: char| exists|r: int| 0 <= r < rows.len() && (#[trigger] rows[r]).1 == c)
}

/// `m` is the DFA with the given parts.
pub open spec fn dfa_of_parts<V>(
    m: DfaModel<V>,
    states: Set<V>,
    alphabet: Set<char>,
    start: V,
    accepting: Set<V>,
    rows: Seq<(V, char, V)>,
) -> bool {
    &&& m.wf()
    &&& m.labels.to_set() == states
    &&& m.alphabet.to_set() == alphabet
    &&& m.labels[m.start] == start
    &&& forall|i: int| 0 <= i < m.n() ==> (m.accepting[i] <==> accepting.contains(#[trigger] m.labels[i]))
    &&& forall|i: int, k: int, r: int|
        0 <= i < m.n() && 0 <= k < m.alphabet.len() && 0 <= r < rows.len() && (#[trigger] rows[r]).0
            == m.labels[i] && rows[r].1 == m.alphabet[k] ==> rows[r].2 == m.labels[#[trigger] m.delta[i][k]]
}

/// The table holds the entry `e`.
pub open spec fn lists_entry<V>(rv: Seq<(V, char, V)>, e: (V, char, V)) -> bool {
    exists|r: int| 0 <= r < rv.len() && rv[r] == e
}

/// `row` gives the successors of state `i` on each symbol, as the table lists them.
pub open spec fn successor_row<V>(lv: Seq<V>, al: Seq<char>, rv: Seq<(V, char, V)>, i: int, row: Seq<int>) -> bool {
    &&& row.len() == al.len()
    &&& forall|k: int| 0 <= k < al.len() ==> 0 <= #[trigger] row[k] < lv.len()
    &&& forall|k: int| 0 <= k < al.len() ==> lists_entry(rv, (lv[i], al[k], lv[#[trigger] row[k]]))
    &&& forall|k: int, r: int|
        0 <= k < al.len() && 0 <= r < rv.len() && (#[trigger] rv[r]).0 == lv[i] && rv[r].1 == al[k] ==> rv[r].2
            == lv[#[trigger] row[k]]
}

/// A DFA whose rows follow the table is the DFA of the parts.
#[verifier::rlimit(60)]
proof fn lemma_rows_describe<V>(
    m: DfaModel<V>,
    states: Set<V>,
    alphabet: Set<char>,
    start: V,
    accepting: Set<V>,
    rv: Seq<(V, char, V)>,
)
    requires
        m.labels.no_duplicates(),
        m.alphabet.no_duplicates(),
        m.labels.to_set() == states,
        m.alphabet.to_set() == alphabet,
        0 <= m.start < m.n(),
        m.labels[m.start] == start,
        m.accepting.len() == m.n(),
        accepting.subset_of(states),
        forall|i: int| 0 <= i < m.n() ==> (m.accepting[i] <==> accepting.contains(#[trigger] m.labels[i])),
        forall|r: int|
            0 <= r < rv.len() ==> {
                let row = #[trigger] rv[r];
                &&& states.contains(row.0)
                &&& alphabet.contains(row.1)
                &&& states.contains(row.2)
            },
        m.delta.len() == m.n(),
        forall|i: int| 0 <= i < m.n() ==> #[trigger] successor_row(m.labels, m.alphabet, rv, i, m.delta[i]),
    ensures
        valid_dfa_parts(states, alphabet, start, accepting, rv),
        dfa_of_parts(m, states, alphabet, start, accepting, rv),
{
    let lv = m.labels;
    let al = m.alphabet;
    assert forall|i: int| 0 <= i < m.n() implies #[trigger] m.delta[i].len() == al.len() by {
        assert(successor_row(lv, al, rv, i, m.delta[i]));
    }
    assert forall|i: int, k: int| 0 <= i < m.n() && 0 <= k < al.len() implies 0 <= #[trigger] m.delta[i][k] < m.n() by {
        assert(successor_row(lv, al, rv, i, m.delta[i]));
    }
    assert(m.wf());
    assert forall|s: V, c: char| states.contains(s) && alphabet.contains(c) implies exists|r: int|
        0 <= r < rv.len() && (#[trigger] rv[r]).0 == s && rv[r].1 == c by {
        let i = choose|i: int| 0 <= i < lv.len() && lv[i] == s;
        let k = choose|k: int| 0 <= k < al.len() && al[k] == c;
        assert(successor_row(lv, al, rv, i, m.delta[i]));
        assert(0 <= m.delta[i][k] < lv.len());
        assert(lists_entry(rv, (lv[i], al[k], lv[m.delta[i][k]])));
        let r = choose|r: int| 0 <= r < rv.len() && rv[r] == (lv[i], al[k], lv[m.delta[i][k]]);
    }
    assert forall|r1: int, r2: int|
        0 <= r1 < rv.len() && 0 <= r2 < rv.len() && (#[trigger] rv[r1]).0 == (#[trigger] rv[r2]).0 && rv[r1].1
            == rv[r2].1 implies rv[r1].2 == rv[r2].2 by {
        assert(states.contains(rv[r1].0) && alphabet.contains(rv[r1].1));
        let i = choose|i: int| 0 <= i < lv.len() && lv[i] == rv[r1].0;
        let k = choose|k: int| 0 <= k < al.len() && al[k] == rv[r1].1;
        assert(successor_row(lv, al, rv, i, m.delta[i]));
        assert(0 <= m.delta[i][k] < lv.len());
    }
    assert forall|i: int, k: int, r: int|
        0 <= i < m.n() && 0 <= k < al.len() && 0 <= r < rv.len() && (#[trigger] rv[r]).0 == lv[i] && rv[r].1
            == al[k] implies rv[r].2 == lv[#[trigger] m.delta[i][k]] by {
        assert(successor_row(lv, al, rv, i, m.delta[i]));
    }
}


/// The successor of state `i` on `c`: `Ok(j)` when the table lists exactly
/// one, `Err(false)` when it lists none, `Err(true)` when it lists two
/// different ones.
fn find_successor<L: StateIdentifier>(labels: &Vec<L>, i: usize, c: char, rows: &Vec<DfaEntry<L>>) -> (r: Result<usize, bool>)
    requires
        views(labels@).no_duplicates(),
        i < labels.len(),
        forall|r2: int| 0 <= r2 < rows.len() ==> views(labels@).contains((#[trigger] entries_view(rows@)[r2]).2),
    ensures
        match r {
            Ok(j) => {
                &&& j < labels.len()
                &&& lists_entry(entries_view(rows@), (views(labels@)[i as int], c, views(labels@)[j as int]))
                &&& forall|r2: int|
                    0 <= r2 < rows.len() && (#[trigger] entries_view(rows@)[r2]).0 == views(labels@)[i as int]
                        && entries_view(rows@)[r2].1 == c ==> entries_view(rows@)[r2].2 == views(labels@)[j as int]
            },
            Err(false) => forall|r2: int| 0 <= r2 < rows.len() ==> !((#[trigger] entries_view(rows@)[r2]).0 == views(labels@)[i as int] && entries_view(rows@)[r2].1 == c),
            Err(true) => exists|r1: int, r2: int|
                0 <= r1 < rows.len() && 0 <= r2 < rows.len() && (#[trigger] entries_view(rows@)[r1]).0 == views(labels@)[i as int]
                    && (#[trigger] entries_view(rows@)[r2]).0 == views(labels@)[i as int] && entries_view(rows@)[r1].1 == c
                    && entries_view(rows@)[r2].1 == c && entries_view(rows@)[r1].2 != entries_view(rows@)[r2].2,
        },
{
    let ghost lv = views(labels@);
    let ghost rv = entries_view(rows@);
    let n = labels.len();
    let mut found: Option<usize> = None;
    let ghost mut witness: int = 0;
    let mut r: usize = 0;
    while r < rows.len()
        invariant
            lv == views(labels@),
            lv.no_duplicates(),
            rv == entries_view(rows@),
            n == labels.len(),
            i < n,
            r <= rv.len(),
            forall|r2: int| 0 <= r2 < rv.len() ==> lv.contains((#[trigger] rv[r2]).2),
            match found {
                None => forall|r2: int| 0 <= r2 < r ==> !((#[trigger] rv[r2]).0 == lv[i as int] && rv[r2].1 == c),
                Some(j) => {
                    &&& j < n
                    &&& 0 <= witness < r
                    &&& rv[witness] == (lv[i as int], c, lv[j as int])
                    &&& forall|r2: int|
                        0 <= r2 < r && (#[trigger] rv[r2]).0 == lv[i as int] && rv[r2].1 == c ==> rv[r2].2 == lv[j as int]
                },
            },
        decreases rv.len() - r,
    {
        let entry = &rows[r];
        proof {
            assert(rv[r as int] == (entry.0@, entry.1, entry.2@));
        }
        if entry.1 == c && entry.0.compare(&labels[i]) == 0 {
            proof {
                assert(lv.contains(rv[r as int].2));
            }
            let j = position(labels, &entry.2).unwrap();
            match found {
                Some(j0) => {
                    if j0 != j {
                        proof {
                            assert(lv[j0 as int] != lv[j as int]);
                            assert(rv[witness].2 != rv[r as int].2);
                        }
                        return Err(true);
                    }
                },
                None => {
                    proof {
                        witness = r as int;
                    }
                    found = Some(j);
                },
            }
        }
        r = r + 1;
    }
    match found {
        None => Err(false),
        Some(j) => Ok(j),
    }
}

/// The successors of state `i`; `None` unless the table gives it a single
/// successor on each symbol.
fn dfa_row<L: StateIdentifier>(labels: &Vec<L>, alphabet: &Vec<char>, i: usize, rows: &Vec<DfaEntry<L>>) -> (r: Option<Vec<usize>>)
    requires
        views(labels@).no_duplicates(),
        i < labels.len(),
        forall|r2: int| 0 <= r2 < rows.len() ==> views(labels@).contains((#[trigger] entries_view(rows@)[r2]).2),
    ensures
        match r {
            Some(row) => successor_row(
                views(labels@),
                alphabet@,
                entries_view(rows@),
                i as int,
                ints(row@),
            ),
            None => !table_single_valued(views(labels@).to_set(), alphabet@.to_set(), entries_view(rows@)),
        },
{
    let ghost lv = views(labels@);
    let ghost rv = entries_view(rows@);
    let ghost al = alphabet@;
    let mut row: Vec<usize> = Vec::new();
    let mut k: usize = 0;
    while k < alphabet.len()
        invariant
            lv == views(labels@),
            lv.no_duplicates(),
            rv == entries_view(rows@),
            al == alphabet@,
            i < labels.len(),
            forall|r2: int| 0 <= r2 < rows.len() ==> lv.contains((#[trigger] rv[r2]).2),
            k <= al.len(),
            row.len() == k,
            forall|k2: int| 0 <= k2 < k ==> #[trigger] row@[k2] < lv.len(),
            forall|k2: int| 0 <= k2 < k ==> lists_entry(rv, (lv[i as int], al[k2], lv[#[trigger] row@[k2] as int])),
            forall|k2: int, r2: int|
                0 <= k2 < k && 0 <= r2 < rv.len() && (#[trigger] rv[r2]).0 == lv[i as int] && rv[r2].1 == al[k2] ==> rv[r2].2
                    == lv[#[trigger] row@[k2] as int],
        decreases al.len() - k,
    {
        match find_successor(labels, i, alphabet[k], rows) {
            Ok(j) => {
                let ghost before = row@;
                row.push(j);
                proof {
                    assert(row@[k as int] == j);
                    assert forall|k2: int| 0 <= k2 < k + 1 implies lists_entry(rv, (lv[i as int], al[k2], lv[#[trigger] row@[k2] as int])) by {
                        if k2 < k {
                            assert(row@[k2] == before[k2]);
                        }
                    }
                }
            },
            Err(conflict) => {
                proof {
                    assert(lv.to_set().contains(lv[i as int]));
                    assert(al.to_set().contains(al[k as int]));
                    if !conflict {
                        assert(!(exists|r2: int| 0 <= r2 < rv.len() && (#[trigger] rv[r2]).0 == lv[i as int] && rv[r2].1 == al[k as int]));
                    } else {
                        let (r1, r2) = choose|r1: int, r2: int|
                            0 <= r1 < rv.len() && 0 <= r2 < rv.len() && (#[trigger] rv[r1]).0 == lv[i as int]
                                && (#[trigger] rv[r2]).0 == lv[i as int] && rv[r1].1 == al[k as int]
                                && rv[r2].1 == al[k as int] && rv[r1].2 != rv[r2].2;
                        assert(rv[r1].0 == rv[r2].0);
                    }
                }
                return None;
            },
        }
        k = k + 1;
    }
    proof {
        let rm = ints(row@);
        assert forall|k2: int| 0 <= k2 < al.len() implies 0 <= #[trigger] rm[k2] < lv.len() by {
            assert(rm[k2] == row@[k2] as int);
        }
        assert forall|k2: int| 0 <= k2 < al.len() implies lists_entry(rv, (lv[i as int], al[k2], lv[#[trigger] rm[k2]])) by {
            assert(rm[k2] == row@[k2] as int);
            assert(lists_entry(rv, (lv[i as int], al[k2], lv[row@[k2] as int])));
        }
        assert forall|k2: int, r2: int| 0 <= k2 < al.len() && 0 <= r2 < rv.len() && (#[trigger] rv[r2]).0 == lv[i as int] && rv[r2].1 == al[k2] implies rv[r2].2
            == lv[#[trigger] rm[k2]] by {
            assert(rm[k2] == row@[k2] as int);
        }
        assert(rm.len() == al.len());
        assert(forall|k: int| 0 <= k < al.len() ==> 0 <= #[trigger] rm[k] < lv.len());
        assert(forall|k: int, r: int|
        0 <= k < al.len() && 0 <= r < rv.len() && (#[trigger] rv[r]).0 == lv[i as int] && rv[r].1 == al[k] ==> rv[r].2
            == lv[#[trigger] rm[k]]);
        assert(successor_row(lv, al, rv, i as int, rm));
    }
    Some(row)
}

/// A deterministic finite automaton over `char` symbols: every state has
/// exactly one successor on each symbol of the alphabet.
pub struct DFA<L: StateIdentifier> {
    labels: Vec<L>,
    alphabet: Vec<char>,
    start: usize,
    accepting: Vec<bool>,
    delta: Vec<Vec<usize>>,
}

impl<L: StateIdentifier> View for DFA<L> {
    type V = DfaModel<L::V>;

    closed spec fn view(&self) -> DfaModel<L::V> {
        DfaModel {
            labels: views(self.labels@),
            alphabet: self.alphabet@,
            start: self.start as int,
            accepting: self.accepting@,
            delta: delta_model(self.delta@),
        }
    }
}

impl<L: StateIdentifier> DFA<L> {
    pub open spec fn wf(&self) -> bool {
        self@.wf()
    }

    proof fn lemma_view_delta(&self, i: int)
        requires
            0 <= i < self.delta.len(),
        ensures
            self@.delta.len() == self.delta.len(),
            self@.delta[i].len() == self.delta@[i].len(),
            forall|k: int| 0 <= k < self.delta@[i].len() ==> #[trigger] self@.delta[i][k] == self.delta@[i]@[k] as int,
    {
    }

    /// Assembles a DFA from its parts.
    pub(crate) fn from_parts(
        labels: Vec<L>,
        alphabet: Vec<char>,
        start: usize,
        accepting: Vec<bool>,
        delta: Vec<Vec<usize>>,
    ) -> (r: Self)
        ensures
            r@ == (DfaModel {
                labels: views(labels@),
                alphabet: alphabet@,
                start: start as int,
                accepting: accepting@,
                delta: delta_model(delta@),
            }),
    {
        DFA { labels, alphabet, start, accepting, delta }
    }

    /// Builds the DFA with the given states, alphabet, start state, accepting
    /// states and transition table. Repeated entries count once. Fails unless
    /// the start and accepting states are states, the table names only states
    /// and symbols of the alphabet, and it gives every state exactly one
    /// successor on every symbol.
    pub fn from_formal(
        states: Vec<L>,
        alphabets: Vec<char>,
        start_state: L,
        accepted_states: Vec<L>,
        transition_map: Vec<DfaEntry<L>>,
    ) -> (r: Result<Self, AutomatonError>)
        ensures
            match r {
                Ok(a) => valid_dfa_parts(
                    views(states@).to_set(),
                    alphabets@.to_set(),
                    start_state@,
                    views(accepted_states@).to_set(),
                    entries_view(transition_map@),
                ) && dfa_of_parts(
                    a@,
                    views(states@).to_set(),
                    alphabets@.to_set(),
                    start_state@,
                    views(accepted_states@).to_set(),
                    entries_view(transition_map@),
                ),
                Err(e) => e == AutomatonError::InvalidAutomaton && !valid_dfa_parts(
                    views(states@).to_set(),
                    alphabets@.to_set(),
                    start_state@,
                    views(accepted_states@).to_set(),
                    entries_view(transition_map@),
                ),
            },
    {
        let ghost sv = views(states@).to_set();
        let ghost rv = entries_view(transition_map@);
        let labels = distinct_labels(&states);
        let alphabet = distinct_symbols(&alphabets);
        let ghost lv = views(labels@);
        let ghost al = alphabet@;
        let n = labels.len();
        let start = match position(&labels, &start_state) {
            Some(i) => i,
            None => {
                return Err(AutomatonError::InvalidAutomaton);
            },
        };
        let accepting = match mark_members(&labels, &accepted_states) {
            Some(b) => b,
            None => {
                return Err(AutomatonError::InvalidAutomaton);
            },
        };
        let mut r: usize = 0;
        while r < transition_map.len()
            invariant
                lv == views(labels@),
                lv.to_set() == sv,
                sv == views(states@).to_set(),
                al == alphabet@,
                al.to_set() == alphabets@.to_set(),
                rv == entries_view(transition_map@),
                r <= transition_map.len(),
                forall|r2: int|
                    0 <= r2 < r ==> {
                        let row = #[trigger] rv[r2];
                        &&& sv.contains(row.0)
                        &&& al.to_set().contains(row.1)
                        &&& sv.contains(row.2)
                    },
            decreases transition_map.len() - r,
        {
            let entry = &transition_map[r];
            proof {
                assert(rv[r as int] == (entry.0@, entry.1, entry.2@));
            }
            if position(&labels, &entry.0).is_none() || symbol_position(&alphabet, entry.1).is_none()
                || position(&labels, &entry.2).is_none() {
                return Err(AutomatonError::InvalidAutomaton);
            }
            r = r + 1;
        }
        let mut delta: Vec<Vec<usize>> = Vec::new();
        let mut i: usize = 0;
        while i < n
            invariant
                lv == views(labels@),
                lv.no_duplicates(),
                lv.to_set() == sv,
                sv == views(states@).to_set(),
                al == alphabet@,
                al.to_set() == alphabets@.to_set(),
                rv == entries_view(transition_map@),
                n == labels.len(),
                i <= n,
                delta.len() == i,
                forall|r2: int|
                    0 <= r2 < rv.len() ==> {
                        let row = #[trigger] rv[r2];
                        &&& sv.contains(row.0)
                        &&& al.to_set().contains(row.1)
                        &&& sv.contains(row.2)
                    },
                forall|i2: int| 0 <= i2 < i ==> #[trigger] successor_row(lv, al, rv, i2, delta_model(delta@)[i2]),
            decreases n - i,
        {
            match dfa_row(&labels, &alphabet, i, &transition_map) {
                Some(row) => {
                    let ghost before = delta@;
                    delta.push(row);
                    proof {
                        assert(delta_model(delta@) =~= delta_model(before).push(ints(row@)));
                    }
                },
                None => {
                    return Err(AutomatonError::InvalidAutomaton);
                },
            }
            i = i + 1;
        }
        let a = DFA { labels, alphabet, start, accepting, delta };
        proof {
            lemma_rows_describe(a@, sv, alphabets@.to_set(), start_state@, views(accepted_states@).to_set(), rv);
        }
        Ok(a)
    }

    /// Builds the DFA whose states are the start state, the accepting states
    /// and every label that the table mentions, and whose alphabet is every
    /// symbol that the table mentions. Fails as `from_formal` does, in
    /// particular when the table leaves a state without a successor on a symbol.
    pub fn from_map(start_state: L, accepted_states: Vec<L>, transition_map: Vec<DfaEntry<L>>) -> (r: Result<
        Self,
        AutomatonError,
    >)
        ensures
            match r {
                Ok(a) => valid_dfa_parts(
                    dfa_mentioned_states(start_state@, views(accepted_states@), entries_view(transition_map@)),
                    dfa_mentioned_symbols(entries_view(transition_map@)),
                    start_state@,
                    views(accepted_states@).to_set(),
                    entries_view(transition_map@),
                ) && dfa_of_parts(
                    a@,
                    dfa_mentioned_states(start_state@, views(accepted_states@), entries_view(transition_map@)),
                    dfa_mentioned_symbols(entries_view(transition_map@)),
                    start_state@,
                    views(accepted_states@).to_set(),
                    entries_view(transition_map@),
                ),
                Err(e) => e == AutomatonError::InvalidAutomaton && !valid_dfa_parts(
                    dfa_mentioned_states(start_state@, views(accepted_states@), entries_view(transition_map@)),
                    dfa_mentioned_symbols(entries_view(transition_map@)),
                    start_state@,
                    views(accepted_states@).to_set(),
                    entries_view(transition_map@),
                ),
            },
    {
        let ghost av = views(accepted_states@);
        let ghost rv = entries_view(transition_map@);
        let mut states: Vec<L> = Vec::new();
        let first = start_state.duplicate();
        proof {
            lemma_push_contains(views(states@), first@);
            assert(views(states@.push(first)) =~= views(states@).push(first@));
            assert(av.subrange(0, 0) =~= Seq::<L::V>::empty());
        }
        states.push(first);
        let mut k: usize = 0;
        while k < accepted_states.len()
            invariant
                av == views(accepted_states@),
                k <= accepted_states.len(),
                forall|x: L::V| #[trigger] views(states@).contains(x) <==> (x == start_state@ || av.subrange(0, k as int).contains(x)),
            decreases accepted_states.len() - k,
        {
            let x = accepted_states[k].duplicate();
            proof {
                lemma_push_contains(views(states@), x@);
                assert(views(states@.push(x)) =~= views(states@).push(x@));
                lemma_push_contains(av.subrange(0, k as int), av[k as int]);
                assert(av.subrange(0, k + 1) =~= av.subrange(0, k as int).push(av[k as int]));
            }
            states.push(x);
            k = k + 1;
        }
        proof {
            assert(av.subrange(0, k as int) =~= av);
        }
        let mut symbols: Vec<char> = Vec::new();
        let mut r: usize = 0;
        while r < transition_map.len()
            invariant
                av == views(accepted_states@),
                rv == entries_view(transition_map@),
                r <= transition_map.len(),
                forall|x: L::V| #[trigger] views(states@).contains(x) <==> (x == start_state@ || av.contains(x) || exists|r2: int|
                    0 <= r2 < r && ((#[trigger] rv[r2]).0 == x || rv[r2].2 == x)),
                forall|c: char| #[trigger] symbols@.contains(c) <==> exists|r2: int| 0 <= r2 < r && (#[trigger] rv[r2]).1 == c,
            decreases transition_map.len() - r,
        {
            let entry = &transition_map[r];
            proof {
                assert(rv[r as int] == (entry.0@, entry.1, entry.2@));
            }
            let x = entry.0.duplicate();
            let y = entry.2.duplicate();
            proof {
                lemma_push_contains(views(states@), x@);
                assert(views(states@.push(x)) =~= views(states@).push(x@));
                lemma_push_contains(views(states@).push(x@), y@);
                assert(views(states@.push(x).push(y)) =~= views(states@).push(x@).push(y@));
                lemma_push_contains(symbols@, entry.1);
            }
            states.push(x);
            states.push(y);
            symbols.push(entry.1);
            proof {
                assert forall|x2: L::V| #[trigger] views(states@).contains(x2) <==> (x2 == start_state@ || av.contains(x2) || exists|r2: int|
                    0 <= r2 < r + 1 && ((#[trigger] rv[r2]).0 == x2 || rv[r2].2 == x2)) by {
                    if exists|r2: int| 0 <= r2 < r + 1 && ((#[trigger] rv[r2]).0 == x2 || rv[r2].2 == x2) {
                        let r2 = choose|r2: int| 0 <= r2 < r + 1 && ((#[trigger] rv[r2]).0 == x2 || rv[r2].2 == x2);
                        if r2 < r {
                        }
                    }
                }
                assert forall|c: char| #[trigger] symbols@.contains(c) <==> exists|r2: int| 0 <= r2 < r + 1 && (#[trigger] rv[r2]).1 == c by {
                    if exists|r2: int| 0 <= r2 < r + 1 && (#[trigger] rv[r2]).1 == c {
                        let r2 = choose|r2: int| 0 <= r2 < r + 1 && (#[trigger] rv[r2]).1 == c;
                        if r2 < r {
                        }
                    }
                }
            }
            r = r + 1;
        }
        proof {
            assert(views(states@).to_set() =~= dfa_mentioned_states(start_state@, av, rv));
            assert(symbols@.to_set() =~= dfa_mentioned_symbols(rv));
        }
        Self::from_formal(states, symbols, start_state, accepted_states, transition_map)
    }

    /// The state reached by reading `word` from the start state, if every
    /// symbol of `word` is in the alphabet.
    fn run(&self, word: &[char]) -> (r: Option<usize>)
        requires
            self.wf(),
        ensures
            match r {
                Some(j) => self@.run_from(self@.start, word@) == Some(j as int) && j < self@.n(),
                None => self@.run_from(self@.start, word@) is None,
            },
    {
        let ghost m = self@;
        let mut cur = self.start;
        let mut i: usize = 0;
        proof {
            assert(word@.skip(0) =~= word@);
        }
        while i < word.len()
            invariant
                m == self@,
                m.wf(),
                cur < m.n(),
                i <= word.len(),
                m.run_from(m.start, word@) == m.run_from(cur as int, word@.skip(i as int)),
            decreases word.len() - i,
        {
            let c = word[i];
            proof {
                let w = word@.skip(i as int);
                assert(w[0] == c);
                assert(w.drop_first() =~= word@.skip(i + 1));
            }
            match symbol_position(&self.alphabet, c) {
                None => {
                    return None;
                },
                Some(k) => {
                    proof {
                        lemma_next_in_range(m, cur as int, c);
                        assert(m.alphabet.index_of(c) == k);
                        self.lemma_view_delta(cur as int);
                    }
                    cur = self.delta[cur][k];
                },
            }
            i = i + 1;
        }
        proof {
            assert(word@.skip(i as int).len() == 0);
        }
        Some(cur)
    }

    /// Whether the automaton accepts `word`.
    pub fn accept(&self, word: &[char]) -> (r: bool)
        requires
            self.wf(),
        ensures
            r == self@.accepts(word@),
    {
        match self.run(word) {
            Some(j) => self.accepting[j],
            None => false,
        }
    }

    /// The successor of the state labelled `state` on `symbol`: one state,
    /// or none for ε, a symbol outside the alphabet or a label of no state.
    pub fn transition(&self, state: &L, symbol: Option<char>) -> (r: CommunicativeHashSet<L>)
        requires
            self.wf(),
        ensures
            r.wf(),
            (symbol matches Some(c) && self@.labels.contains(state@) && self@.alphabet.contains(c)) ==> r.member_set()
                == set![self@.labels[self@.next(self@.labels.index_of(state@), symbol->Some_0)]],
            !(symbol matches Some(c) && self@.labels.contains(state@) && self@.alphabet.contains(c)) ==> r.member_set()
                == Set::<L::V>::empty(),
    {
        let ghost m = self@;
        let mut v: Vec<L> = Vec::new();
        if let Some(c) = symbol {
            if let Some(i) = position(&self.labels, state) {
                if let Some(k) = symbol_position(&self.alphabet, c) {
                    proof {
                        assert(m.labels.index_of(state@) == i);
                        lemma_next_in_range(m, i as int, c);
                        assert(m.alphabet.index_of(c) == k);
                        self.lemma_view_delta(i as int);
                    }
                    let t = self.labels[self.delta[i][k]].duplicate();
                    v.push(t);
                    proof {
                        assert(views(v@) =~= seq![t@]);
                        assert(seq![t@].to_set() =~= set![t@]) by {
                            assert(seq![t@][0] == t@);
                        }
                    }
                }
            }
        }
        proof {
            if v.len() == 0 {
                assert(views(v@).to_set() =~= Set::<L::V>::empty());
            }
        }
        CommunicativeHashSet::from(v)
    }

    /// Always true: every state has exactly one successor on each symbol.
    pub fn is_deterministic(&self) -> (r: bool)
        requires
            self.wf(),
        ensures
            r == self@.deterministic(),
            r,
    {
        proof {
            lemma_wf_deterministic(self@);
        }
        true
    }

    /// The labels of the states.
    pub fn states(&self) -> (r: &Vec<L>)
        ensures
            views(r@) == self@.labels,
    {
        &self.labels
    }

    pub fn alphabets(&self) -> (r: &Vec<char>)
        ensures
            r@ == self@.alphabet,
    {
        &self.alphabet
    }

    pub fn start_state(&self) -> (r: L)
        requires
            self.wf(),
        ensures
            r@ == self@.labels[self@.start],
    {
        self.labels[self.start].duplicate()
    }

    /// The labels of the accepting states.
    pub fn accepted_states(&self) -> (r: CommunicativeHashSet<L>)
        requires
            self.wf(),
        ensures
            r.wf(),
            r.member_set() == Set::new(
                |v: L::V| exists|i: int| 0 <= i < self@.n() && self@.accepting[i] && self@.labels[i] == v,
            ),
    {
        let ghost m = self@;
        let mut chosen: Vec<L> = Vec::new();
        let mut i: usize = 0;
        while i < self.labels.len()
            invariant
                m == self@,
                m.wf(),
                i <= m.n(),
                forall|x: L::V|
                    #[trigger] views(chosen@).to_set().contains(x) <==> exists|p: int|
                        0 <= p < i && m.accepting[p] && m.labels[p] == x,
            decreases self.labels.len() - i,
        {
            let ghost before = views(chosen@);
            if self.accepting[i] {
                let l = self.labels[i].duplicate();
                proof {
                    lemma_push_to_set(views(chosen@), l@);
                    assert(views(chosen@.push(l)) =~= views(chosen@).push(l@));
                }
                chosen.push(l);
            }
            proof {
                assert forall|x: L::V|
                    #[trigger] views(chosen@).to_set().contains(x) <==> exists|p: int|
                        0 <= p < i + 1 && m.accepting[p] && m.labels[p] == x by {
                    if exists|p: int| 0 <= p < i + 1 && m.accepting[p] && m.labels[p] == x {
                        let p = choose|p: int| 0 <= p < i + 1 && m.accepting[p] && m.labels[p] == x;
                        if p < i {
                            assert(before.to_set().contains(x));
                        }
                    }
                    if before.to_set().contains(x) {
                        let p = choose|p: int| 0 <= p < i && m.accepting[p] && m.labels[p] == x;
                    }
                }
            }
            i = i + 1;
        }
        let r = CommunicativeHashSet::from(chosen);
        proof {
            assert(r.member_set() =~= Set::new(
                |v: L::V| exists|i: int| 0 <= i < m.n() && m.accepting[i] && m.labels[i] == v,
            ));
        }
        r
    }
}

fn same_entries(a: &Vec<usize>, b: &Vec<usize>) -> (r: bool)
    ensures
        r == (a@ == b@),
{
    if a.len() != b.len() {
        return false;
    }
    let mut i: usize = 0;
    while i < a.len()
        invariant
            a.len() == b.len(),
            i <= a.len(),
            forall|k: int| 0 <= k < i ==> a@[k] == b@[k],
        decreases a.len() - i,
    {
        if a[i] != b[i] {
            return false;
        }
        i = i + 1;
    }
    assert(a@ =~= b@);
    true
}

fn find_entries(all: &Vec<Vec<usize>>, b: &Vec<usize>) -> (r: Option<usize>)
    ensures
        match r {
            Some(j) => j < all.len() && all@[j as int]@ == b@,
            None => forall|j: int| 0 <= j < all.len() ==> all@[j]@ != b@,
        },
{
    let mut j: usize = 0;
    while j < all.len()
        invariant
            j <= all.len(),
            forall|k: int| 0 <= k < j ==> all@[k]@ != b@,
        decreases all.len() - j,
    {
        if same_entries(&all[j], b) {
            return Some(j);
        }
        j = j + 1;
    }
    None
}

proof fn lemma_ints_injective(a: Seq<usize>, b: Seq<usize>)
    requires
        ints(a) == ints(b),
    ensures
        a == b,
{
    assert(a.len() == ints(a).len());
    assert(b.len() == ints(b).len());
    assert forall|i: int| 0 <= i < a.len() implies a[i] == b[i] by {
        assert(ints(a)[i] == ints(b)[i]);
        assert(ints(a)[i] == a[i] as int);
        assert(ints(b)[i] == b[i] as int);
    }
    assert(a =~= b);
}

/// A state of class `c`.
fn member_of(class: &Vec<usize>, c: usize) -> (r: usize)
    requires
        used(ints(class@), c as int),
    ensures
        r < class.len(),
        class@[r as int] == c,
{
    let mut s: usize = 0;
    while s < class.len()
        invariant
            used(ints(class@), c as int),
            s <= class.len(),
            forall|t: int| 0 <= t < s ==> class@[t] != c,
        decreases class.len() - s,
    {
        if class[s] == c {
            return s;
        }
        s = s + 1;
    }
    proof {
        let t = choose|t: int| 0 <= t < ints(class@).len() && ints(class@)[t] == c;
        assert(class@[t] == c);
    }
    0
}

impl<L: StateIdentifier> DFA<L> {
    /// The signature of state `s` under `class`.
    fn signature_of(&self, class: &Vec<usize>, s: usize) -> (r: Vec<usize>)
        requires
            self.wf(),
            class.len() == self@.n(),
            s < self@.n(),
        ensures
            ints(r@) == self@.signature(ints(class@), s as int),
    {
        let ghost m = self@;
        let ghost cl = ints(class@);
        let mut v: Vec<usize> = Vec::new();
        v.push(class[s]);
        v.push(if self.accepting[s] { 1 } else { 0 });
        let row = &self.delta[s];
        proof {
            self.lemma_view_delta(s as int);
        }
        let mut k: usize = 0;
        while k < row.len()
            invariant
                m == self@,
                m.wf(),
                cl == ints(class@),
                class.len() == m.n(),
                s < m.n(),
                row == self.delta@[s as int],
                row.len() == m.alphabet.len(),
                forall|j: int| 0 <= j < row.len() ==> #[trigger] m.delta[s as int][j] == row@[j] as int,
                k <= row.len(),
                ints(v@) == seq![cl[s as int], if m.accepting[s as int] { 1int } else { 0int }] + Seq::new(
                    k as nat,
                    |j: int| cl[m.delta[s as int][j]],
                ),
            decreases row.len() - k,
        {
            proof {
                assert(0 <= m.delta[s as int][k as int] < m.n());
            }
            let t = row[k];
            let ghost before = v@;
            v.push(class[t]);
            proof {
                assert(ints(v@) =~= seq![cl[s as int], if m.accepting[s as int] { 1int } else { 0int }] + Seq::new(
                    (k + 1) as nat,
                    |j: int| cl[m.delta[s as int][j]],
                )) by {
                    assert(ints(v@) =~= ints(before).push(class@[t as int] as int));
                }
            }
            k = k + 1;
        }
        v
    }

    /// Splits each class by signature: two states share a new class exactly
    /// when their signatures agree. Returns the new classes and their number.
    fn refine(&self, class: &Vec<usize>, k: usize) -> (r: (Vec<usize>, usize))
        requires
            self.wf(),
            class.len() == self@.n(),
        ensures
            r.0.len() == class.len(),
            partition(ints(r.0@), r.1 as int),
            r.1 <= class.len(),
            forall|s1: int, s2: int|
                0 <= s1 < class.len() && 0 <= s2 < class.len() ==> (r.0@[s1] == r.0@[s2] <==> #[trigger] self@.signature(
                    ints(class@),
                    s1,
                ) == #[trigger] self@.signature(ints(class@), s2)),
    {
        let ghost m = self@;
        let ghost cl = ints(class@);
        let n = class.len();
        let mut sigs: Vec<Vec<usize>> = Vec::new();
        let mut next: Vec<usize> = Vec::new();
        let mut s: usize = 0;
        while s < n
            invariant
                m == self@,
                m.wf(),
                cl == ints(class@),
                n == class.len(),
                n == m.n(),
                s <= n,
                next.len() == s,
                sigs.len() <= s,
                forall|t: int| 0 <= t < s ==> (#[trigger] next@[t]) < sigs.len() && ints(sigs@[next@[t] as int]@) == m.signature(cl, t),
                forall|j: int| 0 <= j < sigs.len() ==> #[trigger] used(ints(next@), j),
                forall|a: int, b: int| 0 <= a < b < sigs.len() ==> (#[trigger] sigs@[a])@ != (#[trigger] sigs@[b])@,
            decreases n - s,
        {
            let g = self.signature_of(class, s);
            let ghost old_next = next@;
            match find_entries(&sigs, &g) {
                Some(j) => {
                    next.push(j);
                    proof {
                        assert forall|j2: int| 0 <= j2 < sigs.len() implies #[trigger] used(ints(next@), j2) by {
                            assert(used(ints(old_next), j2));
                            let t = choose|t: int| 0 <= t < ints(old_next).len() && ints(old_next)[t] == j2;
                            assert(ints(next@)[t] == j2);
                        }
                    }
                },
                None => {
                    let ghost old_sigs = sigs@;
                    sigs.push(g);
                    next.push(sigs.len() - 1);
                    proof {
                        assert forall|j2: int| 0 <= j2 < sigs.len() implies #[trigger] used(ints(next@), j2) by {
                            if j2 < old_sigs.len() {
                                assert(used(ints(old_next), j2));
                                let t = choose|t: int| 0 <= t < ints(old_next).len() && ints(old_next)[t] == j2;
                                assert(ints(next@)[t] == j2);
                            } else {
                                assert(ints(next@)[s as int] == j2);
                            }
                        }
                        assert forall|a: int, b: int| 0 <= a < b < sigs.len() implies (#[trigger] sigs@[a])@ != (#[trigger] sigs@[b])@ by {
                            if b == old_sigs.len() {
                                assert(old_sigs[a]@ != g@);
                            }
                        }
                    }
                },
            }
            s = s + 1;
        }
        proof {
            assert forall|t: int| 0 <= t < n implies 0 <= #[trigger] ints(next@)[t] < sigs.len() by {}
            assert forall|s1: int, s2: int|
                0 <= s1 < n && 0 <= s2 < n implies (next@[s1] == next@[s2] <==> #[trigger] m.signature(cl, s1)
                    == #[trigger] m.signature(cl, s2)) by {
                if m.signature(cl, s1) == m.signature(cl, s2) {
                    let a = next@[s1] as int;
                    let b = next@[s2] as int;
                    lemma_ints_injective(sigs@[a]@, sigs@[b]@);
                }
            }
        }
        (next, sigs.len())
    }

    /// The minimal equivalent DFA, by partition refinement: each of its
    /// states stands for a class of states of this automaton that accept the
    /// same words, and is labelled by their labels.
    pub fn minimized(&self) -> (r: DFA<CommunicativeHashSet<L>>)
        requires
            self.wf(),
        ensures
            r.wf(),
            self@.minimisation(r@),
    {
        let ghost m = self@;
        let n = self.labels.len();
        let mut class: Vec<usize> = Vec::new();
        let mut s: usize = 0;
        while s < n
            invariant
                s <= n,
                class.len() == s,
                forall|t: int| 0 <= t < s ==> class@[t] == 0,
            decreases n - s,
        {
            class.push(0);
            s = s + 1;
        }
        let mut k: usize = 1;
        proof {
            assert(used(ints(class@), 0)) by {
                assert(ints(class@)[0] == 0);
            }
        }
        loop
            invariant
                m == self@,
                m.wf(),
                n == m.n(),
                class.len() == n,
                1 <= k <= n,
                partition(ints(class@), k as int),
                m.separates(ints(class@)),
            ensures
                class.len() == n,
                1 <= k <= n,
                partition(ints(class@), k as int),
                m.separates(ints(class@)),
                m.stable(ints(class@)),
            decreases n - k,
        {
            let (next, nk) = self.refine(&class, k);
            proof {
                let cl = ints(class@);
                let nx = ints(next@);
                assert forall|s1: int, s2: int| 0 <= s1 < n && 0 <= s2 < n && #[trigger] nx[s1] == #[trigger] nx[s2] implies cl[s1] == cl[s2] by {
                    assert(m.signature(cl, s1)[0] == m.signature(cl, s2)[0]);
                }
                lemma_refine_count(cl, nx, k as int, nk as int);
                assert forall|s1: int, s2: int|
                    0 <= s1 < n && 0 <= s2 < n implies (nx[s1] == nx[s2] <==> #[trigger] m.signature(cl, s1) == #[trigger] m.signature(cl, s2)) by {
                    assert(nx[s1] == next@[s1] as int);
                    assert(nx[s2] == next@[s2] as int);
                }
                lemma_refine_separates(m, cl, nx);
                if nk == k {
                    assert forall|s1: int, s2: int|
                        0 <= s1 < n && 0 <= s2 < n && cl[s1] == cl[s2] implies #[trigger] m.signature(cl, s1) == #[trigger] m.signature(cl, s2) by {
                        assert(nx[s1] == nx[s2]);
                    }
                }
            }
            if nk == k {
                break;
            }
            class = next;
            k = nk;
        }
        let ghost cl = ints(class@);
        let mut rep: Vec<usize> = Vec::new();
        let mut labels: Vec<CommunicativeHashSet<L>> = Vec::new();
        let mut accepting: Vec<bool> = Vec::new();
        let mut delta: Vec<Vec<usize>> = Vec::new();
        let mut c: usize = 0;
        while c < k
            invariant
                m == self@,
                m.wf(),
                n == m.n(),
                class.len() == n,
                cl == ints(class@),
                1 <= k <= n,
                partition(cl, k as int),
                c <= k,
                rep.len() == c,
                labels.len() == c,
                accepting.len() == c,
                delta.len() == c,
                forall|c2: int| 0 <= c2 < c ==> (#[trigger] rep@[c2]) < n && class@[rep@[c2] as int] == c2,
                forall|c2: int| 0 <= c2 < c ==> #[trigger] accepting@[c2] == m.accepting[rep@[c2] as int],
                forall|c2: int| 0 <= c2 < c ==> (#[trigger] delta@[c2]).len() == m.alphabet.len(),
                forall|c2: int, j: int|
                    0 <= c2 < c && 0 <= j < m.alphabet.len() ==> #[trigger] delta@[c2]@[j] as int == cl[m.delta[rep@[c2] as int][j]],
                forall|c2: int| 0 <= c2 < c ==> (#[trigger] labels@[c2]).wf() && labels@[c2]@.to_set() == class_labels(m, cl, c2),
            decreases k - c,
        {
            let r = member_of(&class, c);
            rep.push(r);
            accepting.push(self.accepting[r]);
            let row = &self.delta[r];
            proof {
                self.lemma_view_delta(r as int);
            }
            let mut drow: Vec<usize> = Vec::new();
            let mut j: usize = 0;
            while j < row.len()
                invariant
                    m == self@,
                    m.wf(),
                    class.len() == n,
                    cl == ints(class@),
                    n == m.n(),
                    r < n,
                    row == self.delta@[r as int],
                    row.len() == m.alphabet.len(),
                    forall|j2: int| 0 <= j2 < row.len() ==> #[trigger] m.delta[r as int][j2] == row@[j2] as int,
                    j <= row.len(),
                    drow.len() == j,
                    forall|j2: int| 0 <= j2 < j ==> #[trigger] drow@[j2] as int == cl[m.delta[r as int][j2]],
                decreases row.len() - j,
            {
                proof {
                    assert(0 <= m.delta[r as int][j as int] < m.n());
                }
                drow.push(class[row[j]]);
                j = j + 1;
            }
            delta.push(drow);
            let mut members: Vec<L> = Vec::new();
            let mut t: usize = 0;
            while t < n
                invariant
                    m == self@,
                    m.wf(),
                    class.len() == n,
                    cl == ints(class@),
                    n == m.n(),
                    t <= n,
                    forall|v: L::V|
                        #[trigger] views(members@).to_set().contains(v) <==> exists|t2: int|
                            0 <= t2 < t && cl[t2] == c && m.labels[t2] == v,
                decreases n - t,
            {
                let ghost before = views(members@);
                if class[t] == c {
                    let x = self.labels[t].duplicate();
                    proof {
                        lemma_push_to_set(views(members@), x@);
                        assert(views(members@.push(x)) =~= views(members@).push(x@));
                        assert(m.labels[t as int] == x@);
                    }
                    members.push(x);
                }
                proof {
                    assert(cl[t as int] == class@[t as int] as int);
                    assert forall|v: L::V|
                        #[trigger] views(members@).to_set().contains(v) <==> exists|t2: int|
                            0 <= t2 < t + 1 && cl[t2] == c && m.labels[t2] == v by {
                        if exists|t2: int| 0 <= t2 < t + 1 && cl[t2] == c && m.labels[t2] == v {
                            let t2 = choose|t2: int| 0 <= t2 < t + 1 && cl[t2] == c && m.labels[t2] == v;
                            if t2 < t {
                                assert(before.to_set().contains(v));
                            }
                        }
                        if before.to_set().contains(v) {
                            let t2 = choose|t2: int| 0 <= t2 < t && cl[t2] == c && m.labels[t2] == v;
                        }
                    }
                }
                t = t + 1;
            }
            let set = CommunicativeHashSet::from(members);
            proof {
                assert(set@.to_set() =~= class_labels(m, cl, c as int));
            }
            labels.push(set);
            c = c + 1;
        }
        let alphabet = copy_symbols(&self.alphabet);
        let start = class[self.start];
        let ghost lab = labels@;
        let ghost dl = delta@;
        let q = DFA::from_parts(labels, alphabet, start, accepting, delta);
        proof {
            let qm = q@;
            let rp = ints(rep@);
            assert forall|c2: int| 0 <= c2 < k implies 0 <= #[trigger] rp[c2] < m.n() && cl[rp[c2]] == c2 by {}
            assert forall|c2: int| 0 <= c2 < k implies (#[trigger] qm.labels[c2]).to_set() == class_labels(m, cl, c2) by {
                assert(qm.labels[c2] == lab[c2]@);
            }
            assert forall|c2: int| 0 <= c2 < k implies #[trigger] qm.delta[c2].len() == m.alphabet.len() by {
                assert(qm.delta[c2] == ints(dl[c2]@));
            }
            assert forall|c2: int, j: int| 0 <= c2 < k && 0 <= j < m.alphabet.len() implies #[trigger] qm.delta[c2][j] == cl[m.delta[rp[c2]][j]] by {
                assert(qm.delta[c2] == ints(dl[c2]@));
            }
            assert forall|c2: int| 0 <= c2 < k implies #[trigger] qm.accepting[c2] == m.accepting[rp[c2]] by {}
            assert(quotient(m, cl, k as int, rp, qm));
            lemma_quotient_minimisation(m, cl, k as int, rp, qm);
        }
        q
    }
}

impl<L: StateIdentifier> DFA<L> {
    /// The states for rendering: index, label and whether it accepts.
    pub fn nodes(&self) -> (r: Vec<(usize, L, bool)>)
        requires
            self.wf(),
        ensures
            r.len() == self@.n(),
            forall|i: int|
                0 <= i < r.len() ==> (#[trigger] r@[i]).0 == i && r@[i].1@ == self@.labels[i] && r@[i].2
                    == self@.accepting[i],
    {
        let ghost m = self@;
        let mut r: Vec<(usize, L, bool)> = Vec::new();
        let mut i: usize = 0;
        while i < self.labels.len()
            invariant
                m == self@,
                m.wf(),
                i <= m.n(),
                r.len() == i,
                forall|j: int|
                    0 <= j < i ==> (#[trigger] r@[j]).0 == j && r@[j].1@ == m.labels[j] && r@[j].2 == m.accepting[j],
            decreases self.labels.len() - i,
        {
            r.push((i, self.labels[i].duplicate(), self.accepting[i]));
            i = i + 1;
        }
        r
    }

    /// The moves for rendering: source index, target index and symbol, each
    /// move once.
    pub fn edges(&self) -> (r: Vec<(usize, usize, char)>)
        requires
            self.wf(),
        ensures
            r@.no_duplicates(),
            forall|e: (usize, usize, char)|
                #[trigger] r@.contains(e) <==> (e.0 < self@.n() && self@.alphabet.contains(e.2) && e.1 == self@.next(
                    e.0 as int,
                    e.2,
                )),
    {
        let ghost m = self@;
        let mut r: Vec<(usize, usize, char)> = Vec::new();
        let mut i: usize = 0;
        while i < self.labels.len()
            invariant
                m == self@,
                m.wf(),
                i <= m.n(),
                r@.no_duplicates(),
                forall|e: (usize, usize, char)|
                    #[trigger] r@.contains(e) <==> (e.0 < i && m.alphabet.contains(e.2) && e.1 == m.next(e.0 as int, e.2)),
            decreases self.labels.len() - i,
        {
            let row = &self.delta[i];
            proof {
                self.lemma_view_delta(i as int);
            }
            let mut k: usize = 0;
            while k < row.len()
                invariant
                    m == self@,
                    m.wf(),
                    i < m.n(),
                    row == self.delta@[i as int],
                    row.len() == m.alphabet.len(),
                    forall|j: int| 0 <= j < row.len() ==> #[trigger] m.delta[i as int][j] == row@[j] as int,
                    k <= row.len(),
                    r@.no_duplicates(),
                    forall|e: (usize, usize, char)|
                        #[trigger] r@.contains(e) <==> ((e.0 < i && m.alphabet.contains(e.2) && e.1 == m.next(e.0 as int, e.2))
                            || (e.0 == i && exists|q: int| 0 <= q < k && m.alphabet[q] == e.2 && e.1 == #[trigger] m.delta[i as int][q])),
                decreases row.len() - k,
            {
                let e = (i, row[k], self.alphabet[k]);
                let ghost before = r@;
                proof {
                    lemma_push_contains(before, e);
                    if before.contains(e) {
                        let q = choose|q: int| 0 <= q < k && m.alphabet[q] == e.2 && e.1 == #[trigger] m.delta[i as int][q];
                        assert(m.alphabet[q] == m.alphabet[k as int]);
                    }
                }
                r.push(e);
                proof {
                    assert forall|a: int, b: int| 0 <= a < b < r.len() implies r@[a] != r@[b] by {
                        if b == before.len() {
                            assert(before.contains(before[a]));
                        }
                    }
                    assert forall|e2: (usize, usize, char)|
                        #[trigger] r@.contains(e2) <==> ((e2.0 < i && m.alphabet.contains(e2.2) && e2.1 == m.next(e2.0 as int, e2.2))
                            || (e2.0 == i && exists|q: int| 0 <= q < k + 1 && m.alphabet[q] == e2.2 && e2.1 == #[trigger] m.delta[i as int][q])) by {
                        if e2.0 == i && exists|q: int| 0 <= q < k + 1 && m.alphabet[q] == e2.2 && e2.1 == #[trigger] m.delta[i as int][q] {
                            let q = choose|q: int| 0 <= q < k + 1 && m.alphabet[q] == e2.2 && e2.1 == #[trigger] m.delta[i as int][q];
                            if q < k {
                                assert(before.contains(e2));
                            }
                        }
                        if e2 == e {
                            assert(m.delta[i as int][k as int] == row@[k as int] as int);
                        }
                    }
                }
                k = k + 1;
            }
            proof {
                assert forall|e2: (usize, usize, char)|
                    #[trigger] r@.contains(e2) <==> (e2.0 < i + 1 && m.alphabet.contains(e2.2) && e2.1 == m.next(e2.0 as int, e2.2)) by {
                    if e2.0 == i && m.alphabet.contains(e2.2) {
                        lemma_next_in_range(m, i as int, e2.2);
                        let q = m.alphabet.index_of(e2.2);
                        if e2.1 == m.next(e2.0 as int, e2.2) {
                            assert(m.delta[i as int][q] == m.next(i as int, e2.2));
                        }
                    }
                    if e2.0 == i && exists|q: int| 0 <= q < m.alphabet.len() && m.alphabet[q] == e2.2 && e2.1 == #[trigger] m.delta[i as int][q] {
                        let q = choose|q: int| 0 <= q < m.alphabet.len() && m.alphabet[q] == e2.2 && e2.1 == #[trigger] m.delta[i as int][q];
                        assert(m.alphabet.contains(e2.2));
                        lemma_next_in_range(m, i as int, e2.2);
                        assert(m.alphabet.index_of(e2.2) == q);
                    }
                }
            }
            i = i + 1;
        }
        r
    }
}

impl<L: StateIdentifier> DFA<L> {
    /// The same automaton with each state labelled by the one-member set of
    /// its label.
    pub fn to_dfa(&self) -> (r: DFA<CommunicativeHashSet<L>>)
        requires
            self.wf(),
        ensures
            r.wf(),
            r@.alphabet == self@.alphabet,
            r@.start == self@.start,
            r@.accepting == self@.accepting,
            r@.delta == self@.delta,
            r@.labels.len() == self@.labels.len(),
            forall|i: int| 0 <= i < self@.n() ==> (#[trigger] r@.labels[i]).to_set() == set![self@.labels[i]],
            forall|w: Seq<char>| #[trigger] r@.accepts(w) == self@.accepts(w),
    {
        let ghost m = self@;
        let mut labels: Vec<CommunicativeHashSet<L>> = Vec::new();
        let mut accepting: Vec<bool> = Vec::new();
        let mut delta: Vec<Vec<usize>> = Vec::new();
        let mut i: usize = 0;
        while i < self.labels.len()
            invariant
                m == self@,
                m.wf(),
                i <= m.n(),
                labels.len() == i,
                accepting.len() == i,
                delta.len() == i,
                forall|j: int| 0 <= j < i ==> (#[trigger] labels@[j])@.to_set() == set![m.labels[j]],
                forall|j: int| 0 <= j < i ==> #[trigger] accepting@[j] == m.accepting[j],
                forall|j: int| 0 <= j < i ==> #[trigger] ints(delta@[j]@) == m.delta[j],
            decreases self.labels.len() - i,
        {
            let mut one: Vec<L> = Vec::new();
            one.push(self.labels[i].duplicate());
            let set = CommunicativeHashSet::from(one);
            proof {
                assert(views(one@) =~= seq![m.labels[i as int]]);
                assert(seq![m.labels[i as int]].to_set() =~= set![m.labels[i as int]]) by {
                    assert(seq![m.labels[i as int]][0] == m.labels[i as int]);
                }
            }
            labels.push(set);
            accepting.push(self.accepting[i]);
            let row = &self.delta[i];
            proof {
                self.lemma_view_delta(i as int);
            }
            let mut copy: Vec<usize> = Vec::new();
            let mut k: usize = 0;
            while k < row.len()
                invariant
                    row == self.delta@[i as int],
                    k <= row.len(),
                    copy@ == row@.subrange(0, k as int),
                decreases row.len() - k,
            {
                copy.push(row[k]);
                proof {
                    assert(copy@ =~= row@.subrange(0, k + 1));
                }
                k = k + 1;
            }
            proof {
                assert(copy@ =~= row@);
                assert(ints(copy@) == m.delta[i as int]);
            }
            delta.push(copy);
            i = i + 1;
        }
        let alphabet = copy_symbols(&self.alphabet);
        let ghost lab = labels@;
        let r = DFA::from_parts(labels, alphabet, self.start, accepting, delta);
        proof {
            let d = r@;
            assert(d.accepting =~= m.accepting);
            assert(d.delta =~= m.delta) by {
                assert forall|j: int| 0 <= j < m.n() implies d.delta[j] == m.delta[j] by {}
            }
            assert forall|j: int| 0 <= j < m.n() implies (#[trigger] d.labels[j]).to_set() == set![m.labels[j]] by {
                assert(d.labels[j] == lab[j]@);
            }
            assert forall|a: int, b: int| 0 <= a < m.n() && 0 <= b < m.n() && a != b implies d.labels[a] != d.labels[b] by {
                if d.labels[a] == d.labels[b] {
                    assert(set![m.labels[a]].contains(m.labels[a]));
                    assert(set![m.labels[b]].contains(m.labels[a]));
                }
            }
            assert(d.wf());
            assert forall|w: Seq<char>| #[trigger] d.accepts(w) == m.accepts(w) by {
                lemma_same_tables_same_words(m, d, m.start, w);
            }
        }
        r
    }
}

/// Two DFAs with the same alphabet, acceptance and transitions accept the same words.
proof fn lemma_same_tables_same_words<V, W>(a: DfaModel<V>, b: DfaModel<W>, s: int, w: Seq<char>)
    requires
        a.wf(),
        a.alphabet == b.alphabet,
        a.accepting == b.accepting,
        a.delta == b.delta,
        0 <= s < a.n(),
    ensures
        a.accepts_from(s, w) == b.accepts_from(s, w),
    decreases w.len(),
{
    if w.len() > 0 && a.alphabet.contains(w[0]) {
        lemma_next_in_range(a, s, w[0]);
        lemma_same_tables_same_words(a, b, a.next(s, w[0]), w.drop_first());
    }
}

} // verus!
