use crate::label::{lemma_push_to_set, views, CommunicativeHashSet, StateIdentifier};
use crate::lookup::{distinct_labels, distinct_symbols, lemma_push_contains, mark_members, position, symbol_position};
use crate::dfa::DFA;
use crate::model::{
    lemma_bitmap_count, lemma_closure_contains, lemma_closure_extend, lemma_closure_least,
    lemma_subset_construction_equivalent, marked, pow2, NfaModel,
};
use vstd::prelude::*;

verus! {

/// The moves out of one state: `(None, j)` is an ε move, `(Some(c), j)` a move on `c`.
pub type EdgeRow = Vec<(Option<char>, usize)>;

pub open spec fn row_model(row: Seq<(Option<char>, usize)>) -> Seq<(Option<char>, int)> {
    row.map_values(|e: (Option<char>, usize)| (e.0, e.1 as int))
}

/// Number of unmarked entries of a bitmap.
pub open spec fn unmarked_count(b: Seq<bool>) -> nat
    decreases b.len(),
{
    if b.len() == 0 {
        0
    } else {
        unmarked_count(b.drop_last()) + if b.last() {
            0nat
        } else {
            1nat
        }
    }
}

proof fn lemma_unmarked_count_mark(b: Seq<bool>, i: int)
    requires
        0 <= i < b.len(),
        !b[i],
    ensures
        unmarked_count(b.update(i, true)) + 1 == unmarked_count(b),
    decreases b.len(),
{
    let c = b.update(i, true);
    if i < b.len() - 1 {
        assert(c.drop_last() =~= b.drop_last().update(i, true));
        lemma_unmarked_count_mark(b.drop_last(), i);
    } else {
        assert(c.drop_last() =~= b.drop_last());
    }
}

pub proof fn lemma_marked_update(b: Seq<bool>, i: int)
    requires
        0 <= i < b.len(),
    ensures
        marked(b.update(i, true)) == marked(b).insert(i),
{
    assert(marked(b.update(i, true)) =~= marked(b).insert(i));
}

proof fn lemma_pop_contains(s: Seq<usize>)
    requires
        s.len() > 0,
    ensures
        forall|y: usize| s.contains(y) && y != s.last() ==> #[trigger] s.drop_last().contains(y),
{
    assert forall|y: usize| s.contains(y) && y != s.last() implies #[trigger] s.drop_last().contains(y) by {
        let q = choose|q: int| 0 <= q < s.len() && s[q] == y;
        assert(s.drop_last()[q] == y);
    }
}

/// A bitmap of `n` unmarked entries.
pub(crate) fn unmarked(n: usize) -> (r: Vec<bool>)
    ensures
        r.len() == n,
        marked(r@) == Set::<int>::empty(),
        forall|i: int| 0 <= i < n ==> !#[trigger] r@[i],
{
    let mut r: Vec<bool> = Vec::new();
    let mut i: usize = 0;
    while i < n
        invariant
            i <= n,
            r.len() == i,
            forall|k: int| 0 <= k < i ==> !#[trigger] r@[k],
        decreases n - i,
    {
        r.push(false);
        i = i + 1;
    }
    assert(marked(r@) =~= Set::<int>::empty());
    r
}

/// One row of a transition table: a state, a symbol (`None` for ε) and the
/// targets of the moves on that symbol.
pub type TransitionRow<L> = (L, Option<char>, Vec<L>);

pub open spec fn rows_view<L: View>(rows: Seq<TransitionRow<L>>) -> Seq<(L::V, Option<char>, Seq<L::V>)> {
    rows.map_values(|r: TransitionRow<L>| (r.0@, r.1, views(r.2@)))
}

/// The table lists a move from `from` to `to` on `sym`.
pub open spec fn listed<V>(rows: Seq<(V, Option<char>, Seq<V>)>, from: V, sym: Option<char>, to: V) -> bool {
    exists|row: (V, Option<char>, Seq<V>)|
        #[trigger] rows.contains(row) && row.0 == from && row.1 == sym && row.2.contains(to)
}

proof fn lemma_listed_push<V>(
    rows: Seq<(V, Option<char>, Seq<V>)>,
    row: (V, Option<char>, Seq<V>),
    from: V,
    sym: Option<char>,
    to: V,
)
    ensures
        listed(rows.push(row), from, sym, to) <==> listed(rows, from, sym, to) || (row.0 == from && row.1
            == sym && row.2.contains(to)),
{
    lemma_push_contains(rows, row);
    if listed(rows, from, sym, to) {
        let w = choose|w: (V, Option<char>, Seq<V>)|
            #[trigger] rows.contains(w) && w.0 == from && w.1 == sym && w.2.contains(to);
        assert(rows.push(row).contains(w));
    }
    if row.0 == from && row.1 == sym && row.2.contains(to) {
        assert(rows.push(row).contains(row));
    }
    if listed(rows.push(row), from, sym, to) {
        let w = choose|w: (V, Option<char>, Seq<V>)|
            #[trigger] rows.push(row).contains(w) && w.0 == from && w.1 == sym && w.2.contains(to);
        if w != row {
            assert(rows.contains(w));
        }
    }
}

/// The parts of an ε-NFA are consistent: the start and accepting states are
/// states, and the table names only states and symbols of the alphabet.
pub open spec fn valid_nfa_parts<V>(
    states: Set<V>,
    alphabet: Set<char>,
    start: V,
    accepting: Set<V>,
    rows: Seq<(V, Option<char>, Seq<V>)>,
) -> bool {
    &&& states.contains(start)
    &&& accepting.subset_of(states)
    &&& forall|r: int|
        0 <= r < rows.len() ==> {
            let row = #[trigger] rows[r];
            &&& states.contains(row.0)
            &&& (row.1 matches Some(c) ==> alphabet.contains(c))
            &&& forall|q: int| 0 <= q < row.2.len() ==> states.contains(row.2[q])
        }
}

/// The labels that the start state, the accepting states and the table mention.
pub open spec fn mentioned_states<V>(start: V, accepting: Seq<V>, rows: Seq<(V, Option<char>, Seq<V>)>) -> Set<V> {
    Set::new(
        |v: V|
            v == start || accepting.contains(v) || exists|r: int|
                0 <= r < rows.len() && ((#[trigger] rows[r]).0 == v || rows[r].2.contains(v)),
    )
}

/// The symbols that the table mentions.
pub open spec fn mentioned_symbols<V>(rows: Seq<(V, Option<char>, Seq<V>)>) -> Set<char> {
    Set::new(|c: char| exists|r: int| 0 <= r < rows.len() && (#[trigger] rows[r]).1 == Some(c))
}

/// `m` is the ε-NFA with the given parts.
pub open spec fn nfa_of_parts<V>(
    m: NfaModel<V>,
    states: Set<V>,
    alphabet: Set<char>,
    start: V,
    accepting: Set<V>,
    rows: Seq<(V, Option<char>, Seq<V>)>,
) -> bool {
    &&& m.wf()
    &&& m.labels.to_set() == states
    &&& m.alphabet.to_set() == alphabet
    &&& m.labels[m.start] == start
    &&& forall|i: int| 0 <= i < m.n() ==> (m.accepting[i] <==> accepting.contains(#[trigger] m.labels[i]))
    &&& forall|i: int, sym: Option<char>, j: int|
        0 <= i < m.n() && 0 <= j < m.n() ==> (#[trigger] m.edge(i, sym, j) <==> listed(
            rows,
            m.labels[i],
            sym,
            m.labels[j],
        ))
}

/// The moves out of state `i` that the table lists.
fn build_row<L: StateIdentifier>(labels: &Vec<L>, i: usize, rows: &Vec<TransitionRow<L>>) -> (row: EdgeRow)
    requires
        views(labels@).no_duplicates(),
        i < labels.len(),
        forall|r: int, q: int|
            0 <= r < rows.len() && 0 <= q < rows_view(rows@)[r].2.len() ==> views(labels@).contains(
                #[trigger] rows_view(rows@)[r].2[q],
            ),
    ensures
        forall|k: int| 0 <= k < row.len() ==> (#[trigger] row@[k]).1 < labels.len(),
        forall|sym: Option<char>, j: int|
            0 <= j < labels.len() ==> (#[trigger] row_model(row@).contains((sym, j)) <==> listed(
                rows_view(rows@),
                views(labels@)[i as int],
                sym,
                views(labels@)[j],
            )),
{
    let ghost lv = views(labels@);
    let ghost rv = rows_view(rows@);
    let ghost li = lv[i as int];
    let mut row: EdgeRow = Vec::new();
    let mut r: usize = 0;
    while r < rows.len()
        invariant
            lv == views(labels@),
            rv == rows_view(rows@),
            li == lv[i as int],
            lv.no_duplicates(),
            i < labels.len(),
            r <= rows.len(),
            forall|r: int, q: int|
                0 <= r < rows.len() && 0 <= q < rv[r].2.len() ==> lv.contains(#[trigger] rv[r].2[q]),
            forall|k: int| 0 <= k < row.len() ==> (#[trigger] row@[k]).1 < labels.len(),
            forall|sym: Option<char>, j: int|
                0 <= j < labels.len() ==> (#[trigger] row_model(row@).contains((sym, j)) <==> listed(
                    rv.subrange(0, r as int),
                    li,
                    sym,
                    lv[j],
                )),
        decreases rows.len() - r,
    {
        let ghost before = row_model(row@);
        let entry = &rows[r];
        let ghost rr = rv[r as int];
        proof {
            assert(rr == (entry.0@, entry.1, views(entry.2@)));
            assert(rv.subrange(0, r + 1) =~= rv.subrange(0, r as int).push(rr));
            assert(li == labels@[i as int]@);
        }
        if entry.0.compare(&labels[i]) == 0 {
            let targets = &entry.2;
            let mut q: usize = 0;
            while q < targets.len()
                invariant
                    lv == views(labels@),
                    rv == rows_view(rows@),
                    li == lv[i as int],
                    lv.no_duplicates(),
                    r < rows.len(),
                    i < labels.len(),
                    rr == rv[r as int],
                    rr == (entry.0@, entry.1, views(entry.2@)),
                    rr.0 == li,
                    targets == rows@[r as int].2,
                    rr.2 == views(targets@),
                    q <= targets.len(),
                    forall|r: int, q: int|
                        0 <= r < rows.len() && 0 <= q < rv[r].2.len() ==> lv.contains(#[trigger] rv[r].2[q]),
                    forall|k: int| 0 <= k < row.len() ==> (#[trigger] row@[k]).1 < labels.len(),
                    forall|sym: Option<char>, j: int|
                        0 <= j < labels.len() ==> (#[trigger] row_model(row@).contains((sym, j)) <==> (listed(
                            rv.subrange(0, r as int),
                            li,
                            sym,
                            lv[j],
                        ) || (sym == rr.1 && rr.2.subrange(0, q as int).contains(lv[j])))),
                decreases targets.len() - q,
            {
                proof {
                    assert(lv.contains(rr.2[q as int]));
                }
                let j = position(labels, &targets[q]).unwrap();
                proof {
                    lemma_push_contains(row_model(row@), (entry.1, j as int));
                    assert(row_model(row@.push((entry.1, j))) =~= row_model(row@).push((entry.1, j as int)));
                    lemma_push_contains(rr.2.subrange(0, q as int), rr.2[q as int]);
                    assert(rr.2.subrange(0, q + 1) =~= rr.2.subrange(0, q as int).push(rr.2[q as int]));
                    assert forall|j2: int| 0 <= j2 < labels.len() && lv[j2] == rr.2[q as int] implies j2 == j by {
                        assert(lv[j2] == lv[j as int]);
                    }
                }
                row.push((entry.1, j));
                q = q + 1;
            }
            proof {
                assert(rr.2.subrange(0, q as int) =~= rr.2);
                assert forall|sym: Option<char>, j: int| 0 <= j < labels.len() implies (#[trigger] row_model(row@).contains((sym, j)) <==> listed(
                    rv.subrange(0, r + 1),
                    li,
                    sym,
                    lv[j],
                )) by {
                    lemma_listed_push(rv.subrange(0, r as int), rr, li, sym, lv[j]);
                }
            }
        } else {
            proof {
                assert forall|sym: Option<char>, j: int| 0 <= j < labels.len() implies (#[trigger] row_model(row@).contains((sym, j)) <==> listed(
                    rv.subrange(0, r + 1),
                    li,
                    sym,
                    lv[j],
                )) by {
                    lemma_listed_push(rv.subrange(0, r as int), rr, li, sym, lv[j]);
                }
            }
        }
        r = r + 1;
    }
    proof {
        assert(rv.subrange(0, rows.len() as int) =~= rv);
    }
    row
}

/// Validation failures of automaton construction.
#[derive(Debug, Clone, Copy, PartialEq, Eq)]
pub enum AutomatonError {
    /// The states, start, accepting states and transitions are inconsistent.
    InvalidAutomaton,
}

/// A nondeterministic finite automaton with ε moves, over `char` symbols.
pub struct NFA<L: StateIdentifier> {
    labels: Vec<L>,
    alphabet: Vec<char>,
    start: usize,
    accepting: Vec<bool>,
    edges: Vec<EdgeRow>,
}

impl<L: StateIdentifier> View for NFA<L> {
    type V = NfaModel<L::V>;

    closed spec fn view(&self) -> NfaModel<L::V> {
        NfaModel {
            labels: views(self.labels@),
            alphabet: self.alphabet@,
            start: self.start as int,
            accepting: self.accepting@,
            edges: self.edges@.map_values(|row: EdgeRow| row_model(row@)),
        }
    }
}

impl<L: StateIdentifier> NFA<L> {
    pub open spec fn wf(&self) -> bool {
        self@.wf()
    }

    proof fn lemma_view_edge(&self, i: int, k: int)
        requires
            0 <= i < self.edges.len(),
            0 <= k < self.edges@[i].len(),
        ensures
            self@.edges[i][k] == (self.edges@[i]@[k].0, self.edges@[i]@[k].1 as int),
            self@.edges[i].len() == self.edges@[i].len(),
    {
    }

    /// Builds the ε-NFA with the given states, alphabet, start state,
    /// accepting states and transition table. Repeated entries count once.
    /// Fails when the start or an accepting state is not a state, or when the
    /// table names a label that is not a state or a symbol outside the alphabet.
    pub fn from(
        states: Vec<L>,
        alphabets: Vec<char>,
        start_state: L,
        accepted_states: Vec<L>,
        transition_map: Vec<TransitionRow<L>>,
    ) -> (r: Result<Self, AutomatonError>)
        ensures
            match r {
                Ok(a) => valid_nfa_parts(
                    views(states@).to_set(),
                    alphabets@.to_set(),
                    start_state@,
                    views(accepted_states@).to_set(),
                    rows_view(transition_map@),
                ) && nfa_of_parts(
                    a@,
                    views(states@).to_set(),
                    alphabets@.to_set(),
                    start_state@,
                    views(accepted_states@).to_set(),
                    rows_view(transition_map@),
                ),
                Err(e) => e == AutomatonError::InvalidAutomaton && !valid_nfa_parts(
                    views(states@).to_set(),
                    alphabets@.to_set(),
                    start_state@,
                    views(accepted_states@).to_set(),
                    rows_view(transition_map@),
                ),
            },
    {
        let ghost sv = views(states@).to_set();
        let ghost av = views(accepted_states@);
        let ghost rv = rows_view(transition_map@);
        let labels = distinct_labels(&states);
        let alphabet = distinct_symbols(&alphabets);
        let ghost lv = views(labels@);
        let n = labels.len();
        let start = match position(&labels, &start_state) {
            Some(i) => i,
            None => {
                return Err(AutomatonError::InvalidAutomaton);
            },
        };
        let accepting = match mark_members(&labels, &accepted_states) {
            Some(b) => b,
            None => {
                return Err(AutomatonError::InvalidAutomaton);
            },
        };
        let mut r: usize = 0;
        while r < transition_map.len()
            invariant
                lv == views(labels@),
                lv.to_set() == sv,
                alphabet@.to_set() == alphabets@.to_set(),
                rv == rows_view(transition_map@),
                sv == views(states@).to_set(),
                r <= transition_map.len(),
                forall|r2: int|
                    0 <= r2 < r ==> {
                        let row = #[trigger] rv[r2];
                        &&& sv.contains(row.0)
                        &&& (row.1 matches Some(c) ==> alphabets@.to_set().contains(c))
                        &&& forall|q: int| 0 <= q < row.2.len() ==> sv.contains(row.2[q])
                    },
            decreases transition_map.len() - r,
        {
            let entry = &transition_map[r];
            let ghost row = rv[r as int];
            proof {
                assert(row == (entry.0@, entry.1, views(entry.2@)));
            }
            if position(&labels, &entry.0).is_none() {
                proof {
                    assert(!sv.contains(rv[r as int].0));
                }
                return Err(AutomatonError::InvalidAutomaton);
            }
            match entry.1 {
                Some(c) => {
                    if symbol_position(&alphabet, c).is_none() {
                        proof {
                            assert(!alphabet@.to_set().contains(c));
                        }
                        return Err(AutomatonError::InvalidAutomaton);
                    }
                },
                None => {},
            }
            let targets = &entry.2;
            let mut q: usize = 0;
            while q < targets.len()
                invariant
                    lv == views(labels@),
                    lv.to_set() == sv,
                    row.2 == views(targets@),
                    sv == views(states@).to_set(),
                    row == rv[r as int],
                    rv == rows_view(transition_map@),
                    r < transition_map.len(),
                    q <= targets.len(),
                    forall|q2: int| 0 <= q2 < q ==> sv.contains(#[trigger] row.2[q2]),
                decreases targets.len() - q,
            {
                if position(&labels, &targets[q]).is_none() {
                    proof {
                        assert(row.2[q as int] == targets@[q as int]@);
                        assert(!sv.contains(row.2[q as int]));
                        assert(!sv.contains(rv[r as int].2[q as int]));
                    }
                    return Err(AutomatonError::InvalidAutomaton);
                }
                q = q + 1;
            }
            r = r + 1;
        }
        proof {
            assert forall|r2: int, q: int|
                0 <= r2 < transition_map.len() && 0 <= q < rv[r2].2.len() implies lv.contains(
                #[trigger] rv[r2].2[q],
            ) by {
                assert(sv.contains(rv[r2].2[q]));
            }
        }
        let mut edges: Vec<EdgeRow> = Vec::new();
        let mut i: usize = 0;
        while i < n
            invariant
                lv == views(labels@),
                lv.no_duplicates(),
                n == labels.len(),
                rv == rows_view(transition_map@),
                i <= n,
                edges.len() == i,
                forall|r2: int, q: int|
                    0 <= r2 < transition_map.len() && 0 <= q < rv[r2].2.len() ==> lv.contains(
                        #[trigger] rv[r2].2[q],
                    ),
                forall|i2: int, k: int| 0 <= i2 < i && 0 <= k < edges@[i2].len() ==> (#[trigger] edges@[i2]@[k]).1 < n,
                forall|i2: int, sym: Option<char>, j: int|
                    0 <= i2 < i && 0 <= j < n ==> (#[trigger] row_model(edges@[i2]@).contains((sym, j)) <==> listed(
                        rv,
                        lv[i2],
                        sym,
                        lv[j],
                    )),
            decreases n - i,
        {
            let row = build_row(&labels, i, &transition_map);
            edges.push(row);
            i = i + 1;
        }
        let a = NFA { labels, alphabet, start, accepting, edges };
        proof {
            let m = a@;
            assert(m.labels == lv);
            assert forall|i2: int, k: int| 0 <= i2 < m.n() && 0 <= k < m.edges[i2].len() implies {
                let e = #[trigger] m.edges[i2][k];
                &&& 0 <= e.1 < m.n()
                &&& (e.0 matches Some(c) ==> m.alphabet.contains(c))
            } by {
                let e = m.edges[i2][k];
                assert(e == (a.edges@[i2]@[k].0, a.edges@[i2]@[k].1 as int));
                if let Some(c) = e.0 {
                    assert(row_model(a.edges@[i2]@)[k] == e);
                    assert(row_model(a.edges@[i2]@).contains((e.0, e.1)));
                    let w = choose|w: (L::V, Option<char>, Seq<L::V>)|
                        #[trigger] rv.contains(w) && w.0 == lv[i2] && w.1 == e.0 && w.2.contains(lv[e.1]);
                    let r2 = choose|r2: int| 0 <= r2 < rv.len() && rv[r2] == w;
                    assert(alphabets@.to_set().contains(c));
                    assert(alphabet@.to_set().contains(c));
                }
            }
            assert(m.wf());
            assert forall|i2: int, sym: Option<char>, j: int| 0 <= i2 < m.n() && 0 <= j < m.n() implies (#[trigger] m.edge(i2, sym, j) <==> listed(
                rv,
                m.labels[i2],
                sym,
                m.labels[j],
            )) by {
                let rm = row_model(a.edges@[i2]@);
                assert(m.edges[i2] == rm);
                if m.edge(i2, sym, j) {
                    let k = choose|k: int| 0 <= k < m.edges[i2].len() && #[trigger] m.edges[i2][k] == (sym, j);
                    assert(rm.contains((sym, j)));
                }
                if rm.contains((sym, j)) {
                    let k = choose|k: int| 0 <= k < rm.len() && rm[k] == (sym, j);
                    assert(m.edges[i2][k] == (sym, j));
                }
            }
            assert forall|i2: int| 0 <= i2 < m.n() implies (m.accepting[i2] <==> av.to_set().contains(#[trigger] m.labels[i2])) by {
            }
        }
        Ok(a)
    }

    /// Builds the ε-NFA whose states are the start state, the accepting
    /// states and every label that the table mentions, and whose alphabet is
    /// every symbol that the table mentions.
    pub fn from_map(start_state: L, accepted_states: Vec<L>, transition_map: Vec<TransitionRow<L>>) -> (r: Self)
        ensures
            nfa_of_parts(
                r@,
                mentioned_states(start_state@, views(accepted_states@), rows_view(transition_map@)),
                mentioned_symbols(rows_view(transition_map@)),
                start_state@,
                views(accepted_states@).to_set(),
                rows_view(transition_map@),
            ),
    {
        let ghost av = views(accepted_states@);
        let ghost rv = rows_view(transition_map@);
        let ghost ms = mentioned_states(start_state@, av, rv);
        let mut states: Vec<L> = Vec::new();
        let first = start_state.duplicate();
        proof {
            lemma_push_contains(views(states@), first@);
            assert(views(states@.push(first)) =~= views(states@).push(first@));
            assert(av.subrange(0, 0) =~= Seq::<L::V>::empty());
        }
        states.push(first);
        let mut k: usize = 0;
        while k < accepted_states.len()
            invariant
                av == views(accepted_states@),
                k <= accepted_states.len(),
                forall|x: L::V| #[trigger] views(states@).contains(x) <==> (x == start_state@ || av.subrange(0, k as int).contains(x)),
            decreases accepted_states.len() - k,
        {
            let x = accepted_states[k].duplicate();
            proof {
                lemma_push_contains(views(states@), x@);
                assert(views(states@.push(x)) =~= views(states@).push(x@));
                lemma_push_contains(av.subrange(0, k as int), av[k as int]);
                assert(av.subrange(0, k + 1) =~= av.subrange(0, k as int).push(av[k as int]));
            }
            states.push(x);
            k = k + 1;
        }
        proof {
            assert(av.subrange(0, k as int) =~= av);
        }
        let mut symbols: Vec<char> = Vec::new();
        let mut r: usize = 0;
        while r < transition_map.len()
            invariant
                av == views(accepted_states@),
                rv == rows_view(transition_map@),
                r <= transition_map.len(),
                forall|x: L::V| #[trigger] views(states@).contains(x) <==> (x == start_state@ || av.contains(x) || exists|r2: int|
                    0 <= r2 < r && ((#[trigger] rv[r2]).0 == x || rv[r2].2.contains(x))),
                forall|c: char| #[trigger] symbols@.contains(c) <==> exists|r2: int| 0 <= r2 < r && (#[trigger] rv[r2]).1 == Some(c),
            decreases transition_map.len() - r,
        {
            let entry = &transition_map[r];
            let ghost row = rv[r as int];
            proof {
                assert(row == (entry.0@, entry.1, views(entry.2@)));
            }
            let x = entry.0.duplicate();
            proof {
                lemma_push_contains(views(states@), x@);
                assert(views(states@.push(x)) =~= views(states@).push(x@));
            }
            states.push(x);
            match entry.1 {
                Some(c) => {
                    proof {
                        lemma_push_contains(symbols@, c);
                    }
                    symbols.push(c);
                },
                None => {},
            }
            let targets = &entry.2;
            let mut q: usize = 0;
            while q < targets.len()
                invariant
                    av == views(accepted_states@),
                    rv == rows_view(transition_map@),
                    r < transition_map.len(),
                    row == rv[r as int],
                    row.2 == views(targets@),
                    q <= targets.len(),
                    forall|y: L::V| #[trigger] views(states@).contains(y) <==> (y == start_state@ || av.contains(y) || (exists|r2: int|
                        0 <= r2 < r && ((#[trigger] rv[r2]).0 == y || rv[r2].2.contains(y))) || y == row.0 || row.2.subrange(0, q as int).contains(y)),
                decreases targets.len() - q,
            {
                let y = targets[q].duplicate();
                proof {
                    lemma_push_contains(views(states@), y@);
                    assert(views(states@.push(y)) =~= views(states@).push(y@));
                    lemma_push_contains(row.2.subrange(0, q as int), row.2[q as int]);
                    assert(row.2.subrange(0, q + 1) =~= row.2.subrange(0, q as int).push(row.2[q as int]));
                }
                states.push(y);
                q = q + 1;
            }
            proof {
                assert(row.2.subrange(0, q as int) =~= row.2);
                assert forall|y: L::V| #[trigger] views(states@).contains(y) <==> (y == start_state@ || av.contains(y) || exists|r2: int|
                    0 <= r2 < r + 1 && ((#[trigger] rv[r2]).0 == y || rv[r2].2.contains(y))) by {
                    if exists|r2: int| 0 <= r2 < r + 1 && ((#[trigger] rv[r2]).0 == y || rv[r2].2.contains(y)) {
                        let r2 = choose|r2: int| 0 <= r2 < r + 1 && ((#[trigger] rv[r2]).0 == y || rv[r2].2.contains(y));
                        if r2 < r {
                        }
                    }
                }
                assert forall|c: char| #[trigger] symbols@.contains(c) <==> exists|r2: int| 0 <= r2 < r + 1 && (#[trigger] rv[r2]).1 == Some(c) by {
                    if exists|r2: int| 0 <= r2 < r + 1 && (#[trigger] rv[r2]).1 == Some(c) {
                        let r2 = choose|r2: int| 0 <= r2 < r + 1 && (#[trigger] rv[r2]).1 == Some(c);
                        if r2 < r {
                        }
                    }
                }
            }
            r = r + 1;
        }
        proof {
            assert(views(states@).to_set() =~= ms);
            assert(symbols@.to_set() =~= mentioned_symbols(rv));
            assert(av.to_set().subset_of(ms));
            assert forall|r2: int| 0 <= r2 < rv.len() implies {
                let row = #[trigger] rv[r2];
                &&& ms.contains(row.0)
                &&& (row.1 matches Some(c) ==> mentioned_symbols(rv).contains(c))
                &&& forall|q: int| 0 <= q < row.2.len() ==> ms.contains(row.2[q])
            } by {
                let row = rv[r2];
                assert forall|q: int| 0 <= q < row.2.len() implies ms.contains(row.2[q]) by {
                    assert(row.2.contains(row.2[q]));
                }
            }
            assert(valid_nfa_parts(ms, mentioned_symbols(rv), start_state@, av.to_set(), rv));
        }
        match Self::from(states, symbols, start_state, accepted_states, transition_map) {
            Ok(a) => a,
            Err(_) => unreached(),
        }
    }

    /// The ε-closure of the states marked in `seed`.
    fn close(&self, seed: Vec<bool>) -> (r: Vec<bool>)
        requires
            self.wf(),
            seed.len() == self@.n(),
        ensures
            r.len() == seed.len(),
            marked(r@) == self@.closure(marked(seed@)),
    {
        let ghost m = self@;
        let ghost s = marked(seed@);
        let n = self.labels.len();
        let mut result = seed;
        let mut stack: Vec<usize> = Vec::new();
        let mut i: usize = 0;
        while i < n
            invariant
                m == self@,
                n == m.n(),
                i <= n,
                result.len() == n,
                marked(result@) == s,
                forall|k: int| 0 <= k < stack.len() ==> #[trigger] stack@[k] < n && result@[stack@[k] as int],
                forall|x: int| 0 <= x < i && result@[x] ==> stack@.contains(x as usize),
            decreases n - i,
        {
            if result[i] {
                proof {
                    lemma_push_contains(stack@, i);
                }
                stack.push(i);
            }
            i = i + 1;
        }
        proof {
            lemma_closure_contains(m, s);
        }
        while stack.len() > 0
            invariant
                m == self@,
                m.wf(),
                n == m.n(),
                result.len() == n,
                s.subset_of(marked(result@)),
                marked(result@).subset_of(m.closure(s)),
                forall|k: int| 0 <= k < stack.len() ==> #[trigger] stack@[k] < n && result@[stack@[k] as int],
                forall|x: int, t: int|
                    0 <= x < n && result@[x] && !stack@.contains(x as usize) && #[trigger] m.edge(
                        x,
                        None,
                        t,
                    ) ==> result@[t],
            decreases unmarked_count(result@), stack.len(),
        {
            proof {
                lemma_pop_contains(stack@);
            }
            let ghost stack_before = stack@;
            let x = stack.pop().unwrap();
            proof {
                assert forall|y: int, t: int|
                    0 <= y < n && y != x && result@[y] && !stack@.contains(y as usize) && #[trigger] m.edge(
                        y,
                        None,
                        t,
                    ) implies result@[t] by {
                    assert(stack@ == stack_before.drop_last());
                    assert(x == stack_before.last());
                    if stack_before.contains(y as usize) {
                        assert((y as usize) != stack_before.last());
                        assert(stack_before.drop_last().contains(y as usize));
                    }
                }
            }
            let row = &self.edges[x];
            let ghost stack_x = stack@;
            let ghost unmarked_x = unmarked_count(result@);
            let mut k: usize = 0;
            while k < row.len()
                invariant
                    m == self@,
                    m.wf(),
                    n == m.n(),
                    x < n,
                    row == self.edges@[x as int],
                    k <= row.len(),
                    result.len() == n,
                    result@[x as int],
                    s.subset_of(marked(result@)),
                    marked(result@).subset_of(m.closure(s)),
                    stack@.len() >= stack_x.len(),
                    forall|q: int| 0 <= q < stack_x.len() ==> stack@[q] == #[trigger] stack_x[q],
                    forall|q: int| 0 <= q < stack.len() ==> #[trigger] stack@[q] < n && result@[stack@[q] as int],
                    forall|q: int| 0 <= q < k && (#[trigger] m.edges[x as int][q]).0 is None ==> result@[m.edges[x as int][q].1],
                    forall|y: int, t: int|
                        0 <= y < n && y != x && result@[y] && !stack@.contains(y as usize) && #[trigger] m.edge(
                            y,
                            None,
                            t,
                        ) ==> result@[t],
                    unmarked_count(result@) + stack@.len() - stack_x.len() == unmarked_x,
                decreases row.len() - k,
            {
                let e = row[k];
                proof {
                    self.lemma_view_edge(x as int, k as int);
                }
                if e.0.is_none() && !result[e.1] {
                    let t = e.1;
                    proof {
                        assert(m.edge(x as int, None, t as int));
                        lemma_closure_extend(m, s, x as int, t as int);
                        lemma_marked_update(result@, t as int);
                        lemma_unmarked_count_mark(result@, t as int);
                    }
                    result.set(t, true);
                    proof {
                        lemma_push_contains(stack@, t);
                    }
                    stack.push(t);
                }
                k = k + 1;
            }
            proof {
                assert forall|t: int| #[trigger] m.edge(x as int, None, t) implies result@[t] by {
                    let q = choose|q: int| 0 <= q < m.edges[x as int].len() && #[trigger] m.edges[x as int][q] == (None::<char>, t);
                }
            }
        }
        proof {
            assert forall|x: int, t: int| marked(result@).contains(x) && #[trigger] m.edge(x, None, t) implies marked(
                result@,
            ).contains(t) by {
                assert(result@[t]);
            }
            lemma_closure_least(m, s, marked(result@));
            assert(marked(result@) =~= m.closure(s));
        }
        result
    }

    /// The states reached from the marked ones by one move on `c`.
    fn step_bits(&self, cur: &Vec<bool>, c: char) -> (r: Vec<bool>)
        requires
            self.wf(),
            cur.len() == self@.n(),
        ensures
            r.len() == cur.len(),
            marked(r@) == self@.step(marked(cur@), c),
    {
        let ghost m = self@;
        let n = self.labels.len();
        let mut next = unmarked(n);
        let mut i: usize = 0;
        while i < n
            invariant
                m == self@,
                m.wf(),
                n == m.n(),
                cur.len() == n,
                i <= n,
                next.len() == n,
                marked(next@).subset_of(m.step(marked(cur@), c)),
                forall|p: int, j: int| 0 <= p < i && cur@[p] && #[trigger] m.edge(p, Some(c), j) ==> next@[j],
            decreases n - i,
        {
            if cur[i] {
                let row = &self.edges[i];
                let mut k: usize = 0;
                while k < row.len()
                    invariant
                        m == self@,
                        m.wf(),
                        n == m.n(),
                        cur.len() == n,
                        i < n,
                        cur@[i as int],
                        row == self.edges@[i as int],
                        k <= row.len(),
                        next.len() == n,
                        marked(next@).subset_of(m.step(marked(cur@), c)),
                        forall|p: int, j: int| 0 <= p < i && cur@[p] && #[trigger] m.edge(p, Some(c), j) ==> next@[j],
                        forall|q: int|
                            0 <= q < k && (#[trigger] m.edges[i as int][q]).0 == Some(c) ==> next@[m.edges[i as int][q].1],
                    decreases row.len() - k,
                {
                    let e = row[k];
                    proof {
                        self.lemma_view_edge(i as int, k as int);
                    }
                    if same_symbol(e.0, Some(c)) {
                        proof {
                            assert(m.edge(i as int, Some(c), e.1 as int));
                            assert(marked(cur@).contains(i as int));
                            assert(m.step(marked(cur@), c).contains(e.1 as int));
                            lemma_marked_update(next@, e.1 as int);
                        }
                        next.set(e.1, true);
                    }
                    k = k + 1;
                }
                proof {
                    assert forall|p: int, j: int| 0 <= p < i + 1 && cur@[p] && #[trigger] m.edge(p, Some(c), j) implies next@[j] by {
                        if p == i {
                            let q = choose|q: int| 0 <= q < m.edges[p].len() && #[trigger] m.edges[p][q] == (Some(c), j);
                        }
                    }
                }
            }
            i = i + 1;
        }
        proof {
            assert forall|j: int| m.step(marked(cur@), c).contains(j) implies marked(next@).contains(j) by {
                let p = choose|p: int| marked(cur@).contains(p) && #[trigger] m.edge(p, Some(c), j);
                let q = choose|q: int| 0 <= q < m.edges[p].len() && #[trigger] m.edges[p][q] == (Some(c), j);
            }
            assert(marked(next@) =~= m.step(marked(cur@), c));
        }
        next
    }

    /// The states after reading `c` from the marked ones.
    fn post_bits(&self, cur: &Vec<bool>, c: char) -> (r: Vec<bool>)
        requires
            self.wf(),
            cur.len() == self@.n(),
        ensures
            r.len() == cur.len(),
            marked(r@) == self@.post(marked(cur@), c),
    {
        let next = self.step_bits(cur, c);
        self.close(next)
    }

    /// Whether a marked state is accepting.
    fn any_accepting_bits(&self, cur: &Vec<bool>) -> (r: bool)
        requires
            self.wf(),
            cur.len() == self@.n(),
        ensures
            r == self@.any_accepting(marked(cur@)),
    {
        let ghost m = self@;
        let mut i: usize = 0;
        while i < cur.len()
            invariant
                m == self@,
                m.wf(),
                cur.len() == m.n(),
                i <= cur.len(),
                forall|p: int| 0 <= p < i ==> !(cur@[p] && #[trigger] m.accepting[p]),
            decreases cur.len() - i,
        {
            if cur[i] && self.accepting[i] {
                proof {
                    assert(marked(cur@).contains(i as int));
                }
                return true;
            }
            i = i + 1;
        }
        false
    }

    /// The labels of the marked states.
    fn labels_of(&self, bits: &Vec<bool>) -> (r: CommunicativeHashSet<L>)
        requires
            self.wf(),
            bits.len() == self@.n(),
        ensures
            r.wf(),
            r.member_set() == self@.label_set(marked(bits@)),
    {
        let ghost m = self@;
        let mut chosen: Vec<L> = Vec::new();
        let mut i: usize = 0;
        while i < bits.len()
            invariant
                m == self@,
                m.wf(),
                bits.len() == m.n(),
                i <= bits.len(),
                forall|x: L::V|
                    #[trigger] views(chosen@).to_set().contains(x) <==> exists|p: int|
                        0 <= p < i && bits@[p] && m.labels[p] == x,
            decreases bits.len() - i,
        {
            if bits[i] {
                let l = self.labels[i].duplicate();
                proof {
                    lemma_push_to_set(views(chosen@), l@);
                    assert(views(chosen@.push(l)) =~= views(chosen@).push(l@));
                    assert(m.labels[i as int] == l@);
                }
                chosen.push(l);
            }
            i = i + 1;
        }
        let r = CommunicativeHashSet::from(chosen);
        proof {
            assert forall|x: L::V| #[trigger] r.member_set().contains(x) <==> m.label_set(marked(bits@)).contains(x) by {
                if r.member_set().contains(x) {
                    let p = choose|p: int| 0 <= p < bits.len() && bits@[p] && m.labels[p] == x;
                    assert(marked(bits@).contains(p));
                }
                if m.label_set(marked(bits@)).contains(x) {
                    let p = choose|p: int| marked(bits@).contains(p) && 0 <= p < m.n() && m.labels[p] == x;
                    assert(views(chosen@).to_set().contains(x));
                }
            }
            assert(r.member_set() =~= m.label_set(marked(bits@)));
        }
        r
    }

    /// The index of the state labelled like `l`.
    fn find(&self, l: &L) -> (r: Option<usize>)
        requires
            self.wf(),
        ensures
            match r {
                Some(i) => i < self@.n() && self@.labels[i as int] == l@ && self@.index(l@) == i,
                None => !self@.labels.contains(l@),
            },
    {
        let ghost m = self@;
        let mut i: usize = 0;
        while i < self.labels.len()
            invariant
                m == self@,
                m.wf(),
                i <= m.n(),
                forall|p: int| 0 <= p < i ==> m.labels[p] != l@,
            decreases self.labels.len() - i,
        {
            if self.labels[i].compare(l) == 0 {
                proof {
                    assert(m.labels[i as int] == l@);
                    assert(m.labels.contains(l@));
                    let j = m.labels.index_of(l@);
                    assert(m.labels[j] == l@);
                }
                return Some(i);
            }
            i = i + 1;
        }
        None
    }

    /// Whether the automaton accepts `word`.
    pub fn accept(&self, word: &[char]) -> (r: bool)
        requires
            self.wf(),
        ensures
            r == self@.accepts(word@),
    {
        let ghost m = self@;
        let n = self.labels.len();
        let mut cur = self.close(single(n, self.start));
        let mut i: usize = 0;
        proof {
            assert(word@.skip(0) =~= word@);
        }
        while i < word.len()
            invariant
                m == self@,
                m.wf(),
                n == m.n(),
                cur.len() == n,
                i <= word.len(),
                m.accepts(word@) == m.accepts_from(marked(cur@), word@.skip(i as int)),
            decreases word.len() - i,
        {
            let ghost before = marked(cur@);
            cur = self.post_bits(&cur, word[i]);
            proof {
                let w = word@.skip(i as int);
                assert(w[0] == word@[i as int]);
                assert(w.drop_first() =~= word@.skip(i + 1));
            }
            i = i + 1;
        }
        proof {
            assert(word@.skip(i as int).len() == 0);
        }
        self.any_accepting_bits(&cur)
    }

    /// The states reached from the state labelled `state` by one move on
    /// `symbol` (`None` for ε); empty when no state has that label.
    pub fn transition(&self, state: &L, symbol: Option<char>) -> (r: CommunicativeHashSet<L>)
        requires
            self.wf(),
        ensures
            r.wf(),
            r.member_set() == self@.label_set(self@.successors(state@, symbol)),
    {
        let ghost m = self@;
        let n = self.labels.len();
        let mut next = unmarked(n);
        match self.find(state) {
            None => {
                proof {
                    assert(m.successors(state@, symbol) =~= Set::<int>::empty());
                }
            },
            Some(i) => {
                let row = &self.edges[i];
                let mut k: usize = 0;
                while k < row.len()
                    invariant
                        m == self@,
                        m.wf(),
                        n == m.n(),
                        i < n,
                        m.labels[i as int] == state@,
                        row == self.edges@[i as int],
                        k <= row.len(),
                        next.len() == n,
                        marked(next@).subset_of(m.successors(state@, symbol)),
                        forall|q: int|
                            0 <= q < k && (#[trigger] m.edges[i as int][q]).0 == symbol ==> next@[m.edges[i as int][q].1],
                    decreases row.len() - k,
                {
                    let e = row[k];
                    proof {
                        self.lemma_view_edge(i as int, k as int);
                    }
                    if same_symbol(e.0, symbol) {
                        proof {
                            assert(m.edge(i as int, symbol, e.1 as int));
                            lemma_marked_update(next@, e.1 as int);
                        }
                        next.set(e.1, true);
                    }
                    k = k + 1;
                }
                proof {
                    assert forall|j: int| m.successors(state@, symbol).contains(j) implies marked(next@).contains(j) by {
                        let p = choose|p: int| 0 <= p < m.n() && m.labels[p] == state@ && #[trigger] m.edge(p, symbol, j);
                        assert(p == i);
                        let q = choose|q: int| 0 <= q < m.edges[p].len() && #[trigger] m.edges[p][q] == (symbol, j);
                    }
                    assert(marked(next@) =~= m.successors(state@, symbol));
                }
            },
        }
        self.labels_of(&next)
    }

    /// The ε-closure of the state labelled `state`. A label of no state is
    /// its own closure.
    pub fn epsilon_closure_states(&self, state: &L) -> (r: CommunicativeHashSet<L>)
        requires
            self.wf(),
        ensures
            r.wf(),
            r.member_set().contains(state@),
            self@.labels.contains(state@) ==> r.member_set() == self@.label_set(
                self@.closure(set![self@.index(state@)]),
            ),
            !self@.labels.contains(state@) ==> r.member_set() == set![state@],
    {
        let ghost m = self@;
        match self.find(state) {
            None => {
                let mut v: Vec<L> = Vec::new();
                v.push(state.duplicate());
                let r = CommunicativeHashSet::from(v);
                proof {
                    assert(views(v@) =~= seq![state@]);
                    assert(seq![state@].to_set() =~= set![state@]) by {
                        assert(seq![state@][0] == state@);
                    }
                }
                r
            },
            Some(i) => {
                let c = self.close(single(self.labels.len(), i));
                proof {
                    lemma_closure_contains(m, set![i as int]);
                    assert(set![i as int].contains(i as int));
                    assert(marked(c@).contains(i as int));
                    assert(m.labels[i as int] == state@);
                    assert(m.label_set(marked(c@)).contains(state@));
                }
                self.labels_of(&c)
            },
        }
    }

    /// The states reached from the ε-closure of the state labelled `state`
    /// by one move on `symbol` and ε-closure; empty when no state has that label.
    pub fn epsilon_closure_transition(&self, state: &L, symbol: char) -> (r: CommunicativeHashSet<L>)
        requires
            self.wf(),
        ensures
            r.wf(),
            self@.labels.contains(state@) ==> r.member_set() == self@.label_set(
                self@.post(self@.closure(set![self@.index(state@)]), symbol),
            ),
            !self@.labels.contains(state@) ==> r.member_set() == Set::<L::V>::empty(),
    {
        let ghost m = self@;
        let n = self.labels.len();
        match self.find(state) {
            None => {
                let r = CommunicativeHashSet::new();
                proof {
                    assert(r@.to_set() =~= Set::<L::V>::empty());
                }
                r
            },
            Some(i) => {
                let c = self.close(single(n, i));
                let p = self.post_bits(&c, symbol);
                self.labels_of(&p)
            },
        }
    }

    /// The labels of the states.
    pub fn states(&self) -> (r: &Vec<L>)
        ensures
            views(r@) == self@.labels,
    {
        &self.labels
    }

    pub fn alphabets(&self) -> (r: &Vec<char>)
        ensures
            r@ == self@.alphabet,
    {
        &self.alphabet
    }

    pub fn start_state(&self) -> (r: L)
        requires
            self.wf(),
        ensures
            r@ == self@.labels[self@.start],
    {
        self.labels[self.start].duplicate()
    }

    /// The labels of the accepting states.
    pub fn accepted_states(&self) -> (r: CommunicativeHashSet<L>)
        requires
            self.wf(),
        ensures
            r.wf(),
            r.member_set() == self@.label_set(marked(self@.accepting)),
    {
        self.labels_of(&self.accepting)
    }
}

/// Whether two symbols are the same (`None` stands for ε).
fn same_symbol(a: Option<char>, b: Option<char>) -> (r: bool)
    ensures
        r == (a == b),
{
    match (a, b) {
        (None, None) => true,
        (Some(x), Some(y)) => x == y,
        _ => false,
    }
}

/// A bitmap of `n` entries marking `i` alone.
fn single(n: usize, i: usize) -> (r: Vec<bool>)
    requires
        i < n,
    ensures
        r.len() == n,
        marked(r@) == set![i as int],
{
    let mut r = unmarked(n);
    proof {
        lemma_marked_update(r@, i as int);
    }
    r.set(i, true);
    proof {
        assert(marked(r@) =~= set![i as int]);
    }
    r
}

/// The views of a sequence of bitmaps.
pub open spec fn bitmaps(v: Seq<Vec<bool>>) -> Seq<Seq<bool>> {
    v.map_values(|b: Vec<bool>| b@)
}

fn same_bits(a: &Vec<bool>, b: &Vec<bool>) -> (r: bool)
    ensures
        r == (a@ == b@),
{
    if a.len() != b.len() {
        return false;
    }
    let mut i: usize = 0;
    while i < a.len()
        invariant
            a.len() == b.len(),
            i <= a.len(),
            forall|k: int| 0 <= k < i ==> a@[k] == b@[k],
        decreases a.len() - i,
    {
        if a[i] != b[i] {
            return false;
        }
        i = i + 1;
    }
    assert(a@ =~= b@);
    true
}

fn find_bits(all: &Vec<Vec<bool>>, b: &Vec<bool>) -> (r: Option<usize>)
    ensures
        match r {
            Some(j) => j < all.len() && all@[j as int]@ == b@,
            None => !bitmaps(all@).contains(b@),
        },
{
    let mut j: usize = 0;
    while j < all.len()
        invariant
            j <= all.len(),
            forall|k: int| 0 <= k < j ==> all@[k]@ != b@,
        decreases all.len() - j,
    {
        if same_bits(&all[j], b) {
            return Some(j);
        }
        j = j + 1;
    }
    proof {
        if bitmaps(all@).contains(b@) {
            let k = choose|k: int| 0 <= k < all.len() && bitmaps(all@)[k] == b@;
            assert(all@[k]@ == b@);
        }
    }
    None
}

pub(crate) fn copy_symbols(v: &Vec<char>) -> (r: Vec<char>)
    ensures
        r@ == v@,
{
    let mut r: Vec<char> = Vec::new();
    let mut i: usize = 0;
    while i < v.len()
        invariant
            i <= v.len(),
            r@ == v@.subrange(0, i as int),
        decreases v.len() - i,
    {
        r.push(v[i]);
        proof {
            assert(r@ =~= v@.subrange(0, i + 1));
        }
        i = i + 1;
    }
    proof {
        assert(v@.subrange(0, i as int) =~= v@);
    }
    r
}

proof fn lemma_marked_injective(a: Seq<bool>, b: Seq<bool>)
    requires
        a.len() == b.len(),
        marked(a) == marked(b),
    ensures
        a == b,
{
    assert forall|i: int| 0 <= i < a.len() implies a[i] == b[i] by {
        if a[i] {
            assert(marked(a).contains(i));
            assert(marked(b).contains(i));
        }
        if b[i] {
            assert(marked(b).contains(i));
            assert(marked(a).contains(i));
        }
    }
    assert(a =~= b);
}

proof fn lemma_label_set_injective<V>(m: NfaModel<V>, s1: Set<int>, s2: Set<int>)
    requires
        m.labels.no_duplicates(),
        m.in_range(s1),
        m.in_range(s2),
        m.label_set(s1) == m.label_set(s2),
    ensures
        s1 == s2,
{
    assert forall|i: int| s1.contains(i) implies s2.contains(i) by {
        assert(m.label_set(s1).contains(m.labels[i]));
        let j = choose|j: int| s2.contains(j) && 0 <= j < m.n() && m.labels[j] == m.labels[i];
    }
    assert forall|i: int| s2.contains(i) implies s1.contains(i) by {
        assert(m.label_set(s2).contains(m.labels[i]));
        let j = choose|j: int| s1.contains(j) && 0 <= j < m.n() && m.labels[j] == m.labels[i];
    }
    assert(s1 =~= s2);
}

impl<L: StateIdentifier> NFA<L> {
    /// The equivalent DFA, by subset construction: each of its states stands
    /// for an ε-closed set of this automaton's states, reached from the start
    /// by some word, and is labelled by their labels.
    pub fn to_dfa(&self) -> (r: DFA<CommunicativeHashSet<L>>)
        requires
            self.wf(),
        ensures
            r.wf(),
            self@.determinisation(r@),
            forall|w: Seq<char>| #[trigger] r@.accepts(w) == self@.accepts(w),
    {
        let ghost m = self@;
        let n = self.labels.len();
        let na = self.alphabet.len();
        let init = self.close(single(n, self.start));
        let mut subsets: Vec<Vec<bool>> = Vec::new();
        subsets.push(init);
        let mut delta: Vec<Vec<usize>> = Vec::new();
        let mut done: usize = 0;
        proof {
            assert(bitmaps(subsets@) =~= seq![init@]);
            assert(seq![init@].no_duplicates());
            lemma_bitmap_count(bitmaps(subsets@), n as nat);
        }
        while done < subsets.len()
            invariant
                m == self@,
                m.wf(),
                n == m.n(),
                na == m.alphabet.len(),
                1 <= subsets.len(),
                done <= subsets.len(),
                bitmaps(subsets@).no_duplicates(),
                forall|j: int| 0 <= j < subsets.len() ==> (#[trigger] subsets@[j]).len() == n,
                marked(subsets@[0]@) == m.initial(),
                delta.len() == done,
                forall|j: int| 0 <= j < done ==> (#[trigger] delta@[j]).len() == na,
                forall|j: int, k: int|
                    0 <= j < done && 0 <= k < na ==> (#[trigger] delta@[j]@[k]) < subsets.len() && marked(
                        subsets@[delta@[j]@[k] as int]@,
                    ) == m.post(marked(subsets@[j]@), m.alphabet[k]),
                subsets.len() <= pow2(n as nat),
            decreases pow2(n as nat) - done,
        {
            let mut row: Vec<usize> = Vec::new();
            let mut k: usize = 0;
            while k < na
                invariant
                    m == self@,
                    m.wf(),
                    n == m.n(),
                    na == m.alphabet.len(),
                    done < subsets.len(),
                    bitmaps(subsets@).no_duplicates(),
                    forall|j: int| 0 <= j < subsets.len() ==> (#[trigger] subsets@[j]).len() == n,
                    marked(subsets@[0]@) == m.initial(),
                    delta.len() == done,
                    forall|j: int| 0 <= j < done ==> (#[trigger] delta@[j]).len() == na,
                    forall|j: int, k: int|
                        0 <= j < done && 0 <= k < na ==> (#[trigger] delta@[j]@[k]) < subsets.len() && marked(
                            subsets@[delta@[j]@[k] as int]@,
                        ) == m.post(marked(subsets@[j]@), m.alphabet[k]),
                    subsets.len() <= pow2(n as nat),
                    k <= na,
                    row.len() == k,
                    forall|k2: int|
                        0 <= k2 < k ==> (#[trigger] row@[k2]) < subsets.len() && marked(subsets@[row@[k2] as int]@)
                            == m.post(marked(subsets@[done as int]@), m.alphabet[k2]),
                decreases na - k,
            {
                let next = self.post_bits(&subsets[done], self.alphabet[k]);
                match find_bits(&subsets, &next) {
                    Some(j) => {
                        row.push(j);
                    },
                    None => {
                        let ghost before = subsets@;
                        proof {
                            assert(bitmaps(before.push(next)) =~= bitmaps(before).push(next@));
                            assert forall|a: int, b: int| 0 <= a < b < before.len() + 1 implies bitmaps(before.push(next))[a] != bitmaps(before.push(next))[b] by {
                                if b == before.len() {
                                    assert(bitmaps(before)[a] == before[a]@);
                                }
                            }
                            lemma_bitmap_count(bitmaps(before.push(next)), n as nat);
                        }
                        subsets.push(next);
                        row.push(subsets.len() - 1);
                        proof {
                            assert forall|j: int| 0 <= j < before.len() implies subsets@[j] == before[j] by {}
                        }
                    },
                }
                k = k + 1;
            }
            delta.push(row);
            done = done + 1;
        }
        let mut labels: Vec<CommunicativeHashSet<L>> = Vec::new();
        let mut accepting: Vec<bool> = Vec::new();
        let mut j: usize = 0;
        while j < subsets.len()
            invariant
                m == self@,
                m.wf(),
                n == m.n(),
                forall|j2: int| 0 <= j2 < subsets.len() ==> (#[trigger] subsets@[j2]).len() == n,
                j <= subsets.len(),
                labels.len() == j,
                accepting.len() == j,
                forall|j2: int|
                    0 <= j2 < j ==> (#[trigger] labels@[j2]).wf() && labels@[j2].member_set() == m.label_set(
                        marked(subsets@[j2]@),
                    ),
                forall|j2: int| 0 <= j2 < j ==> #[trigger] accepting@[j2] == m.any_accepting(marked(subsets@[j2]@)),
            decreases subsets.len() - j,
        {
            labels.push(self.labels_of(&subsets[j]));
            accepting.push(self.any_accepting_bits(&subsets[j]));
            j = j + 1;
        }
        let alphabet = copy_symbols(&self.alphabet);
        let ghost lab = labels@;
        let r = DFA::from_parts(labels, alphabet, 0, accepting, delta);
        proof {
            let d = r@;
            let sets = Seq::new(subsets.len() as nat, |j: int| marked(subsets@[j]@));
            assert forall|j2: int| 0 <= j2 < d.n() implies m.in_range(#[trigger] sets[j2]) && d.labels[j2].to_set() == m.label_set(sets[j2]) by {
                assert(d.labels[j2] == lab[j2]@);
            }
            assert forall|a: int, b: int| 0 <= a < d.n() && 0 <= b < d.n() && a != b implies d.labels[a] != d.labels[b] by {
                if d.labels[a] == d.labels[b] {
                    assert(m.label_set(sets[a]) == m.label_set(sets[b]));
                    lemma_label_set_injective(m, sets[a], sets[b]);
                    lemma_marked_injective(subsets@[a]@, subsets@[b]@);
                    assert(bitmaps(subsets@)[a] == bitmaps(subsets@)[b]);
                }
            }
            assert forall|j2: int, k: int| 0 <= j2 < d.n() && 0 <= k < d.alphabet.len() implies #[trigger] d.delta[j2][k] == delta@[j2]@[k] as int by {}
            assert(d.wf());
            assert(m.subset_construction(d, sets));
            lemma_subset_construction_equivalent(m, d, sets);
        }
        r
    }
}

/// The one marked entry of a bitmap, if exactly one is marked.
fn single_marked(b: &Vec<bool>) -> (r: Option<usize>)
    ensures
        match r {
            Some(j) => j < b.len() && marked(b@) == set![j as int],
            None => forall|j: int| marked(b@) != set![j],
        },
{
    let mut found: Option<usize> = None;
    let mut i: usize = 0;
    while i < b.len()
        invariant
            i <= b.len(),
            match found {
                None => forall|t: int| 0 <= t < i ==> !b@[t],
                Some(j) => j < i && b@[j as int] && forall|t: int| 0 <= t < i && t != j ==> !b@[t],
            },
        decreases b.len() - i,
    {
        if b[i] {
            match found {
                Some(j) => {
                    proof {
                        assert forall|x: int| marked(b@) != set![x] by {
                            if marked(b@) == set![x] {
                                assert(marked(b@).contains(j as int));
                                assert(marked(b@).contains(i as int));
                            }
                        }
                    }
                    return None;
                },
                None => {
                    found = Some(i);
                },
            }
        }
        i = i + 1;
    }
    match found {
        None => {
            proof {
                assert forall|x: int| marked(b@) != set![x] by {
                    if marked(b@) == set![x] {
                        assert(set![x].contains(x));
                    }
                }
            }
            None
        },
        Some(j) => {
            proof {
                assert(marked(b@) =~= set![j as int]);
            }
            Some(j)
        },
    }
}

impl<L: StateIdentifier> NFA<L> {
    /// Whether every state has the trivial ε-closure and exactly one
    /// successor on each symbol of the alphabet.
    pub fn is_deterministic(&self) -> (r: bool)
        requires
            self.wf(),
        ensures
            r == self@.deterministic(),
    {
        let ghost m = self@;
        let n = self.labels.len();
        let mut i: usize = 0;
        while i < n
            invariant
                m == self@,
                m.wf(),
                n == m.n(),
                i <= n,
                forall|i2: int|
                    0 <= i2 < i ==> {
                        &&& #[trigger] m.closure(set![i2]) == set![i2]
                        &&& forall|c: char| m.alphabet.contains(c) ==> #[trigger] m.single_successor(i2, c)
                    },
            decreases n - i,
        {
            let c = self.close(single(n, i));
            proof {
                assert(marked(c@) == m.closure(set![i as int]));
            }
            match single_marked(&c) {
                Some(j) => {
                    if j != i {
                        proof {
                            lemma_closure_contains(m, set![i as int]);
                            assert(marked(c@).contains(i as int));
                        }
                        return false;
                    }
                    proof {
                        assert(m.closure(set![i as int]) == set![i as int]);
                    }
                },
                None => {
                    return false;
                },
            }
            let mut k: usize = 0;
            while k < self.alphabet.len()
                invariant
                    m == self@,
                    m.wf(),
                    n == m.n(),
                    i < n,
                    k <= m.alphabet.len(),
                    forall|k2: int| 0 <= k2 < k ==> #[trigger] m.single_successor(i as int, m.alphabet[k2]),
                    m.closure(set![i as int]) == set![i as int],
                    forall|i2: int|
                        0 <= i2 < i ==> {
                            &&& #[trigger] m.closure(set![i2]) == set![i2]
                            &&& forall|c: char| m.alphabet.contains(c) ==> #[trigger] m.single_successor(i2, c)
                        },
                decreases m.alphabet.len() - k,
            {
                let st = self.step_bits(&single(n, i), self.alphabet[k]);
                match single_marked(&st) {
                    Some(j) => {
                        proof {
                            assert(m.step(set![i as int], m.alphabet[k as int]) == set![j as int]);
                        }
                    },
                    None => {
                        proof {
                            let c = m.alphabet[k as int];
                            assert(m.alphabet.contains(c));
                            assert(marked(st@) == m.step(set![i as int], c));
                            if m.deterministic() {
                                assert(m.closure(set![i as int]) == set![i as int]);
                                assert(m.single_successor(i as int, c));
                                let j = choose|j: int| m.step(set![i as int], c) == set![j];
                                assert(marked(st@) == set![j]);
                            }
                        }
                        return false;
                    },
                }
                k = k + 1;
            }
            proof {
                assert forall|c: char| m.alphabet.contains(c) implies #[trigger] m.single_successor(i as int, c) by {
                    let k2 = choose|k2: int| 0 <= k2 < m.alphabet.len() && m.alphabet[k2] == c;
                }
                assert(m.closure(set![i as int]) == set![i as int]);
                assert forall|i2: int| 0 <= i2 < i + 1 implies {
                    &&& #[trigger] m.closure(set![i2]) == set![i2]
                    &&& forall|c: char| m.alphabet.contains(c) ==> #[trigger] m.single_successor(i2, c)
                } by {
                    if i2 == i {
                        assert forall|c: char| m.alphabet.contains(c) implies #[trigger] m.single_successor(i2, c) by {
                            assert(m.single_successor(i as int, c));
                        }
                    }
                }
            }
            i = i + 1;
        }
        true
    }
}

impl<L: StateIdentifier> NFA<L> {
    /// The states for rendering: index, label and whether it accepts.
    pub fn nodes(&self) -> (r: Vec<(usize, L, bool)>)
        requires
            self.wf(),
        ensures
            r.len() == self@.n(),
            forall|i: int|
                0 <= i < r.len() ==> (#[trigger] r@[i]).0 == i && r@[i].1@ == self@.labels[i] && r@[i].2
                    == self@.accepting[i],
    {
        let ghost m = self@;
        let mut r: Vec<(usize, L, bool)> = Vec::new();
        let mut i: usize = 0;
        while i < self.labels.len()
            invariant
                m == self@,
                m.wf(),
                i <= m.n(),
                r.len() == i,
                forall|j: int|
                    0 <= j < i ==> (#[trigger] r@[j]).0 == j && r@[j].1@ == m.labels[j] && r@[j].2 == m.accepting[j],
            decreases self.labels.len() - i,
        {
            r.push((i, self.labels[i].duplicate(), self.accepting[i]));
            i = i + 1;
        }
        r
    }

    /// The moves for rendering: source index, target index and symbol
    /// (`None` for ε), each move once.
    pub fn edges(&self) -> (r: Vec<(usize, usize, Option<char>)>)
        requires
            self.wf(),
        ensures
            r@.no_duplicates(),
            forall|e: (usize, usize, Option<char>)| #[trigger] r@.contains(e) <==> self@.edge(e.0 as int, e.2, e.1 as int),
    {
        let ghost m = self@;
        let mut r: Vec<(usize, usize, Option<char>)> = Vec::new();
        let mut i: usize = 0;
        while i < self.labels.len()
            invariant
                m == self@,
                m.wf(),
                i <= m.n(),
                r@.no_duplicates(),
                forall|e: (usize, usize, Option<char>)| #[trigger] r@.contains(e) <==> (e.0 < i && m.edge(e.0 as int, e.2, e.1 as int)),
            decreases self.labels.len() - i,
        {
            let row = &self.edges[i];
            let mut k: usize = 0;
            while k < row.len()
                invariant
                    m == self@,
                    m.wf(),
                    i < m.n(),
                    row == self.edges@[i as int],
                    k <= row.len(),
                    r@.no_duplicates(),
                    forall|e: (usize, usize, Option<char>)| #[trigger] r@.contains(e) <==> ((e.0 < i && m.edge(e.0 as int, e.2, e.1 as int)) || (e.0 == i && exists|q: int| 0 <= q < k && #[trigger] m.edges[i as int][q] == (e.2, e.1 as int))),
                decreases row.len() - k,
            {
                let entry = row[k];
                proof {
                    self.lemma_view_edge(i as int, k as int);
                }
                let e = (i, entry.1, entry.0);
                let mut present = false;
                let mut p: usize = 0;
                while p < r.len()
                    invariant
                        p <= r.len(),
                        present == r@.subrange(0, p as int).contains(e),
                    decreases r.len() - p,
                {
                    proof {
                        lemma_push_contains(r@.subrange(0, p as int), r@[p as int]);
                        assert(r@.subrange(0, p + 1) =~= r@.subrange(0, p as int).push(r@[p as int]));
                    }
                    if r[p].0 == e.0 && r[p].1 == e.1 && same_symbol(r[p].2, e.2) {
                        present = true;
                    }
                    p = p + 1;
                }
                proof {
                    assert(r@.subrange(0, p as int) =~= r@);
                    lemma_push_contains(r@, e);
                }
                let ghost before = r@;
                if !present {
                    r.push(e);
                    proof {
                        assert forall|a: int, b: int| 0 <= a < b < r.len() implies r@[a] != r@[b] by {
                            if b == before.len() {
                                assert(before.contains(before[a]));
                            }
                        }
                    }
                }
                proof {
                    assert forall|e2: (usize, usize, Option<char>)| #[trigger] r@.contains(e2) <==> ((e2.0 < i && m.edge(e2.0 as int, e2.2, e2.1 as int)) || (e2.0 == i && exists|q: int| 0 <= q < k + 1 && #[trigger] m.edges[i as int][q] == (e2.2, e2.1 as int))) by {
                        if e2.0 == i && exists|q: int| 0 <= q < k + 1 && #[trigger] m.edges[i as int][q] == (e2.2, e2.1 as int) {
                            let q = choose|q: int| 0 <= q < k + 1 && #[trigger] m.edges[i as int][q] == (e2.2, e2.1 as int);
                            if q < k {
                                assert(before.contains(e2));
                            } else {
                                assert(e2 == e);
                            }
                        }
                        if before.contains(e2) {
                        }
                    }
                }
                k = k + 1;
            }
            proof {
                assert forall|e2: (usize, usize, Option<char>)| #[trigger] r@.contains(e2) <==> (e2.0 < i + 1 && m.edge(e2.0 as int, e2.2, e2.1 as int)) by {
                    if e2.0 == i && m.edge(e2.0 as int, e2.2, e2.1 as int) {
                        let q = choose|q: int| 0 <= q < m.edges[i as int].len() && #[trigger] m.edges[i as int][q] == (e2.2, e2.1 as int);
                    }
                }
            }
            i = i + 1;
        }
        proof {
            assert forall|e2: (usize, usize, Option<char>)| #[trigger] r@.contains(e2) <==> m.edge(e2.0 as int, e2.2, e2.1 as int) by {
                if m.edge(e2.0 as int, e2.2, e2.1 as int) {
                    assert(e2.0 < m.n());
                }
            }
        }
        r
    }
}

} // verus!
