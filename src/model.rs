use vstd::prelude::*;
use vstd::relations::injective_on;
use vstd::set_lib::{lemma_int_range, lemma_len_subset, lemma_map_size, lemma_map_size_bound, lemma_set_disjoint_lens, set_int_range};

verus! {

/// The mathematical model of an ε-NFA. States are the indices `0..labels.len()`;
/// `labels[i]` is the label of state `i`. `edges[i]` lists the moves out of
/// state `i`: `(None, j)` is an ε move to `j`, `(Some(c), j)` a move on `c`.
pub struct NfaModel<V> {
    pub labels: Seq<V>,
    pub alphabet: Seq<char>,
    pub start: int,
    pub accepting: Seq<bool>,
    pub edges: Seq<Seq<(Option<char>, int)>>,
}

/// The mathematical model of a DFA. States are the indices `0..labels.len()`;
/// `delta[i][k]` is the successor of state `i` on `alphabet[k]`.
pub struct DfaModel<V> {
    pub labels: Seq<V>,
    pub alphabet: Seq<char>,
    pub start: int,
    pub accepting: Seq<bool>,
    pub delta: Seq<Seq<int>>,
}

/// The set of indices that a bitmap marks.
pub open spec fn marked(b: Seq<bool>) -> Set<int> {
    Set::new(|i: int| 0 <= i < b.len() && b[i])
}

impl<V> NfaModel<V> {
    pub open spec fn n(self) -> int {
        self.labels.len() as int
    }

    pub open spec fn wf(self) -> bool {
        &&& self.labels.no_duplicates()
        &&& self.alphabet.no_duplicates()
        &&& 0 <= self.start < self.n()
        &&& self.accepting.len() == self.n()
        &&& self.edges.len() == self.n()
        &&& forall|i: int, k: int|
            0 <= i < self.n() && 0 <= k < self.edges[i].len() ==> {
                let e = #[trigger] self.edges[i][k];
                &&& 0 <= e.1 < self.n()
                &&& (e.0 matches Some(c) ==> self.alphabet.contains(c))
            }
    }

    /// Whether `S` holds only states of the automaton.
    pub open spec fn in_range(self, s: Set<int>) -> bool {
        forall|i: int| s.contains(i) ==> 0 <= i < self.n()
    }

    /// There is a move from `i` to `j` on `sym` (`None` for ε).
    pub open spec fn edge(self, i: int, sym: Option<char>, j: int) -> bool {
        0 <= i < self.n() && exists|k: int|
            0 <= k < self.edges[i].len() && #[trigger] self.edges[i][k] == (sym, j)
    }

    /// `p` is a path of ε moves.
    pub open spec fn eps_path(self, p: Seq<int>) -> bool {
        &&& p.len() >= 1
        &&& forall|k: int| 0 <= k < p.len() - 1 ==> self.edge(#[trigger] p[k], None, p[k + 1])
    }

    /// `j` is reachable by ε moves (zero or more) from a state of `s`.
    pub open spec fn eps_reaches(self, s: Set<int>, j: int) -> bool {
        exists|p: Seq<int>| #[trigger] self.eps_path(p) && s.contains(p[0]) && p.last() == j
    }

    /// The ε-closure of a set of states.
    pub open spec fn closure(self, s: Set<int>) -> Set<int> {
        Set::new(|j: int| self.eps_reaches(s, j))
    }

    /// The states reached from `s` by one move on `c`.
    pub open spec fn step(self, s: Set<int>, c: char) -> Set<int> {
        Set::new(|j: int| exists|i: int| s.contains(i) && #[trigger] self.edge(i, Some(c), j))
    }

    /// One input symbol: a move on `c`, then the ε-closure.
    pub open spec fn post(self, s: Set<int>, c: char) -> Set<int> {
        self.closure(self.step(s, c))
    }

    pub open spec fn any_accepting(self, s: Set<int>) -> bool {
        exists|i: int| s.contains(i) && 0 <= i < self.n() && #[trigger] self.accepting[i]
    }

    /// The set of states after reading `w` from the states `s`.
    pub open spec fn run_from(self, s: Set<int>, w: Seq<char>) -> Set<int>
        decreases w.len(),
    {
        if w.len() == 0 {
            s
        } else {
            self.run_from(self.post(s, w[0]), w.drop_first())
        }
    }

    pub open spec fn accepts_from(self, s: Set<int>, w: Seq<char>) -> bool {
        self.any_accepting(self.run_from(s, w))
    }

    /// The states at the start: the ε-closure of the start state.
    pub open spec fn initial(self) -> Set<int> {
        self.closure(set![self.start])
    }

    /// The automaton accepts `w`.
    pub open spec fn accepts(self, w: Seq<char>) -> bool {
        self.accepts_from(self.initial(), w)
    }

    /// The index of the state labelled `v`.
    pub open spec fn index(self, v: V) -> int {
        self.labels.index_of(v)
    }

    /// The targets of the moves on `sym` out of the state labelled `v`;
    /// empty when no state has that label.
    pub open spec fn successors(self, v: V, sym: Option<char>) -> Set<int> {
        Set::new(
            |j: int| exists|i: int| 0 <= i < self.n() && self.labels[i] == v && #[trigger] self.edge(i, sym, j),
        )
    }

    /// The labels of a set of states.
    pub open spec fn label_set(self, s: Set<int>) -> Set<V> {
        Set::new(|v: V| exists|i: int| s.contains(i) && 0 <= i < self.n() && self.labels[i] == v)
    }

    /// Every state has the trivial ε-closure and exactly one successor on
    /// each symbol of the alphabet.
    pub open spec fn deterministic(self) -> bool {
        forall|i: int|
            0 <= i < self.n() ==> {
                &&& #[trigger] self.closure(set![i]) == set![i]
                &&& forall|c: char| self.alphabet.contains(c) ==> #[trigger] self.single_successor(i, c)
            }
    }

    /// One move on `c` from state `i` reaches exactly one state.
    pub open spec fn single_successor(self, i: int, c: char) -> bool {
        exists|j: int| self.step(set![i], c) == set![j]
    }
}

/// Every state of a set is in its ε-closure.
pub proof fn lemma_closure_contains<V>(m: NfaModel<V>, s: Set<int>)
    ensures
        s.subset_of(m.closure(s)),
{
    assert forall|i: int| s.contains(i) implies m.closure(s).contains(i) by {
        let p = seq![i];
        assert(m.eps_path(p));
    }
}

/// The ε-closure is closed under ε moves.
pub proof fn lemma_closure_extend<V>(m: NfaModel<V>, s: Set<int>, x: int, t: int)
    requires
        m.closure(s).contains(x),
        m.edge(x, None, t),
    ensures
        m.closure(s).contains(t),
{
    let p = choose|p: Seq<int>| #[trigger] m.eps_path(p) && s.contains(p[0]) && p.last() == x;
    let q = p.push(t);
    assert forall|k: int| 0 <= k < q.len() - 1 implies m.edge(#[trigger] q[k], None, q[k + 1]) by {
        if k < p.len() - 1 {
            assert(q[k] == p[k] && q[k + 1] == p[k + 1]);
        }
    }
    assert(m.eps_path(q) && s.contains(q[0]) && q.last() == t);
}

/// A set that holds `s` and is closed under ε moves holds the ε-closure of `s`.
pub proof fn lemma_closure_least<V>(m: NfaModel<V>, s: Set<int>, r: Set<int>)
    requires
        s.subset_of(r),
        forall|x: int, t: int| r.contains(x) && #[trigger] m.edge(x, None, t) ==> r.contains(t),
    ensures
        m.closure(s).subset_of(r),
{
    assert forall|j: int| m.closure(s).contains(j) implies r.contains(j) by {
        let p = choose|p: Seq<int>| #[trigger] m.eps_path(p) && s.contains(p[0]) && p.last() == j;
        lemma_path_in_closed(m, p, r);
    }
}

proof fn lemma_path_in_closed<V>(m: NfaModel<V>, p: Seq<int>, r: Set<int>)
    requires
        m.eps_path(p),
        r.contains(p[0]),
        forall|x: int, t: int| r.contains(x) && #[trigger] m.edge(x, None, t) ==> r.contains(t),
    ensures
        r.contains(p.last()),
    decreases p.len(),
{
    if p.len() > 1 {
        let q = p.drop_last();
        assert forall|k: int| 0 <= k < q.len() - 1 implies m.edge(#[trigger] q[k], None, q[k + 1]) by {
            assert(q[k] == p[k] && q[k + 1] == p[k + 1]);
        }
        lemma_path_in_closed(m, q, r);
        assert(m.edge(p[p.len() - 2], None, p[p.len() - 1]));
    }
}

/// Nothing is reached from no state.
pub proof fn lemma_run_from_empty<V>(m: NfaModel<V>, w: Seq<char>)
    ensures
        m.run_from(Set::empty(), w) == Set::<int>::empty(),
    decreases w.len(),
{
    if w.len() > 0 {
        assert(m.step(Set::empty(), w[0]) =~= Set::<int>::empty());
        assert(m.closure(Set::empty()) =~= Set::<int>::empty());
        lemma_run_from_empty(m, w.drop_first());
    }
}

impl<V> DfaModel<V> {
    pub open spec fn n(self) -> int {
        self.labels.len() as int
    }

    pub open spec fn wf(self) -> bool {
        &&& self.labels.no_duplicates()
        &&& self.alphabet.no_duplicates()
        &&& 0 <= self.start < self.n()
        &&& self.accepting.len() == self.n()
        &&& self.delta.len() == self.n()
        &&& forall|i: int| 0 <= i < self.n() ==> #[trigger] self.delta[i].len() == self.alphabet.len()
        &&& forall|i: int, k: int|
            0 <= i < self.n() && 0 <= k < self.alphabet.len() ==> 0 <= #[trigger] self.delta[i][k]
                < self.n()
    }

    /// The successor of `i` on `c`, when `c` is in the alphabet.
    pub open spec fn next(self, i: int, c: char) -> int {
        self.delta[i][self.alphabet.index_of(c)]
    }

    /// The state reached from `i` by reading `w`; `None` once a symbol
    /// outside the alphabet is read.
    pub open spec fn run_from(self, i: int, w: Seq<char>) -> Option<int>
        decreases w.len(),
    {
        if w.len() == 0 {
            Some(i)
        } else if self.alphabet.contains(w[0]) {
            self.run_from(self.next(i, w[0]), w.drop_first())
        } else {
            None
        }
    }

    pub open spec fn accepts_from(self, i: int, w: Seq<char>) -> bool {
        match self.run_from(i, w) {
            Some(j) => self.accepting[j],
            None => false,
        }
    }

    pub open spec fn accepts(self, w: Seq<char>) -> bool {
        self.accepts_from(self.start, w)
    }

    /// States `i` and `j` accept the same words.
    pub open spec fn equivalent(self, i: int, j: int) -> bool {
        forall|w: Seq<char>| #[trigger] self.accepts_from(i, w) == self.accepts_from(j, w)
    }

    /// No two distinct states accept the same words.
    pub open spec fn reduced(self) -> bool {
        forall|i: int, j: int|
            0 <= i < self.n() && 0 <= j < self.n() && i != j ==> !#[trigger] self.equivalent(i, j)
    }

    /// Every state has one successor on each symbol of the alphabet, within the automaton.
    pub open spec fn deterministic(self) -> bool {
        forall|i: int, c: char|
            0 <= i < self.n() && #[trigger] self.alphabet.contains(c) ==> 0 <= #[trigger] self.next(i, c)
                < self.n()
    }
}

pub proof fn lemma_next_in_range<V>(m: DfaModel<V>, i: int, c: char)
    requires
        m.wf(),
        0 <= i < m.n(),
        m.alphabet.contains(c),
    ensures
        0 <= m.alphabet.index_of(c) < m.alphabet.len(),
        m.alphabet[m.alphabet.index_of(c)] == c,
        0 <= m.next(i, c) < m.n(),
{
}

/// A well-formed DFA is deterministic.
pub proof fn lemma_wf_deterministic<V>(m: DfaModel<V>)
    requires
        m.wf(),
    ensures
        m.deterministic(),
{
    assert forall|i: int, c: char| 0 <= i < m.n() && #[trigger] m.alphabet.contains(c) implies 0
        <= #[trigger] m.next(i, c) < m.n() by {
        lemma_next_in_range(m, i, c);
    }
}

impl<V> NfaModel<V> {
    /// `d` is a subset construction of this automaton: state `j` of `d`
    /// stands for the set of states `sets[j]`, is labelled by their labels,
    /// accepts when one of them does, and moves on each symbol to the state
    /// that stands for the set reached by that symbol.
    pub open spec fn subset_construction(self, d: DfaModel<Seq<V>>, sets: Seq<Set<int>>) -> bool {
        &&& d.wf()
        &&& d.alphabet == self.alphabet
        &&& sets.len() == d.n()
        &&& sets[d.start] == self.initial()
        &&& forall|j: int|
            0 <= j < d.n() ==> {
                &&& self.in_range(#[trigger] sets[j])
                &&& d.labels[j].to_set() == self.label_set(sets[j])
                &&& d.accepting[j] == self.any_accepting(sets[j])
            }
        &&& forall|j: int, k: int|
            0 <= j < d.n() && 0 <= k < d.alphabet.len() ==> sets[#[trigger] d.delta[j][k]] == self.post(
                sets[j],
                d.alphabet[k],
            )
    }
}

impl<V> NfaModel<V> {
    /// `d` is a determinisation of this automaton.
    pub open spec fn determinisation(self, d: DfaModel<Seq<V>>) -> bool {
        exists|sets: Seq<Set<int>>| self.subset_construction(d, sets)
    }
}

/// No move on a symbol outside the alphabet.
pub proof fn lemma_step_outside_alphabet<V>(m: NfaModel<V>, s: Set<int>, c: char)
    requires
        m.wf(),
        !m.alphabet.contains(c),
    ensures
        m.post(s, c) == Set::<int>::empty(),
{
    assert forall|j: int| !m.step(s, c).contains(j) by {
        if m.step(s, c).contains(j) {
            let i = choose|i: int| s.contains(i) && #[trigger] m.edge(i, Some(c), j);
            let k = choose|k: int| 0 <= k < m.edges[i].len() && #[trigger] m.edges[i][k] == (Some(c), j);
        }
    }
    assert(m.step(s, c) =~= Set::<int>::empty());
    assert(m.closure(Set::empty()) =~= Set::<int>::empty());
}

proof fn lemma_subset_construction_from<V>(m: NfaModel<V>, d: DfaModel<Seq<V>>, sets: Seq<Set<int>>, j: int, w: Seq<char>)
    requires
        m.wf(),
        m.subset_construction(d, sets),
        0 <= j < d.n(),
    ensures
        d.accepts_from(j, w) == m.accepts_from(sets[j], w),
    decreases w.len(),
{
    if w.len() == 0 {
        assert(sets[j] == sets[j]);
    } else {
        let c = w[0];
        if d.alphabet.contains(c) {
            lemma_next_in_range(d, j, c);
            let k = d.alphabet.index_of(c);
            assert(sets[d.delta[j][k]] == m.post(sets[j], d.alphabet[k]));
            lemma_subset_construction_from(m, d, sets, d.delta[j][k], w.drop_first());
        } else {
            lemma_step_outside_alphabet(m, sets[j], c);
            lemma_run_from_empty(m, w.drop_first());
        }
    }
}

/// A subset construction accepts the same words as the ε-NFA it was built from.
pub proof fn lemma_subset_construction_equivalent<V>(m: NfaModel<V>, d: DfaModel<Seq<V>>, sets: Seq<Set<int>>)
    requires
        m.wf(),
        m.subset_construction(d, sets),
    ensures
        forall|w: Seq<char>| #[trigger] d.accepts(w) == m.accepts(w),
{
    assert forall|w: Seq<char>| #[trigger] d.accepts(w) == m.accepts(w) by {
        lemma_subset_construction_from(m, d, sets, d.start, w);
    }
}

pub open spec fn pow2(n: nat) -> nat
    decreases n,
{
    if n == 0 {
        1
    } else {
        2 * pow2((n - 1) as nat)
    }
}

/// All bitmaps of length `n`.
pub open spec fn all_bitmaps(n: nat) -> Set<Seq<bool>> {
    Set::new(|b: Seq<bool>| b.len() == n)
}

proof fn lemma_all_bitmaps(n: nat)
    ensures
        all_bitmaps(n).finite(),
        all_bitmaps(n).len() == pow2(n),
    decreases n,
{
    if n == 0 {
        assert forall|b: Seq<bool>| #[trigger] all_bitmaps(0).contains(b) <==> set![Seq::<bool>::empty()].contains(b) by {
            if b.len() == 0 {
                assert(b =~= Seq::<bool>::empty());
            }
        }
        assert(all_bitmaps(0) =~= set![Seq::<bool>::empty()]);
    } else {
        let p = (n - 1) as nat;
        lemma_all_bitmaps(p);
        let prev = all_bitmaps(p);
        let f = |b: Seq<bool>| b.push(false);
        let t = |b: Seq<bool>| b.push(true);
        assert(injective_on(f, prev)) by {
            assert forall|x: Seq<bool>, y: Seq<bool>| prev.contains(x) && prev.contains(y) && #[trigger] f(x) == #[trigger] f(y) implies x == y by {
                assert(x =~= f(x).drop_last());
                assert(y =~= f(y).drop_last());
            }
        }
        assert(injective_on(t, prev)) by {
            assert forall|x: Seq<bool>, y: Seq<bool>| prev.contains(x) && prev.contains(y) && #[trigger] t(x) == #[trigger] t(y) implies x == y by {
                assert(x =~= t(x).drop_last());
                assert(y =~= t(y).drop_last());
            }
        }
        let a = prev.map(f);
        let c = prev.map(t);
        lemma_map_size(prev, a, f);
        lemma_map_size(prev, c, t);
        assert(a.disjoint(c)) by {
            assert forall|b: Seq<bool>| a.contains(b) implies !c.contains(b) by {
                let x = choose|x: Seq<bool>| prev.contains(x) && f(x) == b;
                if c.contains(b) {
                    let y = choose|y: Seq<bool>| prev.contains(y) && t(y) == b;
                    assert(f(x)[p as int] != t(y)[p as int]);
                }
            }
        }
        assert forall|b: Seq<bool>| #[trigger] all_bitmaps(n).contains(b) <==> (a + c).contains(b) by {
            if b.len() == n {
                let x = b.drop_last();
                assert(prev.contains(x));
                if b.last() {
                    assert(b =~= t(x));
                    assert(c.contains(t(x)));
                } else {
                    assert(b =~= f(x));
                    assert(a.contains(f(x)));
                }
            }
            if a.contains(b) {
                let x = choose|x: Seq<bool>| prev.contains(x) && f(x) == b;
            }
            if c.contains(b) {
                let x = choose|x: Seq<bool>| prev.contains(x) && t(x) == b;
            }
        }
        assert(all_bitmaps(n) =~= a + c);
        lemma_set_disjoint_lens(a, c);
    }
}

/// Distinct bitmaps of length `n` number at most 2^n.
pub proof fn lemma_bitmap_count(s: Seq<Seq<bool>>, n: nat)
    requires
        s.no_duplicates(),
        forall|i: int| 0 <= i < s.len() ==> (#[trigger] s[i]).len() == n,
    ensures
        s.len() <= pow2(n),
{
    lemma_all_bitmaps(n);
    s.unique_seq_to_set();
    assert(s.to_set().subset_of(all_bitmaps(n)));
    vstd::set_lib::lemma_len_subset(s.to_set(), all_bitmaps(n));
}

/// State `i` of `a` and state `j` of `b` accept the same words.
pub open spec fn same_language<V, W>(a: DfaModel<V>, i: int, b: DfaModel<W>, j: int) -> bool {
    forall|w: Seq<char>| #[trigger] a.accepts_from(i, w) == b.accepts_from(j, w)
}

/// Some state of `q` accepts the same words as state `s` of `d`.
pub open spec fn has_counterpart<V, W>(q: DfaModel<V>, d: DfaModel<W>, s: int) -> bool {
    exists|c: int| 0 <= c < q.n() && #[trigger] same_language(q, c, d, s)
}

impl<V> DfaModel<V> {
    /// `q` is a minimisation of this DFA: it accepts the same words, has no
    /// more states, no two of its states accept the same words, every state
    /// of this DFA has a state of `q` that accepts the same words, and each
    /// state of `q` is labelled by the labels of exactly those states.
    pub open spec fn minimisation(self, q: DfaModel<Seq<V>>) -> bool {
        &&& q.wf()
        &&& q.alphabet == self.alphabet
        &&& q.n() <= self.n()
        &&& forall|w: Seq<char>| #[trigger] q.accepts(w) == self.accepts(w)
        &&& q.reduced()
        &&& forall|s: int| 0 <= s < self.n() ==> #[trigger] has_counterpart(q, self, s)
        &&& forall|c: int, s: int|
            0 <= c < q.n() && 0 <= s < self.n() ==> (q.labels[c].contains(self.labels[s]) <==> #[trigger] same_language(
                q,
                c,
                self,
                s,
            ))
    }

    /// What state `s` shows of a class assignment: its class, whether it
    /// accepts, and the class of its successor on each symbol.
    pub open spec fn signature(self, class: Seq<int>, s: int) -> Seq<int> {
        seq![class[s], if self.accepting[s] { 1int } else { 0int }] + Seq::new(
            self.alphabet.len(),
            |k: int| class[self.delta[s][k]],
        )
    }

    /// States in different classes accept different words.
    pub open spec fn separates(self, class: Seq<int>) -> bool {
        forall|s1: int, s2: int|
            0 <= s1 < self.n() && 0 <= s2 < self.n() && class[s1] != class[s2] ==> !#[trigger] self.equivalent(s1, s2)
    }

    /// States in one class agree on acceptance and on the classes of their successors.
    pub open spec fn stable(self, class: Seq<int>) -> bool {
        forall|s1: int, s2: int|
            0 <= s1 < self.n() && 0 <= s2 < self.n() && class[s1] == class[s2] ==> #[trigger] self.signature(class, s1)
                == #[trigger] self.signature(class, s2)
    }
}

/// `class` maps `0..class.len()` onto `0..k`.
pub open spec fn partition(class: Seq<int>, k: int) -> bool {
    &&& forall|s: int| 0 <= s < class.len() ==> 0 <= #[trigger] class[s] < k
    &&& forall|c: int| 0 <= c < k ==> #[trigger] used(class, c)
}

/// Some state has class `c`.
pub open spec fn used(class: Seq<int>, c: int) -> bool {
    exists|s: int| 0 <= s < class.len() && class[s] == c
}

proof fn lemma_accepts_from_step<V>(d: DfaModel<V>, s: int, k: int, w: Seq<char>)
    requires
        d.wf(),
        0 <= s < d.n(),
        0 <= k < d.alphabet.len(),
    ensures
        d.accepts_from(s, seq![d.alphabet[k]] + w) == d.accepts_from(d.delta[s][k], w),
{
    let c = d.alphabet[k];
    let cw = seq![c] + w;
    assert(cw[0] == c);
    assert(cw.drop_first() =~= w);
    assert(d.alphabet.contains(c));
    assert(d.alphabet.index_of(c) == k);
}

/// States that accept the same words have successors that accept the same words.
proof fn lemma_equivalent_successors<V>(d: DfaModel<V>, s1: int, s2: int, k: int)
    requires
        d.wf(),
        0 <= s1 < d.n(),
        0 <= s2 < d.n(),
        0 <= k < d.alphabet.len(),
        d.equivalent(s1, s2),
    ensures
        d.equivalent(d.delta[s1][k], d.delta[s2][k]),
{
    assert forall|w: Seq<char>| #[trigger] d.accepts_from(d.delta[s1][k], w) == d.accepts_from(d.delta[s2][k], w) by {
        lemma_accepts_from_step(d, s1, k, w);
        lemma_accepts_from_step(d, s2, k, w);
        assert(d.accepts_from(s1, seq![d.alphabet[k]] + w) == d.accepts_from(s2, seq![d.alphabet[k]] + w));
    }
}

/// Refining by signatures keeps states that accept different words apart.
pub proof fn lemma_refine_separates<V>(d: DfaModel<V>, class: Seq<int>, next: Seq<int>)
    requires
        d.wf(),
        class.len() == d.n(),
        d.separates(class),
        forall|s1: int, s2: int|
            0 <= s1 < d.n() && 0 <= s2 < d.n() ==> (next[s1] == next[s2] <==> #[trigger] d.signature(class, s1)
                == #[trigger] d.signature(class, s2)),
    ensures
        d.separates(next),
{
    assert forall|s1: int, s2: int| 0 <= s1 < d.n() && 0 <= s2 < d.n() && next[s1] != next[s2] implies !#[trigger] d.equivalent(s1, s2) by {
        if d.equivalent(s1, s2) {
            let g1 = d.signature(class, s1);
            let g2 = d.signature(class, s2);
            assert(d.accepts_from(s1, Seq::empty()) == d.accepts_from(s2, Seq::empty()));
            assert forall|i: int| 0 <= i < g1.len() implies g1[i] == g2[i] by {
                if i >= 2 {
                    let k = i - 2;
                    lemma_equivalent_successors(d, s1, s2, k);
                    assert(0 <= d.delta[s1][k] < d.n());
                    assert(0 <= d.delta[s2][k] < d.n());
                }
            }
            assert(g1 =~= g2);
        }
    }
}

pub open spec fn pick(next: Seq<int>, x: int) -> int {
    choose|t: int| 0 <= t < next.len() && next[t] == x
}

/// The class of state `s` is the class of a state picked for some refined class in `dom`.
pub open spec fn covered(class: Seq<int>, next: Seq<int>, dom: Set<int>, s: int) -> bool {
    exists|x: int| dom.contains(x) && class[pick(next, x)] == class[s]
}

proof fn lemma_cover(class: Seq<int>, next: Seq<int>, k: int, nk: int, dom: Set<int>)
    requires
        0 <= k,
        0 <= nk,
        next.len() == class.len(),
        partition(class, k),
        partition(next, nk),
        forall|s1: int, s2: int|
            0 <= s1 < class.len() && 0 <= s2 < class.len() && #[trigger] next[s1] == #[trigger] next[s2] ==> class[s1]
                == class[s2],
        dom.subset_of(set_int_range(0, nk)),
        forall|s: int| 0 <= s < class.len() ==> #[trigger] covered(class, next, dom, s),
    ensures
        dom.map(|x: int| class[pick(next, x)]) == set_int_range(0, k),
{
    let g = |x: int| class[pick(next, x)];
    let img = set_int_range(0, k);
    assert forall|c: int| #[trigger] dom.map(g).contains(c) <==> img.contains(c) by {
        if dom.map(g).contains(c) {
            let x = choose|x: int| dom.contains(x) && g(x) == c;
            assert(used(next, x));
            let t = pick(next, x);
        }
        if img.contains(c) {
            assert(used(class, c));
            let s = choose|s: int| 0 <= s < class.len() && class[s] == c;
            assert(covered(class, next, dom, s));
            let x = choose|x: int| dom.contains(x) && class[pick(next, x)] == class[s];
            assert(g(x) == c);
        }
    }
    assert(dom.map(g) =~= img);
}

/// A refinement of a partition onto `0..k` has at least `k` classes, and
/// exactly `k` only when it splits no class.
pub proof fn lemma_refine_count(class: Seq<int>, next: Seq<int>, k: int, nk: int)
    requires
        0 <= k,
        0 <= nk,
        next.len() == class.len(),
        partition(class, k),
        partition(next, nk),
        forall|s1: int, s2: int|
            0 <= s1 < class.len() && 0 <= s2 < class.len() && #[trigger] next[s1] == #[trigger] next[s2] ==> class[s1]
                == class[s2],
    ensures
        k <= nk,
        nk == k ==> forall|s1: int, s2: int|
            0 <= s1 < class.len() && 0 <= s2 < class.len() && #[trigger] class[s1] == #[trigger] class[s2] ==> next[s1]
                == next[s2],
{
    let g = |x: int| class[pick(next, x)];
    let dom = set_int_range(0, nk);
    lemma_int_range(0, nk);
    lemma_int_range(0, k);
    assert forall|s: int| 0 <= s < class.len() implies #[trigger] covered(class, next, dom, s) by {
        let x = next[s];
        assert(used(next, x));
        let t = pick(next, x);
        assert(dom.contains(x));
        assert(class[pick(next, x)] == class[s]);
    }
    lemma_cover(class, next, k, nk, dom);
    lemma_map_size_bound(dom, set_int_range(0, k), g);
    if nk == k {
        assert forall|s1: int, s2: int|
            0 <= s1 < class.len() && 0 <= s2 < class.len() && #[trigger] class[s1] == #[trigger] class[s2] implies next[s1]
                == next[s2] by {
            if next[s1] != next[s2] {
                let x1 = next[s1];
                let smaller = dom.remove(x1);
                assert forall|s: int| 0 <= s < class.len() implies #[trigger] covered(class, next, smaller, s) by {
                    let x = next[s];
                    assert(used(next, x));
                    let t = pick(next, x);
                    if x == x1 {
                        let x2 = next[s2];
                        assert(used(next, x2));
                        let t2 = pick(next, x2);
                        assert(smaller.contains(x2));
                        assert(class[pick(next, x2)] == class[s2]);
                        assert(class[pick(next, x)] == class[s]);
                    } else {
                        assert(smaller.contains(x));
                        assert(class[pick(next, x)] == class[s]);
                    }
                }
                lemma_cover(class, next, k, nk, smaller);
                lemma_map_size_bound(smaller, set_int_range(0, k), g);
            }
        }
    }
}

/// Under a stable class assignment, states of one class accept the same words.
pub proof fn lemma_stable_same_words<V>(d: DfaModel<V>, class: Seq<int>, s1: int, s2: int, w: Seq<char>)
    requires
        d.wf(),
        d.stable(class),
        0 <= s1 < d.n(),
        0 <= s2 < d.n(),
        class[s1] == class[s2],
    ensures
        d.accepts_from(s1, w) == d.accepts_from(s2, w),
    decreases w.len(),
{
    let g1 = d.signature(class, s1);
    let g2 = d.signature(class, s2);
    assert(g1 == g2);
    if w.len() == 0 {
        assert(g1[1] == g2[1]);
    } else {
        let c = w[0];
        if d.alphabet.contains(c) {
            let k = d.alphabet.index_of(c);
            lemma_next_in_range(d, s1, c);
            lemma_next_in_range(d, s2, c);
            assert(g1[2 + k] == g2[2 + k]);
            lemma_stable_same_words(d, class, d.delta[s1][k], d.delta[s2][k], w.drop_first());
        }
    }
}

/// The states of `d` in class `c`, by label.
pub open spec fn class_labels<V>(d: DfaModel<V>, class: Seq<int>, c: int) -> Set<V> {
    Set::new(|v: V| exists|s: int| 0 <= s < d.n() && class[s] == c && d.labels[s] == v)
}

/// `q` is the quotient of `d` by `class`, with `rep[c]` a state of class `c`.
pub open spec fn quotient<V>(d: DfaModel<V>, class: Seq<int>, k: int, rep: Seq<int>, q: DfaModel<Seq<V>>) -> bool {
    &&& q.labels.len() == k
    &&& q.alphabet == d.alphabet
    &&& q.start == class[d.start]
    &&& q.accepting.len() == k
    &&& q.delta.len() == k
    &&& rep.len() == k
    &&& forall|c: int| 0 <= c < k ==> 0 <= #[trigger] rep[c] < d.n() && class[rep[c]] == c
    &&& forall|c: int| 0 <= c < k ==> #[trigger] q.accepting[c] == d.accepting[rep[c]]
    &&& forall|c: int| 0 <= c < k ==> #[trigger] q.delta[c].len() == d.alphabet.len()
    &&& forall|c: int, j: int| 0 <= c < k && 0 <= j < d.alphabet.len() ==> #[trigger] q.delta[c][j] == class[d.delta[rep[c]][j]]
    &&& forall|c: int| 0 <= c < k ==> (#[trigger] q.labels[c]).to_set() == class_labels(d, class, c)
}

proof fn lemma_quotient_words<V>(d: DfaModel<V>, class: Seq<int>, k: int, rep: Seq<int>, q: DfaModel<Seq<V>>, s: int, w: Seq<char>)
    requires
        d.wf(),
        q.wf(),
        class.len() == d.n(),
        partition(class, k),
        d.stable(class),
        quotient(d, class, k, rep, q),
        0 <= s < d.n(),
    ensures
        q.accepts_from(class[s], w) == d.accepts_from(s, w),
    decreases w.len(),
{
    let c = class[s];
    let r = rep[c];
    assert(d.signature(class, s) == d.signature(class, r));
    if w.len() == 0 {
        assert(d.signature(class, s)[1] == d.signature(class, r)[1]);
    } else {
        let a = w[0];
        if d.alphabet.contains(a) {
            let j = d.alphabet.index_of(a);
            lemma_next_in_range(d, s, a);
            lemma_next_in_range(d, r, a);
            assert(d.signature(class, s)[2 + j] == d.signature(class, r)[2 + j]);
            lemma_quotient_words(d, class, k, rep, q, d.delta[s][j], w.drop_first());
        }
    }
}

/// The quotient of a DFA by a stable class assignment that separates states
/// accepting different words is a minimisation of it.
pub proof fn lemma_quotient_minimisation<V>(d: DfaModel<V>, class: Seq<int>, k: int, rep: Seq<int>, q: DfaModel<Seq<V>>)
    requires
        d.wf(),
        class.len() == d.n(),
        k <= d.n(),
        partition(class, k),
        d.stable(class),
        d.separates(class),
        quotient(d, class, k, rep, q),
    ensures
        d.minimisation(q),
{
    assert forall|a: int, b: int| 0 <= a < k && 0 <= b < k && a != b implies q.labels[a] != q.labels[b] by {
        let r = rep[a];
        assert(class_labels(d, class, a).contains(d.labels[r]));
        if q.labels[a] == q.labels[b] {
            assert(class_labels(d, class, b).contains(d.labels[r]));
            let s = choose|s: int| 0 <= s < d.n() && class[s] == b && d.labels[s] == d.labels[r];
        }
    }
    assert(q.labels.no_duplicates());
    assert(0 <= q.start < q.n());
    assert forall|c: int, j: int| 0 <= c < q.n() && 0 <= j < q.alphabet.len() implies 0 <= #[trigger] q.delta[c][j] < q.n() by {
        assert(0 <= d.delta[rep[c]][j] < d.n());
    }
    assert(q.wf());
    assert forall|w: Seq<char>| #[trigger] q.accepts(w) == d.accepts(w) by {
        lemma_quotient_words(d, class, k, rep, q, d.start, w);
    }
    assert forall|s: int| 0 <= s < d.n() implies #[trigger] has_counterpart(q, d, s) by {
        assert forall|w: Seq<char>| #[trigger] q.accepts_from(class[s], w) == d.accepts_from(s, w) by {
            lemma_quotient_words(d, class, k, rep, q, s, w);
        }
        assert(same_language(q, class[s], d, s));
    }
    assert forall|a: int, b: int| 0 <= a < q.n() && 0 <= b < q.n() && a != b implies !#[trigger] q.equivalent(a, b) by {
        let ra = rep[a];
        let rb = rep[b];
        assert(!d.equivalent(ra, rb));
        let w = choose|w: Seq<char>| d.accepts_from(ra, w) != d.accepts_from(rb, w);
        lemma_quotient_words(d, class, k, rep, q, ra, w);
        lemma_quotient_words(d, class, k, rep, q, rb, w);
    }
    assert forall|c: int, s: int| 0 <= c < q.n() && 0 <= s < d.n() implies (q.labels[c].contains(d.labels[s]) <==> #[trigger] same_language(q, c, d, s)) by {
        assert forall|w: Seq<char>| #[trigger] q.accepts_from(class[s], w) == d.accepts_from(s, w) by {
            lemma_quotient_words(d, class, k, rep, q, s, w);
        }
        if q.labels[c].contains(d.labels[s]) {
            assert(q.labels[c].to_set().contains(d.labels[s]));
            let t = choose|t: int| 0 <= t < d.n() && class[t] == c && d.labels[t] == d.labels[s];
            assert(t == s);
        }
        if same_language(q, c, d, s) {
            if c != class[s] {
                assert(q.equivalent(c, class[s]));
            }
            assert(class_labels(d, class, c).contains(d.labels[s]));
            assert(q.labels[c].to_set().contains(d.labels[s]));
        }
    }
}

/// Minimising a minimisation changes nothing: it has as many states and
/// accepts the same words.
pub proof fn lemma_minimisation_idempotent<V>(d: DfaModel<V>, m: DfaModel<Seq<V>>, mm: DfaModel<Seq<Seq<V>>>)
    requires
        d.wf(),
        d.minimisation(m),
        m.minimisation(mm),
    ensures
        mm.n() == m.n(),
        forall|w: Seq<char>| #[trigger] mm.accepts(w) == m.accepts(w),
{
    let f = |c: int| choose|c2: int| 0 <= c2 < mm.n() && same_language(mm, c2, m, c);
    let dom = set_int_range(0, m.n());
    lemma_int_range(0, m.n());
    lemma_int_range(0, mm.n());
    assert forall|c: int| dom.contains(c) implies 0 <= #[trigger] f(c) < mm.n() && same_language(mm, f(c), m, c) by {
        assert(has_counterpart(mm, m, c));
    }
    assert(injective_on(f, dom)) by {
        assert forall|a: int, b: int| dom.contains(a) && dom.contains(b) && #[trigger] f(a) == #[trigger] f(b) implies a == b by {
            if a != b {
                assert(same_language(mm, f(a), m, a));
                assert(same_language(mm, f(b), m, b));
                assert forall|w: Seq<char>| #[trigger] m.accepts_from(a, w) == m.accepts_from(b, w) by {
                    assert(mm.accepts_from(f(a), w) == m.accepts_from(a, w));
                    assert(mm.accepts_from(f(b), w) == m.accepts_from(b, w));
                }
                assert(m.equivalent(a, b));
            }
        }
    }
    lemma_map_size(dom, dom.map(f), f);
    assert(dom.map(f).subset_of(set_int_range(0, mm.n())));
    lemma_len_subset(dom.map(f), set_int_range(0, mm.n()));
}

} // verus!
