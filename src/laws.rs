use crate::model::{
    lemma_subset_construction_equivalent, lemma_wf_deterministic, DfaModel, NfaModel,
};
use vstd::prelude::*;

verus! {

/// Determinising an ε-NFA and then minimising the result preserves the
/// language: for every word, the ε-NFA, its determinisation and the
/// minimisation of that agree on acceptance.
pub proof fn lemma_language_preserved<V>(n: NfaModel<V>, d: DfaModel<Seq<V>>, m: DfaModel<Seq<Seq<V>>>)
    requires
        n.wf(),
        n.determinisation(d),
        d.minimisation(m),
    ensures
        forall|w: Seq<char>| #[trigger] n.accepts(w) == d.accepts(w) && d.accepts(w) == m.accepts(w),
{
    let sets = choose|sets: Seq<Set<int>>| n.subset_construction(d, sets);
    lemma_subset_construction_equivalent(n, d, sets);
    assert forall|w: Seq<char>| #[trigger] n.accepts(w) == d.accepts(w) && d.accepts(w) == m.accepts(w) by {
        assert(d.accepts(w) == n.accepts(w));
        assert(m.accepts(w) == d.accepts(w));
    }
}

/// Minimisation never adds states.
pub proof fn lemma_minimisation_no_larger<V>(d: DfaModel<V>, m: DfaModel<Seq<V>>)
    requires
        d.minimisation(m),
    ensures
        m.n() <= d.n(),
{
}

/// The determinisation of an ε-NFA and the minimisation of that are both deterministic.
pub proof fn lemma_results_deterministic<V>(n: NfaModel<V>, d: DfaModel<Seq<V>>, m: DfaModel<Seq<Seq<V>>>)
    requires
        n.wf(),
        n.determinisation(d),
        d.minimisation(m),
    ensures
        d.deterministic(),
        m.deterministic(),
{
    let sets = choose|sets: Seq<Set<int>>| n.subset_construction(d, sets);
    lemma_wf_deterministic(d);
    lemma_wf_deterministic(m);
}

} // verus!
