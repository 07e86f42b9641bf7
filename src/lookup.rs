use crate::label::{lemma_push_to_set, views, StateIdentifier};
use crate::nfa::unmarked;
use vstd::prelude::*;

verus! {

pub proof fn lemma_push_contains<A>(s: Seq<A>, v: A)
    ensures
        forall|x: A| #[trigger] s.push(v).contains(x) <==> s.contains(x) || x == v,
{
    assert forall|x: A| #[trigger] s.push(v).contains(x) <==> s.contains(x) || x == v by {
        if s.contains(x) {
            let k = choose|k: int| 0 <= k < s.len() && s[k] == x;
            assert(s.push(v)[k] == x);
        }
        if x == v {
            assert(s.push(v)[s.len() as int] == v);
        }
        if s.push(v).contains(x) {
            let k = choose|k: int| 0 <= k < s.len() + 1 && s.push(v)[k] == x;
            if k < s.len() {
                assert(s[k] == x);
            }
        }
    }
}

/// The position of a label with the view of `l`.
pub(crate) fn position<L: StateIdentifier>(labels: &Vec<L>, l: &L) -> (r: Option<usize>)
    ensures
        match r {
            Some(i) => i < labels.len() && views(labels@)[i as int] == l@,
            None => !views(labels@).contains(l@),
        },
{
    let mut i: usize = 0;
    while i < labels.len()
        invariant
            i <= labels.len(),
            forall|p: int| 0 <= p < i ==> views(labels@)[p] != l@,
        decreases labels.len() - i,
    {
        if labels[i].compare(l) == 0 {
            return Some(i);
        }
        i = i + 1;
    }
    None
}

/// The position of `c`.
pub(crate) fn symbol_position(symbols: &Vec<char>, c: char) -> (r: Option<usize>)
    ensures
        match r {
            Some(i) => i < symbols.len() && symbols@[i as int] == c,
            None => !symbols@.contains(c),
        },
{
    let mut i: usize = 0;
    while i < symbols.len()
        invariant
            i <= symbols.len(),
            forall|p: int| 0 <= p < i ==> symbols@[p] != c,
        decreases symbols.len() - i,
    {
        if symbols[i] == c {
            return Some(i);
        }
        i = i + 1;
    }
    None
}

/// The labels of `v`, each view once, in order of first appearance.
pub(crate) fn distinct_labels<L: StateIdentifier>(v: &Vec<L>) -> (r: Vec<L>)
    ensures
        views(r@).no_duplicates(),
        views(r@).to_set() == views(v@).to_set(),
{
    let mut r: Vec<L> = Vec::new();
    let mut i: usize = 0;
    while i < v.len()
        invariant
            i <= v.len(),
            views(r@).no_duplicates(),
            views(r@).to_set() == views(v@.subrange(0, i as int)).to_set(),
        decreases v.len() - i,
    {
        proof {
            lemma_push_to_set(views(v@.subrange(0, i as int)), v@[i as int]@);
            assert(views(v@.subrange(0, i + 1)) =~= views(v@.subrange(0, i as int)).push(v@[i as int]@));
        }
        match position(&r, &v[i]) {
            Some(p) => {
                proof {
                    assert(views(r@).to_set().contains(v@[i as int]@));
                    assert(views(r@).to_set().insert(v@[i as int]@) =~= views(r@).to_set());
                }
            },
            None => {
                let x = v[i].duplicate();
                proof {
                    lemma_push_to_set(views(r@), x@);
                    assert(views(r@.push(x)) =~= views(r@).push(x@));
                }
                r.push(x);
            },
        }
        i = i + 1;
    }
    proof {
        assert(v@.subrange(0, v.len() as int) =~= v@);
    }
    r
}

/// The symbols of `v`, each once, in order of first appearance.
pub(crate) fn distinct_symbols(v: &Vec<char>) -> (r: Vec<char>)
    ensures
        r@.no_duplicates(),
        r@.to_set() == v@.to_set(),
{
    let mut r: Vec<char> = Vec::new();
    let mut i: usize = 0;
    while i < v.len()
        invariant
            i <= v.len(),
            r@.no_duplicates(),
            r@.to_set() == v@.subrange(0, i as int).to_set(),
        decreases v.len() - i,
    {
        proof {
            lemma_push_to_set(v@.subrange(0, i as int), v@[i as int]);
            assert(v@.subrange(0, i + 1) =~= v@.subrange(0, i as int).push(v@[i as int]));
        }
        match symbol_position(&r, v[i]) {
            Some(p) => {
                proof {
                    assert(r@.to_set().contains(v@[i as int]));
                    assert(r@.to_set().insert(v@[i as int]) =~= r@.to_set());
                }
            },
            None => {
                proof {
                    lemma_push_to_set(r@, v@[i as int]);
                }
                r.push(v[i]);
            },
        }
        i = i + 1;
    }
    proof {
        assert(v@.subrange(0, v.len() as int) =~= v@);
    }
    r
}

/// Marks the labels of `items` among `labels`; `None` when one of them is not there.
pub(crate) fn mark_members<L: StateIdentifier>(labels: &Vec<L>, items: &Vec<L>) -> (r: Option<Vec<bool>>)
    requires
        views(labels@).no_duplicates(),
    ensures
        match r {
            Some(b) => {
                &&& views(items@).to_set().subset_of(views(labels@).to_set())
                &&& b.len() == labels.len()
                &&& forall|i: int| 0 <= i < labels.len() ==> (b@[i] <==> views(items@).contains(#[trigger] views(labels@)[i]))
            },
            None => !views(items@).to_set().subset_of(views(labels@).to_set()),
        },
{
    let ghost lv = views(labels@);
    let ghost av = views(items@);
    let n = labels.len();
    let mut marks = unmarked(n);
    let mut k: usize = 0;
    while k < items.len()
        invariant
            lv == views(labels@),
            lv.no_duplicates(),
            av == views(items@),
            n == labels.len(),
            k <= items.len(),
            marks.len() == n,
            forall|i: int| 0 <= i < n ==> (marks@[i] <==> av.subrange(0, k as int).contains(#[trigger] lv[i])),
            forall|p: int| 0 <= p < k ==> lv.contains(#[trigger] av[p]),
        decreases items.len() - k,
    {
        proof {
            lemma_push_contains(av.subrange(0, k as int), av[k as int]);
            assert(av.subrange(0, k + 1) =~= av.subrange(0, k as int).push(av[k as int]));
            assert(av[k as int] == items@[k as int]@);
        }
        match position(labels, &items[k]) {
            None => {
                proof {
                    assert(av.to_set().contains(av[k as int]));
                    assert(!lv.to_set().contains(av[k as int]));
                }
                return None;
            },
            Some(i) => {
                proof {
                    assert forall|j: int| 0 <= j < n && lv[j] == av[k as int] implies j == i by {
                        assert(lv[j] == lv[i as int]);
                    }
                }
                marks.set(i, true);
            },
        }
        k = k + 1;
    }
    proof {
        assert(av.subrange(0, k as int) =~= av);
        assert forall|x: L::V| av.to_set().contains(x) implies lv.to_set().contains(x) by {
            let p = choose|p: int| 0 <= p < av.len() && av[p] == x;
        }
    }
    Some(marks)
}

} // verus!
