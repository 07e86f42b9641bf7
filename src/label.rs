use vstd::prelude::*;

verus! {

/// A type that can label automaton states.
///
/// Labels are compared through their views. Each label type carries a strict
/// total order on its view, so that a set of labels has one canonical
/// (sorted) representation.
pub trait StateIdentifier: Sized + View {
    spec fn precedes(a: Self::V, b: Self::V) -> bool;

    proof fn lemma_order(a: Self::V, b: Self::V, c: Self::V)
        ensures
            !Self::precedes(a, a),
            Self::precedes(a, b) && Self::precedes(b, c) ==> Self::precedes(a, c),
            a != b ==> Self::precedes(a, b) || Self::precedes(b, a),
    ;

    /// Negative, zero or positive as `self` comes before, equals or follows `other`.
    fn compare(&self, other: &Self) -> (r: i8)
        ensures
            (r < 0) == Self::precedes(self@, other@),
            (r == 0) == (self@ == other@),
            (r > 0) == Self::precedes(other@, self@),
    ;

    fn duplicate(&self) -> (r: Self)
        ensures
            r@ == self@,
    ;
}

impl StateIdentifier for i32 {
    open spec fn precedes(a: i32, b: i32) -> bool {
        a < b
    }

    proof fn lemma_order(a: i32, b: i32, c: i32) {
    }

    fn compare(&self, other: &i32) -> (r: i8) {
        if *self < *other {
            -1
        } else if *self == *other {
            0
        } else {
            1
        }
    }

    fn duplicate(&self) -> (r: i32) {
        *self
    }
}

impl StateIdentifier for u64 {
    open spec fn precedes(a: u64, b: u64) -> bool {
        a < b
    }

    proof fn lemma_order(a: u64, b: u64, c: u64) {
    }

    fn compare(&self, other: &u64) -> (r: i8) {
        if *self < *other {
            -1
        } else if *self == *other {
            0
        } else {
            1
        }
    }

    fn duplicate(&self) -> (r: u64) {
        *self
    }
}

/// The views of a sequence of labels.
pub open spec fn views<T: View>(s: Seq<T>) -> Seq<T::V> {
    s.map_values(|t: T| t@)
}

pub proof fn lemma_push_to_set<A>(s: Seq<A>, v: A)
    ensures
        s.push(v).to_set() == s.to_set().insert(v),
{
    assert forall|x: A| #[trigger] s.push(v).to_set().contains(x) <==> s.to_set().insert(v).contains(
        x,
    ) by {
        if s.to_set().contains(x) {
            let k = choose|k: int| 0 <= k < s.len() && s[k] == x;
            assert(s.push(v)[k] == x);
        }
        if x == v {
            assert(s.push(v)[s.len() as int] == v);
        }
        if s.push(v).to_set().contains(x) {
            let k = choose|k: int| 0 <= k < s.len() + 1 && s.push(v)[k] == x;
            if k < s.len() {
                assert(s[k] == x);
            }
        }
    }
    assert(s.push(v).to_set() =~= s.to_set().insert(v));
}

pub proof fn lemma_insert_to_set<A>(s: Seq<A>, i: int, v: A)
    requires
        0 <= i <= s.len(),
    ensures
        s.insert(i, v).to_set() == s.to_set().insert(v),
{
    let t = s.insert(i, v);
    assert forall|x: A| #[trigger] t.to_set().contains(x) <==> s.to_set().insert(v).contains(x) by {
        if s.to_set().contains(x) {
            let k = choose|k: int| 0 <= k < s.len() && s[k] == x;
            if k < i {
                assert(t[k] == x);
            } else {
                assert(t[k + 1] == x);
            }
        }
        if x == v {
            assert(t[i] == v);
        }
        if t.to_set().contains(x) {
            let k = choose|k: int| 0 <= k < t.len() && t[k] == x;
            if k < i {
                assert(s[k] == x);
            } else if k > i {
                assert(s[k - 1] == x);
            }
        }
    }
    assert(t.to_set() =~= s.to_set().insert(v));
}

/// A strictly increasing sequence: the canonical form of a finite set of labels.
pub open spec fn strictly_sorted<T: StateIdentifier>(s: Seq<T::V>) -> bool {
    forall|i: int, j: int| 0 <= i < j < s.len() ==> T::precedes(#[trigger] s[i], #[trigger] s[j])
}

/// Lexicographic order on sequences of label views.
pub open spec fn seq_precedes<T: StateIdentifier>(a: Seq<T::V>, b: Seq<T::V>) -> bool
    decreases a.len(),
{
    if a.len() == 0 {
        b.len() > 0
    } else if b.len() == 0 {
        false
    } else if T::precedes(a[0], b[0]) {
        true
    } else if a[0] == b[0] {
        seq_precedes::<T>(a.drop_first(), b.drop_first())
    } else {
        false
    }
}

proof fn lemma_seq_order<T: StateIdentifier>(a: Seq<T::V>, b: Seq<T::V>, c: Seq<T::V>)
    ensures
        !seq_precedes::<T>(a, a),
        seq_precedes::<T>(a, b) && seq_precedes::<T>(b, c) ==> seq_precedes::<T>(a, c),
        a != b ==> seq_precedes::<T>(a, b) || seq_precedes::<T>(b, a),
    decreases a.len(),
{
    if a.len() > 0 {
        T::lemma_order(a[0], a[0], a[0]);
        lemma_seq_order::<T>(a.drop_first(), a.drop_first(), a.drop_first());
        if b.len() > 0 {
            T::lemma_order(a[0], b[0], b[0]);
            T::lemma_order(b[0], a[0], a[0]);
            if c.len() > 0 {
                T::lemma_order(a[0], b[0], c[0]);
                T::lemma_order(b[0], c[0], a[0]);
                T::lemma_order(c[0], a[0], b[0]);
                T::lemma_order(a[0], c[0], b[0]);
                T::lemma_order(b[0], a[0], c[0]);
                T::lemma_order(c[0], b[0], a[0]);
                lemma_seq_order::<T>(a.drop_first(), b.drop_first(), c.drop_first());
            }
            lemma_seq_order::<T>(a.drop_first(), b.drop_first(), b.drop_first());
            if a != b && a[0] == b[0] {
                assert(a =~= seq![a[0]] + a.drop_first());
                assert(b =~= seq![b[0]] + b.drop_first());
            }
        }
    } else if b.len() == 0 {
        assert(a =~= b);
    }
}

/// Two strictly sorted sequences holding the same elements are identical.
proof fn lemma_sorted_unique<T: StateIdentifier>(a: Seq<T::V>, b: Seq<T::V>)
    requires
        strictly_sorted::<T>(a),
        strictly_sorted::<T>(b),
        a.to_set() == b.to_set(),
    ensures
        a == b,
    decreases a.len(),
{
    if a.len() == 0 {
        if b.len() > 0 {
            assert(b.to_set().contains(b[0]));
        }
        assert(a =~= b);
    } else {
        assert(a.to_set().contains(a[0]));
        assert(b.len() > 0);
        assert(b.to_set().contains(b[0]));
        let i = choose|i: int| 0 <= i < b.len() && b[i] == a[0];
        let j = choose|j: int| 0 <= j < a.len() && a[j] == b[0];
        T::lemma_order(a[0], a[0], a[0]);
        if i > 0 {
            assert(T::precedes(b[0], b[i]));
            if j > 0 {
                assert(T::precedes(a[0], a[j]));
                T::lemma_order(a[0], b[0], a[0]);
            }
        }
        assert(a[0] == b[0]) by {
            if i > 0 {
                if j == 0 {
                    T::lemma_order(b[0], b[0], b[0]);
                }
            }
        }
        let ta = a.drop_first();
        let tb = b.drop_first();
        assert forall|x: T::V| ta.to_set().contains(x) implies tb.to_set().contains(x) by {
            let k = choose|k: int| 0 <= k < ta.len() && ta[k] == x;
            assert(a[k + 1] == x);
            assert(T::precedes(a[0], x));
            assert(b.to_set().contains(x));
            let m = choose|m: int| 0 <= m < b.len() && b[m] == x;
            if m == 0 {
                T::lemma_order(x, x, x);
            }
            assert(tb[m - 1] == x);
        }
        assert forall|x: T::V| tb.to_set().contains(x) implies ta.to_set().contains(x) by {
            let k = choose|k: int| 0 <= k < tb.len() && tb[k] == x;
            assert(b[k + 1] == x);
            assert(T::precedes(b[0], x));
            assert(a.to_set().contains(x));
            let m = choose|m: int| 0 <= m < a.len() && a[m] == x;
            if m == 0 {
                T::lemma_order(x, x, x);
            }
            assert(ta[m - 1] == x);
        }
        assert(ta.to_set() =~= tb.to_set());
        lemma_sorted_unique::<T>(ta, tb);
        assert(a =~= seq![a[0]] + ta);
        assert(b =~= seq![b[0]] + tb);
    }
}

/// A state label made of a set of labels, as produced by subset construction
/// and by minimisation.
///
/// The members are kept strictly sorted, so two values holding the same
/// members have the same representation: they compare equal and hash alike
/// whatever order the members were added in.
#[derive(Debug, Clone, PartialEq, Eq, Hash)]
pub struct CommunicativeHashSet<T: StateIdentifier> {
    members: Vec<T>,
}

impl<T: StateIdentifier> View for CommunicativeHashSet<T> {
    type V = Seq<T::V>;

    closed spec fn view(&self) -> Seq<T::V> {
        views(self.members@)
    }
}

impl<T: StateIdentifier> CommunicativeHashSet<T> {
    /// The members are strictly sorted: the canonical form.
    pub open spec fn wf(&self) -> bool {
        strictly_sorted::<T>(self@)
    }

    /// The set of member views.
    pub open spec fn member_set(&self) -> Set<T::V> {
        self@.to_set()
    }

    pub fn new() -> (r: Self)
        ensures
            r.wf(),
            r@ == Seq::<T::V>::empty(),
    {
        let r = CommunicativeHashSet { members: Vec::new() };
        proof {
            assert(views(r.members@) =~= Seq::<T::V>::empty());
        }
        r
    }

    /// Builds the set of the given labels; repeated labels are kept once.
    pub fn from(labels: Vec<T>) -> (r: Self)
        ensures
            r.wf(),
            r.member_set() == views(labels@).to_set(),
    {
        let mut r = Self::new();
        let mut i: usize = 0;
        while i < labels.len()
            invariant
                i <= labels.len(),
                r.wf(),
                r.member_set() == views(labels@.subrange(0, i as int)).to_set(),
            decreases labels.len() - i,
        {
            let x = labels[i].duplicate();
            r.insert(x);
            proof {
                lemma_push_to_set(views(labels@.subrange(0, i as int)), labels@[i as int]@);
                assert(views(labels@.subrange(0, i + 1)) =~= views(labels@.subrange(0, i as int)).push(
                    labels@[i as int]@,
                ));
            }
            i = i + 1;
        }
        proof {
            assert(labels@.subrange(0, labels.len() as int) =~= labels@);
        }
        r
    }

    pub fn len(&self) -> (r: usize)
        requires
            self.wf(),
        ensures
            r == self@.len(),
            r == self.member_set().len(),
    {
        proof {
            self.lemma_no_duplicates();
            self@.unique_seq_to_set();
        }
        self.members.len()
    }

    pub fn contains(&self, val: &T) -> (r: bool)
        ensures
            r == self.member_set().contains(val@),
    {
        let mut i: usize = 0;
        while i < self.members.len()
            invariant
                i <= self.members.len(),
                forall|k: int| 0 <= k < i ==> self@[k] != val@,
            decreases self.members.len() - i,
        {
            if self.members[i].compare(val) == 0 {
                proof {
                    assert(self@[i as int] == val@);
                }
                return true;
            }
            i = i + 1;
        }
        false
    }

    /// Adds `val` to the set, keeping the members sorted. Returns `true`.
    pub fn insert(&mut self, val: T) -> (r: bool)
        requires
            old(self).wf(),
        ensures
            final(self).wf(),
            final(self).member_set() == old(self).member_set().insert(val@),
            r,
    {
        let ghost old_view = self@;
        let mut pos: usize = 0;
        while pos < self.members.len() && self.members[pos].compare(&val) < 0
            invariant
                pos <= self.members.len(),
                self@ == old_view,
                strictly_sorted::<T>(old_view),
                forall|k: int| 0 <= k < pos ==> T::precedes(#[trigger] old_view[k], val@),
            decreases self.members.len() - pos,
        {
            pos = pos + 1;
        }
        if pos < self.members.len() && self.members[pos].compare(&val) == 0 {
            proof {
                assert(old_view[pos as int] == val@);
                assert(old_view.to_set().contains(val@));
                assert(self.member_set() =~= old_view.to_set().insert(val@));
            }
            return true;
        }
        let ghost vv = val@;
        proof {
            if pos < old_view.len() {
                T::lemma_order(old_view[pos as int], vv, vv);
            }
        }
        self.members.insert(pos, val);
        proof {
            let nv = views(self.members@);
            assert(nv =~= old_view.insert(pos as int, vv));
            assert forall|i: int, j: int| 0 <= i < j < nv.len() implies T::precedes(
                #[trigger] nv[i],
                #[trigger] nv[j],
            ) by {
                if j < pos {
                } else if j == pos {
                } else if i < pos {
                    T::lemma_order(nv[i], vv, nv[j]);
                    T::lemma_order(vv, nv[pos + 1], nv[j]);
                } else if i == pos {
                    T::lemma_order(vv, nv[pos + 1], nv[j]);
                } else {
                }
            }
            lemma_insert_to_set(old_view, pos as int, vv);
        }
        true
    }

    proof fn lemma_no_duplicates(&self)
        requires
            strictly_sorted::<T>(self@),
        ensures
            self@.no_duplicates(),
    {
        assert forall|i: int, j: int| 0 <= i < self@.len() && 0 <= j < self@.len() && i != j implies self@[i]
            != self@[j] by {
            T::lemma_order(self@[i], self@[i], self@[i]);
            T::lemma_order(self@[j], self@[j], self@[j]);
        }
    }

    /// The members, in their canonical order.
    pub fn members(&self) -> (r: &Vec<T>)
        ensures
            views(r@) == self@,
    {
        &self.members
    }
}

/// Two label sets with the same members have the same canonical
/// representation, whatever order their members were added in; so they are
/// equal and hash identically.
pub proof fn lemma_same_members_same_representation<T: StateIdentifier>(
    a: &CommunicativeHashSet<T>,
    b: &CommunicativeHashSet<T>,
)
    requires
        a.wf(),
        b.wf(),
        a.member_set() == b.member_set(),
    ensures
        a@ == b@,
{
    lemma_sorted_unique::<T>(a@, b@);
}

impl<T: StateIdentifier> StateIdentifier for CommunicativeHashSet<T> {
    open spec fn precedes(a: Seq<T::V>, b: Seq<T::V>) -> bool {
        seq_precedes::<T>(a, b)
    }

    proof fn lemma_order(a: Seq<T::V>, b: Seq<T::V>, c: Seq<T::V>) {
        lemma_seq_order::<T>(a, b, c);
    }

    fn compare(&self, other: &Self) -> (r: i8) {
        let ghost a = self@;
        let ghost b = other@;
        proof {
            assert(a.skip(0) =~= a);
            assert(b.skip(0) =~= b);
        }
        let mut i: usize = 0;
        while i < self.members.len() && i < other.members.len()
            invariant
                i <= self.members.len(),
                i <= other.members.len(),
                a == self@,
                b == other@,
                a.subrange(0, i as int) == b.subrange(0, i as int),
                seq_precedes::<T>(a, b) == seq_precedes::<T>(a.skip(i as int), b.skip(i as int)),
                seq_precedes::<T>(b, a) == seq_precedes::<T>(b.skip(i as int), a.skip(i as int)),
            decreases self.members.len() - i,
        {
            let c = self.members[i].compare(&other.members[i]);
            proof {
                T::lemma_order(a[i as int], b[i as int], a[i as int]);
                assert(a.skip(i as int)[0] == a[i as int]);
                assert(b.skip(i as int)[0] == b[i as int]);
                assert(a.skip(i as int).drop_first() =~= a.skip(i + 1));
                assert(b.skip(i as int).drop_first() =~= b.skip(i + 1));
            }
            if c != 0 {
                proof {
                    if a == b {
                        assert(a[i as int] == b[i as int]);
                    }
                }
                return c;
            }
            proof {
                assert(a.subrange(0, i + 1) =~= a.subrange(0, i as int).push(a[i as int]));
                assert(b.subrange(0, i + 1) =~= b.subrange(0, i as int).push(b[i as int]));
            }
            i = i + 1;
        }
        proof {
            lemma_seq_order::<T>(a, b, a);
        }
        if i < self.members.len() {
            proof {
                assert(b.skip(i as int).len() == 0);
                assert(a != b) by {
                    assert(a.len() != b.len());
                }
            }
            1
        } else if i < other.members.len() {
            proof {
                assert(a.skip(i as int).len() == 0);
                assert(a.len() != b.len());
            }
            -1
        } else {
            proof {
                assert(a =~= a.subrange(0, i as int));
                assert(b =~= b.subrange(0, i as int));
                assert(a.skip(i as int).len() == 0);
            }
            0
        }
    }

    fn duplicate(&self) -> (r: Self) {
        let mut members: Vec<T> = Vec::new();
        let mut i: usize = 0;
        while i < self.members.len()
            invariant
                i <= self.members.len(),
                views(members@) == self@.subrange(0, i as int),
            decreases self.members.len() - i,
        {
            let x = self.members[i].duplicate();
            let ghost old_m = members@;
            let ghost xv = x@;
            proof {
                assert(xv == self@[i as int]);
            }
            members.push(x);
            proof {
                assert(members@ == old_m.push(x));
                assert(views(members@) =~= views(old_m).push(xv));
                assert(views(members@) =~= self@.subrange(0, i + 1));
            }
            i = i + 1;
        }
        proof {
            assert(self@.subrange(0, i as int) =~= self@);
        }
        CommunicativeHashSet { members }
    }
}

} // verus!
