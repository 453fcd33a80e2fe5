//! The persistent integer set: a value type over one hash table.
use vstd::prelude::*;
use crate::dict::{Dict, MAX_LEN, home};
use crate::slots::{Slot, lemma_keys_of_contains, lemma_keys_of_same_occupied};
use vstd::set_lib::lemma_len_subset;
use vstd::seq_lib::{commutative_foldl, lemma_fold_left_permutation};

verus! {

/// A finite set of `i64` values. Every operation takes the set by value and
/// hands back the resulting set; a holder that wants to keep the old value
/// takes an independent copy first (`duplicate`).
pub struct IntSet {
    table: Dict,
}

impl View for IntSet {
    type V = Set<i64>;

    closed spec fn view(&self) -> Set<i64> {
        self.table.keys().to_set()
    }
}

impl IntSet {
    /// The well-formedness of the underlying table, its load bound, and the
    /// size limit.
    pub closed spec fn wf(&self) -> bool {
        &&& self.table.wf()
        &&& self.table.loaded()
        &&& self.table.keys().len() <= MAX_LEN
    }

    /// The elements in enumeration order: ascending slot order of the table.
    pub closed spec fn list(&self) -> Seq<i64> {
        self.table.keys()
    }

    /// The number of slots of the underlying table.
    pub closed spec fn capacity(&self) -> nat {
        self.table.cap()
    }

    /// Every element sits in the slot where its probe sequence starts: no
    /// collision has pushed it further along.
    pub closed spec fn undisplaced(&self) -> bool {
        forall|j: int|
            0 <= j < self.table.slots@.len() && (#[trigger] self.table.slots@[j]) is Occupied
                ==> home(self.table.slots@[j]->0, self.table.cap() as int) == j
    }

    /// What the representation guarantees of the enumeration.
    pub proof fn lemma_list(&self)
        requires
            self.wf(),
        ensures
            self.list().no_duplicates(),
            self.list().to_set() == self@,
            self.list().len() == self@.len(),
            self@.finite(),
            self@.len() <= MAX_LEN,
    {
        self.list().unique_seq_to_set();
    }

    /// The empty set.
    pub fn empty() -> (r: IntSet)
        ensures
            r.wf(),
            r@ == Set::<i64>::empty(),
            r@.len() == 0,
            forall|x: i64| !r@.contains(x),
    {
        let table = Dict::with_capacity(0);
        let r = IntSet { table };
        proof {
            assert(r@ =~= Set::<i64>::empty());
        }
        r
    }

    /// The set of exactly one element.
    pub fn singleton(x: i64) -> (r: IntSet)
        ensures
            r.wf(),
            r@ == set![x],
            r@.len() == 1,
    {
        let r = IntSet::empty().insert(x);
        proof {
            assert(r@ =~= set![x]);
            r.lemma_list();
        }
        r
    }

    /// The number of elements.
    pub fn len(&self) -> (r: usize)
        requires
            self.wf(),
        ensures
            r == self@.len(),
    {
        proof {
            self.lemma_list();
        }
        self.table.occupied
    }

    /// Whether `x` is an element.
    pub fn contains(&self, x: i64) -> (r: bool)
        requires
            self.wf(),
        ensures
            r == self@.contains(x),
    {
        self.table.find(x).is_some()
    }

    /// The set with `x` added. Adding an element that is already there changes
    /// nothing: not the membership, not the length, not the enumeration.
    pub fn insert(self, x: i64) -> (r: IntSet)
        requires
            self.wf(),
            self@.len() < MAX_LEN,
        ensures
            r.wf(),
            r@ == self@.insert(x),
            self@.contains(x) ==> r.list() == self.list() && r.capacity() == self.capacity(),
    {
        proof {
            self.lemma_list();
        }
        let mut table = self.table;
        table.insert(x);
        IntSet { table }
    }

    /// The set with `x` taken out. Removing an absent element changes nothing:
    /// not the membership, not the length, not the enumeration.
    pub fn remove(self, x: i64) -> (r: IntSet)
        requires
            self.wf(),
        ensures
            r.wf(),
            r@ == self@.remove(x),
            !self@.contains(x) ==> r.list() == self.list() && r.capacity() == self.capacity(),
    {
        let mut table = self.table;
        table.remove(x);
        IntSet { table }
    }

    /// Adds `x` where the result stays within the size limit; an element
    /// already present is not inserted again.
    fn insert_bounded(self, x: i64) -> (r: IntSet)
        requires
            self.wf(),
            self@.insert(x).len() <= MAX_LEN,
        ensures
            r.wf(),
            r@ == self@.insert(x),
    {
        if self.contains(x) {
            proof {
                assert(self@.insert(x) =~= self@);
            }
            self
        } else {
            proof {
                self.lemma_list();
            }
            self.insert(x)
        }
    }

    /// The set of the distinct values of `xs`, inserted from left to right
    /// into an empty set.
    pub fn from_list(xs: &Vec<i64>) -> (r: IntSet)
        requires
            xs@.to_set().len() <= MAX_LEN,
        ensures
            r.wf(),
            r@ == xs@.to_set(),
    {
        let mut r = IntSet::empty();
        let mut i: usize = 0;
        proof {
            lemma_prefix_set(xs@, 0);
        }
        while i < xs.len()
            invariant
                i <= xs@.len(),
                xs@.to_set().len() <= MAX_LEN,
                r.wf(),
                r@ == xs@.subrange(0, i as int).to_set(),
            decreases xs@.len() - i,
        {
            proof {
                lemma_prefix_set(xs@, i as int);
                lemma_prefix_set(xs@, i + 1);
                lemma_len_subset(r@.insert(xs@[i as int]), xs@.to_set());
            }
            r = r.insert_bounded(xs[i]);
            i = i + 1;
        }
        proof {
            lemma_prefix_set(xs@, i as int);
        }
        r
    }

    /// The elements of either set. The larger set is the base, and the elements
    /// of the smaller one are added to it.
    pub fn union(self, other: IntSet) -> (r: IntSet)
        requires
            self.wf(),
            other.wf(),
            (self@ + other@).len() <= MAX_LEN,
        ensures
            r.wf(),
            r@ == self@ + other@,
    {
        proof {
            self.lemma_list();
            other.lemma_list();
        }
        let ghost total = self@ + other@;
        let (base, small) = if self.len() >= other.len() {
            (self, other)
        } else {
            (other, self)
        };
        proof {
            assert(base@ + small@ =~= total);
        }
        let items = small.to_list();
        let mut r = base;
        let mut i: usize = 0;
        proof {
            lemma_prefix_set(items@, 0);
            assert(r@ + Set::<i64>::empty() =~= r@);
        }
        while i < items.len()
            invariant
                i <= items@.len(),
                items@.to_set() == small@,
                total == base@ + small@,
                total.finite(),
                total.len() <= MAX_LEN,
                r.wf(),
                r@ == base@ + items@.subrange(0, i as int).to_set(),
            decreases items@.len() - i,
        {
            proof {
                lemma_prefix_set(items@, i as int);
                lemma_prefix_set(items@, i + 1);
                assert(r@.insert(items@[i as int]) <= total);
                lemma_len_subset(r@.insert(items@[i as int]), total);
            }
            r = r.insert_bounded(items[i]);
            i = i + 1;
            proof {
                assert(r@ =~= base@ + items@.subrange(0, i as int).to_set());
            }
        }
        proof {
            lemma_prefix_set(items@, i as int);
            assert(r@ =~= total);
        }
        r
    }

    /// The elements of `self` that are not in `other`, gathered into a new set.
    pub fn difference(&self, other: &IntSet) -> (r: IntSet)
        requires
            self.wf(),
            other.wf(),
        ensures
            r.wf(),
            r@ == self@.difference(other@),
    {
        proof {
            self.lemma_list();
        }
        let items = self.to_list();
        let mut r = IntSet::empty();
        let mut i: usize = 0;
        proof {
            lemma_prefix_set(items@, 0);
            assert(r@ =~= Set::<i64>::empty().difference(other@));
        }
        while i < items.len()
            invariant
                i <= items@.len(),
                items@.to_set() == self@,
                self@.finite(),
                self@.len() <= MAX_LEN,
                other.wf(),
                r.wf(),
                r@ == items@.subrange(0, i as int).to_set().difference(other@),
            decreases items@.len() - i,
        {
            proof {
                lemma_prefix_set(items@, i as int);
                lemma_prefix_set(items@, i + 1);
            }
            let x = items[i];
            if !other.contains(x) {
                proof {
                    assert(r@.insert(x) <= self@);
                    lemma_len_subset(r@.insert(x), self@);
                }
                r = r.insert_bounded(x);
            }
            i = i + 1;
            proof {
                assert(r@ =~= items@.subrange(0, i as int).to_set().difference(other@));
            }
        }
        proof {
            lemma_prefix_set(items@, i as int);
        }
        r
    }

    /// The elements present in both sets: the smaller set is walked and each of
    /// its elements that the other holds is gathered into a new set.
    pub fn intersection(&self, other: &IntSet) -> (r: IntSet)
        requires
            self.wf(),
            other.wf(),
        ensures
            r.wf(),
            r@ == self@.intersect(other@),
    {
        proof {
            self.lemma_list();
            other.lemma_list();
        }
        let (small, big) = if self.len() <= other.len() {
            (self, other)
        } else {
            (other, self)
        };
        let items = small.to_list();
        let mut r = IntSet::empty();
        let mut i: usize = 0;
        proof {
            lemma_prefix_set(items@, 0);
            assert(r@ =~= Set::<i64>::empty().intersect(big@));
        }
        while i < items.len()
            invariant
                i <= items@.len(),
                items@.to_set() == small@,
                small@.finite(),
                small@.len() <= MAX_LEN,
                big.wf(),
                r.wf(),
                r@ == items@.subrange(0, i as int).to_set().intersect(big@),
            decreases items@.len() - i,
        {
            proof {
                lemma_prefix_set(items@, i as int);
                lemma_prefix_set(items@, i + 1);
            }
            let x = items[i];
            if big.contains(x) {
                proof {
                    assert(r@.insert(x) <= small@);
                    lemma_len_subset(r@.insert(x), small@);
                }
                r = r.insert_bounded(x);
            }
            i = i + 1;
            proof {
                assert(r@ =~= items@.subrange(0, i as int).to_set().intersect(big@));
            }
        }
        proof {
            lemma_prefix_set(items@, i as int);
            assert(r@ =~= self@.intersect(other@));
        }
        r
    }

    /// Folds `f` over the elements in enumeration order, starting from `seed`.
    pub fn walk<A, F: Fn(A, i64) -> A>(&self, f: F, seed: A) -> (r: A)
        requires
            self.wf(),
            forall|a: A, x: i64| f.requires((a, x)),
        ensures
            folds_to(f, self.list(), seed, r),
    {
        let items = self.to_list();
        let mut acc = seed;
        let ghost accs: Seq<A> = seq![seed];
        let mut i: usize = 0;
        while i < items.len()
            invariant
                items@ == self.list(),
                i <= items@.len(),
                forall|a: A, x: i64| f.requires((a, x)),
                accs.len() == i + 1,
                accs[0] == seed,
                accs[i as int] == acc,
                forall|j: int| 0 <= j < i ==> f.ensures((accs[j], items@[j]), #[trigger] accs[j + 1]),
            decreases items@.len() - i,
        {
            acc = f(acc, items[i]);
            proof {
                accs = accs.push(acc);
            }
            i = i + 1;
        }
        proof {
            assert(accs.len() == self.list().len() + 1);
        }
        acc
    }

    /// An independent copy, with the same elements in the same enumeration
    /// order.
    pub fn duplicate(&self) -> (r: IntSet)
        requires
            self.wf(),
        ensures
            r.wf(),
            r@ == self@,
            r.list() == self.list(),
            r.capacity() == self.capacity(),
    {
        IntSet { table: self.table.copy() }
    }

    /// The elements, each once, in enumeration order.
    pub fn to_list(&self) -> (r: Vec<i64>)
        requires
            self.wf(),
        ensures
            r@ == self.list(),
            r@.no_duplicates(),
            r@.to_set() == self@,
            r@.len() == self@.len(),
    {
        proof {
            self.lemma_list();
        }
        self.table.to_vec()
    }
}

/// Whether `r` is what applying `f` to `seed` and then to each element of `l`
/// in order can give.
pub open spec fn folds_to<A, F: Fn(A, i64) -> A>(f: F, l: Seq<i64>, seed: A, r: A) -> bool {
    exists|accs: Seq<A>|
        #![trigger accs.len()]
        accs.len() == l.len() + 1 && accs[0] == seed && accs[l.len() as int] == r && forall|i: int|
            0 <= i < l.len() ==> f.ensures((accs[i], l[i]), #[trigger] accs[i + 1])
}

/// The empty set has no element and length zero.
pub proof fn lemma_empty_has_nothing(s: IntSet, x: i64)
    requires
        s@ == Set::<i64>::empty(),
    ensures
        s@.len() == 0,
        !s@.contains(x),
{
}

/// Inserting an element twice gives the membership and the length of
/// inserting it once.
pub proof fn lemma_insert_idempotent(s: IntSet, x: i64)
    requires
        s.wf(),
    ensures
        s@.insert(x).insert(x) == s@.insert(x),
        s@.insert(x).insert(x).len() == s@.insert(x).len(),
{
    assert(s@.insert(x).insert(x) =~= s@.insert(x));
}

/// The enumeration of a set built from a sequence holds each distinct value of
/// the sequence exactly once, whatever the order and repetitions of the input.
pub proof fn lemma_from_list_round_trip(xs: Seq<i64>, s: IntSet)
    requires
        s.wf(),
        s@ == xs.to_set(),
    ensures
        s.list().no_duplicates(),
        forall|x: i64| s.list().contains(x) <==> xs.contains(x),
        s.list().len() == xs.to_set().len(),
{
    s.lemma_list();
    assert forall|x: i64| s.list().contains(x) <==> xs.contains(x) by {
        assert(s.list().to_set().contains(x) == s.list().contains(x));
        assert(xs.to_set().contains(x) == xs.contains(x));
    }
}

/// The enumeration is as long as the set.
pub proof fn lemma_list_len(s: IntSet)
    requires
        s.wf(),
    ensures
        s.list().len() == s@.len(),
{
    s.lemma_list();
}

/// Membership agrees with presence in the enumeration.
pub proof fn lemma_contains_iff_listed(s: IntSet, x: i64)
    requires
        s.wf(),
    ensures
        s@.contains(x) == s.list().contains(x),
{
    s.lemma_list();
    assert(s.list().to_set().contains(x) == s.list().contains(x));
}

/// The length of a union is the sum of the lengths less that of the
/// intersection, and the difference together with the intersection gives
/// back the first set.
pub proof fn lemma_set_algebra(a: IntSet, b: IntSet)
    requires
        a.wf(),
        b.wf(),
    ensures
        (a@ + b@).len() == a@.len() + b@.len() - a@.intersect(b@).len(),
        a@.difference(b@) + a@.intersect(b@) == a@,
{
    a.lemma_list();
    b.lemma_list();
    vstd::set_lib::lemma_set_intersect_union_lens(a@, b@);
    assert(a@.difference(b@) + a@.intersect(b@) =~= a@);
}

/// Walking with a combining function whose order of elements does not matter
/// gives the fold of that function over any enumeration of the set's elements.
pub proof fn lemma_walk_order_independent<A, F: Fn(A, i64) -> A>(
    s: IntSet,
    f: F,
    g: spec_fn(A, i64) -> A,
    seed: A,
    r: A,
    l: Seq<i64>,
)
    requires
        s.wf(),
        forall|a: A, x: i64, v: A| f.ensures((a, x), v) ==> v == g(a, x),
        commutative_foldl(g),
        folds_to(f, s.list(), seed, r),
        l.no_duplicates(),
        l.to_set() == s@,
    ensures
        r == l.fold_left(seed, g),
{
    s.lemma_list();
    let m = s.list();
    let accs = choose|accs: Seq<A>|
        #![trigger accs.len()]
        accs.len() == m.len() + 1 && accs[0] == seed && accs[m.len() as int] == r && forall|i: int|
            0 <= i < m.len() ==> f.ensures((accs[i], m[i]), #[trigger] accs[i + 1]);
    lemma_chain_fold(f, g, m, seed, accs, m.len() as int);
    assert(m.subrange(0, m.len() as int) =~= m);
    lemma_same_elements_same_multiset(m, l);
    lemma_fold_left_permutation(m, l, g, seed);
}

proof fn lemma_chain_fold<A, F: Fn(A, i64) -> A>(
    f: F,
    g: spec_fn(A, i64) -> A,
    m: Seq<i64>,
    seed: A,
    accs: Seq<A>,
    i: int,
)
    requires
        forall|a: A, x: i64, v: A| f.ensures((a, x), v) ==> v == g(a, x),
        accs.len() == m.len() + 1,
        accs[0] == seed,
        forall|j: int| 0 <= j < m.len() ==> f.ensures((accs[j], m[j]), #[trigger] accs[j + 1]),
        0 <= i <= m.len(),
    ensures
        accs[i] == m.subrange(0, i).fold_left(seed, g),
    decreases i,
{
    if i > 0 {
        lemma_chain_fold(f, g, m, seed, accs, i - 1);
        assert(m.subrange(0, i).drop_last() =~= m.subrange(0, i - 1));
        let j = i - 1;
        assert(f.ensures((accs[j], m[j]), accs[j + 1]));
        assert(j + 1 == i);
    }
}

/// Two duplicate-free sequences with the same elements are permutations of
/// each other.
proof fn lemma_same_elements_same_multiset(a: Seq<i64>, b: Seq<i64>)
    requires
        a.no_duplicates(),
        b.no_duplicates(),
        a.to_set() == b.to_set(),
    ensures
        a.to_multiset() == b.to_multiset(),
{
    broadcast use vstd::seq_lib::group_to_multiset_ensures;

    a.lemma_multiset_has_no_duplicates();
    b.lemma_multiset_has_no_duplicates();
    assert forall|x: i64| a.to_multiset().count(x) == b.to_multiset().count(x) by {
        assert(a.to_set().contains(x) == a.contains(x));
        assert(b.to_set().contains(x) == b.contains(x));
    }
    assert(a.to_multiset() =~= b.to_multiset());
}

/// Two sets with the same elements and the same capacity, in neither of
/// which an element has been displaced from its home slot, enumerate their
/// elements in the same order, whatever operations built them.
pub proof fn lemma_enumeration_canonical_when_undisplaced(a: IntSet, b: IntSet)
    requires
        a.wf(),
        b.wf(),
        a@ == b@,
        a.capacity() == b.capacity(),
        a.undisplaced(),
        b.undisplaced(),
    ensures
        a.list() == b.list(),
{
    let s = a.table.slots@;
    let t = b.table.slots@;
    let n = s.len() as int;
    assert forall|j: int| 0 <= j < n && (s[j] is Occupied || t[j] is Occupied) implies s[j] == t[j] by {
        if s[j] is Occupied {
            let k = s[j]->0;
            lemma_keys_of_contains(s, k);
            assert(a@.contains(k));
            assert(b@.contains(k));
            lemma_keys_of_contains(t, k);
            let j2 = choose|j2: int| 0 <= j2 < t.len() && t[j2] == Slot::Occupied(k);
            assert(t[j2] is Occupied);
            assert(s[j] is Occupied);
        } else {
            let k = t[j]->0;
            lemma_keys_of_contains(t, k);
            assert(b@.contains(k));
            assert(a@.contains(k));
            lemma_keys_of_contains(s, k);
            let j2 = choose|j2: int| 0 <= j2 < s.len() && s[j2] == Slot::Occupied(k);
            assert(s[j2] is Occupied);
            assert(t[j] is Occupied);
        }
    }
    lemma_keys_of_same_occupied(s, t);
}

/// The elements of a prefix of a sequence.
proof fn lemma_prefix_set(l: Seq<i64>, i: int)
    requires
        0 <= i <= l.len(),
    ensures
        l.to_set().finite(),
        l.subrange(0, i).to_set() <= l.to_set(),
        i < l.len() ==> l.subrange(0, i + 1).to_set() == l.subrange(0, i).to_set().insert(l[i]),
        i == l.len() ==> l.subrange(0, i).to_set() == l.to_set(),
{
    broadcast use vstd::seq_lib::seq_to_set_is_finite;

    assert forall|x: i64| l.subrange(0, i).to_set().contains(x) implies l.to_set().contains(x) by {
        let j = choose|j: int| 0 <= j < i && l.subrange(0, i)[j] == x;
        assert(l[j] == x);
    }
    if i < l.len() {
        assert(l.subrange(0, i + 1) =~= l.subrange(0, i).push(l[i]));
        l.subrange(0, i).lemma_push_to_set_commute(l[i]);
    }
    if i == l.len() {
        assert(l.subrange(0, i) =~= l);
    }
}

} // verus!
