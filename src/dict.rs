//! The open-addressing hash table (linear probing with tombstones) that
//! backs the set.
use vstd::prelude::*;
use crate::slots::{
    Slot,
    keys_of,
    tombs_of,
    lemma_keys_of_bounds,
    lemma_keys_of_contains,
    lemma_keys_of_full,
    lemma_keys_of_one,
    lemma_keys_of_split,
};

verus! {

/// The smallest capacity a table is created with.
pub const MIN_CAPACITY: usize = 8;

/// The largest number of elements a table may be asked to hold; keeps every
/// capacity computation inside `usize`.
pub const MAX_LEN: usize = usize::MAX / 16;

/// Whether `n` is a power of two.
pub open spec fn is_pow2(n: nat) -> bool
    decreases n,
{
    if n == 1 {
        true
    } else if n == 0 || n % 2 == 1 {
        false
    } else {
        is_pow2(n / 2)
    }
}

/// The hash of a key: its bits folded onto the low half.
pub open spec fn hash_spec(k: i64) -> u64 {
    (k as u64) ^ ((k as u64) >> 32u64)
}

pub fn hash(k: i64) -> (r: u64)
    ensures
        r == hash_spec(k),
{
    let u = k as u64;
    u ^ (u >> 32u64)
}

/// The slot at which the probe sequence of `k` starts in a table of `n` slots.
pub open spec fn home(k: i64, n: int) -> int {
    (hash_spec(k) as int) % n
}

/// The `d`-th slot of the probe sequence of `k` (for `d < n`).
pub open spec fn pos(k: i64, d: int, n: int) -> int {
    if home(k, n) + d < n {
        home(k, n) + d
    } else {
        home(k, n) + d - n
    }
}

/// How many probe steps lead from the home slot of `k` to slot `j`.
pub open spec fn dist(k: i64, j: int, n: int) -> int {
    if j >= home(k, n) {
        j - home(k, n)
    } else {
        j + n - home(k, n)
    }
}

pub open spec fn not_empty_at(s: Seq<Slot>, i: int) -> bool {
    !(s[i] is Empty)
}

/// No empty slot lies on the first `e` steps of the probe sequence of `k`.
pub open spec fn clear_path(s: Seq<Slot>, k: i64, e: int) -> bool {
    forall|d: int| 0 <= d < e ==> not_empty_at(s, #[trigger] pos(k, d, s.len() as int))
}

/// Every stored key can be reached from its home slot without crossing an
/// empty slot.
pub open spec fn chains_ok(s: Seq<Slot>) -> bool {
    forall|j: int|
        0 <= j < s.len() && (#[trigger] s[j]) is Occupied ==> clear_path(
            s,
            s[j]->0,
            dist(s[j]->0, j, s.len() as int),
        )
}

pub proof fn lemma_pos_dist(k: i64, n: int)
    requires
        n > 0,
    ensures
        0 <= home(k, n) < n,
        forall|d: int| 0 <= d < n ==> 0 <= #[trigger] pos(k, d, n) < n && dist(k, pos(k, d, n), n) == d,
        forall|j: int| 0 <= j < n ==> 0 <= #[trigger] dist(k, j, n) < n && pos(k, dist(k, j, n), n) == j,
{
}

pub struct Dict {
    pub(crate) slots: Vec<Slot>,
    pub(crate) occupied: usize,
    pub(crate) tombstones: usize,
}

impl Dict {
    /// The stored keys in ascending slot order.
    pub(crate) open spec fn keys(&self) -> Seq<i64> {
        keys_of(self.slots@)
    }

    pub(crate) open spec fn cap(&self) -> nat {
        self.slots@.len()
    }

    /// Structural well-formedness of a table.
    pub(crate) open spec fn wf(&self) -> bool {
        &&& is_pow2(self.cap())
        &&& MIN_CAPACITY <= self.cap()
        &&& self.cap() <= usize::MAX / 2
        &&& self.occupied == self.keys().len()
        &&& self.tombstones == tombs_of(self.slots@)
        &&& self.keys().no_duplicates()
        &&& chains_ok(self.slots@)
    }

    /// A table of at least `hint` slots (a power of two, at least the minimum),
    /// all empty.
    pub(crate) fn with_capacity(hint: usize) -> (r: Dict)
        requires
            hint <= usize::MAX / 4,
        ensures
            r.wf(),
            r.keys() == Seq::<i64>::empty(),
            r.cap() >= hint,
            r.cap() < 2 * hint || r.cap() == MIN_CAPACITY,
    {
        let mut cap: usize = MIN_CAPACITY;
        assert(is_pow2(8)) by {
            assert(is_pow2(1));
            assert(is_pow2(2));
            assert(is_pow2(4));
        }
        while cap < hint
            invariant
                is_pow2(cap as nat),
                8 <= cap,
                cap < 2 * hint || cap == MIN_CAPACITY,
                hint <= usize::MAX / 4,
            decreases 2 * hint - cap,
        {
            assert(is_pow2((2 * cap) as nat)) by {
                assert((2 * cap) as nat / 2 == cap as nat);
            }
            cap = cap * 2;
        }
        let mut slots: Vec<Slot> = Vec::new();
        let mut i: usize = 0;
        while i < cap
            invariant
                i <= cap,
                slots@.len() == i,
                forall|j: int| 0 <= j < i ==> slots@[j] == Slot::Empty,
            decreases cap - i,
        {
            slots.push(Slot::Empty);
            i = i + 1;
        }
        proof {
            lemma_all_empty(slots@);
        }
        Dict { slots, occupied: 0, tombstones: 0 }
    }

    /// The home slot of `k` in this table.
    fn home_of(&self, k: i64) -> (r: usize)
        requires
            self.cap() > 0,
        ensures
            r == home(k, self.cap() as int),
            r < self.cap(),
    {
        let n = self.slots.len() as u64;
        (hash(k) % n) as usize
    }

    /// Looks `k` up along its probe sequence.
    pub(crate) fn find(&self, k: i64) -> (r: Option<usize>)
        requires
            self.wf(),
        ensures
            r is Some <==> self.keys().contains(k),
            r is Some ==> r->0 < self.cap() && self.slots@[r->0 as int] == Slot::Occupied(k),
    {
        let n = self.slots.len();
        let ghost s = self.slots@;
        proof {
            lemma_pos_dist(k, n as int);
        }
        let mut p = self.home_of(k);
        let mut d: usize = 0;
        while d < n
            invariant
                s == self.slots@,
                n == s.len(),
                self.wf(),
                d <= n,
                d < n ==> p == pos(k, d as int, n as int),
                forall|e: int| 0 <= e < d ==> s[#[trigger] pos(k, e, n as int)] != Slot::Occupied(k),
                forall|e: int| 0 <= e < d ==> not_empty_at(s, #[trigger] pos(k, e, n as int)),
            decreases n - d,
        {
            match self.slots[p] {
                Slot::Empty => {
                    proof {
                        self.lemma_absent_at_gap(k, d as int);
                    }
                    return None;
                },
                Slot::Occupied(x) => {
                    if x == k {
                        proof {
                            lemma_keys_of_contains(s, k);
                        }
                        return Some(p);
                    }
                },
                Slot::Tombstone => {},
            }
            p = if p + 1 == n {
                0
            } else {
                p + 1
            };
            d = d + 1;
        }
        proof {
            self.lemma_absent_at_gap(k, n as int);
        }
        None
    }

    /// The first slot on the probe sequence of `k` that holds no key.
    fn free_slot(&self, k: i64) -> (r: usize)
        requires
            self.wf(),
            self.occupied < self.cap(),
        ensures
            r < self.cap(),
            !(self.slots@[r as int] is Occupied),
            clear_path(self.slots@, k, dist(k, r as int, self.cap() as int)),
    {
        let n = self.slots.len();
        let ghost s = self.slots@;
        proof {
            lemma_pos_dist(k, n as int);
        }
        let mut p = self.home_of(k);
        let mut d: usize = 0;
        while d < n
            invariant
                s == self.slots@,
                n == s.len(),
                self.wf(),
                self.occupied < n,
                d <= n,
                d < n ==> p == pos(k, d as int, n as int),
                forall|e: int| 0 <= e < d ==> (#[trigger] s[pos(k, e, n as int)]) is Occupied,
            decreases n - d,
        {
            if !matches!(self.slots[p], Slot::Occupied(_)) {
                proof {
                    assert forall|e: int| 0 <= e < dist(k, p as int, n as int) implies not_empty_at(
                        s,
                        #[trigger] pos(k, e, n as int),
                    ) by {
                        assert(s[pos(k, e, n as int)] is Occupied);
                    }
                }
                return p;
            }
            p = if p + 1 == n {
                0
            } else {
                p + 1
            };
            d = d + 1;
        }
        proof {
            assert forall|j: int| 0 <= j < s.len() implies s[j] is Occupied by {
                assert(s[pos(k, dist(k, j, n as int), n as int)] is Occupied);
            }
            lemma_keys_of_full(s);
        }
        0
    }

    /// Stores a key that is not in the table yet.
    pub(crate) fn insert_absent(&mut self, k: i64)
        requires
            old(self).wf(),
            old(self).occupied < old(self).cap(),
            !old(self).keys().contains(k),
        ensures
            final(self).wf(),
            final(self).cap() == old(self).cap(),
            final(self).keys().to_set() == old(self).keys().to_set().insert(k),
            final(self).keys().len() == old(self).keys().len() + 1,
    {
        let p = self.free_slot(k);
        let ghost s = self.slots@;
        let ghost n = s.len() as int;
        let was_tomb = matches!(self.slots[p], Slot::Tombstone);
        proof {
            lemma_keys_of_bounds(s);
            lemma_keys_of_split(s, p as int);
            lemma_keys_of_one(s[p as int]);
        }
        self.slots.set(p, Slot::Occupied(k));
        self.occupied = self.occupied + 1;
        if was_tomb {
            self.tombstones = self.tombstones - 1;
        }
        proof {
            let t = self.slots@;
            lemma_pos_dist(k, n);
            lemma_keys_of_split(s, p as int);
            lemma_keys_of_split(t, p as int);
            assert(t.subrange(0, p as int) == s.subrange(0, p as int));
            assert(t.subrange(p + 1, n) == s.subrange(p + 1, n));
            lemma_keys_of_one(s[p as int]);
            lemma_keys_of_one(t[p as int]);
            let a = keys_of(s.subrange(0, p as int));
            let b = keys_of(s.subrange(p + 1, n));
            assert(keys_of(s) == a + b);
            assert(keys_of(t) == a + seq![k] + b);
            lemma_seq_insert_mid(a, k, b);
            assert forall|j: int| 0 <= j < n && (#[trigger] t[j]) is Occupied implies clear_path(
                t,
                t[j]->0,
                dist(t[j]->0, j, n),
            ) by {
                if j == p {
                    assert forall|e: int| 0 <= e < dist(k, j, n) implies not_empty_at(
                        t,
                        #[trigger] pos(k, e, n),
                    ) by {
                        assert(not_empty_at(s, pos(k, e, n)));
                    }
                } else {
                    let kj = s[j]->0;
                    lemma_pos_dist(kj, n);
                    assert(s[j] is Occupied);
                    assert(clear_path(s, kj, dist(kj, j, n)));
                    assert forall|e: int| 0 <= e < dist(kj, j, n) implies not_empty_at(
                        t,
                        #[trigger] pos(kj, e, n),
                    ) by {
                        assert(not_empty_at(s, pos(kj, e, n)));
                    }
                }
            }
        }
    }

    /// Turns the occupied slot `p` into a tombstone.
    pub(crate) fn remove_at(&mut self, p: usize)
        requires
            old(self).wf(),
            p < old(self).cap(),
            old(self).slots@[p as int] is Occupied,
        ensures
            final(self).wf(),
            final(self).cap() == old(self).cap(),
            final(self).keys().to_set() == old(self).keys().to_set().remove(
                old(self).slots@[p as int]->0,
            ),
            final(self).keys().len() + 1 == old(self).keys().len(),
    {
        let ghost s = self.slots@;
        let ghost n = s.len() as int;
        let ghost k = s[p as int]->0;
        proof {
            lemma_keys_of_bounds(s);
            lemma_keys_of_split(s, p as int);
            lemma_keys_of_one(s[p as int]);
        }
        self.slots.set(p, Slot::Tombstone);
        self.occupied = self.occupied - 1;
        self.tombstones = self.tombstones + 1;
        proof {
            let t = self.slots@;
            lemma_keys_of_split(s, p as int);
            lemma_keys_of_split(t, p as int);
            assert(t.subrange(0, p as int) == s.subrange(0, p as int));
            assert(t.subrange(p + 1, n) == s.subrange(p + 1, n));
            lemma_keys_of_one(s[p as int]);
            lemma_keys_of_one(t[p as int]);
            let a = keys_of(s.subrange(0, p as int));
            let b = keys_of(s.subrange(p + 1, n));
            assert(keys_of(t) == a + b);
            assert(keys_of(s) == a + seq![k] + b);
            lemma_seq_insert_mid(a, k, b);
            assert(keys_of(t).to_set() =~= keys_of(s).to_set().remove(k));
            assert forall|j: int| 0 <= j < n && (#[trigger] t[j]) is Occupied implies clear_path(
                t,
                t[j]->0,
                dist(t[j]->0, j, n),
            ) by {
                let kj = s[j]->0;
                assert(s[j] is Occupied);
                assert(clear_path(s, kj, dist(kj, j, n)));
                assert forall|e: int| 0 <= e < dist(kj, j, n) implies not_empty_at(
                    t,
                    #[trigger] pos(kj, e, n),
                ) by {
                    assert(not_empty_at(s, pos(kj, e, n)));
                }
            }
        }
    }

    /// The load bound: at most three quarters of the slots hold keys.
    pub(crate) open spec fn loaded(&self) -> bool {
        self.occupied <= self.cap() / 4 * 3
    }

    /// A fresh table of at least `hint` slots holding the same keys; the
    /// tombstones are dropped.
    pub(crate) fn rehash(&self, hint: usize) -> (r: Dict)
        requires
            self.wf(),
            self.occupied < hint,
            hint <= usize::MAX / 4,
        ensures
            r.wf(),
            r.keys().to_set() == self.keys().to_set(),
            r.keys().len() == self.keys().len(),
            r.cap() >= hint,
            r.cap() < 2 * hint || r.cap() == MIN_CAPACITY,
    {
        let ghost s = self.slots@;
        let mut r = Dict::with_capacity(hint);
        let n = self.slots.len();
        let mut i: usize = 0;
        proof {
            assert(s.subrange(0, 0) =~= Seq::<Slot>::empty());
            lemma_all_empty(s.subrange(0, 0));
            lemma_keys_of_bounds(s);
        }
        while i < n
            invariant
                s == self.slots@,
                n == s.len(),
                self.wf(),
                self.occupied < hint,
                i <= n,
                r.wf(),
                r.cap() >= hint,
                r.cap() < 2 * hint || r.cap() == MIN_CAPACITY,
                r.keys().to_set() == keys_of(s.subrange(0, i as int)).to_set(),
                r.keys().len() == keys_of(s.subrange(0, i as int)).len(),
            decreases n - i,
        {
            let ghost before = s.subrange(0, i as int);
            proof {
                assert(s.subrange(0, i + 1).drop_last() =~= before);
                assert(s.subrange(0, i + 1).last() == s[i as int]);
            }
            match self.slots[i] {
                Slot::Occupied(k) => {
                    proof {
                        lemma_keys_of_split(s, i as int);
                        lemma_keys_of_one(s[i as int]);
                        let a = keys_of(before);
                        let b = keys_of(s.subrange(i + 1, n as int));
                        lemma_seq_insert_mid(a, k, b);
                        assert(keys_of(s) == a + seq![k] + b);
                        if a.contains(k) {
                            let j = choose|j: int| 0 <= j < a.len() && a[j] == k;
                            assert((a + b)[j] == k);
                        }
                        assert(a.len() <= keys_of(s).len());
                        assert(a.to_set().contains(k) ==> a.contains(k));
                        assert(keys_of(s.subrange(0, i + 1)) == a.push(k));
                        a.lemma_push_to_set_commute(k);
                    }
                    r.insert_absent(k);
                },
                _ => {},
            }
            i = i + 1;
        }
        proof {
            assert(s.subrange(0, n as int) =~= s);
        }
        r
    }

    /// Adds `k`; a key already present leaves the table as it is.
    pub(crate) fn insert(&mut self, k: i64)
        requires
            old(self).wf(),
            old(self).loaded(),
            old(self).keys().len() < MAX_LEN,
        ensures
            final(self).wf(),
            final(self).loaded(),
            final(self).keys().to_set() == old(self).keys().to_set().insert(k),
            old(self).keys().contains(k) ==> *final(self) == *old(self),
            !old(self).keys().contains(k) ==> final(self).keys().len() == old(self).keys().len()
                + 1,
    {
        if self.find(k).is_some() {
            proof {
                assert(old(self).keys().to_set().insert(k) =~= old(self).keys().to_set());
            }
            return;
        }
        let ghost before = self.occupied;
        self.insert_absent(k);
        let cap = self.slots.len();
        if self.occupied > cap / 4 * 3 {
            assert(2 * cap <= usize::MAX / 4) by (nonlinear_arith)
                requires
                    self.occupied > cap / 4 * 3,
                    self.occupied <= MAX_LEN,
                    MAX_LEN == usize::MAX / 16,
            ;
            let bigger = self.rehash(2 * cap);
            assert(self.occupied <= bigger.cap() / 4 * 3) by (nonlinear_arith)
                requires
                    self.occupied == before + 1,
                    before <= cap / 4 * 3,
                    bigger.cap() >= 2 * cap,
                    cap >= 8,
            ;
            *self = bigger;
        }
    }

    /// Removes `k`; an absent key leaves the table as it is.
    pub(crate) fn remove(&mut self, k: i64)
        requires
            old(self).wf(),
            old(self).loaded(),
        ensures
            final(self).wf(),
            final(self).loaded(),
            final(self).keys().to_set() == old(self).keys().to_set().remove(k),
            !old(self).keys().contains(k) ==> *final(self) == *old(self),
            old(self).keys().contains(k) ==> final(self).keys().len() + 1 == old(
                self,
            ).keys().len(),
    {
        match self.find(k) {
            Some(p) => {
                self.remove_at(p);
            },
            None => {
                proof {
                    assert(old(self).keys().to_set().remove(k) =~= old(self).keys().to_set());
                }
            },
        }
    }

    /// The stored keys, in ascending slot order.
    pub(crate) fn to_vec(&self) -> (r: Vec<i64>)
        ensures
            r@ == self.keys(),
    {
        let ghost s = self.slots@;
        let mut r: Vec<i64> = Vec::new();
        let n = self.slots.len();
        let mut i: usize = 0;
        proof {
            assert(s.subrange(0, 0) =~= Seq::<Slot>::empty());
        }
        while i < n
            invariant
                s == self.slots@,
                n == s.len(),
                i <= n,
                r@ == keys_of(s.subrange(0, i as int)),
            decreases n - i,
        {
            proof {
                assert(s.subrange(0, i + 1).drop_last() =~= s.subrange(0, i as int));
                assert(s.subrange(0, i + 1).last() == s[i as int]);
            }
            match self.slots[i] {
                Slot::Occupied(k) => {
                    r.push(k);
                },
                _ => {},
            }
            i = i + 1;
        }
        proof {
            assert(s.subrange(0, n as int) =~= s);
        }
        r
    }

    /// An independent copy of the table.
    pub(crate) fn copy(&self) -> (r: Dict)
        ensures
            r.slots@ == self.slots@,
            r.occupied == self.occupied,
            r.tombstones == self.tombstones,
    {
        let mut slots: Vec<Slot> = Vec::new();
        let n = self.slots.len();
        let mut i: usize = 0;
        while i < n
            invariant
                n == self.slots@.len(),
                i <= n,
                slots@ == self.slots@.subrange(0, i as int),
            decreases n - i,
        {
            slots.push(self.slots[i]);
            i = i + 1;
            proof {
                assert(slots@ =~= self.slots@.subrange(0, i as int));
            }
        }
        proof {
            assert(slots@ =~= self.slots@);
        }
        Dict { slots, occupied: self.occupied, tombstones: self.tombstones }
    }

    /// Where the probe sequence of `k` holds no `k` on its first `d` steps and
    /// either ends in an empty slot at step `d` or has been walked whole, `k`
    /// is not stored.
    proof fn lemma_absent_at_gap(&self, k: i64, d: int)
        requires
            self.wf(),
            0 <= d <= self.cap(),
            d < self.cap() ==> self.slots@[pos(k, d, self.cap() as int)] is Empty,
            forall|e: int|
                0 <= e < d ==> self.slots@[#[trigger] pos(k, e, self.cap() as int)] != Slot::Occupied(k),
        ensures
            !self.keys().contains(k),
    {
        let s = self.slots@;
        let n = self.cap() as int;
        lemma_pos_dist(k, n);
        lemma_keys_of_contains(s, k);
        if self.keys().contains(k) {
            let j = choose|j: int| 0 <= j < s.len() && s[j] == Slot::Occupied(k);
            assert(s[j] is Occupied);
            let e = dist(k, j, n);
            assert(clear_path(s, k, e));
            if e < d {
                assert(s[pos(k, e, n)] != Slot::Occupied(k));
            } else if e == d {
            } else {
                assert(not_empty_at(s, pos(k, d, n)));
            }
        }
    }
}

/// Inserting one element into the middle of a sequence.
pub proof fn lemma_seq_insert_mid(a: Seq<i64>, k: i64, b: Seq<i64>)
    ensures
        (a + seq![k] + b).to_set() == (a + b).to_set().insert(k),
        (a + seq![k] + b).len() == (a + b).len() + 1,
        (a + seq![k] + b).no_duplicates() <==> ((a + b).no_duplicates() && !(a + b).contains(k)),
{
    let m = a + seq![k] + b;
    let c = a + b;
    let na = a.len() as int;
    assert forall|i: int| 0 <= i < m.len() implies #[trigger] m[i] == (if i < na {
        c[i]
    } else if i == na {
        k
    } else {
        c[i - 1]
    }) by {}
    assert forall|x: i64| m.contains(x) <==> c.contains(x) || x == k by {
        if m.contains(x) {
            let i = choose|i: int| 0 <= i < m.len() && m[i] == x;
            if i < na {
                assert(c[i] == x);
            } else if i > na {
                assert(c[i - 1] == x);
            }
        }
        if c.contains(x) {
            let i = choose|i: int| 0 <= i < c.len() && c[i] == x;
            if i < na {
                assert(m[i] == x);
            } else {
                assert(m[i + 1] == x);
            }
        }
        if x == k {
            assert(m[na] == x);
        }
    }
    assert(m.to_set() =~= c.to_set().insert(k));
    if m.no_duplicates() {
        assert forall|i: int, j: int| 0 <= i < c.len() && 0 <= j < c.len() && i != j implies c[i]
            != c[j] by {
            let mi = if i < na {
                i
            } else {
                i + 1
            };
            let mj = if j < na {
                j
            } else {
                j + 1
            };
            assert(m[mi] == c[i]);
            assert(m[mj] == c[j]);
        }
        if c.contains(k) {
            let i = choose|i: int| 0 <= i < c.len() && c[i] == k;
            let mi = if i < na {
                i
            } else {
                i + 1
            };
            assert(m[mi] == k);
            assert(m[na] == k);
        }
    }
    if c.no_duplicates() && !c.contains(k) {
        assert forall|i: int, j: int| 0 <= i < m.len() && 0 <= j < m.len() && i != j implies m[i]
            != m[j] by {
            if i == na {
                if j < na {
                    assert(c[j] == m[j]);
                } else {
                    assert(c[j - 1] == m[j]);
                }
            } else if j == na {
                if i < na {
                    assert(c[i] == m[i]);
                } else {
                    assert(c[i - 1] == m[i]);
                }
            } else {
                let ci = if i < na {
                    i
                } else {
                    i - 1
                };
                let cj = if j < na {
                    j
                } else {
                    j - 1
                };
                assert(c[ci] == m[i]);
                assert(c[cj] == m[j]);
            }
        }
    }
}

proof fn lemma_all_empty(s: Seq<Slot>)
    requires
        forall|j: int| 0 <= j < s.len() ==> s[j] == Slot::Empty,
    ensures
        keys_of(s) == Seq::<i64>::empty(),
        tombs_of(s) == 0,
        chains_ok(s),
    decreases s.len(),
{
    if s.len() > 0 {
        lemma_all_empty(s.drop_last());
    }
}

} // verus!
