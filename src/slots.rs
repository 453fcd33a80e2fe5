//! Slot storage of the hash table and its mathematical reading.
use vstd::prelude::*;

verus! {

/// One cell of the table's backing array.
#[derive(Clone, Copy, PartialEq, Eq, Structural, Debug)]
pub enum Slot {
    Empty,
    Occupied(i64),
    Tombstone,
}

/// The keys of the occupied slots, in ascending slot order.
pub open spec fn keys_of(s: Seq<Slot>) -> Seq<i64>
    decreases s.len(),
{
    if s.len() == 0 {
        Seq::empty()
    } else {
        let rest = keys_of(s.drop_last());
        match s.last() {
            Slot::Occupied(k) => rest.push(k),
            _ => rest,
        }
    }
}

/// The number of tombstones in a slot sequence.
pub open spec fn tombs_of(s: Seq<Slot>) -> nat
    decreases s.len(),
{
    if s.len() == 0 {
        0
    } else {
        tombs_of(s.drop_last()) + if s.last() is Tombstone {
            1nat
        } else {
            0nat
        }
    }
}

pub proof fn lemma_keys_of_append(a: Seq<Slot>, b: Seq<Slot>)
    ensures
        keys_of(a + b) == keys_of(a) + keys_of(b),
        tombs_of(a + b) == tombs_of(a) + tombs_of(b),
    decreases b.len(),
{
    if b.len() == 0 {
        assert(a + b =~= a);
        assert(keys_of(a) + keys_of(b) =~= keys_of(a));
    } else {
        lemma_keys_of_append(a, b.drop_last());
        assert((a + b).drop_last() =~= a + b.drop_last());
        assert((a + b).last() == b.last());
        match b.last() {
            Slot::Occupied(k) => {
                assert(keys_of(a) + keys_of(b.drop_last()).push(k) =~= (keys_of(a) + keys_of(
                    b.drop_last(),
                )).push(k));
            },
            _ => {},
        }
    }
}

pub proof fn lemma_keys_of_bounds(s: Seq<Slot>)
    ensures
        keys_of(s).len() + tombs_of(s) <= s.len(),
    decreases s.len(),
{
    if s.len() > 0 {
        lemma_keys_of_bounds(s.drop_last());
    }
}

pub proof fn lemma_keys_of_contains(s: Seq<Slot>, k: i64)
    ensures
        keys_of(s).contains(k) <==> exists|i: int| 0 <= i < s.len() && s[i] == Slot::Occupied(k),
    decreases s.len(),
{
    if s.len() > 0 {
        let t = s.drop_last();
        lemma_keys_of_contains(t, k);
        if keys_of(s).contains(k) {
            if keys_of(t).contains(k) {
                let i = choose|i: int| 0 <= i < t.len() && t[i] == Slot::Occupied(k);
                assert(s[i] == Slot::Occupied(k));
            } else {
                assert(s[s.len() - 1] == Slot::Occupied(k));
            }
        }
        if exists|i: int| 0 <= i < s.len() && s[i] == Slot::Occupied(k) {
            let i = choose|i: int| 0 <= i < s.len() && s[i] == Slot::Occupied(k);
            if i < s.len() - 1 {
                assert(t[i] == Slot::Occupied(k));
                assert(keys_of(t).contains(k));
            }
            assert(keys_of(s).contains(k)) by {
                if i == s.len() - 1 {
                    assert(keys_of(s) == keys_of(t).push(k));
                    assert(keys_of(s)[keys_of(t).len() as int] == k);
                } else {
                    let j = choose|j: int| 0 <= j < keys_of(t).len() && keys_of(t)[j] == k;
                    assert(keys_of(s)[j] == k);
                }
            }
        }
    }
}

/// A sequence whose every slot is occupied has as many keys as slots.
pub proof fn lemma_keys_of_full(s: Seq<Slot>)
    requires
        forall|i: int| 0 <= i < s.len() ==> s[i] is Occupied,
    ensures
        keys_of(s).len() == s.len(),
    decreases s.len(),
{
    if s.len() > 0 {
        lemma_keys_of_full(s.drop_last());
    }
}

/// Splits the keys of a slot sequence around one slot.
pub proof fn lemma_keys_of_split(s: Seq<Slot>, p: int)
    requires
        0 <= p < s.len(),
    ensures
        keys_of(s) == keys_of(s.subrange(0, p)) + keys_of(seq![s[p]]) + keys_of(
            s.subrange(p + 1, s.len() as int),
        ),
        tombs_of(s) == tombs_of(s.subrange(0, p)) + tombs_of(seq![s[p]]) + tombs_of(
            s.subrange(p + 1, s.len() as int),
        ),
{
    assert(s =~= s.subrange(0, p) + seq![s[p]] + s.subrange(p + 1, s.len() as int));
    lemma_keys_of_append(s.subrange(0, p), seq![s[p]]);
    lemma_keys_of_append(s.subrange(0, p) + seq![s[p]], s.subrange(p + 1, s.len() as int));
}

/// Two slot sequences that agree on every slot that either of them occupies
/// have the same keys in the same order.
pub proof fn lemma_keys_of_same_occupied(s: Seq<Slot>, t: Seq<Slot>)
    requires
        s.len() == t.len(),
        forall|j: int|
            0 <= j < s.len() && (s[j] is Occupied || t[j] is Occupied) ==> s[j] == t[j],
    ensures
        keys_of(s) == keys_of(t),
    decreases s.len(),
{
    if s.len() > 0 {
        lemma_keys_of_same_occupied(s.drop_last(), t.drop_last());
        assert(s.last() == s[s.len() - 1]);
        assert(t.last() == t[t.len() - 1]);
    }
}

pub proof fn lemma_keys_of_one(v: Slot)
    ensures
        keys_of(seq![v]) == (match v {
            Slot::Occupied(k) => seq![k],
            _ => Seq::<i64>::empty(),
        }),
        tombs_of(seq![v]) == (if v is Tombstone {
            1nat
        } else {
            0nat
        }),
{
    assert(seq![v].drop_last() =~= Seq::<Slot>::empty());
    assert(seq![v].last() == v);
    assert(keys_of(Seq::<Slot>::empty()) =~= Seq::<i64>::empty());
    assert(tombs_of(Seq::<Slot>::empty()) == 0);
    match v {
        Slot::Occupied(k) => {
            assert(Seq::<i64>::empty().push(k) =~= seq![k]);
        },
        _ => {},
    }
}

} // verus!
