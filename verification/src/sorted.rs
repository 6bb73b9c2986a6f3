//! Sequences of keys kept in increasing order.
//!
//! A key is a pair of a counter and an identifier; keys are ordered by the
//! counter first, then by the identifier.

use vstd::prelude::*;
use crate::collect::{lemma_take_all, lemma_take_next};

verus! {

/// The order of keys: `a` comes strictly before `b`.
pub open spec fn key_before(a: (u64, u128), b: (u64, u128)) -> bool {
    a.0 < b.0 || (a.0 == b.0 && a.1 < b.1)
}

/// Every key of `keys` comes strictly before those behind it.
pub open spec fn increasing(keys: Seq<(u64, u128)>) -> bool {
    forall|i: int, j: int| 0 <= i < j < keys.len() ==> key_before(keys[i], keys[j])
}

/// Whether `a` comes strictly before `b`.
pub fn comes_before(a: (u64, u128), b: (u64, u128)) -> (before: bool)
    ensures
        before == key_before(a, b),
{
    a.0 < b.0 || (a.0 == b.0 && a.1 < b.1)
}

/// Puts `key` in its place among `keys`, unless it is there already.
pub fn insert_in_order(keys: &mut Vec<(u64, u128)>, key: (u64, u128))
    requires
        increasing(old(keys)@),
    ensures
        increasing(final(keys)@),
        final(keys)@.to_set() == old(keys)@.to_set().insert(key),
        old(keys)@.contains(key) ==> final(keys)@ == old(keys)@,
        !old(keys)@.contains(key) ==> final(keys)@.len() == old(keys)@.len() + 1,
{
    let mut at: usize = keys.len();
    while at > 0 && comes_before(key, keys[at - 1])
        invariant
            at <= keys.len(),
            keys@ == old(keys)@,
            forall|j: int| at <= j < keys.len() ==> key_before(key, #[trigger] keys@[j]),
        decreases at,
    {
        at = at - 1;
    }
    if at > 0 && keys[at - 1].0 == key.0 && keys[at - 1].1 == key.1 {
        proof {
            assert(keys@[at - 1] == key);
            assert(keys@.to_set().contains(key));
            assert(keys@.to_set() =~= keys@.to_set().insert(key));
        }
        return ;
    }
    proof {
        assert forall|j: int| 0 <= j < keys.len() implies #[trigger] keys@[j] != key by {
            if j < at {
                if j < at - 1 {
                    assert(key_before(keys@[j], keys@[at - 1]));
                }
            }
        }
        assert(!keys@.contains(key));
    }
    keys.insert(at, key);
    proof {
        let before = old(keys)@;
        let after = keys@;
        assert(after =~= before.insert(at as int, key));
        assert forall|i: int, j: int| 0 <= i < j < after.len() implies key_before(
            after[i],
            after[j],
        ) by {
            if j < at {
                assert(after[i] == before[i] && after[j] == before[j]);
            } else if j == at {
                assert(after[i] == before[i]);
                if i < at - 1 {
                    assert(key_before(before[i], before[at - 1]));
                }
            } else if i < at {
                assert(after[i] == before[i] && after[j] == before[j - 1]);
            } else if i == at {
                assert(after[j] == before[j - 1]);
            } else {
                assert(after[i] == before[i - 1] && after[j] == before[j - 1]);
            }
        }
        assert forall|k: (u64, u128)| after.to_set().contains(k) <==> before.to_set().insert(
            key,
        ).contains(k) by {
            if after.contains(k) {
                let j = choose|j: int| 0 <= j < after.len() && after[j] == k;
                if j < at {
                    assert(before[j] == k);
                } else if j > at {
                    assert(before[j - 1] == k);
                }
            }
            if before.contains(k) {
                let j = choose|j: int| 0 <= j < before.len() && before[j] == k;
                if j < at {
                    assert(after[j] == k);
                } else {
                    assert(after[j + 1] == k);
                }
            }
            if k == key {
                assert(after[at as int] == k);
            }
        }
        assert(after.to_set() =~= before.to_set().insert(key));
    }
}

/// Two increasing sequences that hold the same keys are the same sequence.
pub proof fn lemma_increasing_is_unique(a: Seq<(u64, u128)>, b: Seq<(u64, u128)>)
    requires
        increasing(a),
        increasing(b),
        a.to_set() == b.to_set(),
    ensures
        a == b,
    decreases a.len(),
{
    if a.len() == 0 {
        if b.len() > 0 {
            assert(b.to_set().contains(b[0]));
            assert(a.contains(b[0]));
        }
        assert(a =~= b);
    } else {
        assert(a.to_set().contains(a[0]));
        assert(b.contains(a[0]));
        assert(b.len() > 0);
        assert(b.to_set().contains(b[0]));
        assert(a.contains(b[0]));
        let i = choose|i: int| 0 <= i < b.len() && b[i] == a[0];
        let j = choose|j: int| 0 <= j < a.len() && a[j] == b[0];
        if i > 0 {
            assert(key_before(b[0], b[i]));
            if j > 0 {
                assert(key_before(a[0], a[j]));
            }
        }
        assert(a[0] == b[0]);
        let rest_a = a.drop_first();
        let rest_b = b.drop_first();
        assert forall|k: (u64, u128)| rest_a.to_set().contains(k) <==> rest_b.to_set().contains(
            k,
        ) by {
            if rest_a.contains(k) {
                let p = choose|p: int| 0 <= p < rest_a.len() && rest_a[p] == k;
                assert(a[p + 1] == k);
                assert(key_before(a[0], a[p + 1]));
                assert(a.to_set().contains(k));
                assert(b.contains(k));
                let q = choose|q: int| 0 <= q < b.len() && b[q] == k;
                assert(q > 0);
                assert(rest_b[q - 1] == k);
            }
            if rest_b.contains(k) {
                let p = choose|p: int| 0 <= p < rest_b.len() && rest_b[p] == k;
                assert(b[p + 1] == k);
                assert(key_before(b[0], b[p + 1]));
                assert(b.to_set().contains(k));
                assert(a.contains(k));
                let q = choose|q: int| 0 <= q < a.len() && a[q] == k;
                assert(q > 0);
                assert(rest_a[q - 1] == k);
            }
        }
        assert(rest_a.to_set() =~= rest_b.to_set());
        assert forall|p: int, q: int| 0 <= p < q < rest_a.len() implies key_before(
            rest_a[p],
            rest_a[q],
        ) by {
            assert(key_before(a[p + 1], a[q + 1]));
        }
        assert forall|p: int, q: int| 0 <= p < q < rest_b.len() implies key_before(
            rest_b[p],
            rest_b[q],
        ) by {
            assert(key_before(b[p + 1], b[q + 1]));
        }
        lemma_increasing_is_unique(rest_a, rest_b);
        assert(a =~= seq![a[0]] + rest_a);
        assert(b =~= seq![b[0]] + rest_b);
    }
}

/// Every number of `numbers` is less than those behind it.
pub open spec fn rising(numbers: Seq<u128>) -> bool {
    forall|i: int, j: int| 0 <= i < j < numbers.len() ==> numbers[i] < numbers[j]
}

/// The numbers of `numbers`, each once, in rising order.
pub fn in_order(numbers: &Vec<u128>) -> (sorted: Vec<u128>)
    ensures
        rising(sorted@),
        forall|number: u128| sorted@.contains(number) <==> numbers@.contains(number),
{
    let mut keys: Vec<(u64, u128)> = Vec::new();
    let mut i: usize = 0;
    while i < numbers.len()
        invariant
            i <= numbers.len(),
            increasing(keys@),
            forall|key: (u64, u128)| #[trigger]
                keys@.contains(key) <==> (key.0 == 0 && numbers@.take(i as int).contains(key.1)),
        decreases numbers.len() - i,
    {
        let ghost before = keys@;
        insert_in_order(&mut keys, (0, numbers[i]));
        proof {
            lemma_take_next(numbers@, i as int);
            assert forall|key: (u64, u128)| #[trigger]
                keys@.contains(key) <==> (key.0 == 0 && numbers@.take(i + 1).contains(key.1)) by {
                assert(keys@.contains(key) <==> keys@.to_set().contains(key));
                assert(before.contains(key) <==> before.to_set().contains(key));
                assert(before.contains(key) <==> (key.0 == 0 && numbers@.take(i as int).contains(
                    key.1,
                )));
            }
        }
        i = i + 1;
    }
    proof {
        lemma_take_all(numbers@);
    }
    let mut sorted: Vec<u128> = Vec::new();
    let mut j: usize = 0;
    while j < keys.len()
        invariant
            j <= keys.len(),
            sorted@.len() == j,
            forall|k: int| 0 <= k < j ==> #[trigger] sorted@[k] == keys@[k].1,
        decreases keys.len() - j,
    {
        sorted.push(keys[j].1);
        j = j + 1;
    }
    proof {
        assert forall|a: int, b: int| 0 <= a < b < sorted@.len() implies sorted@[a]
            < sorted@[b] by {
            assert(key_before(keys@[a], keys@[b]));
            assert(keys@.contains(keys@[a]) && keys@.contains(keys@[b]));
        }
        assert forall|number: u128| sorted@.contains(number) <==> numbers@.contains(number) by {
            if sorted@.contains(number) {
                let k = choose|k: int| 0 <= k < sorted@.len() && sorted@[k] == number;
                assert(keys@.contains(keys@[k]));
            }
            if numbers@.contains(number) {
                assert(keys@.contains((0u64, number)));
                let k = choose|k: int| 0 <= k < keys@.len() && keys@[k] == (0u64, number);
                assert(sorted@[k] == number);
            }
        }
    }
    sorted
}

} // verus!
