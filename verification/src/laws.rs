//! What a lookup returns, said in terms of the keys alone.

use vstd::prelude::*;
use crate::descent::lemma_div_bounds;
use crate::key::FastKey;
use crate::model::{
    bracket, bracket_index, count_at_most, count_below, lemma_count_at_most_sorted,
    lemma_count_below_sorted, sorted,
};

verus! {

/// Keys grow along the sequence: no key stands twice.
pub open spec fn strictly_sorted<T: FastKey>(keys: Seq<T>) -> bool {
    forall|i: int, j: int| 0 <= i < j < keys.len() ==> keys[i].rank() < keys[j].rank()
}

/// All the keys equal to `key` stand in one page.
pub open spec fn in_one_page<T: FastKey>(keys: Seq<T>, key: T) -> bool {
    forall|i: int, j: int|
        0 <= i < keys.len() && 0 <= j < keys.len() && keys[i].rank() == key.rank()
            && keys[j].rank() == key.rank() ==> i / (T::run() as int) == j / (T::run() as int)
}

/// Keys of which none stands twice are sorted, and each stands in one page.
pub proof fn lemma_strictly_sorted<T: FastKey>(keys: Seq<T>, key: T)
    requires
        strictly_sorted(keys),
    ensures
        sorted(keys),
        in_one_page(keys, key),
{
    assert forall|i: int, j: int|
        0 <= i < keys.len() && 0 <= j < keys.len() && keys[i].rank() == key.rank()
            && keys[j].rank() == key.rank() implies i / (T::run() as int) == j / (T::run() as int) by {
        if i < j {
            assert(keys[i].rank() < keys[j].rank());
        } else if j < i {
            assert(keys[j].rank() < keys[i].rank());
        }
    }
    assert forall|i: int, j: int| 0 <= i <= j < keys.len() implies keys[i].rank()
        <= keys[j].rank() by {
        if i < j {
            assert(keys[i].rank() < keys[j].rank());
        }
    }
}

/// Outside the keys a lookup returns the end values: below the first key,
/// zero and the first value; from the last key on, the last value and the
/// largest key.
pub proof fn lemma_bracket_outside<T: FastKey>(keys: Seq<T>, values: Seq<T>, key: T)
    requires
        keys.len() == values.len(),
        keys.len() > 0,
        sorted(keys),
    ensures
        key.rank() < keys[0].rank() ==> bracket(keys, values, key) == (T::of_rank(0), values[0]),
        key.rank() >= keys.last().rank() ==> bracket(keys, values, key) == (
            values.last(),
            T::of_rank(T::max_rank()),
        ),
{
    assert(keys[0].rank() <= keys[keys.len() - 1].rank());
}

/// Between the first key and the last a lookup brackets the query: it
/// returns the value of the greatest key that is at most `key` and the value
/// of the least key above `key`, which stand next to each other, provided
/// the keys equal to `key` do not run from one page into the next.
pub proof fn lemma_bracket_between<T: FastKey>(keys: Seq<T>, values: Seq<T>, key: T)
    requires
        keys.len() == values.len(),
        keys.len() > 0,
        sorted(keys),
        keys[0].rank() <= key.rank() < keys.last().rank(),
        in_one_page(keys, key),
    ensures
        ({
            let i = count_at_most(keys, key) - 1;
            &&& 0 <= i < keys.len() - 1
            &&& keys[i].rank() <= key.rank() < keys[i + 1].rank()
            &&& forall|j: int|
                0 <= j < keys.len() && (#[trigger] keys[j]).rank() <= key.rank() ==> keys[j].rank()
                    <= keys[i].rank()
            &&& forall|j: int|
                0 <= j < keys.len() && (#[trigger] keys[j]).rank() > key.rank() ==> keys[j].rank()
                    >= keys[i + 1].rank()
            &&& bracket(keys, values, key) == (values[i], values[i + 1])
        }),
{
    T::lemma_key_type();
    let k = T::run() as int;
    let below = count_below(keys, key) as int;
    let most = count_at_most(keys, key) as int;
    lemma_count_below_sorted(keys, key);
    lemma_count_at_most_sorted(keys, key);
    lemma_between(keys, key);
    lemma_div_bounds(below, k);
    if below < most {
        lemma_div_bounds(most - 1, k);
        assert(keys[below].rank() == key.rank());
        assert(keys[most - 1].rank() == key.rank());
        assert(below / k == (most - 1) / k);
    }
    assert((below / k + 1) * k == (below / k) * k + k) by (nonlinear_arith);
    assert(bracket_index(keys, key) == most);
    let i = most - 1;
    assert forall|j: int|
        0 <= j < keys.len() && (#[trigger] keys[j]).rank() <= key.rank() implies keys[j].rank()
            <= keys[i].rank() by {
        if j > i {
            assert(keys[j].rank() > key.rank());
        }
    }
    assert forall|j: int|
        0 <= j < keys.len() && (#[trigger] keys[j]).rank() > key.rank() implies keys[j].rank()
            >= keys[i + 1].rank() by {
        if j < i + 1 {
            assert(keys[j].rank() <= key.rank());
        }
    }
}

/// Where the keys equal to `key` run from one page into the next, a lookup
/// stays in the page in which they begin: it returns the values of the two
/// entries on either side of that page's end, and both have the key `key`.
pub proof fn lemma_bracket_tie<T: FastKey>(keys: Seq<T>, values: Seq<T>, key: T)
    requires
        keys.len() == values.len(),
        keys.len() > 0,
        sorted(keys),
        keys[0].rank() <= key.rank() < keys.last().rank(),
        !in_one_page(keys, key),
    ensures
        ({
            let m = (count_below(keys, key) as int / T::run() as int + 1) * T::run();
            &&& 1 <= m < keys.len() - 1
            &&& keys[m - 1].rank() == key.rank()
            &&& keys[m].rank() == key.rank()
            &&& bracket(keys, values, key) == (values[m - 1], values[m])
        }),
{
    T::lemma_key_type();
    let k = T::run() as int;
    let below = count_below(keys, key) as int;
    let most = count_at_most(keys, key) as int;
    lemma_count_below_sorted(keys, key);
    lemma_count_at_most_sorted(keys, key);
    lemma_between(keys, key);
    lemma_div_bounds(below, k);
    let (i, j) = choose|i: int, j: int|
        0 <= i < keys.len() && 0 <= j < keys.len() && keys[i].rank() == key.rank()
            && keys[j].rank() == key.rank() && i / k != j / k;
    let m = (below / k + 1) * k;
    assert(m == (below / k) * k + k) by (nonlinear_arith)
        requires
            m == (below / k + 1) * k,
    ;
    assert(below <= i < most && below <= j < most);
    lemma_div_bounds(i, k);
    lemma_div_bounds(j, k);
    assert(most > m) by {
        if most <= m {
            lemma_same_page(below, i, k);
            lemma_same_page(below, j, k);
        }
    }
}

/// A query between the first key and the last has reached a key, and not
/// the last one.
proof fn lemma_between<T: FastKey>(keys: Seq<T>, key: T)
    requires
        keys.len() > 0,
        sorted(keys),
        keys[0].rank() <= key.rank() < keys.last().rank(),
    ensures
        count_below(keys, key) <= count_at_most(keys, key),
        1 <= count_at_most(keys, key) < keys.len(),
{
    let below = count_below(keys, key) as int;
    let most = count_at_most(keys, key) as int;
    lemma_count_below_sorted(keys, key);
    lemma_count_at_most_sorted(keys, key);
    if most == 0 {
        assert(keys[0].rank() > key.rank());
    }
    if most == keys.len() {
        assert(keys[keys.len() - 1].rank() <= key.rank());
    }
    if most < below {
        assert(keys[most].rank() < key.rank());
    }
}

/// A position that lies before the end of the page of `a`, and not before
/// `a`, lies in the page of `a`.
proof fn lemma_same_page(a: int, i: int, k: int)
    requires
        k > 0,
        0 <= a <= i < (a / k + 1) * k,
    ensures
        i / k == a / k,
{
    lemma_div_bounds(a, k);
    lemma_div_bounds(i, k);
    let p = a / k;
    let q = i / k;
    assert(p == q) by (nonlinear_arith)
        requires
            k > 0,
            p * k <= a,
            a <= i,
            i < (p + 1) * k,
            q * k <= i < q * k + k,
    ;
}

} // verus!
