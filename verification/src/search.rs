//! Counting the keys of a run that a query has passed.

use vstd::prelude::*;
use crate::key::FastKey;
use crate::model::{
    count_at_most, count_below, lemma_count_at_most_split, lemma_count_below_split, sorted,
};

verus! {

/// How many entries of `data` the key is greater than.
pub fn count_greater<T: FastKey>(data: &[T], key: T) -> (gt_count: usize)
    ensures
        gt_count == count_below(data@, key),
{
    let mut gt_count: usize = 0;
    let mut i: usize = 0;
    while i < data.len()
        invariant
            i <= data.len(),
            gt_count <= i,
            gt_count == count_below(data@.subrange(0, i as int), key),
        decreases data.len() - i,
    {
        proof {
            assert(data@.subrange(0, i + 1).drop_last() =~= data@.subrange(0, i as int));
        }
        if data[i].below(key) {
            gt_count += 1;
        }
        i += 1;
    }
    proof {
        assert(data@.subrange(0, i as int) =~= data@);
    }
    gt_count
}

/// How many entries of `data` the key is greater than or equal to.
pub fn count_greater_eq<T: FastKey>(data: &[T], key: T) -> (gt_count: usize)
    ensures
        gt_count == count_at_most(data@, key),
{
    let mut gt_count: usize = 0;
    let mut i: usize = 0;
    while i < data.len()
        invariant
            i <= data.len(),
            gt_count <= i,
            gt_count == count_at_most(data@.subrange(0, i as int), key),
        decreases data.len() - i,
    {
        proof {
            assert(data@.subrange(0, i + 1).drop_last() =~= data@.subrange(0, i as int));
        }
        if !key.below(data[i]) {
            gt_count += 1;
        }
        i += 1;
    }
    proof {
        assert(data@.subrange(0, i as int) =~= data@);
    }
    gt_count
}

/// Whether the keys never decrease along `keys`.
pub fn is_sorted<T: FastKey>(keys: &[T]) -> (r: bool)
    ensures
        r == sorted(keys@),
{
    if keys.len() == 0 {
        return true;
    }
    let mut i: usize = 1;
    while i < keys.len()
        invariant
            1 <= i <= keys.len(),
            sorted(keys@.subrange(0, i as int)),
        decreases keys.len() - i,
    {
        if keys[i].below(keys[i - 1]) {
            proof {
                if sorted(keys@) {
                    assert(keys[i - 1].rank() <= keys[i as int].rank());
                }
            }
            return false;
        }
        proof {
            let front = keys@.subrange(0, i as int);
            let next = keys@.subrange(0, i + 1);
            assert forall|a: int, b: int| 0 <= a <= b < next.len() implies next[a].rank()
                <= next[b].rank() by {
                if b < i {
                    assert(front[a].rank() <= front[b].rank());
                } else if a < i {
                    assert(front[a].rank() <= front[i - 1].rank());
                }
            }
        }
        i += 1;
    }
    proof {
        assert(keys@.subrange(0, i as int) =~= keys@);
    }
    true
}

/// How many entries of sorted `data` the key is greater than, found by
/// halving: the position of the first entry that the key is not greater than.
pub fn first_not_below<T: FastKey>(data: &[T], key: T) -> (at: usize)
    requires
        sorted(data@),
    ensures
        at == count_below(data@, key),
{
    let mut lo: usize = 0;
    let mut hi: usize = data.len();
    while lo < hi
        invariant
            lo <= hi <= data.len(),
            sorted(data@),
            forall|i: int| 0 <= i < lo ==> data[i].rank() < key.rank(),
            forall|i: int| hi <= i < data.len() ==> data[i].rank() >= key.rank(),
        decreases hi - lo,
    {
        let mid: usize = lo + (hi - lo) / 2;
        if data[mid].below(key) {
            lo = mid + 1;
        } else {
            hi = mid;
        }
    }
    proof {
        lemma_count_below_split(data@, key, lo as int);
    }
    lo
}

/// How many entries of sorted `data` the key is greater than or equal to,
/// found by halving: the position of the first entry greater than the key.
pub fn first_above<T: FastKey>(data: &[T], key: T) -> (at: usize)
    requires
        sorted(data@),
    ensures
        at == count_at_most(data@, key),
{
    let mut lo: usize = 0;
    let mut hi: usize = data.len();
    while lo < hi
        invariant
            lo <= hi <= data.len(),
            sorted(data@),
            forall|i: int| 0 <= i < lo ==> data[i].rank() <= key.rank(),
            forall|i: int| hi <= i < data.len() ==> data[i].rank() > key.rank(),
        decreases hi - lo,
    {
        let mid: usize = lo + (hi - lo) / 2;
        if key.below(data[mid]) {
            hi = mid;
        } else {
            lo = mid + 1;
        }
    }
    proof {
        lemma_count_at_most_split(data@, key, lo as int);
    }
    lo
}

} // verus!
