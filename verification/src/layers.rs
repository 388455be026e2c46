//! Building the layers of a tree: the page layout, the leaf layer, and the
//! index layers above it.

use vstd::prelude::*;
use vstd::arithmetic::div_mod::lemma_fundamental_div_mod;
use vstd::arithmetic::div_mod::lemma_fundamental_div_mod_converse;
use crate::error::FastError;
use crate::key::FastKey;
use crate::model::{
    index_layer, lemma_pages, lemma_slot, offsets_fit, page_count, page_last_keys, page_offsets,
    paged, paged_at, pages,
};

verus! {

/// Pages that `n` entries take when a page holds `k` of them.
pub(crate) fn page_total(n: usize, k: usize) -> (p: usize)
    requires
        k > 0,
    ensures
        p == pages(n as int, k as int),
{
    let whole: usize = n / k;
    let rest: usize = n % k;
    proof {
        lemma_fundamental_div_mod(n as int, k as int);
        assert(k * whole == whole * k && (whole + 1) * k == whole * k + k) by (nonlinear_arith);
        if rest == 0 {
            lemma_fundamental_div_mod_converse(n + k - 1, k as int, whole as int, k - 1);
        } else {
            lemma_fundamental_div_mod_converse(n + k - 1, k as int, whole + 1, rest - 1);
            assert(whole < n) by (nonlinear_arith)
                requires
                    n == k * whole + rest,
                    rest > 0,
                    k > 0,
            ;
        }
    }
    if rest == 0 {
        whole
    } else {
        whole + 1
    }
}

/// Lays `left_vals` beside `right_vals` in pages: each page is a run of keys
/// from the left followed by the run of entries from the right at the same
/// indices, short runs padded with the largest key on the left and with zero
/// on the right.
pub fn layout<T: FastKey>(left_vals: Vec<T>, right_vals: Vec<T>) -> (r: Vec<T>)
    requires
        2 * T::run() * page_count(left_vals@, right_vals@) <= usize::MAX,
    ensures
        r@ == paged(left_vals@, right_vals@),
{
    proof {
        T::lemma_key_type();
        lemma_pages(left_vals.len() as int, T::run() as int);
        lemma_pages(right_vals.len() as int, T::run() as int);
    }
    let k: usize = T::run_len();
    let left_pages: usize = page_total(left_vals.len(), k);
    let right_pages: usize = page_total(right_vals.len(), k);
    let count: usize = if left_pages <= right_pages {
        left_pages
    } else {
        right_pages
    };
    let mut result: Vec<T> = Vec::new();
    let mut page: usize = 0;
    while page < count
        invariant
            k == T::run(),
            k >= 2,
            count == page_count(left_vals@, right_vals@),
            2 * k * count <= usize::MAX,
            page <= count,
            result.len() == page * (2 * k),
            forall|q: int| 0 <= q < result.len() ==> result[q] == paged_at(left_vals@, right_vals@, q),
        decreases count - page,
    {
        proof {
            lemma_slot(2 * k, count as int, page as int, 0);
            assert(page * k + k <= count * k && count * k <= 2 * k * count && page * (2 * k) == 2
                * (page * k) && 0 <= page * k) by (nonlinear_arith)
                requires
                    0 <= page < count,
                    k >= 2,
            ;
        }
        let base: usize = page * k;
        let start: Ghost<int> = Ghost(result.len() as int);
        let mut i: usize = 0;
        while i < k
            invariant
                k == T::run(),
                k >= 2,
                page < count,
                base == page * k,
                base + k <= usize::MAX,
                start@ == page * (2 * k),
                i <= k,
                result.len() == start@ + i,
                forall|q: int| 0 <= q < result.len() ==> result[q] == paged_at(left_vals@, right_vals@, q),
            decreases k - i,
        {
            proof {
                lemma_slot(2 * k, count as int, page as int, i as int);
            }
            if base + i >= left_vals.len() {
                result.push(T::largest());
            } else {
                result.push(left_vals[base + i]);
            }
            i += 1;
        }
        let mut i: usize = 0;
        while i < k
            invariant
                k == T::run(),
                k >= 2,
                page < count,
                base == page * k,
                base + k <= usize::MAX,
                start@ == page * (2 * k),
                i <= k,
                result.len() == start@ + k + i,
                forall|q: int| 0 <= q < result.len() ==> result[q] == paged_at(left_vals@, right_vals@, q),
            decreases k - i,
        {
            proof {
                lemma_slot(2 * k, count as int, page as int, k + i);
            }
            if base + i >= right_vals.len() {
                result.push(T::zero());
            } else {
                result.push(right_vals[base + i]);
            }
            i += 1;
        }
        page += 1;
        proof {
            assert(page * (2 * k) == start@ + 2 * k) by (nonlinear_arith)
                requires
                    start@ == (page - 1) * (2 * k),
            ;
        }
    }
    proof {
        assert(page * (2 * k) == 2 * k * count) by (nonlinear_arith)
            requires
                page == count,
        ;
        assert(result@ =~= paged(left_vals@, right_vals@));
    }
    result
}

/// The leaf layer: the keys beside their values, in pages.
pub fn build_leaf_layer<T: FastKey>(keys: Vec<T>, values: Vec<T>) -> (r: Vec<T>)
    requires
        keys.len() == values.len(),
        2 * T::run() * pages(keys.len() as int, T::run() as int) <= usize::MAX,
    ensures
        r@ == paged(keys@, values@),
{
    layout(keys, values)
}

/// The layer that indexes `prev_layer`: for each of its pages the page's last
/// key slot beside the position at which the page starts, in pages again.
///
/// Fails with `Overflow` where the position of a page is no key of this type.
pub fn build_internal_layer<T: FastKey>(prev_layer: &[T]) -> (r: Result<Vec<T>, FastError>)
    requires
        prev_layer.len() as int % (2 * T::run()) as int == 0,
    ensures
        r == Err::<Vec<T>, FastError>(FastError::Overflow) <==> !offsets_fit::<T>(
            prev_layer.len() as int,
        ),
        r is Ok ==> r->Ok_0@ == index_layer(prev_layer@),
        r is Ok || r == Err::<Vec<T>, FastError>(FastError::Overflow),
{
    proof {
        T::lemma_key_type();
    }
    let k: usize = T::run_len();
    let step_size: usize = 2 * k;
    let ghost count: int = prev_layer.len() as int / (step_size as int);
    proof {
        lemma_fundamental_div_mod(prev_layer.len() as int, step_size as int);
        assert(step_size * count == count * step_size) by (nonlinear_arith);
    }
    let mut keys: Vec<T> = Vec::new();
    let mut indexes: Vec<T> = Vec::new();
    let mut idx: usize = 0;
    while idx < prev_layer.len()
        invariant
            k == T::run(),
            k >= 2,
            step_size == 2 * k,
            prev_layer.len() == count * step_size,
            0 <= keys.len() <= count,
            idx == keys.len() * step_size,
            indexes.len() == keys.len(),
            forall|j: int| 0 <= j < keys.len() ==> keys[j] == prev_layer[j * step_size + k - 1],
            forall|j: int|
                0 <= j < keys.len() ==> indexes[j] == T::of_rank((j * step_size) as nat)
                    && j * step_size <= T::max_rank(),
        decreases prev_layer.len() - idx,
    {
        proof {
            assert(keys.len() < count) by (nonlinear_arith)
                requires
                    keys.len() * step_size < count * step_size,
                    step_size > 0,
            ;
            lemma_slot(step_size as int, count, keys.len() as int, k - 1);
            lemma_slot(step_size as int, count, keys.len() as int, step_size - 1);
        }
        let last_key = prev_layer[idx + k - 1];
        match T::from_offset(idx) {
            Some(index) => {
                keys.push(last_key);
                indexes.push(index);
            },
            None => {
                proof {
                    assert(idx + step_size <= prev_layer.len());
                }
                return Err(FastError::Overflow);
            },
        }
        proof {
            assert(keys.len() * step_size == idx + step_size) by (nonlinear_arith)
                requires
                    idx == (keys.len() - 1) * step_size,
            ;
        }
        idx += step_size;
    }
    proof {
        assert(keys.len() == count) by (nonlinear_arith)
            requires
                keys.len() * step_size >= count * step_size,
                keys.len() <= count,
                step_size > 0,
        ;
        assert(keys@ =~= page_last_keys(prev_layer@));
        assert(indexes@ =~= page_offsets(prev_layer@));
        lemma_pages(count, k as int);
        if count > 0 {
            assert(indexes[count - 1] == T::of_rank(((count - 1) * step_size) as nat));
            assert((count - 1) * step_size == prev_layer.len() - step_size) by (nonlinear_arith)
                requires
                    prev_layer.len() == count * step_size,
            ;
        }
        assert(2 * k * pages(count, k as int) <= prev_layer.len()) by (nonlinear_arith)
            requires
                prev_layer.len() == count * (2 * k),
                count > 0 ==> pages(count, k as int) <= count,
                count == 0 ==> pages(count, k as int) == 0,
                k >= 2,
        ;
    }
    Ok(layout(keys, indexes))
}

} // verus!
