//! Why counting within one page per layer finds the right entry: the facts
//! about the page layout of a sorted sequence that the lookups rest on.

use vstd::prelude::*;
use vstd::arithmetic::div_mod::lemma_fundamental_div_mod;
use crate::key::FastKey;
use crate::model::{
    bracket_index, count_at_most, count_below, lemma_count_at_most_sorted,
    lemma_count_at_most_split, lemma_count_below_sorted, lemma_count_below_split, lemma_pages,
    lemma_slot, page_count, page_last_keys, paged, pages, sorted,
};

verus! {

/// The run of keys of page `page` of `layer`.
pub open spec fn key_run<T: FastKey>(layer: Seq<T>, page: int) -> Seq<T> {
    let k = T::run() as int;
    layer.subrange(page * (2 * k), page * (2 * k) + k)
}

/// Where `c` lies among the multiples of `k`.
pub proof fn lemma_div_bounds(c: int, k: int)
    requires
        c >= 0,
        k > 0,
    ensures
        0 <= c / k,
        (c / k) * k <= c < (c / k) * k + k,
        c % k == c - (c / k) * k,
{
    lemma_fundamental_div_mod(c, k);
    let q = c / k;
    assert(k * q == q * k) by (nonlinear_arith);
    assert(0 <= q) by (nonlinear_arith)
        requires
            c >= 0,
            k > 0,
            c == q * k + c % k,
            0 <= c % k < k,
    ;
}

/// The layout of two sequences of one length: how long it is.
pub proof fn lemma_paged_shape<T: FastKey>(left: Seq<T>, right: Seq<T>)
    requires
        left.len() == right.len(),
    ensures
        page_count(left, right) == pages(left.len() as int, T::run() as int),
        paged(left, right).len() == 2 * T::run() * pages(left.len() as int, T::run() as int),
        paged(left, right).len() as int / (2 * T::run()) as int == pages(
            left.len() as int,
            T::run() as int,
        ),
        paged(left, right).len() as int % (2 * T::run()) as int == 0,
        page_last_keys(paged(left, right)).len() == pages(left.len() as int, T::run() as int),
{
    T::lemma_key_type();
    let k = T::run() as int;
    let p = pages(left.len() as int, k);
    lemma_pages(left.len() as int, k);
    assert(2 * k * p >= 0 && 2 * k * p == p * (2 * k)) by (nonlinear_arith)
        requires
            p >= 0,
            k > 0,
    ;
    vstd::arithmetic::div_mod::lemma_fundamental_div_mod_converse(p * (2 * k), 2 * k, p, 0);
}

/// The layout of two sequences of one length: what stands at each slot.
pub proof fn lemma_paged_slots<T: FastKey>(left: Seq<T>, right: Seq<T>, page: int, slot: int)
    requires
        left.len() == right.len(),
        0 <= page < pages(left.len() as int, T::run() as int),
        0 <= slot < T::run(),
    ensures
        0 <= page * T::run(),
        0 <= page * (2 * T::run()),
        page * (2 * T::run()) + 2 * T::run() <= paged(left, right).len(),
        paged(left, right)[page * (2 * T::run()) + slot] == (if page * T::run() + slot
            < left.len() {
            left[page * T::run() + slot]
        } else {
            T::of_rank(T::max_rank())
        }),
        paged(left, right)[page * (2 * T::run()) + T::run() + slot] == (if page * T::run() + slot
            < right.len() {
            right[page * T::run() + slot]
        } else {
            T::of_rank(0)
        }),
{
    T::lemma_key_type();
    lemma_paged_shape(left, right);
    let k = T::run() as int;
    let p = pages(left.len() as int, k);
    lemma_slot(2 * k, p, page, slot);
    lemma_slot(2 * k, p, page, k + slot);
    lemma_slot(2 * k, p, page, 2 * k - 1);
    assert(0 <= page * k && p * (2 * k) == 2 * k * p) by (nonlinear_arith)
        requires
            0 <= page,
            k > 0,
    ;
}

/// The key run of a page of the layout of a sorted sequence holds the
/// sequence's entries for that page, then the largest key, and is sorted.
pub proof fn lemma_key_run<T: FastKey>(left: Seq<T>, right: Seq<T>, page: int)
    requires
        left.len() == right.len(),
        sorted(left),
        0 <= page < pages(left.len() as int, T::run() as int),
    ensures
        key_run(paged(left, right), page).len() == T::run(),
        forall|t: int|
            0 <= t < T::run() ==> #[trigger] key_run(paged(left, right), page)[t] == (if page
                * T::run() + t < left.len() {
                left[page * T::run() + t]
            } else {
                T::of_rank(T::max_rank())
            }),
        sorted(key_run(paged(left, right), page)),
{
    T::lemma_key_type();
    let k = T::run() as int;
    let run = key_run(paged(left, right), page);
    lemma_paged_slots(left, right, page, 0);
    assert forall|t: int| 0 <= t < k implies #[trigger] run[t] == (if page * k + t < left.len() {
        left[page * k + t]
    } else {
        T::of_rank(T::max_rank())
    }) by {
        lemma_paged_slots(left, right, page, t);
    }
    assert forall|a: int, b: int| 0 <= a <= b < run.len() implies run[a].rank()
        <= run[b].rank() by {
        if page * k + b < left.len() {
            assert(left[page * k + a].rank() <= left[page * k + b].rank());
        }
    }
}

/// The last key slots of the pages of the layout of a sorted sequence are
/// sorted, and the last of them is no smaller than the sequence's last entry.
pub proof fn lemma_last_keys<T: FastKey>(left: Seq<T>, right: Seq<T>)
    requires
        left.len() == right.len(),
        left.len() > 0,
        sorted(left),
    ensures
        page_last_keys(paged(left, right)).len() == pages(left.len() as int, T::run() as int),
        pages(left.len() as int, T::run() as int) >= 1,
        forall|j: int|
            0 <= j < pages(left.len() as int, T::run() as int) ==> #[trigger] page_last_keys(
                paged(left, right),
            )[j] == (if j * T::run() + T::run() - 1 < left.len() {
                left[j * T::run() + T::run() - 1]
            } else {
                T::of_rank(T::max_rank())
            }),
        sorted(page_last_keys(paged(left, right))),
        page_last_keys(paged(left, right)).last().rank() >= left.last().rank(),
{
    T::lemma_key_type();
    let k = T::run() as int;
    let n = left.len() as int;
    let p = pages(n, k);
    let last = page_last_keys(paged(left, right));
    lemma_paged_shape(left, right);
    lemma_pages(n, k);
    assert forall|j: int| 0 <= j < p implies #[trigger] last[j] == (if j * k + k - 1 < n {
        left[j * k + k - 1]
    } else {
        T::of_rank(T::max_rank())
    }) by {
        lemma_paged_slots(left, right, j, k - 1);
    }
    assert forall|a: int, b: int| 0 <= a <= b < last.len() implies last[a].rank()
        <= last[b].rank() by {
        assert(0 <= a * k && a * k <= b * k) by (nonlinear_arith)
            requires
                0 <= a <= b,
                k > 0,
        ;
        if b * k + k - 1 < n {
            assert(left[a * k + k - 1].rank() <= left[b * k + k - 1].rank());
        }
    }
    assert((p - 1) * k + k - 1 >= n - 1) by (nonlinear_arith)
        requires
            n <= p * k,
    ;
    if (p - 1) * k + k - 1 < n {
        assert(last[p - 1] == left[n - 1]);
    }
}

/// Counting the pages whose last key slot is below `key` gives the page that
/// holds the first entry not below `key`.
pub proof fn lemma_page_of<T: FastKey>(left: Seq<T>, right: Seq<T>, key: T)
    requires
        left.len() == right.len(),
        left.len() > 0,
        sorted(left),
        key.rank() <= left.last().rank(),
    ensures
        count_below(left, key) < left.len(),
        count_below(page_last_keys(paged(left, right)), key) == count_below(left, key) as int
            / T::run() as int,
        count_below(left, key) as int / T::run() as int <= pages(
            left.len() as int,
            T::run() as int,
        ) - 1,
{
    T::lemma_key_type();
    let k = T::run() as int;
    let n = left.len() as int;
    let p = pages(n, k);
    let last = page_last_keys(paged(left, right));
    let c = count_below(left, key) as int;
    lemma_last_keys(left, right);
    lemma_count_below_sorted(left, key);
    lemma_pages(n, k);
    lemma_div_bounds(c, k);
    let m = c / k;
    assert(m < p) by (nonlinear_arith)
        requires
            m * k <= c,
            c < n,
            n <= p * k,
            k > 0,
    ;
    assert forall|j: int| 0 <= j < m implies last[j].rank() < key.rank() by {
        assert(j * k + k - 1 < c && 0 <= j * k) by (nonlinear_arith)
            requires
                0 <= j < m,
                m * k <= c,
                k > 0,
        ;
        assert(last[j] == left[j * k + k - 1]);
    }
    assert forall|j: int| m <= j < last.len() implies last[j].rank() >= key.rank() by {
        assert(j * k + k - 1 >= c) by (nonlinear_arith)
            requires
                m <= j,
                c < m * k + k,
                k > 0,
        ;
        if j * k + k - 1 < n {
            assert(last[j] == left[j * k + k - 1]);
        } else {
            assert(last[j] == T::of_rank(T::max_rank()));
        }
    }
    lemma_count_below_split(last, key, m);
}

/// In the page that holds the first entry not below `key`, counting the keys
/// below `key` gives that entry's slot.
pub proof fn lemma_run_below<T: FastKey>(left: Seq<T>, right: Seq<T>, key: T)
    requires
        left.len() == right.len(),
        left.len() > 0,
        sorted(left),
        key.rank() <= left.last().rank(),
    ensures
        count_below(
            key_run(paged(left, right), count_below(left, key) as int / T::run() as int),
            key,
        ) == count_below(left, key) as int % T::run() as int,
{
    T::lemma_key_type();
    let k = T::run() as int;
    let c = count_below(left, key) as int;
    let page = c / k;
    let run = key_run(paged(left, right), page);
    lemma_page_of(left, right, key);
    lemma_count_below_sorted(left, key);
    lemma_div_bounds(c, k);
    lemma_key_run(left, right, page);
    let m = c - page * k;
    assert forall|t: int| 0 <= t < m implies run[t].rank() < key.rank() by {
        assert(run[t] == left[page * k + t]);
    }
    assert forall|t: int| m <= t < run.len() implies run[t].rank() >= key.rank() by {
        if page * k + t < left.len() {
            assert(run[t] == left[page * k + t]);
        } else {
            assert(run[t] == T::of_rank(T::max_rank()));
        }
    }
    lemma_count_below_split(run, key, m);
}

/// In the leaf page that a query below the last key is led to, counting the
/// keys at most `key` gives the slot after the last such key of the page.
pub proof fn lemma_run_at_most<T: FastKey>(left: Seq<T>, right: Seq<T>, key: T)
    requires
        left.len() == right.len(),
        left.len() > 0,
        sorted(left),
        key.rank() < left.last().rank(),
    ensures
        count_below(left, key) <= count_at_most(left, key) < left.len(),
        ({
            let k = T::run() as int;
            let page = count_below(left, key) as int / k;
            let c = count_at_most(left, key) as int;
            count_at_most(key_run(paged(left, right), page), key) == (if c <= page * k + k {
                c - page * k
            } else {
                k
            })
        }),
{
    T::lemma_key_type();
    let k = T::run() as int;
    let b = count_below(left, key) as int;
    let c = count_at_most(left, key) as int;
    let page = b / k;
    let run = key_run(paged(left, right), page);
    lemma_page_of(left, right, key);
    lemma_count_below_sorted(left, key);
    lemma_count_at_most_sorted(left, key);
    lemma_div_bounds(b, k);
    lemma_key_run(left, right, page);
    if c < b {
        assert(left[c].rank() < key.rank());
    }
    let m = if c <= page * k + k {
        c - page * k
    } else {
        k
    };
    assert forall|t: int| 0 <= t < m implies run[t].rank() <= key.rank() by {
        assert(run[t] == left[page * k + t]);
    }
    assert forall|t: int| m <= t < run.len() implies run[t].rank() > key.rank() by {
        if page * k + t < left.len() {
            assert(run[t] == left[page * k + t]);
        } else {
            assert(run[t] == T::of_rank(T::max_rank()));
        }
    }
    lemma_count_at_most_split(run, key, m);
}

/// One step down: in the page of an index layer that the descent has
/// reached, the count of keys below `key` picks the entry of the first page
/// of the layer below whose last key slot is not below `key`.
///
/// Here `left` holds the last key slots of the pages of the layer below, and
/// `right` what is stored beside each.
pub proof fn lemma_step<T: FastKey>(left: Seq<T>, right: Seq<T>, key: T)
    requires
        left.len() == right.len(),
        left.len() > 0,
        sorted(left),
        key.rank() <= left.last().rank(),
    ensures
        ({
            let k = T::run() as int;
            let layer = paged(left, right);
            let chosen = count_below(left, key) as int;
            let page = count_below(page_last_keys(layer), key) as int;
            let slot = count_below(key_run(layer, page), key) as int;
            &&& chosen < left.len()
            &&& 0 <= page * (2 * k)
            &&& page * (2 * k) + 2 * k <= layer.len()
            &&& key_run(layer, page).len() == k
            &&& sorted(key_run(layer, page))
            &&& 0 <= slot < k
            &&& layer[page * (2 * k) + k + slot] == right[chosen]
        }),
{
    T::lemma_key_type();
    let k = T::run() as int;
    let chosen = count_below(left, key) as int;
    let page = chosen / k;
    lemma_page_of(left, right, key);
    lemma_run_below(left, right, key);
    lemma_div_bounds(chosen, k);
    lemma_key_run(left, right, page);
    lemma_paged_slots(left, right, page, chosen - page * k);
}

/// The last step: in the leaf page that the descent has reached, the count of
/// keys at most `key` tells where the two values of the bracket stand.
pub proof fn lemma_leaf<T: FastKey>(keys: Seq<T>, values: Seq<T>, key: T)
    requires
        keys.len() == values.len(),
        keys.len() > 0,
        sorted(keys),
        keys[0].rank() <= key.rank() < keys.last().rank(),
    ensures
        ({
            let k = T::run() as int;
            let leaf = paged(keys, values);
            let page = count_below(page_last_keys(leaf), key) as int;
            let base = page * (2 * k);
            let reached = count_at_most(key_run(leaf, page), key) as int;
            let m = bracket_index(keys, key);
            &&& 1 <= m < keys.len()
            &&& 0 <= base
            &&& base + 2 * k <= leaf.len()
            &&& key_run(leaf, page).len() == k
            &&& sorted(key_run(leaf, page))
            &&& 0 <= reached <= k
            &&& reached == 0 ==> base >= 2 * k && leaf[base - 1] == values[m - 1]
            &&& reached > 0 ==> leaf[base + k + reached - 1] == values[m - 1]
            &&& reached == k ==> base + 4 * k <= leaf.len() && leaf[base + 2 * k + k] == values[m]
            &&& reached < k ==> leaf[base + k + reached] == values[m]
        }),
{
    T::lemma_key_type();
    let k = T::run() as int;
    let n = keys.len() as int;
    let leaf = paged(keys, values);
    let below = count_below(keys, key) as int;
    let most = count_at_most(keys, key) as int;
    let page = below / k;
    let base = page * (2 * k);
    let reached = count_at_most(key_run(leaf, page), key) as int;
    let m = bracket_index(keys, key);
    lemma_page_of(keys, values, key);
    lemma_run_at_most(keys, values, key);
    lemma_count_at_most_sorted(keys, key);
    lemma_div_bounds(below, k);
    lemma_key_run(keys, values, page);
    lemma_pages(n, k);
    lemma_paged_shape(keys, values);
    if most == 0 {
        assert(keys[0].rank() > key.rank());
    }
    assert((page + 1) * k == page * k + k) by (nonlinear_arith);
    assert(m == page * k + reached);
    if reached == 0 {
        assert(page >= 1) by (nonlinear_arith)
            requires
                page * k >= 1,
                page >= 0,
                k > 0,
        ;
        assert((page - 1) * k + (k - 1) == m - 1 && (page - 1) * (2 * k) + k + (k - 1) == base - 1
            && base >= 2 * k) by (nonlinear_arith)
            requires
                m == page * k,
                base == page * (2 * k),
                page >= 1,
                k > 0,
        ;
        lemma_paged_slots(keys, values, page - 1, k - 1);
    } else {
        lemma_paged_slots(keys, values, page, reached - 1);
    }
    if reached == k {
        assert(page + 1 < pages(n, k)) by (nonlinear_arith)
            requires
                (page + 1) * k < n,
                (pages(n, k) - 1) * k < n <= pages(n, k) * k,
                k > 0,
        ;
        assert((page + 1) * (2 * k) == base + 2 * k) by (nonlinear_arith)
            requires
                base == page * (2 * k),
        ;
        lemma_paged_slots(keys, values, page + 1, 0);
    } else {
        lemma_paged_slots(keys, values, page, reached);
    }
}

} // verus!
