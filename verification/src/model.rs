//! The mathematical model: sorted sequences, counts, and the page layout.

use vstd::prelude::*;
use vstd::arithmetic::div_mod::lemma_fundamental_div_mod;
use vstd::arithmetic::div_mod::lemma_fundamental_div_mod_converse;
use crate::key::FastKey;

verus! {

/// Keys never decrease along the sequence.
pub open spec fn sorted<T: FastKey>(s: Seq<T>) -> bool {
    forall|i: int, j: int| 0 <= i <= j < s.len() ==> s[i].rank() <= s[j].rank()
}

/// How many entries of `s` are strictly smaller than `key`.
pub open spec fn count_below<T: FastKey>(s: Seq<T>, key: T) -> nat
    decreases s.len(),
{
    if s.len() == 0 {
        0
    } else {
        count_below(s.drop_last(), key) + if s.last().rank() < key.rank() {
            1nat
        } else {
            0nat
        }
    }
}

/// How many entries of `s` are smaller than or equal to `key`.
pub open spec fn count_at_most<T: FastKey>(s: Seq<T>, key: T) -> nat
    decreases s.len(),
{
    if s.len() == 0 {
        0
    } else {
        count_at_most(s.drop_last(), key) + if s.last().rank() <= key.rank() {
            1nat
        } else {
            0nat
        }
    }
}

/// Pages that `n` entries take when a page holds `k` of them.
pub open spec fn pages(n: int, k: int) -> int {
    (n + k - 1) / k
}

/// Pages in the layout of `left` beside `right`: a page is laid out as long as
/// both sequences still have an entry for it.
pub open spec fn page_count<T: FastKey>(left: Seq<T>, right: Seq<T>) -> int {
    let k = T::run() as int;
    let l = pages(left.len() as int, k);
    let r = pages(right.len() as int, k);
    if l <= r {
        l
    } else {
        r
    }
}

/// The entry at position `q` of the layout of `left` beside `right`.
///
/// A page is a run of `k` entries of `left` followed by the run of the `k`
/// entries of `right` at the same indices. Where `left` has ended the largest
/// key stands in, where `right` has ended, zero.
pub open spec fn paged_at<T: FastKey>(left: Seq<T>, right: Seq<T>, q: int) -> T {
    let k = T::run() as int;
    let page = q / (2 * k);
    let slot = q % (2 * k);
    if slot < k {
        let i = page * k + slot;
        if i < left.len() {
            left[i]
        } else {
            T::of_rank(T::max_rank())
        }
    } else {
        let i = page * k + (slot - k);
        if i < right.len() {
            right[i]
        } else {
            T::of_rank(0)
        }
    }
}

/// The layout of `left` beside `right` in pages.
pub open spec fn paged<T: FastKey>(left: Seq<T>, right: Seq<T>) -> Seq<T> {
    Seq::new((2 * T::run() * page_count(left, right)) as nat, |q: int| paged_at(left, right, q))
}

/// The last key slot of each page of `layer`, page by page.
pub open spec fn page_last_keys<T: FastKey>(layer: Seq<T>) -> Seq<T> {
    let k = T::run() as int;
    Seq::new((layer.len() as int / (2 * k)) as nat, |j: int| layer[j * (2 * k) + k - 1])
}

/// The position at which each page of `layer` starts, as a key, page by page.
pub open spec fn page_offsets<T: FastKey>(layer: Seq<T>) -> Seq<T> {
    let k = T::run() as int;
    Seq::new((layer.len() as int / (2 * k)) as nat, |j: int| T::of_rank((j * (2 * k)) as nat))
}

/// The layer that indexes `layer`: per page of `layer` one entry, the page's
/// last key slot beside the page's position, laid out in pages again.
pub open spec fn index_layer<T: FastKey>(layer: Seq<T>) -> Seq<T> {
    paged(page_last_keys(layer), page_offsets(layer))
}

/// Whether the position of every page of a layer of `len` entries is a key.
pub open spec fn offsets_fit<T: FastKey>(len: int) -> bool {
    len <= 2 * T::run() + T::max_rank()
}

/// The number of the entry after the last one that a query has reached.
///
/// That is the number of keys at most `key`, unless keys equal to `key` run
/// on past the end of the page that holds the first key not below `key`: the
/// search stays in that page, and the number is then that page's end.
pub open spec fn bracket_index<T: FastKey>(keys: Seq<T>, key: T) -> int {
    let k = T::run() as int;
    let page_end = (count_below(keys, key) as int / k + 1) * k;
    let reached = count_at_most(keys, key) as int;
    if reached <= page_end {
        reached
    } else {
        page_end
    }
}

/// What a lookup of `key` returns over the entries `keys` and `values`.
///
/// Below the first key: zero and the first value. From the last key on: the
/// last value and the largest key. Between them: the values of the entries on
/// either side of `bracket_index`.
pub open spec fn bracket<T: FastKey>(keys: Seq<T>, values: Seq<T>, key: T) -> (T, T) {
    if key.rank() < keys[0].rank() {
        (T::of_rank(0), values[0])
    } else if key.rank() >= keys.last().rank() {
        (values.last(), T::of_rank(T::max_rank()))
    } else {
        let m = bracket_index(keys, key);
        (values[m - 1], values[m])
    }
}

/// Position `page * d + slot` lies in page `page` of `count` pages of `d`
/// entries each, at slot `slot`.
pub proof fn lemma_slot(d: int, count: int, page: int, slot: int)
    requires
        d > 0,
        0 <= page < count,
        0 <= slot < d,
    ensures
        0 <= page * d + slot < count * d,
        (page * d + slot) / d == page,
        (page * d + slot) % d == slot,
{
    assert(0 <= page * d && (page + 1) * d <= count * d && (page + 1) * d == page * d + d)
        by (nonlinear_arith)
        requires
            d > 0,
            0 <= page < count,
    ;
    lemma_fundamental_div_mod_converse(page * d + slot, d, page, slot);
}

/// `pages` rounds up: `p` pages are the least that hold `n` entries.
pub proof fn lemma_pages(n: int, k: int)
    requires
        n >= 0,
        k > 0,
    ensures
        pages(n, k) >= 0,
        (pages(n, k) - 1) * k < n <= pages(n, k) * k,
        n > 0 ==> pages(n, k) >= 1,
        n <= k ==> pages(n, k) <= 1,
        n > k ==> pages(n, k) >= 2,
        k >= 2 && n >= 2 ==> pages(n, k) < n,
{
    let x = n + k - 1;
    lemma_fundamental_div_mod(x, k);
    let p = x / k;
    assert(0 <= p && (p - 1) * k < n && n <= p * k && (n > 0 ==> p >= 1) && (n <= k ==> p <= 1)
        && (n > k ==> p >= 2) && (k >= 2 && n >= 2 ==> p < n)) by (nonlinear_arith)
        requires
            n >= 0,
            k > 0,
            x == n + k - 1,
            x == k * p + x % k,
            0 <= x % k < k,
    ;
}

/// A sequence whose first `m` entries are below `key` and whose others are
/// not has `m` entries below `key`.
pub proof fn lemma_count_below_split<T: FastKey>(s: Seq<T>, key: T, m: int)
    requires
        0 <= m <= s.len(),
        forall|i: int| 0 <= i < m ==> s[i].rank() < key.rank(),
        forall|i: int| m <= i < s.len() ==> s[i].rank() >= key.rank(),
    ensures
        count_below(s, key) == m,
    decreases s.len(),
{
    if s.len() > 0 {
        let front = s.drop_last();
        if m == s.len() {
            lemma_count_below_split(front, key, m - 1);
        } else {
            lemma_count_below_split(front, key, m);
        }
    }
}

/// A sequence whose first `m` entries are at most `key` and whose others are
/// above it has `m` entries at most `key`.
pub proof fn lemma_count_at_most_split<T: FastKey>(s: Seq<T>, key: T, m: int)
    requires
        0 <= m <= s.len(),
        forall|i: int| 0 <= i < m ==> s[i].rank() <= key.rank(),
        forall|i: int| m <= i < s.len() ==> s[i].rank() > key.rank(),
    ensures
        count_at_most(s, key) == m,
    decreases s.len(),
{
    if s.len() > 0 {
        let front = s.drop_last();
        if m == s.len() {
            lemma_count_at_most_split(front, key, m - 1);
        } else {
            lemma_count_at_most_split(front, key, m);
        }
    }
}

/// In a sorted sequence the entries below `key` are the first ones.
pub proof fn lemma_count_below_sorted<T: FastKey>(s: Seq<T>, key: T)
    requires
        sorted(s),
    ensures
        count_below(s, key) <= s.len(),
        forall|i: int| 0 <= i < count_below(s, key) ==> s[i].rank() < key.rank(),
        forall|i: int| count_below(s, key) <= i < s.len() ==> s[i].rank() >= key.rank(),
    decreases s.len(),
{
    if s.len() > 0 {
        let front = s.drop_last();
        if s.last().rank() < key.rank() {
            assert forall|i: int| 0 <= i < s.len() implies s[i].rank() < key.rank() by {
                assert(s[i].rank() <= s[s.len() - 1].rank());
            }
            lemma_count_below_split(s, key, s.len() as int);
        } else {
            assert(sorted(front)) by {
                assert forall|i: int, j: int| 0 <= i <= j < front.len() implies front[i].rank()
                    <= front[j].rank() by {
                    assert(s[i].rank() <= s[j].rank());
                }
            }
            lemma_count_below_sorted(front, key);
            let c = count_below(front, key) as int;
            assert(count_below(s, key) == c);
            assert forall|i: int| 0 <= i < c implies s[i].rank() < key.rank() by {
                assert(front[i].rank() < key.rank());
            }
            assert forall|i: int| c <= i < s.len() implies s[i].rank() >= key.rank() by {
                if i < front.len() {
                    assert(front[i].rank() >= key.rank());
                }
            }
        }
    }
}

/// In a sorted sequence the entries at most `key` are the first ones.
pub proof fn lemma_count_at_most_sorted<T: FastKey>(s: Seq<T>, key: T)
    requires
        sorted(s),
    ensures
        count_at_most(s, key) <= s.len(),
        forall|i: int| 0 <= i < count_at_most(s, key) ==> s[i].rank() <= key.rank(),
        forall|i: int| count_at_most(s, key) <= i < s.len() ==> s[i].rank() > key.rank(),
    decreases s.len(),
{
    if s.len() > 0 {
        let front = s.drop_last();
        if s.last().rank() <= key.rank() {
            assert forall|i: int| 0 <= i < s.len() implies s[i].rank() <= key.rank() by {
                assert(s[i].rank() <= s[s.len() - 1].rank());
            }
            lemma_count_at_most_split(s, key, s.len() as int);
        } else {
            assert(sorted(front)) by {
                assert forall|i: int, j: int| 0 <= i <= j < front.len() implies front[i].rank()
                    <= front[j].rank() by {
                    assert(s[i].rank() <= s[j].rank());
                }
            }
            lemma_count_at_most_sorted(front, key);
            let c = count_at_most(front, key) as int;
            assert(count_at_most(s, key) == c);
            assert forall|i: int| 0 <= i < c implies s[i].rank() <= key.rank() by {
                assert(front[i].rank() <= key.rank());
            }
            assert forall|i: int| c <= i < s.len() implies s[i].rank() > key.rank() by {
                if i < front.len() {
                    assert(front[i].rank() > key.rank());
                }
            }
        }
    }
}

} // verus!
