//! The shape of a tree: which layers stand above the leaves, how many there
//! are, and how many bytes they take.

use vstd::prelude::*;
use crate::descent::{lemma_last_keys, lemma_paged_shape};
use crate::key::{FastKey, CACHE_LINE};
use crate::layers::page_total;
use crate::model::{
    index_layer, lemma_pages, offsets_fit, page_last_keys, page_offsets, paged, pages, sorted,
};

verus! {

/// Index layers that stand above a layer of `p` pages, when an index page
/// holds `k` entries: one per step from `p` pages to a single page.
pub open spec fn levels(p: int, k: int) -> int
    decreases p,
    via levels_decreases
{
    if k < 2 || p <= k {
        1
    } else {
        1 + levels(pages(p, k), k)
    }
}

#[via_fn]
proof fn levels_decreases(p: int, k: int) {
    if !(k < 2 || p <= k) {
        lemma_pages(p, k);
    }
}

/// Pages in all the index layers that stand above a layer of `p` pages.
pub open spec fn index_pages(p: int, k: int) -> int
    decreases p,
    via index_pages_decreases
{
    if k < 2 || p <= k {
        1
    } else {
        pages(p, k) + index_pages(pages(p, k), k)
    }
}

#[via_fn]
proof fn index_pages_decreases(p: int, k: int) {
    if !(k < 2 || p <= k) {
        lemma_pages(p, k);
    }
}

/// Layers of a tree over `n` entries: the leaf layer and the index layers.
pub open spec fn tree_depth<T: FastKey>(n: nat) -> int {
    let k = T::run() as int;
    1 + levels(pages(n as int, k), k)
}

/// Bytes that the layers of a tree over `n` entries take.
pub open spec fn tree_bytes<T: FastKey>(n: nat) -> int {
    let k = T::run() as int;
    2 * CACHE_LINE * (pages(n as int, k) + index_pages(pages(n as int, k), k))
}

/// Entries in the leaf layer of a tree over `n` entries.
pub open spec fn leaf_len<T: FastKey>(n: nat) -> int {
    2 * T::run() * pages(n as int, T::run() as int)
}

/// The index layers that stand above `layer`, the root first and the one that
/// indexes `layer` itself last: layers are put on top until one is a single
/// page.
pub open spec fn index_stack<T: FastKey>(layer: Seq<T>) -> Seq<Seq<T>>
    decreases layer.len(),
    via index_stack_decreases::<T>
{
    let above = index_layer(layer);
    if above.len() <= 2 * T::run() {
        seq![above]
    } else {
        index_stack(above).push(above)
    }
}

#[via_fn]
proof fn index_stack_decreases<T: FastKey>(layer: Seq<T>) {
    T::lemma_key_type();
    let k = T::run() as int;
    let above = index_layer(layer);
    if above.len() > 2 * k {
        let p = layer.len() as int / (2 * k);
        lemma_paged_shape(page_last_keys(layer), page_offsets(layer));
        vstd::arithmetic::div_mod::lemma_fundamental_div_mod(layer.len() as int, 2 * k);
        lemma_pages(p, k);
        assert(2 * k * pages(p, k) < layer.len()) by (nonlinear_arith)
            requires
                2 * k * pages(p, k) > 2 * k,
                p >= 2 ==> pages(p, k) < p,
                p <= k ==> pages(p, k) <= 1,
                layer.len() == 2 * k * p + layer.len() as int % (2 * k),
                0 <= layer.len() as int % (2 * k),
                k >= 2,
        ;
    }
}

/// An index has at least one page.
pub proof fn lemma_index_pages_positive(p: int, k: int)
    ensures
        index_pages(p, k) >= 1,
    decreases p,
{
    if !(k < 2 || p <= k) {
        lemma_pages(p, k);
        lemma_index_pages_positive(pages(p, k), k);
    }
}

/// The bytes that a tree over `n` entries takes, where a `usize` holds them.
pub fn required_bytes<T: FastKey>(n: usize) -> (r: Option<usize>)
    ensures
        r == (if tree_bytes::<T>(n as nat) <= usize::MAX {
            Some(tree_bytes::<T>(n as nat) as usize)
        } else {
            None
        }),
{
    proof {
        T::lemma_key_type();
    }
    let k: usize = T::run_len();
    let leaf_pages: usize = page_total(n, k);
    let ghost all = leaf_pages + index_pages(leaf_pages as int, k as int);
    assert(tree_bytes::<T>(n as nat) == 2 * CACHE_LINE * all);
    let mut below: usize = leaf_pages;
    let mut total: usize = leaf_pages;
    while below > k
        invariant
            k == T::run(),
            2 <= k <= CACHE_LINE,
            total + index_pages(below as int, k as int) == all,
            tree_bytes::<T>(n as nat) == 2 * CACHE_LINE * all,
        decreases below,
    {
        proof {
            lemma_pages(below as int, k as int);
            lemma_index_pages_positive(pages(below as int, k as int), k as int);
        }
        let above: usize = page_total(below, k);
        if total > usize::MAX - above {
            proof {
                assert(2 * CACHE_LINE * all > usize::MAX) by (nonlinear_arith)
                    requires
                        all > usize::MAX,
                        CACHE_LINE == 64,
                ;
            }
            return None;
        }
        total = total + above;
        below = above;
    }
    let limit: usize = usize::MAX / (2 * CACHE_LINE);
    proof {
        assert(2 * CACHE_LINE * all == 128 * (total + 1)) by (nonlinear_arith)
            requires
                all == total + 1,
                CACHE_LINE == 64,
        ;
    }
    if total >= limit {
        return None;
    }
    Some(2 * CACHE_LINE * (total + 1))
}

/// The layer that index layer `i` points into: the next index layer, or the
/// leaf layer below the last one.
pub open spec fn layer_below<T: FastKey>(leaf: Seq<T>, layers: Seq<Seq<T>>, i: int) -> Seq<T> {
    if i + 1 < layers.len() {
        layers[i + 1]
    } else {
        leaf
    }
}

/// What holds of the layers of a tree over `keys` and `values`: the leaf
/// layer is their layout, each index layer indexes the layer below it, and
/// only the root, `layers[0]`, is a single page.
pub open spec fn well_layered<T: FastKey>(
    keys: Seq<T>,
    values: Seq<T>,
    leaf: Seq<T>,
    layers: Seq<Seq<T>>,
) -> bool {
    &&& keys.len() == values.len()
    &&& keys.len() > 0
    &&& sorted(keys)
    &&& leaf == paged(keys, values)
    &&& offsets_fit::<T>(leaf.len() as int)
    &&& tree_bytes::<T>(keys.len()) <= usize::MAX
    &&& layers.len() >= 1
    &&& forall|i: int|
        0 <= i < layers.len() ==> #[trigger] layers[i] == index_layer(layer_below(leaf, layers, i))
    &&& layers[0].len() == 2 * T::run()
    &&& forall|i: int| 1 <= i < layers.len() ==> (#[trigger] layers[i]).len() > 2 * T::run()
}

/// What the descent needs of a layer: it is made of whole pages, the last key
/// slots of its pages are sorted and end no lower than `hi`, and the position
/// of each of its pages is a key.
pub open spec fn ordered<T: FastKey>(layer: Seq<T>, hi: nat) -> bool {
    let last = page_last_keys(layer);
    &&& last.len() >= 1
    &&& layer.len() == 2 * T::run() * last.len()
    &&& page_offsets(layer).len() == last.len()
    &&& sorted(last)
    &&& last.last().rank() >= hi
    &&& offsets_fit::<T>(layer.len() as int)
}

/// An index layer is no longer than the layer it indexes.
pub proof fn lemma_index_layer_len<T: FastKey>(layer: Seq<T>)
    requires
        page_last_keys(layer).len() >= 1,
        layer.len() == 2 * T::run() * page_last_keys(layer).len(),
    ensures
        index_layer(layer).len() == 2 * T::run() * pages(
            page_last_keys(layer).len() as int,
            T::run() as int,
        ),
        2 * T::run() <= index_layer(layer).len() <= layer.len(),
        page_last_keys(index_layer(layer)).len() >= 1,
        index_layer(layer).len() == 2 * T::run() * page_last_keys(index_layer(layer)).len(),
{
    T::lemma_key_type();
    let k = T::run() as int;
    let p = page_last_keys(layer).len() as int;
    lemma_paged_shape(page_last_keys(layer), page_offsets(layer));
    lemma_pages(p, k);
    assert(2 * k <= 2 * k * pages(p, k) <= 2 * k * p) by (nonlinear_arith)
        requires
            1 <= pages(p, k) <= p,
            k > 0,
    ;
}

/// Every layer of a tree is fit for the descent.
pub proof fn lemma_layers_ordered<T: FastKey>(
    keys: Seq<T>,
    values: Seq<T>,
    leaf: Seq<T>,
    layers: Seq<Seq<T>>,
    i: int,
)
    requires
        well_layered(keys, values, leaf, layers),
        0 <= i < layers.len(),
    ensures
        ordered(layer_below(leaf, layers, i), keys.last().rank()),
        ordered(layers[i], keys.last().rank()),
        layers[i].len() <= leaf.len(),
    decreases layers.len() - i,
{
    T::lemma_key_type();
    let hi = keys.last().rank();
    let below = layer_below(leaf, layers, i);
    if i + 1 < layers.len() {
        lemma_layers_ordered(keys, values, leaf, layers, i + 1);
    } else {
        lemma_last_keys(keys, values);
        lemma_paged_shape(keys, values);
    }
    assert(ordered(below, hi));
    assert(below.len() <= leaf.len());
    let s = page_last_keys(below);
    let o = page_offsets(below);
    assert(layers[i] == paged(s, o));
    lemma_last_keys(s, o);
    lemma_paged_shape(s, o);
    lemma_index_layer_len(below);
}

/// Entries in the first `upto` layers taken together.
pub open spec fn total_len<T>(layers: Seq<Seq<T>>, upto: int) -> int
    decreases upto,
{
    if upto <= 0 {
        0
    } else {
        total_len(layers, upto - 1) + layers[upto - 1].len()
    }
}

/// Taking more layers together gives no fewer entries.
pub proof fn lemma_total_len_grows<T>(layers: Seq<Seq<T>>, a: int, b: int)
    requires
        0 <= a <= b,
    ensures
        0 <= total_len(layers, a) <= total_len(layers, b),
    decreases b,
{
    if a < b {
        lemma_total_len_grows(layers, a, b - 1);
    } else if a > 0 {
        lemma_total_len_grows(layers, a - 1, a - 1);
    }
}

/// Layers that are not empty hold at least an entry each.
pub proof fn lemma_total_len_counts<T>(layers: Seq<Seq<T>>, upto: int)
    requires
        0 <= upto <= layers.len(),
        forall|i: int| 0 <= i < upto ==> (#[trigger] layers[i]).len() >= 1,
    ensures
        total_len(layers, upto) >= upto,
    decreases upto,
{
    if upto > 0 {
        lemma_total_len_counts(layers, upto - 1);
    }
}

/// Index layer `i` and the layers above it are as many, and take as many
/// pages, as stand above a layer of the size of the layer below `i`.
proof fn lemma_shape_upto<T: FastKey>(
    keys: Seq<T>,
    values: Seq<T>,
    leaf: Seq<T>,
    layers: Seq<Seq<T>>,
    i: int,
)
    requires
        well_layered(keys, values, leaf, layers),
        0 <= i < layers.len(),
    ensures
        i + 1 == levels(page_last_keys(layer_below(leaf, layers, i)).len() as int, T::run() as int),
        total_len(layers, i + 1) == 2 * T::run() * index_pages(
            page_last_keys(layer_below(leaf, layers, i)).len() as int,
            T::run() as int,
        ),
    decreases i,
{
    T::lemma_key_type();
    let k = T::run() as int;
    let below = layer_below(leaf, layers, i);
    let p = page_last_keys(below).len() as int;
    lemma_layers_ordered(keys, values, leaf, layers, i);
    lemma_index_layer_len(below);
    lemma_pages(p, k);
    assert(layers[i].len() == 2 * k * pages(p, k));
    if i == 0 {
        assert(pages(p, k) == 1) by (nonlinear_arith)
            requires
                2 * k == 2 * k * pages(p, k),
                k > 0,
        ;
        assert(total_len(layers, 1) == total_len(layers, 0) + layers[0].len());
    } else {
        assert(pages(p, k) > 1) by (nonlinear_arith)
            requires
                2 * k < 2 * k * pages(p, k),
                k > 0,
        ;
        lemma_shape_upto(keys, values, leaf, layers, i - 1);
        assert(layer_below(leaf, layers, i - 1) == layers[i]);
        let q = page_last_keys(layers[i]).len() as int;
        assert(q == pages(p, k)) by (nonlinear_arith)
            requires
                2 * k * q == 2 * k * pages(p, k),
                k > 0,
        ;
        assert(2 * k * (pages(p, k) + index_pages(pages(p, k), k)) == 2 * k * pages(p, k) + 2 * k
            * index_pages(pages(p, k), k)) by (nonlinear_arith);
    }
}

/// The first index layers down to layer `i` are the stack above the layer
/// below `i`.
proof fn lemma_stack_upto<T: FastKey>(
    keys: Seq<T>,
    values: Seq<T>,
    leaf: Seq<T>,
    layers: Seq<Seq<T>>,
    i: int,
)
    requires
        well_layered(keys, values, leaf, layers),
        0 <= i < layers.len(),
    ensures
        layers.subrange(0, i + 1) == index_stack(layer_below(leaf, layers, i)),
    decreases i,
{
    if i == 0 {
        assert(layers.subrange(0, 1) =~= seq![layers[0]]);
    } else {
        lemma_stack_upto(keys, values, leaf, layers, i - 1);
        assert(layer_below(leaf, layers, i - 1) == layers[i]);
        assert(layers.subrange(0, i + 1) =~= layers.subrange(0, i).push(layers[i]));
    }
}

/// The index layers of a tree are the stack above its leaf layer.
pub proof fn lemma_layers_are_stack<T: FastKey>(
    keys: Seq<T>,
    values: Seq<T>,
    leaf: Seq<T>,
    layers: Seq<Seq<T>>,
)
    requires
        well_layered(keys, values, leaf, layers),
    ensures
        layers == index_stack(paged(keys, values)),
{
    lemma_stack_upto(keys, values, leaf, layers, layers.len() - 1);
    assert(layers.subrange(0, layers.len() as int) =~= layers);
}

/// A tree over `n` entries has the depth and the size that its number of
/// entries gives.
pub proof fn lemma_shape<T: FastKey>(
    keys: Seq<T>,
    values: Seq<T>,
    leaf: Seq<T>,
    layers: Seq<Seq<T>>,
)
    requires
        well_layered(keys, values, leaf, layers),
    ensures
        leaf.len() == leaf_len::<T>(keys.len()),
        1 + layers.len() == tree_depth::<T>(keys.len()),
        T::width() * (leaf.len() + total_len(layers, layers.len() as int)) == tree_bytes::<T>(
            keys.len(),
        ),
{
    T::lemma_key_type();
    let k = T::run() as int;
    let w = T::width() as int;
    let last = layers.len() - 1;
    lemma_shape_upto(keys, values, leaf, layers, last);
    lemma_paged_shape(keys, values);
    let p = pages(keys.len() as int, k);
    let t = index_pages(p, k);
    assert(w * (2 * k * p + 2 * k * t) == 2 * CACHE_LINE * (p + t)) by (nonlinear_arith)
        requires
            k * w == CACHE_LINE,
    ;
}

} // verus!
