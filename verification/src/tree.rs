//! The tree: building it, and looking keys up in it.

use vstd::prelude::*;
use vstd::slice::slice_subrange;
use crate::descent::{key_run, lemma_last_keys, lemma_leaf, lemma_paged_shape, lemma_step};
use crate::error::FastError;
use crate::key::{FastKey, CACHE_LINE};
use crate::layers::{build_internal_layer, build_leaf_layer};
use crate::model::{
    bracket, count_below, index_layer, lemma_pages, offsets_fit, page_last_keys, page_offsets,
    paged, pages, sorted,
};
use crate::search::{count_greater, count_greater_eq, first_above, first_not_below};
use crate::shape::{
    index_pages, index_stack, layer_below, leaf_len, lemma_index_layer_len,
    lemma_index_pages_positive, lemma_layers_are_stack, lemma_layers_ordered, lemma_shape,
    lemma_total_len_counts, lemma_total_len_grows, total_len, tree_bytes, tree_depth,
    well_layered,
};

verus! {

/// A search tree over sorted keys, laid out in pages of two cache lines: a
/// run of keys, then the run of values (in the leaf layer) or of child
/// offsets (in the layers above) that belong to them.
///
/// It is built once and never changes.
pub struct FAST<T: FastKey> {
    leaf_layer: Vec<T>,
    internal_layers: Vec<Vec<T>>,
    min_key: T,
    max_key: T,
    min_val: T,
    max_val: T,
    keys: Ghost<Seq<T>>,
    values: Ghost<Seq<T>>,
}

/// The contents of each layer.
pub open spec fn layer_views<T>(layers: Seq<Vec<T>>) -> Seq<Seq<T>> {
    Seq::new(layers.len(), |i: int| layers[i]@)
}

/// Index layers bottom-up: the first indexes the leaf layer, each further
/// one the one before it, and all but the last are longer than one page.
spec fn stacked<T: FastKey>(leaf: Seq<T>, up: Seq<Vec<T>>) -> bool {
    &&& up.len() >= 1
    &&& up[0]@ == index_layer(leaf)
    &&& forall|t: int| 1 <= t < up.len() ==> (#[trigger] up[t])@ == index_layer(up[t - 1]@)
    &&& forall|t: int| 0 <= t < up.len() - 1 ==> (#[trigger] up[t]).len() > 2 * T::run()
    &&& forall|t: int|
        0 <= t < up.len() ==> {
            &&& page_last_keys((#[trigger] up[t])@).len() >= 1
            &&& up[t].len() == 2 * T::run() * page_last_keys(up[t]@).len()
            &&& up[t].len() <= leaf.len()
        }
}

/// The layers in the opposite order.
fn reversed<T>(layers: Vec<Vec<T>>) -> (r: Vec<Vec<T>>)
    ensures
        r.len() == layers.len(),
        forall|i: int| 0 <= i < r.len() ==> r[i] == layers[layers.len() - 1 - i],
{
    let mut rest = layers;
    let mut r: Vec<Vec<T>> = Vec::new();
    while rest.len() > 0
        invariant
            rest.len() + r.len() == layers.len(),
            forall|i: int| 0 <= i < rest.len() ==> rest[i] == layers[i],
            forall|i: int| 0 <= i < r.len() ==> r[i] == layers[layers.len() - 1 - i],
        decreases rest.len(),
    {
        if let Some(layer) = rest.pop() {
            r.push(layer);
        }
    }
    r
}

impl<T: FastKey> FAST<T> {
    #[verifier::type_invariant]
    spec fn inv(self) -> bool {
        &&& well_layered(
            self.keys@,
            self.values@,
            self.leaf_layer@,
            layer_views(self.internal_layers@),
        )
        &&& self.min_key == self.keys@[0]
        &&& self.max_key == self.keys@.last()
        &&& self.min_val == self.values@[0]
        &&& self.max_val == self.values@.last()
    }

    /// The keys the tree was built from.
    pub closed spec fn keys(self) -> Seq<T> {
        self.keys@
    }

    /// The values the tree was built from, each at the index of its key.
    pub closed spec fn values(self) -> Seq<T> {
        self.values@
    }

    /// Builds the tree over `keys`, sorted, and the value of each.
    ///
    /// Fails with `DomainViolation` where there is no key or not one value
    /// per key, and with `Overflow` where the position of a leaf page is no
    /// key of this type.
    pub fn new(keys: Vec<T>, values: Vec<T>) -> (r: Result<FAST<T>, FastError>)
        requires
            sorted(keys@),
            tree_bytes::<T>(keys.len() as nat) <= usize::MAX,
        ensures
            match r {
                Ok(tree) => {
                    &&& keys.len() > 0
                    &&& keys.len() == values.len()
                    &&& offsets_fit::<T>(leaf_len::<T>(keys.len() as nat))
                    &&& tree.keys() == keys@
                    &&& tree.values() == values@
                },
                Err(FastError::DomainViolation) => keys.len() == 0 || keys.len() != values.len(),
                Err(FastError::Overflow) => {
                    &&& keys.len() > 0
                    &&& keys.len() == values.len()
                    &&& !offsets_fit::<T>(leaf_len::<T>(keys.len() as nat))
                },
            },
    {
        let n: usize = keys.len();
        if n == 0 || n != values.len() {
            return Err(FastError::DomainViolation);
        }
        let min_key = keys[0];
        let max_key = keys[n - 1];
        let min_val = values[0];
        let max_val = values[n - 1];
        let ghost ks = keys@;
        let ghost vs = values@;
        let k: usize = T::run_len();
        proof {
            T::lemma_key_type();
            lemma_pages(n as int, k as int);
            lemma_paged_shape(ks, vs);
            lemma_index_pages_positive(pages(n as int, k as int), k as int);
            assert(2 * k * pages(n as int, k as int) <= tree_bytes::<T>(n as nat))
                by (nonlinear_arith)
                requires
                    tree_bytes::<T>(n as nat) == 2 * CACHE_LINE * (pages(n as int, k as int)
                        + index_pages(pages(n as int, k as int), k as int)),
                    index_pages(pages(n as int, k as int), k as int) >= 0,
                    pages(n as int, k as int) >= 0,
                    2 <= k <= CACHE_LINE,
                    CACHE_LINE == 64,
            ;
        }
        let leaf_layer = build_leaf_layer(keys, values);
        let first = match build_internal_layer(leaf_layer.as_slice()) {
            Ok(layer) => layer,
            Err(e) => {
                return Err(e);
            },
        };
        proof {
            lemma_last_keys(ks, vs);
            lemma_index_layer_len(leaf_layer@);
        }
        let mut up: Vec<Vec<T>> = Vec::new();
        up.push(first);
        loop
            invariant
                k == T::run(),
                2 <= k <= CACHE_LINE,
                stacked(leaf_layer@, up@),
                offsets_fit::<T>(leaf_layer.len() as int),
            ensures
                up[up.len() - 1].len() == 2 * k,
            decreases up[up.len() - 1].len(),
        {
            let top: &Vec<T> = &up[up.len() - 1];
            if top.len() <= 2 * k {
                proof {
                    let p = page_last_keys(top@).len() as int;
                    assert(*top == up@[up.len() - 1]);
                    assert(p == 1) by (nonlinear_arith)
                        requires
                            2 * k * p <= 2 * k,
                            p >= 1,
                            k > 0,
                    ;
                    assert(2 * k * p == 2 * k) by (nonlinear_arith)
                        requires
                            p == 1,
                    ;
                }
                break ;
            }
            proof {
                let p = page_last_keys(top@).len() as int;
                assert(top.len() as int % (2 * k) as int == 0) by {
                    vstd::arithmetic::div_mod::lemma_mod_multiples_basic(p, 2 * k);
                    assert(2 * k * p == p * (2 * k)) by (nonlinear_arith);
                }
                lemma_index_layer_len(top@);
                lemma_pages(p, k as int);
                assert(p >= 2) by (nonlinear_arith)
                    requires
                        2 * k * p > 2 * k,
                        k > 0,
                ;
                assert(2 * k * pages(p, k as int) < 2 * k * p) by (nonlinear_arith)
                    requires
                        pages(p, k as int) < p,
                        k > 0,
                ;
                lemma_paged_shape(page_last_keys(top@), page_offsets(top@));
            }
            // no layer is longer than the leaf layer, so this cannot fail
            match build_internal_layer(top.as_slice()) {
                Ok(next) => {
                    up.push(next);
                },
                Err(e) => {
                    return Err(e);
                },
            }
        }
        let ghost bottom_up = up@;
        let internal_layers = reversed(up);
        proof {
            let layers = layer_views(internal_layers@);
            let count = bottom_up.len() as int;
            assert forall|i: int| 0 <= i < layers.len() implies #[trigger] layers[i] == index_layer(
                layer_below(leaf_layer@, layers, i),
            ) by {
                assert(layers[i] == bottom_up[count - 1 - i]@);
                if i + 1 < layers.len() {
                    assert(layers[i + 1] == bottom_up[count - 1 - i - 1]@);
                }
            }
            assert forall|i: int| 1 <= i < layers.len() implies (#[trigger] layers[i]).len() > 2
                * T::run() by {
                assert(layers[i] == bottom_up[count - 1 - i]@);
            }
            assert(layers[0] == bottom_up[count - 1]@);
        }
        Ok(
            FAST {
                leaf_layer,
                internal_layers,
                min_key,
                max_key,
                min_val,
                max_val,
                keys: Ghost(ks),
                values: Ghost(vs),
            },
        )
    }

    /// What a lookup of `key` returns.
    pub open spec fn lookup(&self, key: T) -> (T, T) {
        bracket(self.keys(), self.values(), key)
    }

    /// The answer for a key that lies below the first key or not below the
    /// last one, and `None` for a key between them.
    pub fn out_of_range(&self, key: T) -> (r: Option<(T, T)>)
        ensures
            r == (if key.rank() < self.keys()[0].rank() || key.rank() >= self.keys().last().rank() {
                Some(self.lookup(key))
            } else {
                None
            }),
    {
        proof {
            use_type_invariant(self);
        }
        if key.below(self.min_key) {
            return Some((T::zero(), self.min_val));
        }
        if !key.below(self.max_key) {
            return Some((self.max_val, T::largest()));
        }
        None
    }

    /// The values on either side of `key`: the value of the last entry that
    /// `key` has reached and the value of the entry after it. Below the first
    /// key these are zero and the first value, from the last key on the last
    /// value and the largest key.
    ///
    /// Each page on the way down is searched by counting, key by key. The
    /// entries of a tree are sorted and not empty, which the result says too.
    #[verifier::when_used_as_spec(lookup)]
    pub fn slow_lookup(&self, key: T) -> (r: (T, T))
        ensures
            r == self.lookup(key),
            self.keys().len() == self.values().len(),
            self.keys().len() > 0,
            sorted(self.keys()),
    {
        proof {
            use_type_invariant(self);
            T::lemma_key_type();
        }
        let key_run_size: usize = T::run_len();
        if let Some(r) = self.out_of_range(key) {
            return r;
        }
        let mut idx: usize = 0;
        let mut i: usize = 0;
        proof {
            self.lemma_root(key);
        }
        while i < self.internal_layers.len()
            invariant
                self.inv(),
                key_run_size == T::run(),
                key.rank() < self.keys@.last().rank(),
                0 <= i <= self.internal_layers.len(),
                idx == self.reached(i as int, key),
                idx + 2 * key_run_size <= self.layer(i as int).len(),
            decreases self.internal_layers.len() - i,
        {
            let layer: &Vec<T> = &self.internal_layers[i];
            proof {
                self.lemma_down(i as int, key);
                assert(self.layer(i as int).len() == layer.len());
                assert(self.layer(i + 1).len() <= usize::MAX) by {
                    if i + 1 < self.internal_layers.len() {
                        assert(self.layer(i + 1).len() == self.internal_layers@[i + 1].len());
                    } else {
                        assert(self.layer(i + 1).len() == self.leaf_layer.len());
                    }
                }
            }
            let gt_count: usize = count_greater(
                slice_subrange(layer.as_slice(), idx, idx + key_run_size),
                key,
            );
            idx = layer[idx + key_run_size + gt_count].to_offset();
            i += 1;
        }
        proof {
            lemma_leaf(self.keys@, self.values@, key);
            assert(self.layer(i as int).len() == self.leaf_layer.len());
        }
        let page_size: usize = key_run_size * 2;
        let gt_count: usize = count_greater_eq(
            slice_subrange(self.leaf_layer.as_slice(), idx, idx + key_run_size),
            key,
        );
        if gt_count == 0 {
            // the lower value is the last one of the page before
            let first = self.leaf_layer[idx - page_size + (page_size - 1)];
            let second = self.leaf_layer[idx + key_run_size];
            (first, second)
        } else if gt_count == key_run_size {
            // the upper value is the first one of the page after
            let first = self.leaf_layer[idx + (page_size - 1)];
            let second = self.leaf_layer[idx + page_size + key_run_size];
            (first, second)
        } else {
            let first = self.leaf_layer[idx + key_run_size + (gt_count - 1)];
            let second = self.leaf_layer[idx + key_run_size + (gt_count - 1) + 1];
            (first, second)
        }
    }

    /// The same bracket as `slow_lookup` returns, found faster: each page on
    /// the way down is searched by halving its sorted key run.
    pub fn fast_lookup(&self, key: T) -> (r: (T, T))
        ensures
            r == self.slow_lookup(key),
            self.keys().len() == self.values().len(),
            self.keys().len() > 0,
            sorted(self.keys()),
    {
        proof {
            use_type_invariant(self);
            T::lemma_key_type();
        }
        let key_run_size: usize = T::run_len();
        if let Some(r) = self.out_of_range(key) {
            return r;
        }
        let mut idx: usize = 0;
        let mut i: usize = 0;
        proof {
            self.lemma_root(key);
        }
        while i < self.internal_layers.len()
            invariant
                self.inv(),
                key_run_size == T::run(),
                key.rank() < self.keys@.last().rank(),
                0 <= i <= self.internal_layers.len(),
                idx == self.reached(i as int, key),
                idx + 2 * key_run_size <= self.layer(i as int).len(),
            decreases self.internal_layers.len() - i,
        {
            let layer: &Vec<T> = &self.internal_layers[i];
            proof {
                self.lemma_down(i as int, key);
                assert(self.layer(i as int).len() == layer.len());
                assert(self.layer(i + 1).len() <= usize::MAX) by {
                    if i + 1 < self.internal_layers.len() {
                        assert(self.layer(i + 1).len() == self.internal_layers@[i + 1].len());
                    } else {
                        assert(self.layer(i + 1).len() == self.leaf_layer.len());
                    }
                }
            }
            let slot: usize = first_not_below(
                slice_subrange(layer.as_slice(), idx, idx + key_run_size),
                key,
            );
            idx = layer[idx + key_run_size + slot].to_offset();
            i += 1;
        }
        proof {
            lemma_leaf(self.keys@, self.values@, key);
            assert(self.layer(i as int).len() == self.leaf_layer.len());
        }
        let slot: usize = first_above(
            slice_subrange(self.leaf_layer.as_slice(), idx, idx + key_run_size),
            key,
        );
        let first = if slot == 0 {
            self.leaf_layer[idx - 1]
        } else {
            self.leaf_layer[idx + key_run_size + slot - 1]
        };
        let second = if slot == key_run_size {
            self.leaf_layer[idx + 3 * key_run_size]
        } else {
            self.leaf_layer[idx + key_run_size + slot]
        };
        (first, second)
    }

    /// The number of layers: the leaf layer and the index layers above it.
    pub fn depth(&self) -> (r: usize)
        ensures
            r == tree_depth::<T>(self.keys().len()),
    {
        proof {
            use_type_invariant(self);
            T::lemma_key_type();
            let layers = layer_views(self.internal_layers@);
            lemma_shape(self.keys@, self.values@, self.leaf_layer@, layers);
            lemma_total_len_counts(layers, layers.len() as int);
            assert(T::width() * (self.leaf_layer@.len() + total_len(layers, layers.len() as int))
                >= total_len(layers, layers.len() as int)) by (nonlinear_arith)
                requires
                    T::width() >= 1,
                    self.leaf_layer@.len() >= 0,
                    total_len(layers, layers.len() as int) >= 0,
            ;
        }
        1 + self.internal_layers.len()
    }

    /// The bytes that the layers take.
    pub fn size(&self) -> (r: usize)
        ensures
            r == tree_bytes::<T>(self.keys().len()),
    {
        let width: usize = T::byte_width();
        let ghost layers = layer_views(self.internal_layers@);
        let ghost count = layers.len() as int;
        let ghost leaf = self.leaf_layer@.len() as int;
        proof {
            use_type_invariant(self);
            T::lemma_key_type();
            lemma_shape(self.keys@, self.values@, self.leaf_layer@, layers);
            lemma_total_len_grows(layers, 0, count);
            assert(width * leaf <= width * (leaf + total_len(layers, count))) by (nonlinear_arith)
                requires
                    0 <= total_len(layers, count),
                    width >= 0,
            ;
        }
        let mut internal_size: usize = 0;
        let mut i: usize = 0;
        while i < self.internal_layers.len()
            invariant
                width == T::width(),
                layers == layer_views(self.internal_layers@),
                count == layers.len(),
                0 <= i <= count,
                internal_size == width * total_len(layers, i as int),
                width * (leaf + total_len(layers, count)) <= usize::MAX,
                leaf >= 0,
            decreases count - i,
        {
            proof {
                lemma_total_len_grows(layers, i + 1, count);
                assert(layers[i as int].len() == self.internal_layers@[i as int].len());
                assert(width * total_len(layers, i + 1) == internal_size + self.internal_layers@[i as int].len()
                    * width && self.internal_layers@[i as int].len() * width >= 0 && width
                    * total_len(layers, i + 1) <= width * (leaf + total_len(layers, count)))
                    by (nonlinear_arith)
                    requires
                        total_len(layers, i + 1) == total_len(layers, i as int)
                            + self.internal_layers@[i as int].len(),
                        internal_size == width * total_len(layers, i as int),
                        total_len(layers, i + 1) <= total_len(layers, count),
                        leaf >= 0,
                        width >= 0,
                ;
            }
            internal_size = internal_size + self.internal_layers[i].len() * width;
            i += 1;
        }
        proof {
            assert(leaf * width + internal_size == width * (leaf + total_len(layers, count)))
                by (nonlinear_arith)
                requires
                    internal_size == width * total_len(layers, count),
            ;
        }
        self.leaf_layer.len() * width + internal_size
    }

    /// The leaf layer: the keys beside their values, in pages.
    pub fn leaf_layer(&self) -> (r: &Vec<T>)
        ensures
            r@ == paged(self.keys(), self.values()),
    {
        proof {
            use_type_invariant(self);
        }
        &self.leaf_layer
    }

    /// The index layers, the root first: the stack above the leaf layer.
    pub fn internal_layers(&self) -> (r: &Vec<Vec<T>>)
        ensures
            layer_views(r@) == index_stack(paged(self.keys(), self.values())),
    {
        proof {
            use_type_invariant(self);
            lemma_layers_are_stack(
                self.keys@,
                self.values@,
                self.leaf_layer@,
                layer_views(self.internal_layers@),
            );
        }
        &self.internal_layers
    }

    /// Layer `i` on the way down: an index layer, or, below the last of
    /// them, the leaf layer.
    spec fn layer(self, i: int) -> Seq<T> {
        if i < self.internal_layers@.len() {
            self.internal_layers@[i]@
        } else {
            self.leaf_layer@
        }
    }

    /// Where in layer `i` the page starts that the descent for `key` reaches:
    /// the first page whose last key slot is not below `key`.
    spec fn reached(self, i: int, key: T) -> int {
        count_below(page_last_keys(self.layer(i)), key) as int * (2 * T::run() as int)
    }

    /// The descent starts at the root's only page.
    proof fn lemma_root(self, key: T)
        requires
            self.inv(),
            key.rank() < self.keys@.last().rank(),
        ensures
            self.reached(0, key) == 0,
            2 * T::run() <= self.layer(0).len(),
    {
        T::lemma_key_type();
        let layers = layer_views(self.internal_layers@);
        let below = layer_below(self.leaf_layer@, layers, 0);
        lemma_layers_ordered(self.keys@, self.values@, self.leaf_layer@, layers, 0);
        assert(self.layer(0) == layers[0]);
        lemma_step(page_last_keys(below), page_offsets(below), key);
        let page = count_below(page_last_keys(layers[0]), key) as int;
        assert(page == 0) by (nonlinear_arith)
            requires
                0 <= page * (2 * T::run()),
                page * (2 * T::run()) + 2 * T::run() <= 2 * T::run(),
                T::run() >= 2,
        ;
    }

    /// One step of the descent: from the page reached in index layer `i`,
    /// the count of its keys below `key` leads to the page reached in the
    /// layer below.
    proof fn lemma_down(self, i: int, key: T)
        requires
            self.inv(),
            key.rank() < self.keys@.last().rank(),
            0 <= i < self.internal_layers@.len(),
        ensures
            ({
                let k = T::run() as int;
                let layer = self.layer(i);
                let at = self.reached(i, key);
                let run = layer.subrange(at, at + k);
                let slot = count_below(run, key) as int;
                &&& 0 <= at
                &&& at + 2 * k <= layer.len()
                &&& sorted(run)
                &&& 0 <= slot < k
                &&& layer[at + k + slot].rank() == self.reached(i + 1, key)
                &&& 0 <= self.reached(i + 1, key)
                &&& self.reached(i + 1, key) + 2 * k <= self.layer(i + 1).len()
            }),
    {
        T::lemma_key_type();
        let k = T::run() as int;
        let layers = layer_views(self.internal_layers@);
        let below = layer_below(self.leaf_layer@, layers, i);
        lemma_layers_ordered(self.keys@, self.values@, self.leaf_layer@, layers, i);
        assert(self.layer(i) == layers[i]);
        assert(self.layer(i + 1) == below) by {
            if i + 1 < layers.len() {
                assert(layers[i + 1] == self.internal_layers@[i + 1]@);
            }
        }
        let left = page_last_keys(below);
        let right = page_offsets(below);
        lemma_step(left, right, key);
        let chosen = count_below(left, key) as int;
        let page = count_below(page_last_keys(layers[i]), key) as int;
        assert(key_run(layers[i], page) == layers[i].subrange(
            self.reached(i, key),
            self.reached(i, key) + k,
        ));
        assert(chosen * (2 * k) + 2 * k <= 2 * k * left.len() && 0 <= chosen * (2 * k))
            by (nonlinear_arith)
            requires
                0 <= chosen < left.len(),
                k > 0,
        ;
        assert(right[chosen] == T::of_rank((chosen * (2 * k)) as nat));
    }
}

} // verus!
