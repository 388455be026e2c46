//! The integer types a tree can be keyed by.

use vstd::prelude::*;

verus! {

/// Bytes in one run of a page: a run of keys fills one cache line, and so does
/// the run of values or child offsets that follows it.
pub const CACHE_LINE: usize = 64;

/// An unsigned integer type that can serve as key, value and child offset.
///
/// Everything the tree needs from the type is said over `rank`, the number a
/// key stands for.
pub trait FastKey: Copy + Sized {
    /// The number this key stands for.
    spec fn rank(self) -> nat;

    /// The key that stands for `n`, for `n` up to `max_rank`.
    spec fn of_rank(n: nat) -> Self;

    /// The largest number a key of this type stands for.
    spec fn max_rank() -> nat;

    /// Keys in one run of a page.
    spec fn run() -> nat;

    /// Bytes one key takes.
    spec fn width() -> nat;

    /// What holds of every key type: a run fills a cache line with at least
    /// two keys, and `rank` and `of_rank` are inverse to each other between
    /// the keys and the numbers up to `max_rank`.
    proof fn lemma_key_type()
        ensures
            2 <= Self::run() <= CACHE_LINE,
            Self::run() * Self::width() == CACHE_LINE,
            u32::MAX <= Self::max_rank() <= u64::MAX,
            forall|a: Self| #[trigger] a.rank() <= Self::max_rank(),
            forall|a: Self| Self::of_rank(#[trigger] a.rank()) == a,
            forall|n: nat| n <= Self::max_rank() ==> (#[trigger] Self::of_rank(n)).rank() == n,
    ;

    /// The largest key: it pads the key runs.
    fn largest() -> (r: Self)
        ensures
            r == Self::of_rank(Self::max_rank()),
    ;

    /// The key zero: it pads the value runs.
    fn zero() -> (r: Self)
        ensures
            r == Self::of_rank(0),
    ;

    /// Keys in one run of a page.
    fn run_len() -> (r: usize)
        ensures
            r == Self::run(),
    ;

    /// Bytes one key takes.
    fn byte_width() -> (r: usize)
        ensures
            r == Self::width(),
    ;

    /// Whether `self` is strictly smaller than `other`.
    fn below(self, other: Self) -> (r: bool)
        ensures
            r == (self.rank() < other.rank()),
    ;

    /// The key that stands for `offset`, if the type has one.
    fn from_offset(offset: usize) -> (r: Option<Self>)
        ensures
            r == (if offset <= Self::max_rank() {
                Some(Self::of_rank(offset as nat))
            } else {
                None
            }),
    ;

    /// The number this key stands for, where it fits a `usize`.
    fn to_offset(self) -> (r: usize)
        requires
            self.rank() <= usize::MAX,
        ensures
            r == self.rank(),
    ;
}

/// Calls `num::Bounded::max_value` for `u64`. What it returns is taken on
/// trust from the crate: the largest value of the type, `u64::MAX`.
#[verifier::external_body]
fn largest_u64() -> (r: u64)
    ensures
        r == u64::MAX,
{
    <u64 as num::Bounded>::max_value()
}

/// Calls `num::Bounded::max_value` for `u32`. What it returns is taken on
/// trust from the crate: the largest value of the type, `u32::MAX`.
#[verifier::external_body]
fn largest_u32() -> (r: u32)
    ensures
        r == u32::MAX,
{
    <u32 as num::Bounded>::max_value()
}

impl FastKey for u64 {
    open spec fn rank(self) -> nat {
        self as nat
    }

    open spec fn of_rank(n: nat) -> u64 {
        n as u64
    }

    open spec fn max_rank() -> nat {
        u64::MAX as nat
    }

    open spec fn run() -> nat {
        8
    }

    open spec fn width() -> nat {
        8
    }

    proof fn lemma_key_type() {
    }

    fn largest() -> (r: u64) {
        largest_u64()
    }

    fn zero() -> (r: u64) {
        0
    }

    fn run_len() -> (r: usize) {
        8
    }

    fn byte_width() -> (r: usize) {
        8
    }

    fn below(self, other: u64) -> (r: bool) {
        self < other
    }

    fn from_offset(offset: usize) -> (r: Option<u64>) {
        Some(offset as u64)
    }

    fn to_offset(self) -> (r: usize) {
        self as usize
    }
}

impl FastKey for u32 {
    open spec fn rank(self) -> nat {
        self as nat
    }

    open spec fn of_rank(n: nat) -> u32 {
        n as u32
    }

    open spec fn max_rank() -> nat {
        u32::MAX as nat
    }

    open spec fn run() -> nat {
        16
    }

    open spec fn width() -> nat {
        4
    }

    proof fn lemma_key_type() {
    }

    fn largest() -> (r: u32) {
        largest_u32()
    }

    fn zero() -> (r: u32) {
        0
    }

    fn run_len() -> (r: usize) {
        16
    }

    fn byte_width() -> (r: usize) {
        4
    }

    fn below(self, other: u32) -> (r: bool) {
        self < other
    }

    fn from_offset(offset: usize) -> (r: Option<u32>) {
        if offset <= 0xffff_ffff {
            Some(offset as u32)
        } else {
            None
        }
    }

    fn to_offset(self) -> (r: usize) {
        self as usize
    }
}

} // verus!
