use vstd::prelude::*;
use crate::node::{Key, Record};

verus! {

impl Key for i32 {
    open spec fn rank(&self) -> int {
        *self as int
    }

    proof fn lemma_rank_injective(a: &Self, b: &Self) {
    }

    fn less_than(&self, other: &Self) -> (b: bool) {
        *self < *other
    }

    fn same_key(&self, other: &Self) -> (b: bool) {
        *self == *other
    }

    fn clone_key(&self) -> (k: Self) {
        *self
    }
}

impl Key for i64 {
    open spec fn rank(&self) -> int {
        *self as int
    }

    proof fn lemma_rank_injective(a: &Self, b: &Self) {
    }

    fn less_than(&self, other: &Self) -> (b: bool) {
        *self < *other
    }

    fn same_key(&self, other: &Self) -> (b: bool) {
        *self == *other
    }

    fn clone_key(&self) -> (k: Self) {
        *self
    }
}

impl Key for u32 {
    open spec fn rank(&self) -> int {
        *self as int
    }

    proof fn lemma_rank_injective(a: &Self, b: &Self) {
    }

    fn less_than(&self, other: &Self) -> (b: bool) {
        *self < *other
    }

    fn same_key(&self, other: &Self) -> (b: bool) {
        *self == *other
    }

    fn clone_key(&self) -> (k: Self) {
        *self
    }
}

impl Key for u64 {
    open spec fn rank(&self) -> int {
        *self as int
    }

    proof fn lemma_rank_injective(a: &Self, b: &Self) {
    }

    fn less_than(&self, other: &Self) -> (b: bool) {
        *self < *other
    }

    fn same_key(&self, other: &Self) -> (b: bool) {
        *self == *other
    }

    fn clone_key(&self) -> (k: Self) {
        *self
    }
}

impl Record for String {}

impl Record for i32 {}

impl Record for i64 {}

impl Record for u32 {}

impl Record for u64 {}

} // verus!
