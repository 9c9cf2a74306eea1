//! An insertion-ordered dictionary: a map from unique keys to values whose
//! iteration order is the order in which the currently present keys were
//! first inserted.

pub mod dictionary;
pub mod render;

pub use crate::dictionary::Dictionary;

use vstd::prelude::*;

verus! {

/// Holds exactly when every element of `vec1` also occurs somewhere in `vec2`.
pub fn has_same_elements<T: PartialEq>(vec1: &Vec<T>, vec2: &Vec<T>) -> (r: bool)
    requires
        vstd::laws_eq::obeys_concrete_eq::<T>(),
    ensures
        r == forall|i: int| 0 <= i < vec1@.len() ==> vec2@.contains(vec1@[i]),
{
    let mut i: usize = 0;
    while i < vec1.len()
        invariant
            vstd::laws_eq::obeys_concrete_eq::<T>(),
            i <= vec1@.len(),
            forall|m: int| 0 <= m < i ==> vec2@.contains(vec1@[m]),
        decreases vec1@.len() - i,
    {
        if !vec_contains(vec2, &vec1[i]) {
            return false;
        }
        i += 1;
    }
    true
}

/// Holds exactly when `vec` has an element equal to `x`.
fn vec_contains<T: PartialEq>(vec: &Vec<T>, x: &T) -> (r: bool)
    requires
        vstd::laws_eq::obeys_concrete_eq::<T>(),
    ensures
        r == vec@.contains(*x),
{
    let mut j: usize = 0;
    while j < vec.len()
        invariant
            vstd::laws_eq::obeys_concrete_eq::<T>(),
            j <= vec@.len(),
            forall|m: int| 0 <= m < j ==> vec@[m] != *x,
        decreases vec@.len() - j,
    {
        let hit = vec[j] == *x;
        proof {
            crate::dictionary::lemma_eq_agrees(vec@[j as int], *x);
        }
        if hit {
            return true;
        }
        j += 1;
    }
    false
}

} // verus!
