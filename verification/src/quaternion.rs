//! The quaternion value type: four components, one for each basis symbol.

use vstd::prelude::*;

use crate::basis::Basis;

verus! {

/// A quaternion: one component of type `T` for each of the basis symbols `r`, `i`, `j`
/// and `k`.
#[derive(Clone, Copy, Debug, PartialEq)]
pub struct Quaternion<T> {
    /// The real part.
    pub r: T,
    /// The coefficient of the first imaginary unit.
    pub i: T,
    /// The coefficient of the second imaginary unit.
    pub j: T,
    /// The coefficient of the third imaginary unit.
    pub k: T,
}

impl<T: View> View for Quaternion<T> {
    type V = Quaternion<T::V>;

    open spec fn view(&self) -> Quaternion<T::V> {
        Quaternion { r: self.r@, i: self.i@, j: self.j@, k: self.k@ }
    }
}

impl<T> Quaternion<T> {
    /// The component that belongs to a basis symbol.
    pub open spec fn component(self, key: Basis) -> T {
        match key {
            Basis::R => self.r,
            Basis::I => self.i,
            Basis::J => self.j,
            Basis::K => self.k,
        }
    }

    /// This quaternion with the component of one basis symbol replaced.
    pub open spec fn with(self, key: Basis, value: T) -> Quaternion<T> {
        match key {
            Basis::R => Quaternion { r: value, ..self },
            Basis::I => Quaternion { i: value, ..self },
            Basis::J => Quaternion { j: value, ..self },
            Basis::K => Quaternion { k: value, ..self },
        }
    }

    /// The quaternion whose four components all have one value.
    pub open spec fn filled(value: T) -> Quaternion<T> {
        Quaternion { r: value, i: value, j: value, k: value }
    }

    /// Reads the component of a basis symbol.
    pub fn get(&self, key: Basis) -> (result: &T)
        ensures
            *result == self.component(key),
    {
        match key {
            Basis::R => &self.r,
            Basis::I => &self.i,
            Basis::J => &self.j,
            Basis::K => &self.k,
        }
    }

    /// Replaces the component of a basis symbol and leaves the other three as they are.
    pub fn set(&mut self, key: Basis, value: T)
        ensures
            *final(self) == old(self).with(key, value),
    {
        match key {
            Basis::R => self.r = value,
            Basis::I => self.i = value,
            Basis::J => self.j = value,
            Basis::K => self.k = value,
        }
    }
}

} // verus!
