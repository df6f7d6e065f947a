//! Conversion traits between the layout engine's geometry and the UI's geometry.
use vstd::prelude::*;

verus! {

/// Builds a value from a `T`.
pub trait ConvertFrom<T>: Sized {
    /// The value built from `value`.
    spec fn converted_from(value: T) -> Self;

    fn convert_from(value: T) -> (r: Self)
        ensures
            r == Self::converted_from(value),
    ;
}

/// Turns a value into a `T`; every [`ConvertFrom`] gives one.
pub trait ConvertInto<T>: Sized {
    /// The value that `self` turns into.
    spec fn converted_into(self) -> T;

    fn convert_into(self) -> (r: T)
        ensures
            r == self.converted_into(),
    ;
}

impl<T, U: ConvertFrom<T>> ConvertInto<U> for T {
    /// What `U` builds from `self`.
    open spec fn converted_into(self) -> U {
        U::converted_from(self)
    }

    fn convert_into(self) -> (r: U) {
        U::convert_from(self)
    }
}

/// Builds a value from a `T`, passing each of its components through `f`.
pub trait MapFrom<T>: Sized {
    type Units;

    fn map_from<F: FnMut(Self::Units) -> Self::Units>(value: T, f: F) -> Self;
}

/// Turns a value into a `T`, passing each of its components through `f`; every [`MapFrom`]
/// gives one.
pub trait MapInto<T, U>: Sized {
    fn map_into<F: FnMut(U) -> U>(self, f: F) -> T;
}

impl<T, U: MapFrom<T, Units = V>, V> MapInto<U, V> for T {
    fn map_into<F: FnMut(V) -> V>(self, f: F) -> U {
        U::map_from(self, f)
    }
}

} // verus!
