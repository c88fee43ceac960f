//! Owned If Loaded

use std::ops::{Deref, DerefMut};
use vstd::prelude::*;

verus! {

/// The ability to manually unload/deallocate a resource
pub trait Unload<D> {
    /// The error type that can arise from failing to deallocate
    type Error;

    /// Manually unload `self` using the deallocator
    fn unload(self, deallocator: D) -> Result<(), Self::Error>;
}

/// Owned If Loaded
///
/// Tracks responsibility of Drop
#[derive(Debug, Clone, Copy, PartialEq, Eq, Hash)]
pub enum Oil<T, U> {
    /// An owned instance that must be unloaded when this enum is dropped.
    Strong(T),
    /// An unowned instance that will be unloaded independently.
    Weak(U),
}

impl<T, U: Default> Default for Oil<T, U> {
    fn default() -> (r: Self)
        ensures
            r matches Oil::Weak(u) && call_ensures(U::default, (), u),
    {
        Oil::Weak(U::default())
    }
}

impl<T, U, Q> Deref for Oil<T, U> where T: Deref<Target = Q>, U: Deref<Target = Q> {
    type Target = Q;

    /// The target of the held instance, whichever of the two it is.
    fn deref(&self) -> (r: &Q)
        ensures
            match self {
                Oil::Strong(x) => call_ensures(T::deref, (x,), r),
                Oil::Weak(x) => call_ensures(U::deref, (x,), r),
            },
    {
        match self {
            Oil::Strong(x) => x.deref(),
            Oil::Weak(x) => x.deref(),
        }
    }
}

impl<T, U, Q> DerefMut for Oil<T, U> where T: DerefMut<Target = Q>, U: DerefMut<Target = Q> {
    /// The target of the held instance, whichever of the two it is, borrowed
    /// mutably; the instance stays of the same kind.
    fn deref_mut(&mut self) -> (r: &mut Q)
        ensures
            match (*old(self), *final(self)) {
                (Oil::Strong(a), Oil::Strong(b)) => exists|x: &mut T|
                    *x == a && *final(x) == b && call_ensures(T::deref_mut, (x,), r),
                (Oil::Weak(a), Oil::Weak(b)) => exists|x: &mut U|
                    *x == a && *final(x) == b && call_ensures(U::deref_mut, (x,), r),
                _ => false,
            },
    {
        match self {
            Oil::Strong(x) => x.deref_mut(),
            Oil::Weak(x) => x.deref_mut(),
        }
    }
}

impl<T, U, D> Unload<D> for Oil<T, U> where U: Unload<D> {
    type Error = U::Error;

    /// A strong instance is dropped with `self` and unloads successfully; a
    /// weak one is unloaded by its own [`Unload`] implementation, whose result
    /// is returned.
    fn unload(self, deallocator: D) -> (r: Result<(), Self::Error>)
        ensures
            match self {
                Oil::Strong(_) => r == Ok::<(), Self::Error>(()),
                Oil::Weak(weak) => call_ensures(<U as Unload<D>>::unload, (weak, deallocator), r),
            },
    {
        match self {
            Oil::Strong(_) => Ok(()),
            Oil::Weak(weak) => weak.unload(deallocator),
        }
    }
}

} // verus!
