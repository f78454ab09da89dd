//! Access levels: a field read as an expression, as a variable, or atomically,
//! each level able to stand in for the ones below it.
use std::marker::PhantomData;

use vstd::prelude::*;

verus! {

/// How deeply a field is accessed: 0 for nothing, 1 for an expression or a
/// static value, 2 for a variable, 3 for an atomic reference.
#[derive(Debug, Clone, Copy, PartialEq, Eq, Hash, Structural)]
pub struct AccessLevel(pub u8);

/// A list of access kinds, from the deepest down.
pub trait AccessList {}

/// The empty list of access kinds.
pub struct AccessNil;

/// An access kind `X` in front of the list `L`.
pub struct AccessCons<X, L>(pub PhantomData<(X, L)>);

impl AccessList for AccessNil {}

impl<X, L: AccessList> AccessList for AccessCons<X, L> {}

/// A kind of access with a level.
pub trait ListAccess {
    spec fn spec_level() -> u8;

    fn level() -> (r: AccessLevel)
        ensures
            r.0 == Self::spec_level(),
    ;
}

/// A kind of access of a field.
pub trait Access: ListAccess {}

impl ListAccess for AccessNil {
    open spec fn spec_level() -> u8 {
        0
    }

    fn level() -> (r: AccessLevel) {
        AccessLevel(0)
    }
}

/// A value known when the kernel is built, accessed at the level of an expression.
#[derive(Debug, Clone, Copy, PartialEq, Eq, Hash)]
pub struct Static<T>(pub T);

impl<T> ListAccess for Static<T> {
    open spec fn spec_level() -> u8 {
        1
    }

    fn level() -> (r: AccessLevel) {
        AccessLevel(1)
    }
}

impl<T> Access for Static<T> {}

/// An access as a read-only expression.
pub struct ExprAccess<V>(pub PhantomData<V>);

/// An access as a mutable variable.
pub struct VarAccess<V>(pub PhantomData<V>);

/// An access as an atomic reference.
pub struct AtomicAccess<V>(pub PhantomData<V>);

impl<V> ListAccess for ExprAccess<V> {
    open spec fn spec_level() -> u8 {
        1
    }

    fn level() -> (r: AccessLevel) {
        AccessLevel(1)
    }
}

impl<V> ListAccess for VarAccess<V> {
    open spec fn spec_level() -> u8 {
        2
    }

    fn level() -> (r: AccessLevel) {
        AccessLevel(2)
    }
}

impl<V> ListAccess for AtomicAccess<V> {
    open spec fn spec_level() -> u8 {
        3
    }

    fn level() -> (r: AccessLevel) {
        AccessLevel(3)
    }
}

impl<V> Access for ExprAccess<V> {}

impl<V> Access for VarAccess<V> {}

impl<V> Access for AtomicAccess<V> {}

} // verus!
