//! The interface between the engine and generated container and factory
//! code.
//!
//! Containers and per-facet builders are written (or generated) outside
//! the engine; these traits are what they implement so that a factory's
//! `build` entry point, the build session, and the accessors of an
//! assembled container compose.

use vstd::prelude::*;

use crate::error::FactoryError;

verus! {

/// Implemented by containers that factory builders can assemble.
pub trait Buildable<B>: Sized {
    /// Assemble the container from a prepared factory builder.
    fn build(builder: B) -> Result<Self, FactoryError>;
}

/// Implemented by factory builders that can build facets of type `T`.
pub trait Builder<T: Sized> {
    /// Build (or retrieve the already-built handle of) this facet.
    fn build(&mut self) -> Result<T, FactoryError>;
}

/// Implemented by asynchronous factory builders for each facet of type `T`
/// they can build.
pub trait AsyncBuilderFor<T: Sized> {
    /// Mark this facet, and with it its dependencies, as needed.
    fn need(&mut self);

    /// Get the built instance of this facet.
    fn get(&self) -> T;
}

/// Implemented by containers that can lend out a reference to their facet
/// of type `T`.
pub trait FacetRef<T: ?Sized + Send + Sync + 'static> {
    /// Borrow the facet.
    fn facet_ref(&self) -> &T;
}

/// Implemented by containers that can hand out a shared handle to their
/// facet of type `T`.
pub trait FacetArc<T: ?Sized + Send + Sync + 'static> {
    /// Clone out a shared handle to the facet.
    fn facet_arc(&self) -> std::sync::Arc<T>;
}

} // verus!
