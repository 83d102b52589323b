//! The failure surface of the build engine.
//!
//! A build either succeeds or fails on exactly one named unit; the failure
//! carries that unit's stable name and the underlying cause reported by the
//! unit's construction function.  Cycles and unresolvable dependency
//! declarations are registration-time configuration errors and are reported
//! by the graph module, never as a per-build failure.

use vstd::prelude::*;

verus! {

/// The type construction functions report their causes with.
///
/// Relies on `anyhow::Error` only as an opaque value: the engine stores and
/// moves causes, it never inspects them.
#[verifier::external_type_specification]
#[verifier::external_body]
pub struct ExAnyhowError(anyhow::Error);

/// An error during construction by a facet factory.
#[derive(Debug)]
pub enum FactoryError {
    /// A facet failed to build.
    FacetBuildFailed {
        /// The name of the facet that failed to build.
        name: String,
        /// The error encountered when building the facet.
        source: anyhow::Error,
    },
}

impl FactoryError {
    /// The stable name of the unit this failure is attributed to.
    pub open spec fn spec_name(&self) -> Seq<char> {
        match self {
            FactoryError::FacetBuildFailed { name, .. } => name@,
        }
    }

    /// The underlying cause carried by this failure.
    pub open spec fn spec_source(&self) -> anyhow::Error {
        match self {
            FactoryError::FacetBuildFailed { source, .. } => *source,
        }
    }

    /// The name of the unit that failed to build, for reporting.
    pub fn unit_name(&self) -> (r: &String)
        ensures
            r@ == self.spec_name(),
    {
        match self {
            FactoryError::FacetBuildFailed { name, .. } => name,
        }
    }
}

/// A single-shot failure slot for concurrent builders.
///
/// Several concurrently running construction functions may fail during one
/// build session; only the first recorded failure is surfaced to the caller.
/// The slot is written once when the first failure is recorded and read
/// exactly once when the overall build resolves; reading it twice is a
/// defect in the coordinating code, so `factory_error` demands a pending
/// failure instead of panicking.
pub struct AsyncFactoryError {
    error: Option<FactoryError>,
}

impl AsyncFactoryError {
    /// The failure still held by the slot, if it has not been read yet.
    pub closed spec fn pending(&self) -> Option<FactoryError> {
        self.error
    }

    /// Fill a fresh slot with the first recorded failure.
    pub fn new_pending(err: FactoryError) -> (r: AsyncFactoryError)
        ensures
            r.pending() == Some(err),
    {
        AsyncFactoryError { error: Some(err) }
    }

    /// Read the failure out of the slot.
    pub fn factory_error(self) -> (r: FactoryError)
        requires
            self.pending() is Some,
        ensures
            r == self.pending().unwrap(),
    {
        self.error.unwrap()
    }
}

/// Converting a failure into a slot leaves that failure pending in the slot.
pub proof fn lemma_from_fills_slot(err: FactoryError)
    ensures
        <AsyncFactoryError as vstd::std_specs::convert::FromSpec<FactoryError>>::from_spec(
            err,
        ).pending() == Some(err),
{
}

impl From<FactoryError> for AsyncFactoryError {
    /// Fill a fresh slot with the first recorded failure.
    fn from(err: FactoryError) -> (r: AsyncFactoryError) {
        AsyncFactoryError { error: Some(err) }
    }
}

impl vstd::std_specs::convert::FromSpecImpl<FactoryError> for AsyncFactoryError {
    open spec fn obeys_from_spec() -> bool {
        true
    }

    closed spec fn from_spec(err: FactoryError) -> AsyncFactoryError {
        AsyncFactoryError { error: Some(err) }
    }
}

} // verus!
