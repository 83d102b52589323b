//! A dependency-injection build engine.
//!
//! A *factory* declares a closed set of construction units (facets), each
//! with a stable name and declared dependencies on other units and on
//! caller-supplied external parameters.  The engine resolves the dependency
//! graph for a requested container, detects cycles at registration time,
//! builds every required unit exactly once per build session (synchronously
//! in topological order, or asynchronously in dependency-respecting waves),
//! and attributes a failed build to the unit whose construction failed.

pub mod container;
pub mod coordinator;
pub mod error;
pub mod graph;
pub mod resolve;
pub mod session;

pub use container::AsyncBuilderFor;
pub use container::Buildable;
pub use container::Builder;
pub use container::FacetArc;
pub use container::FacetRef;
pub use coordinator::AsyncCoordinator;
pub use error::AsyncFactoryError;
pub use error::FactoryError;
pub use graph::Factory;
pub use graph::FactoryConfigError;
pub use graph::UnitDescriptor;
pub use session::BuildRequestError;
pub use session::Construct;
