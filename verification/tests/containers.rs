//! The container-side traits: assembling a container through a builder and
//! reaching its facets by reference and by shared handle.

use std::sync::Arc;

use facet::AsyncBuilderFor;
use facet::Buildable;
use facet::Builder;
use facet::FacetArc;
use facet::FacetRef;
use facet::FactoryError;

trait Greeter: Send + Sync {
    fn greet(&self) -> String;
}

struct Friendly;

impl Greeter for Friendly {
    fn greet(&self) -> String {
        "hello".to_string()
    }
}

struct GreeterContainer {
    greeter: Arc<dyn Greeter + Send + Sync>,
}

impl FacetRef<dyn Greeter + Send + Sync> for GreeterContainer {
    fn facet_ref(&self) -> &(dyn Greeter + Send + Sync + 'static) {
        self.greeter.as_ref()
    }
}

impl FacetArc<dyn Greeter + Send + Sync> for GreeterContainer {
    fn facet_arc(&self) -> Arc<dyn Greeter + Send + Sync> {
        self.greeter.clone()
    }
}

struct GreeterBuilder {
    fail: bool,
}

impl Builder<Arc<dyn Greeter + Send + Sync>> for GreeterBuilder {
    fn build(&mut self) -> Result<Arc<dyn Greeter + Send + Sync>, FactoryError> {
        if self.fail {
            Err(FactoryError::FacetBuildFailed {
                name: "greeter".to_string(),
                source: anyhow::Error::msg("grumpy"),
            })
        } else {
            Ok(Arc::new(Friendly))
        }
    }
}

impl Buildable<GreeterBuilder> for GreeterContainer {
    fn build(mut builder: GreeterBuilder) -> Result<GreeterContainer, FactoryError> {
        let greeter = Builder::build(&mut builder)?;
        Ok(GreeterContainer { greeter })
    }
}

#[test]
fn container_assembles_through_builder() {
    let container = GreeterContainer::build(GreeterBuilder { fail: false }).unwrap();
    assert_eq!(container.facet_ref().greet(), "hello");
    let handle = container.facet_arc();
    assert_eq!(handle.greet(), "hello");
    assert!(Arc::ptr_eq(&handle, &container.facet_arc()));
}

#[test]
fn container_build_propagates_failure() {
    match GreeterContainer::build(GreeterBuilder { fail: true }) {
        Err(FactoryError::FacetBuildFailed { name, .. }) => assert_eq!(name, "greeter"),
        Ok(_) => panic!("the failing builder must fail the container build"),
    }
}

/// A tiny hand-written asynchronous builder facade over one facet,
/// tracking what a generated builder would track per facet type.
struct SoloAsyncBuilder {
    needed: bool,
    built: Option<Arc<String>>,
}

impl AsyncBuilderFor<Arc<String>> for SoloAsyncBuilder {
    fn need(&mut self) {
        self.needed = true;
    }

    fn get(&self) -> Arc<String> {
        self.built.clone().expect("facet requested before it was built")
    }
}

#[test]
fn async_builder_marks_and_hands_out() {
    let mut builder = SoloAsyncBuilder { needed: false, built: None };
    AsyncBuilderFor::need(&mut builder);
    assert!(builder.needed);
    builder.built = Some(Arc::new("made".to_string()));
    assert_eq!(AsyncBuilderFor::get(&builder).as_str(), "made");
}
