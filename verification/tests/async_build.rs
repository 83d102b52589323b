//! The asynchronous coordinator: needed-set marking, waves, concurrent
//! construction, and single-shot failure reporting.

use std::future::Future;
use std::sync::Arc;
use std::sync::Mutex;
use std::task::Poll;

use facet::AsyncCoordinator;
use facet::AsyncFactoryError;
use facet::Factory;
use facet::FactoryError;
use facet::UnitDescriptor;

fn unit(name: &str, deps: Vec<usize>) -> UnitDescriptor {
    UnitDescriptor { name: name.to_string(), deps, params: vec![] }
}

/// low has no dependencies, mid depends on low, high depends on mid.
fn chain_factory() -> Factory {
    Factory::new(vec![unit("low", vec![]), unit("mid", vec![0]), unit("high", vec![1])], 0)
        .unwrap()
}

/// a and b are independent; both feed c.
fn diamond_factory() -> Factory {
    Factory::new(vec![unit("a", vec![]), unit("b", vec![]), unit("c", vec![0, 1])], 0).unwrap()
}

#[test]
fn need_marks_transitive_dependencies() {
    let f = chain_factory();
    let mut coord: AsyncCoordinator<Arc<String>> = AsyncCoordinator::new(&f);
    coord.need(&f, 2);
    assert!(coord.is_needed(0));
    assert!(coord.is_needed(1));
    assert!(coord.is_needed(2));
}

#[test]
fn need_marks_only_the_subgraph() {
    let f = diamond_factory();
    let mut coord: AsyncCoordinator<Arc<String>> = AsyncCoordinator::new(&f);
    coord.need(&f, 0);
    assert!(coord.is_needed(0));
    assert!(!coord.is_needed(1));
    assert!(!coord.is_needed(2));
}

#[test]
fn marking_twice_is_a_no_op() {
    let f = chain_factory();
    let mut coord: AsyncCoordinator<Arc<String>> = AsyncCoordinator::new(&f);
    coord.need(&f, 2);
    let first_wave = coord.ready_units(&f);
    let needed_once: Vec<bool> = (0..f.len()).map(|u| coord.is_needed(u)).collect();
    coord.need(&f, 2);
    let needed_twice: Vec<bool> = (0..f.len()).map(|u| coord.is_needed(u)).collect();
    assert_eq!(needed_once, needed_twice);
    assert_eq!(first_wave, coord.ready_units(&f));
}

#[test]
fn waves_respect_dependencies() {
    let f = chain_factory();
    let mut coord: AsyncCoordinator<Arc<String>> = AsyncCoordinator::new(&f);
    coord.need(&f, 2);
    let mut wave_log: Vec<Vec<usize>> = Vec::new();
    loop {
        let wave = coord.ready_units(&f);
        if wave.is_empty() {
            break;
        }
        for &u in wave.iter() {
            let name = f.unit(u).name.clone();
            coord.record_success(&f, u, Arc::new(name));
        }
        wave_log.push(wave);
    }
    assert_eq!(wave_log, vec![vec![0], vec![1], vec![2]]);
    assert!(coord.all_built(&f));
    let cache = coord.into_cache(&f);
    assert_eq!(cache[2].as_ref().unwrap().as_str(), "high");
}

#[test]
fn independent_units_share_a_wave() {
    let f = diamond_factory();
    let mut coord: AsyncCoordinator<Arc<String>> = AsyncCoordinator::new(&f);
    coord.need(&f, 2);
    let wave = coord.ready_units(&f);
    // a and b have no dependency on each other, so nothing keeps either
    // out of the first wave: both may build concurrently.
    assert!(wave.contains(&0));
    assert!(wave.contains(&1));
    assert!(!wave.contains(&2));
}

/// A future that suspends once before completing, so that siblings in the
/// same wave interleave observably under a joining executor.
fn yield_once() -> impl Future<Output = ()> {
    let mut yielded = false;
    futures::future::poll_fn(move |cx| {
        if yielded {
            Poll::Ready(())
        } else {
            yielded = true;
            cx.waker().wake_by_ref();
            Poll::Pending
        }
    })
}

/// Drive the coordinator's waves with real concurrent futures; every unit
/// logs when it starts and when it finishes.
fn drive_logged(
    f: &Factory,
    coord: &mut AsyncCoordinator<Arc<String>>,
    fail_unit: Option<usize>,
    log: &Arc<Mutex<Vec<String>>>,
) {
    loop {
        if coord.has_failure() {
            return;
        }
        let wave = coord.ready_units(f);
        if wave.is_empty() {
            return;
        }
        let constructions = wave.iter().map(|&u| {
            let name = f.unit(u).name.clone();
            let log = log.clone();
            async move {
                log.lock().unwrap().push(format!("start {}", name));
                yield_once().await;
                log.lock().unwrap().push(format!("end {}", name));
                if fail_unit == Some(u) {
                    Err(anyhow::Error::msg("burst"))
                } else {
                    Ok(Arc::new(name))
                }
            }
        });
        let results = futures::executor::block_on(futures::future::join_all(constructions));
        for (u, outcome) in wave.into_iter().zip(results) {
            match outcome {
                Ok(v) => coord.record_success(f, u, v),
                Err(cause) => coord.record_failure(f, u, cause),
            }
        }
    }
}

#[test]
fn independent_constructions_overlap() {
    let f = diamond_factory();
    let mut coord: AsyncCoordinator<Arc<String>> = AsyncCoordinator::new(&f);
    coord.need(&f, 2);
    let log = Arc::new(Mutex::new(Vec::new()));
    drive_logged(&f, &mut coord, None, &log);
    assert!(coord.all_built(&f));
    let log = log.lock().unwrap();
    // Both independent units started before either finished.
    let started_b = log.iter().position(|e| e == "start b").unwrap();
    let ended_a = log.iter().position(|e| e == "end a").unwrap();
    assert!(started_b < ended_a);
    // The dependent unit started only after both of its dependencies ended.
    let started_c = log.iter().position(|e| e == "start c").unwrap();
    let ended_b = log.iter().position(|e| e == "end b").unwrap();
    assert!(ended_a < started_c);
    assert!(ended_b < started_c);
}

#[test]
fn async_failure_names_unit_and_keeps_cause() {
    let f = chain_factory();
    let mut coord: AsyncCoordinator<Arc<String>> = AsyncCoordinator::new(&f);
    coord.need(&f, 2);
    let log = Arc::new(Mutex::new(Vec::new()));
    drive_logged(&f, &mut coord, Some(1), &log);
    assert!(coord.has_failure());
    let FactoryError::FacetBuildFailed { name, source } = coord.take_failure();
    assert_eq!(name, "mid");
    assert_eq!(source.to_string(), "burst");
    assert!(!coord.has_failure());
    // The dependent of the failed unit never started.
    assert!(!log.lock().unwrap().iter().any(|e| e == "start high"));
}

#[test]
fn only_first_failure_is_kept() {
    let f = diamond_factory();
    let mut coord: AsyncCoordinator<Arc<String>> = AsyncCoordinator::new(&f);
    coord.need(&f, 2);
    coord.record_failure(&f, 0, anyhow::Error::msg("first"));
    coord.record_failure(&f, 1, anyhow::Error::msg("second"));
    let FactoryError::FacetBuildFailed { name, source } = coord.take_failure();
    assert_eq!(name, "a");
    assert_eq!(source.to_string(), "first");
}

#[test]
fn failure_slot_converts_and_reads_once() {
    let failure = FactoryError::FacetBuildFailed {
        name: "slotted".to_string(),
        source: anyhow::Error::msg("why"),
    };
    let slot = AsyncFactoryError::from(failure);
    let FactoryError::FacetBuildFailed { name, source } = slot.factory_error();
    assert_eq!(name, "slotted");
    assert_eq!(source.to_string(), "why");
}
