//! Choosing the least loaded worker.
use smg::least_load::{counts_as_processed, select_worker, LoadCache, LoadReport, WorkerLoad};

fn scored(score: f64) -> WorkerLoad {
    WorkerLoad {
        healthy: true,
        score: if score.is_nan() {
            None
        } else {
            Some(score.to_bits())
        },
    }
}

fn report(url: &str, load: u64) -> LoadReport<u64> {
    LoadReport {
        url: url.to_string(),
        load,
    }
}

#[test]
fn picks_lowest_in_flight() {
    // No load reports -> pure in-flight; b (0) beats a (5).
    assert_eq!(select_worker(&[scored(5.0), scored(0.0)]), Some(1));
}

#[test]
fn kv_barrier_avoids_full_worker() {
    // a: 0 + 38 = 38 ; b: 1 + 0 = 1 -> pick b.
    let barrier = 2.0 * 0.95 / (1.0 - 0.95);
    assert_eq!(select_worker(&[scored(0.0 + barrier), scored(1.0)]), Some(1));
}

#[test]
fn single_worker_always_selected() {
    assert_eq!(select_worker(&[scored(f64::NAN)]), Some(0));
    assert_eq!(select_worker(&[scored(7.0)]), Some(0));
}

#[test]
fn remove_worker_prunes_cached_load() {
    let mut cache = LoadCache::new();
    cache.update_loads(vec![
        report("http://a:8000", 5),
        report("http://b:8000", 3),
    ]);
    assert_eq!(cache.len(), 2);

    // Removing a worker drops only its entry (no unbounded growth on churn).
    cache.remove_worker("http://a:8000");
    assert_eq!(cache.len(), 1);
    assert!(cache.get("http://a:8000").is_none());
    assert!(cache.get("http://b:8000").is_some());
}

#[test]
fn a_choice_counts_only_where_there_was_one() {
    let down = WorkerLoad {
        healthy: false,
        score: Some(0),
    };
    assert!(counts_as_processed(&[scored(5.0), scored(0.0)]));
    assert!(counts_as_processed(&[down, scored(5.0), down, scored(f64::NAN)]));
    assert!(!counts_as_processed(&[down, scored(5.0), down]));
    assert!(!counts_as_processed(&[down, down]));
    assert!(!counts_as_processed(&[]));
}

#[test]
fn the_first_of_equals_is_chosen() {
    assert_eq!(
        select_worker(&[scored(2.0), scored(1.0), scored(1.0)]),
        Some(1)
    );
}

#[test]
fn unhealthy_workers_are_passed_over() {
    let down = WorkerLoad {
        healthy: false,
        score: Some(0),
    };
    assert_eq!(select_worker(&[down, scored(3.0), down]), Some(1));
    assert_eq!(select_worker(&[down, down]), None);
    assert_eq!(select_worker(&[]), None);
}

#[test]
fn a_worker_without_a_score_is_not_displaced() {
    assert_eq!(select_worker(&[scored(f64::NAN), scored(0.0)]), Some(0));
    assert_eq!(select_worker(&[scored(9.0), scored(f64::NAN)]), Some(0));
}

#[test]
fn later_reports_replace_earlier_ones() {
    let mut cache = LoadCache::new();
    cache.update_loads(vec![report("a", 1), report("b", 2)]);
    cache.update_loads(vec![report("a", 3)]);
    assert_eq!(cache.get("a"), Some(&3));
    assert_eq!(cache.get("b"), Some(&2));
}
