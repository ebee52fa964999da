use dockrs::stats::header_row;
use dockrs::stats::StatsCache;
use dockrs::stats::StatsSnapshot;

fn sample(id: &str, name: &str) -> StatsSnapshot {
    StatsSnapshot {
        id: id.to_string(),
        name: name.to_string(),
        cpu_total: 1234,
        memory_usage: Some(2048),
        network_rx: None,
        block_read: Some(10),
        block_write: None,
    }
}

#[test]
fn test_stats_discovery_opens_empty_cells() {
    let mut cache = StatsCache::new();

    let first = cache.discover(&Vec::new());
    assert!(first.is_empty());
    assert!(cache.entries.is_empty());

    let second = cache.discover(&vec!["x".to_string()]);
    assert_eq!(second, vec!["x".to_string()]);
    assert_eq!(cache.entries.len(), 1);
    assert_eq!(cache.entries[0].id, "x");
    assert!(cache.entries[0].snapshot.is_none());
    assert!(cache.contains_id(&"x".to_string()));

    // No row is rendered before the first sample arrives.
    assert!(cache.render_rows().is_empty());
}

#[test]
fn test_stats_discovery_is_idempotent_per_id() {
    let mut cache = StatsCache::new();
    let listed = vec!["a".to_string(), "b".to_string()];

    let new_ids = cache.discover(&listed);
    assert_eq!(new_ids, listed);

    let again = cache.discover(&listed);
    assert!(again.is_empty());
    assert_eq!(cache.entries.len(), 2);
}

#[test]
fn test_stats_discovery_keeps_samples_of_known_containers() {
    let mut cache = StatsCache::new();
    cache.discover(&vec!["a".to_string()]);
    assert!(cache.record_sample(&"a".to_string(), sample("a", "web")));

    let new_ids = cache.discover(&vec!["a".to_string(), "b".to_string()]);

    assert_eq!(new_ids, vec!["b".to_string()]);
    assert!(cache.entries[0].snapshot.is_some());
    assert!(cache.entries[1].snapshot.is_none());
}

#[test]
fn test_record_sample_unknown_id_changes_nothing() {
    let mut cache = StatsCache::new();
    cache.discover(&vec!["a".to_string()]);

    assert!(!cache.record_sample(&"ghost".to_string(), sample("ghost", "none")));
    assert_eq!(cache.entries.len(), 1);
    assert!(cache.entries[0].snapshot.is_none());
}

#[test]
fn test_render_rows_exact_format() {
    let mut cache = StatsCache::new();
    cache.discover(&vec!["abc123".to_string()]);
    cache.record_sample(&"abc123".to_string(), sample("abc123", "web"));

    let rows = cache.render_rows();

    assert_eq!(rows, vec!["abc123\tweb\t1234\t2048\t-\t10/-".to_string()]);
}

#[test]
fn test_render_skips_empty_and_cleared_cells() {
    let mut cache = StatsCache::new();
    cache.discover(&vec!["a".to_string(), "b".to_string()]);
    cache.record_sample(&"a".to_string(), sample("a", "one"));

    // Only the populated cell renders; the empty one gives no blank row.
    let rows = cache.render_rows();
    assert_eq!(rows.len(), 1);
    assert!(rows[0].starts_with("a\t"));

    // Once the poller clears the cell, its row is gone, but the cell stays.
    assert!(cache.clear_sample(&"a".to_string()));
    assert!(cache.render_rows().is_empty());
    assert_eq!(cache.entries.len(), 2);
}

#[test]
fn test_stats_cache_keeps_cells_when_listing_shrinks() {
    let mut cache = StatsCache::new();
    cache.discover(&vec!["a".to_string(), "b".to_string()]);
    cache.record_sample(&"b".to_string(), sample("b", "db"));

    // A container that vanished from the listing keeps its cell; only its
    // poller's stream end clears the sample.
    let new_ids = cache.discover(&vec!["a".to_string()]);

    assert!(new_ids.is_empty());
    assert_eq!(cache.entries.len(), 2);
    assert!(cache.entries[1].snapshot.is_some());
}

#[test]
fn test_header_row() {
    assert_eq!(
        header_row(),
        "Container ID\tName\tCPU\tMemory\tNetwork\tBlock I/O"
    );
}
