use zcad_core::performance::Cache;
use zcad_core::performance::Lazy;
use zcad_core::performance::PerfStats;
use zcad_core::performance::PerfTimer;

#[test]
fn test_lazy() {
    let mut lazy: Lazy<i32, _> = Lazy::new(|| {
        println!("Initializing...");
        42
    });

    assert!(!lazy.is_initialized());
    assert_eq!(*lazy.get(), 42);
    assert!(lazy.is_initialized());
}

#[test]
fn test_cache() {
    let mut cache: Cache<&str, i32> = Cache::new(2);

    let a = *cache.get_or_insert("a", || 1);
    let b = *cache.get_or_insert("b", || 2);
    let c = *cache.get_or_insert("c", || 3);

    assert_eq!(a, 1);
    assert_eq!(b, 2);
    assert_eq!(c, 3);
}

#[test]
fn lazy_runs_the_initialiser_once() {
    let mut lazy: Lazy<i32, _> = Lazy::new(|| 7);
    assert_eq!(*lazy.get(), 7);
    *lazy.get_mut() = 9;
    assert_eq!(*lazy.get(), 9);
    assert!(lazy.is_initialized());
}

#[test]
fn cache_returns_stored_values_and_evicts_the_oldest() {
    let mut cache: Cache<u32, u32> = Cache::new(2);
    assert_eq!(*cache.get_or_insert(1, || 10), 10);
    // a repeated key returns the stored value, not a recomputed one
    assert_eq!(*cache.get_or_insert(1, || 99), 10);
    assert_eq!(*cache.get_or_insert(2, || 20), 20);
    assert_eq!(*cache.get_or_insert(3, || 30), 30);
    // key 1 was the oldest and left; recomputing stores a fresh value
    assert_eq!(*cache.get_or_insert(1, || 11), 11);
    cache.clear();
    assert_eq!(*cache.get_or_insert(2, || 21), 21);
}

#[test]
fn perf_stats_track_frames() {
    let mut stats = PerfStats::new();
    stats.record_frame(100);
    stats.record_frame(300);
    stats.record_frame(200);
    assert_eq!(stats.frame_count, 3);
    assert_eq!(stats.total_render_us, 600);
    assert_eq!(stats.max_frame_us, 300);
    stats.set_entity_count(42);
    stats.reset();
    assert_eq!(stats.frame_count, 0);
    assert_eq!(stats.total_render_us, 0);
    assert_eq!(stats.max_frame_us, 0);
    assert_eq!(stats.entity_count, 42);
}

#[test]
fn perf_timer_remembers_its_name() {
    let timer = PerfTimer::start("frame");
    assert_eq!(timer.name, "frame");
}
