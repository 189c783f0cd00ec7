use orderbook::latency::LatencyTracker;
use orderbook::rdtsc::rdtsc;

#[test]
fn test_latency_tracker_basic() {
    let mut tracker = LatencyTracker::new(100);

    // Record a simple operation
    let result = tracker.record(|| {
        let mut sum = 0;
        for i in 0..10 {
            sum += i;
        }
        sum
    });

    // Check that operation returned correct value
    assert_eq!(result, 45); // 0+1+2+...+9 = 45

    // Check that we recorded one sample
    assert_eq!(tracker.len(), 1);
    assert!(!tracker.is_empty());
}

#[test]
fn test_percentiles_calculation() {
    let mut tracker = LatencyTracker::new(1000);

    // Record 1000 operations with predictable latencies
    // We'll simulate latencies from 100 to 1099 cycles
    for i in 100..1100 {
        tracker.record(|| {
            // Simulate work by reading the counter multiple times
            // This creates artificial delay
            let start = rdtsc();
            let mut dummy = start;
            for _ in 0..i {
                dummy = dummy.wrapping_add(1);
            }
            // Use dummy to prevent optimization
            std::hint::black_box(dummy);
        });
    }

    // Calculate percentiles
    let stats = tracker.precentiles().expect("Should have percentiles");
    let mean = stats.total as f64 / stats.count as f64;

    // Basic sanity checks
    println!("Min: {}", stats.min);
    println!("p50 (median): {}", stats.p50);
    println!("p95: {}", stats.p95);
    println!("p99: {}", stats.p99);
    println!("p999: {}", stats.p999);
    println!("p9999: {}", stats.p9999);
    println!("Max: {}", stats.max);
    println!("Mean: {:.2}", mean);

    // Verify ordering: min <= p50 <= p95 <= p99 <= p999 <= p9999 <= max
    assert!(stats.min <= stats.p50);
    assert!(stats.p50 <= stats.p95);
    assert!(stats.p95 <= stats.p99);
    assert!(stats.p99 <= stats.p999);
    assert!(stats.p999 <= stats.p9999);
    assert!(stats.p9999 <= stats.max);

    // Verify we recorded all samples
    assert_eq!(tracker.len(), 1000);
}

#[test]
fn test_empty_tracker() {
    let mut tracker = LatencyTracker::new(10);

    // Empty tracker should return None
    assert!(tracker.precentiles().is_none());
    assert!(tracker.is_empty());
    assert_eq!(tracker.len(), 0);
}

#[test]
fn test_clear() {
    let mut tracker = LatencyTracker::new(10);

    // Record some operations
    for _ in 0..5 {
        tracker.record(|| 42);
    }

    assert_eq!(tracker.len(), 5);

    // Clear and verify
    tracker.clear();
    assert!(tracker.is_empty());
    assert_eq!(tracker.len(), 0);
}

#[test]
fn test_single_sample_percentiles() {
    let mut tracker = LatencyTracker::new(1);
    tracker.record(|| ());
    let stats = tracker.precentiles().expect("one sample suffices");
    // With one sample every percentile is that sample.
    assert_eq!(stats.min, stats.max);
    assert_eq!(stats.p50, stats.min);
    assert_eq!(stats.p9999, stats.min);
    assert_eq!(stats.count, 1);
    assert_eq!(stats.total, stats.min as u128);
}
