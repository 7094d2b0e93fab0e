use adaptive_balancer::metrics::{
    calculate_availability_score, calculate_cpu_usage, calculate_memory_usage,
    calculate_network_usage, calculate_score, get_single_container_status, isqrt_u128,
    usage_to_score, ResponseTimeMetrics,
};
use adaptive_balancer::worker::{categorize_utilization, Category};

#[test]
fn cpu_usage_formula() {
    // 25% of the system delta on 2 CPUs: 50% -> 50_000 milli
    assert_eq!(calculate_cpu_usage(25, 100, 2), 50_000);
    assert_eq!(calculate_cpu_usage(0, 100, 2), 0);
    assert_eq!(calculate_cpu_usage(25, 0, 2), 0);
}

#[test]
fn memory_usage_formula() {
    assert_eq!(calculate_memory_usage(512, 1024), 50_000);
    assert_eq!(calculate_memory_usage(0, 1024), 0);
    assert_eq!(calculate_memory_usage(1024, 1024), 100_000);
}

#[test]
fn network_usage_formula() {
    // 2_000_000 bytes over 1 s: 2000 milli-MB/s
    let (pct, rate) = calculate_network_usage(0, 2_000_000, 1_000_000);
    assert_eq!(rate, 2000);
    assert_eq!(pct, 0); // no previous rate: no usage yet
    // rate grew from 2000 to 3000: 50% growth -> 50_000 milli
    let (pct2, rate2) = calculate_network_usage(2000, 3_000_000, 1_000_000);
    assert_eq!(rate2, 3000);
    assert_eq!(pct2, 50_000);
    // a shrinking rate clamps at zero
    let (pct3, _) = calculate_network_usage(3000, 1_000_000, 1_000_000);
    assert_eq!(pct3, 0);
}

#[test]
fn composite_score_formula() {
    // 0.35*80 + 0.25*60 + 0.15*100 + 0.25*40 = 68 points
    assert_eq!(calculate_score(80_000, 60_000, 100_000, 40_000), 68_000);
    // clamped at the bounds
    assert_eq!(calculate_score(-1_000_000, 0, 0, 0), 0);
    assert_eq!(calculate_score(100_000, 100_000, 100_000, 100_000), 100_000);
}

#[test]
fn categorize_thresholds() {
    assert!(matches!(categorize_utilization(70_000), Category::Lu));
    assert!(matches!(categorize_utilization(69_999), Category::Mu));
    assert!(matches!(categorize_utilization(40_000), Category::Mu));
    assert!(matches!(categorize_utilization(39_999), Category::Hu));
    assert!(matches!(categorize_utilization(0), Category::Hu));
}

#[test]
fn usage_to_score_inverts() {
    assert_eq!(usage_to_score(0), 100_000);
    assert_eq!(usage_to_score(30_000), 70_000);
    assert_eq!(usage_to_score(150_000), -50_000);
}

#[test]
fn isqrt_values() {
    assert_eq!(isqrt_u128(0), 0);
    assert_eq!(isqrt_u128(1), 1);
    assert_eq!(isqrt_u128(15), 3);
    assert_eq!(isqrt_u128(16), 4);
    assert_eq!(isqrt_u128(10_000_000_000), 100_000);
}

#[test]
fn availability_empty_history_scores_full() {
    let mut m = ResponseTimeMetrics::new();
    assert_eq!(m.calculate_availability_score(), 100_000);
}

#[test]
fn availability_steady_probe_keeps_full_score() {
    // one 1-second probe: effective == best, no penalty, no trend
    let mut m = ResponseTimeMetrics::new();
    m.add_measurement(1_000_000);
    assert_eq!(m.calculate_availability_score(), 100_000);
}

#[test]
fn availability_missed_probe_scores_zero() {
    let mut m = ResponseTimeMetrics::new();
    assert_eq!(calculate_availability_score(&mut m, None), 0);
}

#[test]
fn availability_degrading_probes_lower_the_score() {
    let mut m = ResponseTimeMetrics::new();
    m.add_measurement(100_000); // a fast best time
    let _ = m.calculate_availability_score();
    let mut score = 100_000;
    for _ in 0..10 {
        m.add_measurement(5_000_000); // then consistently slow
        score = m.calculate_availability_score();
    }
    assert!(score < 50_000, "score {} should have dropped", score);
}

#[test]
fn history_and_best_times_are_bounded() {
    let mut m = ResponseTimeMetrics::new();
    for i in 0..50u64 {
        m.add_measurement(1_000_000 - i * 1000);
    }
    // a sample cheaper than every earlier one is always a new best
    assert_eq!(m.calculate_average(), {
        // mean of the last 20 samples: 1_000_000 - (30..50)*1000
        let sum: u64 = (30..50).map(|i| 1_000_000 - i * 1000).sum();
        sum / 20
    });
}

#[test]
fn status_assembly() {
    let st = get_single_container_status(
        b"id1".to_vec(),
        b"worker-1".to_vec(),
        20_000,
        40_000,
        0,
        100_000,
    );
    assert_eq!(st.cpu_score_milli, 80_000);
    assert_eq!(st.memory_score_milli, 60_000);
    assert_eq!(st.network_score_milli, 100_000);
    // 0.35*80 + 0.25*60 + 0.15*100 + 0.25*100 = 83 points -> LU
    assert_eq!(st.overall_score_milli, 83_000);
    assert!(matches!(st.category, Category::Lu));
}
