use adaptive_balancer::scale::{check_and_scale, ScaleConfig, ScaleDecision, ScaleState};
use adaptive_balancer::worker::{Category, QueueItem};

fn item(name: &[u8], score_milli: i64, category: Category) -> QueueItem {
    QueueItem { dns_name: name.to_vec(), score_milli, category }
}

fn fleet(scores: &[i64]) -> Vec<QueueItem> {
    scores
        .iter()
        .enumerate()
        .map(|(i, &s)| item(format!("w{}", i).as_bytes(), s, Category::Mu))
        .collect()
}

#[test]
fn skipped_within_check_period() {
    let cfg = ScaleConfig::new_default(2);
    let st = ScaleState { cooldown_at: 0, last_check_at: 0 };
    let (d, st2, desired) = check_and_scale(&fleet(&[50_000]), 2, &st, &cfg, 5_000);
    assert!(matches!(d, ScaleDecision::Skipped));
    assert_eq!(st2, st);
    assert_eq!(desired, 2);
}

#[test]
fn scale_up_under_high_load() {
    let cfg = ScaleConfig::new_default(2);
    let st = ScaleState { cooldown_at: 0, last_check_at: 0 };
    // average score 30 < 55: high load
    let (d, st2, desired) = check_and_scale(&fleet(&[30_000, 30_000]), 2, &st, &cfg, 10_000);
    assert!(matches!(d, ScaleDecision::Up { add: 1 }));
    assert_eq!(st2.cooldown_at, 10_000);
    assert_eq!(desired, 3);
}

#[test]
fn scale_up_blocked_by_cooldown() {
    let cfg = ScaleConfig::new_default(2);
    // a scale action happened 1 s ago: the 5 s cooldown blocks another
    let st = ScaleState { cooldown_at: 9_000, last_check_at: 0 };
    let (d, st2, desired) = check_and_scale(&fleet(&[30_000, 30_000]), 2, &st, &cfg, 10_000);
    assert!(matches!(d, ScaleDecision::NoChange));
    assert_eq!(st2.cooldown_at, 9_000);
    assert_eq!(desired, 2);
}

#[test]
fn scale_up_rate_is_cooldown_bounded() {
    // with synthetic load swinging between saturation and idle, scale-ups
    // within one minute stay at or under 60 / cooldown-seconds = 12
    let cfg = ScaleConfig::new_default(1);
    let mut st = ScaleState { cooldown_at: 0, last_check_at: 0 };
    let mut desired = 1usize;
    let mut ups = 0u32;
    let mut now = 0u64;
    let mut high = true;
    while now < 60_000 {
        now += 500;
        let score = if high { 0 } else { 100_000 };
        high = !high;
        let f = fleet(&[score, score]);
        let (d, st2, des2) = check_and_scale(&f, desired, &st, &cfg, now);
        if matches!(d, ScaleDecision::Up { .. }) {
            ups += 1;
        }
        st = st2;
        desired = des2;
    }
    assert!(ups <= 12, "{} scale-ups in one minute", ups);
}

#[test]
fn critical_worker_forces_scale_up() {
    let cfg = ScaleConfig::new_default(2);
    let st = ScaleState { cooldown_at: 0, last_check_at: 0 };
    // average 60 is calm, but one worker below 20 is critical
    let (d, _, _) = check_and_scale(&fleet(&[10_000, 85_000, 85_000]), 3, &st, &cfg, 10_000);
    assert!(matches!(d, ScaleDecision::Up { add: 1 }));
}

#[test]
fn scale_down_under_low_load() {
    let cfg = ScaleConfig::new_default(2);
    let st = ScaleState { cooldown_at: 0, last_check_at: 0 };
    // average 85 > 80 and four active workers above the floor of two
    let (d, st2, desired) =
        check_and_scale(&fleet(&[85_000, 85_000, 85_000, 85_000]), 4, &st, &cfg, 10_000);
    assert!(matches!(d, ScaleDecision::Down { remove: 1 }));
    assert_eq!(st2.cooldown_at, 0);
    assert_eq!(desired, 3);
}

#[test]
fn scale_down_stops_at_the_floor() {
    let cfg = ScaleConfig::new_default(2);
    let st = ScaleState { cooldown_at: 0, last_check_at: 0 };
    let (d, _, desired) = check_and_scale(&fleet(&[85_000, 85_000]), 2, &st, &cfg, 10_000);
    assert!(matches!(d, ScaleDecision::NoChange));
    assert_eq!(desired, 2);
}

#[test]
fn scale_down_fires_at_the_ceiling() {
    // fifteen active workers (the ceiling) under low load: the fleet still
    // scales down toward the floor
    let cfg = ScaleConfig::new_default(2);
    let st = ScaleState { cooldown_at: 0, last_check_at: 0 };
    let full: Vec<i64> = vec![85_000; 15];
    let (d, _, desired) = check_and_scale(&fleet(&full), 15, &st, &cfg, 10_000);
    assert!(matches!(d, ScaleDecision::Down { remove: 1 }));
    assert_eq!(desired, 14);
}

#[test]
fn desired_is_always_clamped_into_bounds() {
    let cfg = ScaleConfig::new_default(2);
    let st = ScaleState { cooldown_at: 0, last_check_at: 0 };
    // a desired count below the floor comes back at the floor
    let (_, _, desired) = check_and_scale(&fleet(&[60_000, 60_000]), 0, &st, &cfg, 10_000);
    assert_eq!(desired, 2);
    // one above the ceiling comes back at the ceiling
    let (_, _, desired2) = check_and_scale(&fleet(&[60_000, 60_000]), 99, &st, &cfg, 10_000);
    assert_eq!(desired2, 15);
}

#[test]
fn empty_active_fleet_changes_nothing() {
    let cfg = ScaleConfig::new_default(2);
    let st = ScaleState { cooldown_at: 0, last_check_at: 0 };
    let sundown = vec![item(b"w0", 0, Category::Sundown)];
    let (d, _, desired) = check_and_scale(&sundown, 2, &st, &cfg, 10_000);
    assert!(matches!(d, ScaleDecision::NoChange));
    assert_eq!(desired, 2);
}
