use adaptive_balancer::dispatcher::DynamicWeightedBalancer;
use adaptive_balancer::worker::{Category, QueueItem};

fn item(name: &[u8], score_milli: i64, category: Category) -> QueueItem {
    QueueItem { dns_name: name.to_vec(), score_milli, category }
}

#[test]
fn empty_fleet_yields_none() {
    let b = DynamicWeightedBalancer::new(vec![], 0);
    assert!(b.next().is_none());
}

#[test]
fn single_candidate_is_returned() {
    let b = DynamicWeightedBalancer::new(vec![item(b"w1", 50_000, Category::Mu)], 0);
    let chosen = b.next().unwrap();
    assert_eq!(chosen.dns_name, b"w1".to_vec());
}

#[test]
fn sundown_is_never_selected() {
    let b = DynamicWeightedBalancer::new(
        vec![
            item(b"w1", 90_000, Category::Lu),
            item(b"w2", 100_000, Category::Sundown),
            item(b"w3", 10_000, Category::Hu),
        ],
        0,
    );
    assert_eq!(b.len(), 2);
    for _ in 0..2000 {
        let chosen = b.next().unwrap();
        assert_ne!(chosen.dns_name, b"w2".to_vec());
        assert!(!matches!(chosen.category, Category::Sundown));
    }
}

#[test]
fn all_sundown_fleet_yields_none() {
    let b = DynamicWeightedBalancer::new(vec![item(b"w1", 0, Category::Sundown)], 0);
    assert!(b.next().is_none());
}

#[test]
fn calculate_weight_values() {
    assert_eq!(DynamicWeightedBalancer::calculate_weight(90_000), 90_000);
    assert_eq!(DynamicWeightedBalancer::calculate_weight(0), 0);
    assert_eq!(DynamicWeightedBalancer::calculate_weight(100_000), 100_000);
    // out of range falls back to the default weight of one point
    assert_eq!(DynamicWeightedBalancer::calculate_weight(-1), 1000);
    assert_eq!(DynamicWeightedBalancer::calculate_weight(100_001), 1000);
}

#[test]
fn all_zero_weights_pick_uniformly() {
    let b = DynamicWeightedBalancer::new(
        vec![item(b"w1", 0, Category::Hu), item(b"w2", 0, Category::Hu)],
        0,
    );
    let mut seen1 = 0u32;
    let mut seen2 = 0u32;
    for _ in 0..1000 {
        let chosen = b.next().unwrap();
        if chosen.dns_name == b"w1".to_vec() {
            seen1 += 1;
        } else {
            seen2 += 1;
        }
    }
    assert!(seen1 > 0 && seen2 > 0);
}

#[test]
fn two_worker_split_matches_weights() {
    // scores 90 and 10: the strong worker takes about nine in ten requests
    let b = DynamicWeightedBalancer::new(
        vec![item(b"w1", 90_000, Category::Lu), item(b"w2", 10_000, Category::Hu)],
        0,
    );
    let mut hits_w1 = 0u32;
    for _ in 0..1000 {
        if b.next().unwrap().dns_name == b"w1".to_vec() {
            hits_w1 += 1;
        }
    }
    assert!(hits_w1 >= 850 && hits_w1 <= 950, "w1 hit {} of 1000", hits_w1);
}

#[test]
fn selection_frequency_converges_to_weights() {
    // weights 50/30/20 over 100_000 draws: each within 3% of its share
    let b = DynamicWeightedBalancer::new(
        vec![
            item(b"w1", 50_000, Category::Mu),
            item(b"w2", 30_000, Category::Hu),
            item(b"w3", 20_000, Category::Hu),
        ],
        0,
    );
    let draws = 100_000u32;
    let mut counts = [0u32; 3];
    for _ in 0..draws {
        let chosen = b.next().unwrap();
        if chosen.dns_name == b"w1".to_vec() {
            counts[0] += 1;
        } else if chosen.dns_name == b"w2".to_vec() {
            counts[1] += 1;
        } else {
            counts[2] += 1;
        }
    }
    let expected = [0.5f64, 0.3, 0.2];
    for i in 0..3 {
        let freq = counts[i] as f64 / draws as f64;
        assert!(
            (freq - expected[i]).abs() <= 0.03,
            "worker {} frequency {} expected {}",
            i,
            freq,
            expected[i]
        );
    }
}

#[test]
fn snapshot_replacement_filters_sundown() {
    let mut b = DynamicWeightedBalancer::new(vec![item(b"w1", 50_000, Category::Mu)], 0);
    b.set_queue_items(&vec![
        item(b"w2", 40_000, Category::Mu),
        item(b"w3", 70_000, Category::Sundown),
    ]);
    assert_eq!(b.len(), 1);
    assert_eq!(b.next().unwrap().dns_name, b"w2".to_vec());
    b.update_weights(20_000);
    assert_eq!(b.len(), 1);
}
