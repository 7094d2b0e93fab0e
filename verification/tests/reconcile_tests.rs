use adaptive_balancer::keys::KvRecord;
use adaptive_balancer::reconcile::{
    build_queue, cleanup_orphaned_db_entries, fill_count, manage_containers,
    remove_inactive_sundown_containers, sort_fleet, ObservedContainer, StatusInfo,
};
use adaptive_balancer::scale::{ScaleConfig, ScaleDecision, ScaleState};
use adaptive_balancer::worker::{Category, QueueItem};

fn record(category: Category) -> KvRecord {
    KvRecord {
        category: Some(category),
        score_milli: Some(100_000),
        port: Some(31_000),
        image: Some(b"img".to_vec()),
    }
}

fn observed(name: &[u8], rec: Option<KvRecord>) -> ObservedContainer {
    ObservedContainer { name: name.to_vec(), key: [b"key-", name].concat(), record: rec }
}

fn status(name: &[u8], overall: i64, network: i64) -> StatusInfo {
    StatusInfo {
        name: name.to_vec(),
        overall_score_milli: overall,
        network_score_milli: network,
        category: adaptive_balancer::worker::categorize_utilization(overall),
    }
}

fn item(name: &[u8], score_milli: i64, category: Category) -> QueueItem {
    QueueItem { dns_name: name.to_vec(), score_milli, category }
}

#[test]
fn unrecorded_container_is_stopped() {
    let obs = vec![observed(b"w1", Some(record(Category::Mu))), observed(b"w2", None)];
    let (fleet, stops) = manage_containers(&obs);
    assert_eq!(fleet.len(), 1);
    assert_eq!(fleet[0].dns_name, b"w1".to_vec());
    assert_eq!(stops, vec![b"w2".to_vec()]);
}

#[test]
fn sundown_record_is_preserved() {
    let obs = vec![observed(b"w1", Some(record(Category::Sundown)))];
    let (fleet, _) = manage_containers(&obs);
    assert_eq!(fleet.len(), 1);
    assert!(matches!(fleet[0].category, Category::Sundown));
    assert_eq!(fleet[0].score_milli, 0);
}

#[test]
fn orphan_keys_are_reported() {
    let obs = vec![observed(b"w1", Some(record(Category::Mu)))];
    let keys = vec![b"key-w1".to_vec(), b"key-w9".to_vec()];
    let orphans = cleanup_orphaned_db_entries(&keys, &obs);
    assert_eq!(orphans, vec![b"key-w9".to_vec()]);
}

#[test]
fn cold_start_creates_to_the_desired_count() {
    // no containers at all, desired three: the tick generates three fresh
    // workers and publishes them at once as INIT
    let cfg = ScaleConfig::new_default(3);
    let st = ScaleState { cooldown_at: 0, last_check_at: 0 };
    let out = build_queue(&vec![], &vec![], &vec![], 3, &st, &cfg, 0);
    assert_eq!(out.created.len(), 3);
    assert_eq!(out.fleet.len(), 3);
    for (w, item) in out.created.iter().zip(out.fleet.iter()) {
        assert_eq!(&w.name[..7], b"worker-");
        assert!((30000..40000).contains(&w.host_port));
        assert_eq!(item.dns_name, w.name);
        assert!(matches!(item.category, Category::Init));
        assert_eq!(item.score_milli, 100_000);
    }
    assert!(out.stop_names.is_empty());
    assert!(out.orphan_keys.is_empty());
}

#[test]
fn fill_count_tops_up_only() {
    assert_eq!(fill_count(1, 3), 2);
    assert_eq!(fill_count(3, 3), 0);
    assert_eq!(fill_count(5, 3), 0);
}

#[test]
fn scoring_updates_category_but_not_init_or_sundown() {
    let obs = vec![
        observed(b"w1", Some(record(Category::Mu))),
        observed(b"w2", Some(record(Category::Init))),
        observed(b"w3", Some(record(Category::Sundown))),
    ];
    let sts = vec![status(b"w1", 30_000, 0), status(b"w2", 90_000, 0), status(b"w3", 90_000, 0)];
    let cfg = ScaleConfig::new_default(1);
    // evaluation gated off so only scoring shows
    let st = ScaleState { cooldown_at: 0, last_check_at: 0 };
    let out = build_queue(&obs, &vec![], &sts, 3, &st, &cfg, 1_000);
    // w3 is SUNDOWN with network score 0: not quiescent, stays; one fresh
    // worker tops the two active ones up to the desired three
    assert_eq!(out.created.len(), 1);
    assert_eq!(out.fleet.len(), 4);
    let w1 = out.fleet.iter().find(|i| i.dns_name == b"w1".to_vec()).unwrap();
    assert_eq!(w1.score_milli, 30_000);
    assert!(matches!(w1.category, Category::Hu));
    let w2 = out.fleet.iter().find(|i| i.dns_name == b"w2".to_vec()).unwrap();
    assert!(matches!(w2.category, Category::Init));
    assert_eq!(w2.score_milli, 100_000);
    let w3 = out.fleet.iter().find(|i| i.dns_name == b"w3".to_vec()).unwrap();
    assert!(matches!(w3.category, Category::Sundown));
}

#[test]
fn quiescent_sundown_is_removed() {
    let fleet = vec![
        item(b"w1", 50_000, Category::Mu),
        item(b"w2", 0, Category::Sundown),
        item(b"w3", 0, Category::Sundown),
    ];
    let sts = vec![
        status(b"w2", 0, 99_900), // idle network: quiescent
        status(b"w3", 0, 50_000), // still moving traffic: stays
    ];
    let (kept, removed) = remove_inactive_sundown_containers(fleet, &sts);
    assert_eq!(removed, vec![b"w2".to_vec()]);
    assert_eq!(kept.len(), 2);
}

#[test]
fn sundown_without_status_is_removed() {
    let fleet = vec![item(b"w1", 0, Category::Sundown)];
    let (kept, removed) = remove_inactive_sundown_containers(fleet, &vec![]);
    assert!(kept.is_empty());
    assert_eq!(removed, vec![b"w1".to_vec()]);
}

#[test]
fn fleet_sorts_active_by_score_with_sundown_last() {
    let fleet = vec![
        item(b"s1", 90_000, Category::Sundown),
        item(b"a1", 40_000, Category::Mu),
        item(b"a2", 80_000, Category::Lu),
        item(b"s2", 10_000, Category::Sundown),
        item(b"a3", 60_000, Category::Mu),
    ];
    let sorted = sort_fleet(fleet);
    let names: Vec<Vec<u8>> = sorted.iter().map(|i| i.dns_name.clone()).collect();
    assert_eq!(names[0], b"a2".to_vec());
    assert_eq!(names[1], b"a3".to_vec());
    assert_eq!(names[2], b"a1".to_vec());
    assert!(matches!(sorted[3].category, Category::Sundown));
    assert!(matches!(sorted[4].category, Category::Sundown));
}

#[test]
fn low_load_tick_marks_one_sundown_and_lowers_desired() {
    // four healthy workers far above the low-load mark, floor of two:
    // one worker is marked SUNDOWN and the desired count drops by one
    let obs = vec![
        observed(b"w1", Some(record(Category::Mu))),
        observed(b"w2", Some(record(Category::Mu))),
        observed(b"w3", Some(record(Category::Mu))),
        observed(b"w4", Some(record(Category::Mu))),
    ];
    let sts = vec![
        status(b"w1", 86_000, 0),
        status(b"w2", 85_000, 0),
        status(b"w3", 84_000, 0),
        status(b"w4", 83_000, 0),
    ];
    let cfg = ScaleConfig::new_default(2);
    let st = ScaleState { cooldown_at: 0, last_check_at: 0 };
    let out = build_queue(&obs, &vec![], &sts, 4, &st, &cfg, 10_000);
    assert!(matches!(out.decision, ScaleDecision::Down { remove: 1 }));
    assert_eq!(out.desired, 3);
    let sundowned: Vec<&QueueItem> =
        out.fleet.iter().filter(|i| matches!(i.category, Category::Sundown)).collect();
    assert_eq!(sundowned.len(), 1);
    // the victim is the highest-scoring worker
    assert_eq!(sundowned[0].dns_name, b"w1".to_vec());
    assert_eq!(out.sundown_names, vec![b"w1".to_vec()]);
    // the published order puts the SUNDOWN worker last
    assert!(matches!(out.fleet[3].category, Category::Sundown));
}

#[test]
fn settled_state_tick_issues_no_actions() {
    // observed matches KV, fleet covers the desired count, load in the
    // calm band: the tick decides nothing, twice in a row
    let obs = vec![
        observed(b"w1", Some(record(Category::Mu))),
        observed(b"w2", Some(record(Category::Mu))),
    ];
    let keys = vec![[b"key-".as_slice(), b"w1".as_slice()].concat(), b"key-w2".to_vec()];
    let sts = vec![status(b"w1", 70_000, 0), status(b"w2", 70_000, 0)];
    let cfg = ScaleConfig::new_default(2);
    let st = ScaleState { cooldown_at: 0, last_check_at: 0 };
    let out = build_queue(&obs, &keys, &sts, 2, &st, &cfg, 10_000);
    assert!(out.stop_names.is_empty());
    assert!(out.orphan_keys.is_empty());
    assert!(out.created.is_empty());
    assert!(out.removed_names.is_empty());
    assert!(out.sundown_names.is_empty());
    assert!(matches!(out.decision, ScaleDecision::NoChange));
    assert_eq!(out.desired, 2);
    // the second tick, with unchanged observations, is also a no-op
    let out2 = build_queue(&obs, &keys, &sts, out.desired, &out.state, &cfg, 20_000);
    assert!(out2.stop_names.is_empty());
    assert!(out2.orphan_keys.is_empty());
    assert!(out2.created.is_empty());
    assert!(out2.removed_names.is_empty());
    assert!(out2.sundown_names.is_empty());
    assert!(matches!(out2.decision, ScaleDecision::NoChange));
    assert_eq!(out2.desired, 2);
}
