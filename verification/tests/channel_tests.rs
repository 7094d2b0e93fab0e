use adaptive_balancer::channel::{next_retry_delay, read_queue, serialize_queue};
use adaptive_balancer::worker::{Category, QueueItem};

fn item(name: &[u8], score_milli: i64, category: Category) -> QueueItem {
    QueueItem { dns_name: name.to_vec(), score_milli, category }
}

#[test]
fn serialize_one_worker_exactly() {
    let frame = serialize_queue(&vec![item(b"worker-1", 92_500, Category::Lu)]);
    assert_eq!(
        String::from_utf8(frame).unwrap(),
        r#"[{"dns_name":"worker-1","score":92.500,"utilization_category":"LU"}]"#
    );
}

#[test]
fn serialize_empty_fleet() {
    let frame = serialize_queue(&vec![]);
    assert_eq!(frame, b"[]".to_vec());
}

#[test]
fn serialize_two_workers_with_comma() {
    let frame = serialize_queue(&vec![
        item(b"a", 0, Category::Hu),
        item(b"b", 100_000, Category::Sundown),
    ]);
    let expected = r#"[{"dns_name":"a","score":0.000,"utilization_category":"HU"},{"dns_name":"b","score":100.000,"utilization_category":"SUNDOWN"}]"#;
    assert_eq!(String::from_utf8(frame).unwrap(), expected);
}

#[test]
fn serialize_negative_score() {
    let frame = serialize_queue(&vec![item(b"w", -500, Category::Hu)]);
    assert_eq!(
        String::from_utf8(frame).unwrap(),
        r#"[{"dns_name":"w","score":-0.500,"utilization_category":"HU"}]"#
    );
}

#[test]
fn frame_round_trip() {
    let fleet = vec![
        item(b"worker-abc", 92_500, Category::Lu),
        item(b"worker-def", 41_000, Category::Mu),
        item(b"worker-old", 0, Category::Sundown),
        item(b"worker-new", 100_000, Category::Init),
    ];
    let frame = serialize_queue(&fleet);
    let parsed = read_queue(&frame).unwrap();
    assert_eq!(parsed.len(), fleet.len());
    for (p, f) in parsed.iter().zip(fleet.iter()) {
        assert_eq!(p.dns_name, f.dns_name);
        assert_eq!(p.score_milli, f.score_milli);
        assert_eq!(p.category, f.category);
    }
}

#[test]
fn parse_empty_frame() {
    assert_eq!(read_queue(&b"[]".to_vec()).unwrap().len(), 0);
}

#[test]
fn parse_rejects_malformed_frames() {
    assert!(read_queue(&b"".to_vec()).is_err());
    assert!(read_queue(&b"{}".to_vec()).is_err());
    assert!(read_queue(&b"[".to_vec()).is_err());
    assert!(read_queue(&b"[]x".to_vec()).is_err());
    assert!(read_queue(&br#"[{"dns_name":"w","score":1.000,"utilization_category":"XX"}]"#.to_vec())
        .is_err());
    assert!(read_queue(&br#"[{"dns_name":"w","score":abc,"utilization_category":"LU"}]"#.to_vec())
        .is_err());
    // a trailing comma has no item behind it
    assert!(read_queue(&br#"[{"dns_name":"w","score":1.000,"utilization_category":"LU"},]"#
        .to_vec())
        .is_err());
}

#[test]
fn parse_reads_exact_scores() {
    let parsed = read_queue(
        &br#"[{"dns_name":"w","score":-12.345,"utilization_category":"HU"}]"#.to_vec(),
    )
    .unwrap();
    assert_eq!(parsed[0].score_milli, -12_345);
}

#[test]
fn reconnect_delay_doubles_to_the_cap() {
    assert_eq!(next_retry_delay(1), 2);
    assert_eq!(next_retry_delay(2), 4);
    assert_eq!(next_retry_delay(16), 32);
    assert_eq!(next_retry_delay(32), 60);
    assert_eq!(next_retry_delay(60), 60);
}
