use adaptive_balancer::keys::{
    fresh_host_port, fresh_worker_name, generate_hash_based_key, init_record,
    is_container_complete, KvRecord,
};
use adaptive_balancer::worker::Category;

#[test]
fn container_key_is_prefixed_md5_hex() {
    let key = generate_hash_based_key(&b"app".to_vec(), &b"worker-1".to_vec());
    assert_eq!(
        String::from_utf8(key).unwrap(),
        "container:b74d774ccc36aeede94e43cf57766b00"
    );
    let key2 = generate_hash_based_key(&b"myapp".to_vec(), &b"worker-abcd1234".to_vec());
    assert_eq!(
        String::from_utf8(key2).unwrap(),
        "container:eddbcddb5b1ed2f3819ed668e6a16a52"
    );
}

#[test]
fn container_key_depends_on_both_parts() {
    let a = generate_hash_based_key(&b"app".to_vec(), &b"w1".to_vec());
    let b = generate_hash_based_key(&b"app".to_vec(), &b"w2".to_vec());
    let c = generate_hash_based_key(&b"other".to_vec(), &b"w1".to_vec());
    assert_ne!(a, b);
    assert_ne!(a, c);
}

#[test]
fn worker_names_are_prefixed_hex() {
    for _ in 0..20 {
        let name = fresh_worker_name();
        assert_eq!(name.len(), 15);
        assert_eq!(&name[..7], b"worker-");
        for &b in &name[7..] {
            assert!(b.is_ascii_hexdigit() && !b.is_ascii_uppercase(), "byte {}", b);
        }
    }
}

#[test]
fn host_ports_stay_in_range() {
    for _ in 0..200 {
        let p = fresh_host_port();
        assert!((30000..40000).contains(&p));
    }
}

#[test]
fn init_record_has_all_fields() {
    let r = init_record(31_234, b"img:latest".to_vec());
    assert!(is_container_complete(&r));
    assert!(matches!(r.category, Some(Category::Init)));
    assert_eq!(r.score_milli, Some(100_000));
    assert_eq!(r.port, Some(31_234));
    assert_eq!(r.image, Some(b"img:latest".to_vec()));
}

#[test]
fn incomplete_record_is_detected() {
    let r = KvRecord { category: Some(Category::Mu), score_milli: None, port: Some(1), image: None };
    assert!(!is_container_complete(&r));
    let r2 = KvRecord { category: None, score_milli: Some(0), port: Some(1), image: Some(vec![]) };
    assert!(!is_container_complete(&r2));
}
