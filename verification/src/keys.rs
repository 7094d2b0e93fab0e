//! Stable identities: the per-container KV key, fresh worker names and
//! ports, and the per-worker KV record.
use vstd::prelude::*;
use crate::worker::Category;

verus! {

/// Number of fields a complete KV record carries.
pub const KV_FIELD_COUNT: usize = 4;

/// Lowest host port drawn for a new worker.
pub const PORT_RANGE_START: u16 = 30000;

/// One past the highest host port drawn for a new worker.
pub const PORT_RANGE_END: u16 = 40000;

/// The score a new record starts with, in milli (100 points).
pub const INIT_SCORE_MILLI: i64 = 100_000;

/// What the md5 digest of a byte sequence is: a function of the input
/// alone, left uninterpreted.
pub uninterp spec fn md5_of(data: Seq<u8>) -> Seq<u8>;

/// Relies on md5::compute: the digest depends on the input bytes alone and
/// is sixteen bytes long.
#[verifier::external_body]
fn md5_digest(data: &Vec<u8>) -> (r: [u8; 16])
    ensures
        r@ == md5_of(data@),
{
    md5::compute(data.as_slice()).0
}

/// The lowercase hex digit for a value below sixteen.
pub open spec fn spec_hex_digit(n: int) -> u8 {
    if n < 10 {
        (48 + n) as u8
    } else {
        (87 + n) as u8
    }
}

/// Lowercase hex rendering of a byte sequence, two digits per byte.
pub open spec fn spec_hex(s: Seq<u8>) -> Seq<u8>
    decreases s.len(),
{
    if s.len() == 0 {
        Seq::<u8>::empty()
    } else {
        seq![spec_hex_digit(s[0] as int / 16), spec_hex_digit(s[0] as int % 16)] + spec_hex(s.drop_first())
    }
}

/// Hex rendering is two digits per byte.
pub proof fn lemma_hex_len(s: Seq<u8>)
    ensures
        spec_hex(s).len() == 2 * s.len(),
    decreases s.len(),
{
    if s.len() > 0 {
        lemma_hex_len(s.drop_first());
    }
}

/// Appending a byte appends its two digits.
pub proof fn lemma_hex_push(s: Seq<u8>, x: u8)
    ensures
        spec_hex(s.push(x)) == spec_hex(s) + seq![
            spec_hex_digit(x as int / 16),
            spec_hex_digit(x as int % 16),
        ],
    decreases s.len(),
{
    if s.len() == 0 {
        assert(s.push(x)[0] == x);
        assert(s.push(x).drop_first() =~= Seq::<u8>::empty());
        assert(spec_hex(Seq::<u8>::empty()) == Seq::<u8>::empty());
        assert(spec_hex(s.push(x)) =~= spec_hex(s) + seq![
            spec_hex_digit(x as int / 16),
            spec_hex_digit(x as int % 16),
        ]);
    } else {
        assert(s.push(x)[0] == s[0]);
        assert(s.push(x).drop_first() =~= s.drop_first().push(x));
        lemma_hex_push(s.drop_first(), x);
        assert(spec_hex(s.push(x)) =~= spec_hex(s) + seq![
            spec_hex_digit(x as int / 16),
            spec_hex_digit(x as int % 16),
        ]);
    }
}

/// Renders bytes as lowercase hex.
pub fn hex_encode(bytes: &[u8]) -> (r: Vec<u8>)
    ensures
        r@ == spec_hex(bytes@),
{
    let mut r: Vec<u8> = Vec::new();
    let mut i: usize = 0;
    proof {
        assert(bytes@.take(0) =~= Seq::<u8>::empty());
    }
    while i < bytes.len()
        invariant
            i <= bytes@.len(),
            r@ == spec_hex(bytes@.take(i as int)),
        decreases bytes@.len() - i,
    {
        let b = bytes[i];
        let hi = b / 16;
        let lo = b % 16;
        r.push(if hi < 10 {
            48 + hi
        } else {
            87 + hi
        });
        r.push(if lo < 10 {
            48 + lo
        } else {
            87 + lo
        });
        proof {
            assert(bytes@.take(i + 1) =~= bytes@.take(i as int).push(bytes@[i as int]));
            lemma_hex_push(bytes@.take(i as int), bytes@[i as int]);
            assert(r@ =~= spec_hex(bytes@.take(i + 1)));
        }
        i += 1;
    }
    proof {
        assert(bytes@.take(bytes@.len() as int) =~= bytes@);
    }
    r
}

/// The bytes of "container:".
pub open spec fn spec_key_prefix() -> Seq<u8> {
    seq![99u8, 111u8, 110u8, 116u8, 97u8, 105u8, 110u8, 101u8, 114u8, 58u8]
}

/// The KV key of a container: "container:" followed by the lowercase hex
/// md5 digest of "<app>:<name>".
pub open spec fn spec_container_key(app: Seq<u8>, name: Seq<u8>) -> Seq<u8> {
    spec_key_prefix() + spec_hex(md5_of(app + seq![58u8] + name))
}

/// Builds the stable KV key for a container of the application. The key is
/// always 42 bytes: the ten-byte prefix and thirty-two hex digits.
pub fn generate_hash_based_key(app_identifier: &Vec<u8>, container_name: &Vec<u8>) -> (r: Vec<u8>)
    ensures
        r@ == spec_container_key(app_identifier@, container_name@),
        r@.len() == 42,
{
    let mut data: Vec<u8> = Vec::new();
    crate::text::append_bytes(&mut data, app_identifier);
    data.push(58u8);
    crate::text::append_bytes(&mut data, container_name);
    proof {
        assert(data@ =~= app_identifier@ + seq![58u8] + container_name@);
    }
    let digest = md5_digest(&data);
    let hex = hex_encode(digest.as_slice());
    let mut r: Vec<u8> = Vec::new();
    r.push(99u8);
    r.push(111u8);
    r.push(110u8);
    r.push(116u8);
    r.push(97u8);
    r.push(105u8);
    r.push(110u8);
    r.push(101u8);
    r.push(114u8);
    r.push(58u8);
    proof {
        assert(r@ =~= spec_key_prefix());
    }
    crate::text::append_bytes(&mut r, &hex);
    proof {
        assert(digest@ == md5_of(data@));
        lemma_hex_len(digest@);
    }
    r
}

/// Whether a byte is a lowercase hex digit.
pub open spec fn spec_is_hex_char(b: u8) -> bool {
    (48 <= b <= 57) || (97 <= b <= 102)
}

/// Relies on uuid::Uuid::new_v4 and its hyphenated lowercase rendering:
/// the first eight characters are lowercase hex digits. The value is
/// random; two calls need not agree.
#[verifier::external_body]
fn fresh_uuid_prefix() -> (r: Vec<u8>)
    ensures
        r@.len() == 8,
        forall|i: int| 0 <= i < 8 ==> spec_is_hex_char(r@[i]),
{
    uuid::Uuid::new_v4().to_string().as_bytes()[..8].to_vec()
}

/// The bytes of "worker-".
pub open spec fn spec_worker_prefix() -> Seq<u8> {
    seq![119u8, 111u8, 114u8, 107u8, 101u8, 114u8, 45u8]
}

/// A fresh worker name: "worker-" followed by eight random lowercase hex
/// characters.
pub fn fresh_worker_name() -> (r: Vec<u8>)
    ensures
        r@.len() == 15,
        r@.take(7) == spec_worker_prefix(),
        forall|i: int| 7 <= i < 15 ==> spec_is_hex_char(r@[i]),
{
    let mut r: Vec<u8> = Vec::new();
    r.push(119u8);
    r.push(111u8);
    r.push(114u8);
    r.push(107u8);
    r.push(101u8);
    r.push(114u8);
    r.push(45u8);
    let ghost prefix = r@;
    let suffix = fresh_uuid_prefix();
    crate::text::append_bytes(&mut r, &suffix);
    proof {
        assert(r@.take(7) =~= spec_worker_prefix());
        assert(forall|i: int| 7 <= i < 15 ==> r@[i] == suffix@[i - 7]);
    }
    r
}

/// A fresh host port in the worker range.
pub fn fresh_host_port() -> (r: u16)
    ensures
        PORT_RANGE_START <= r < PORT_RANGE_END,
{
    let off = crate::rng::rand_below((PORT_RANGE_END - PORT_RANGE_START) as u128);
    PORT_RANGE_START + (off as u16)
}

/// The per-worker KV record; a field read back absent is `None`.
pub struct KvRecord {
    pub category: Option<Category>,
    pub score_milli: Option<i64>,
    pub port: Option<u16>,
    pub image: Option<Vec<u8>>,
}

/// Whether a record carries all four required fields: category, score,
/// port, image.
pub fn is_container_complete(record: &KvRecord) -> (r: bool)
    ensures
        r == (record.category is Some && record.score_milli is Some && record.port is Some
            && record.image is Some),
{
    record.category.is_some() && record.score_milli.is_some() && record.port.is_some()
        && record.image.is_some()
}

/// The record a newly created worker starts with: INIT, full score, its
/// port and image.
pub fn init_record(port: u16, image: Vec<u8>) -> (r: KvRecord)
    ensures
        r.category == Some(Category::Init),
        r.score_milli == Some(INIT_SCORE_MILLI),
        r.port == Some(port),
        r.image matches Some(img) && img@ == image@,
{
    KvRecord {
        category: Some(Category::Init),
        score_milli: Some(INIT_SCORE_MILLI),
        port: Some(port),
        image: Some(image),
    }
}

} // verus!
