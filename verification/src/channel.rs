//! The state-sync channel: the text payload that carries the worker fleet,
//! and the subscriber's reconnect backoff.
//!
//! A frame is one object per worker with the fields `dns_name`, `score`
//! and `utilization_category`, in a fixed canonical form: scores carry
//! exactly three decimal places, fields come in that order, and no
//! whitespace is added. The publisher emits exactly this form; the reader
//! accepts exactly this form and hands back the fleet it came from.
use vstd::prelude::*;
use crate::text::{append_bytes, dec_u64, spec_dec, spec_digits_value};
use crate::worker::{spec_category_label, Category, ItemModel, QueueItem};
use crate::dispatcher::QueueItemVecView;

verus! {

/// Seconds before the first reconnect attempt.
pub const INITIAL_RETRY_DELAY_S: u64 = 1;

/// Ceiling on the reconnect delay, in seconds.
pub const MAX_RETRY_DELAY_S: u64 = 60;

/// Seconds between two published frames.
pub const PUBLISH_INTERVAL_S: u64 = 2;

/// The delay after one more failed connection attempt: doubled, up to the
/// ceiling.
pub fn next_retry_delay(delay_s: u64) -> (r: u64)
    requires
        delay_s <= MAX_RETRY_DELAY_S,
    ensures
        r == (if 2 * delay_s > MAX_RETRY_DELAY_S {
            MAX_RETRY_DELAY_S as int
        } else {
            2 * delay_s
        }),
{
    if 2 * delay_s > MAX_RETRY_DELAY_S {
        MAX_RETRY_DELAY_S
    } else {
        2 * delay_s
    }
}

/// A control event on the channel.
pub enum Event {
    Echo { message: String },
}

/// The bytes of `{"dns_name":"`.
pub open spec fn spec_lit_open() -> Seq<u8> {
    seq![123u8, 34u8, 100u8, 110u8, 115u8, 95u8, 110u8, 97u8, 109u8, 101u8, 34u8, 58u8, 34u8]
}

/// The bytes of `","score":`.
pub open spec fn spec_lit_score() -> Seq<u8> {
    seq![34u8, 44u8, 34u8, 115u8, 99u8, 111u8, 114u8, 101u8, 34u8, 58u8]
}

/// The bytes of `,"utilization_category":"`.
pub open spec fn spec_lit_category() -> Seq<u8> {
    seq![
        44u8,
        34u8,
        117u8,
        116u8,
        105u8,
        108u8,
        105u8,
        122u8,
        97u8,
        116u8,
        105u8,
        111u8,
        110u8,
        95u8,
        99u8,
        97u8,
        116u8,
        101u8,
        103u8,
        111u8,
        114u8,
        121u8,
        34u8,
        58u8,
        34u8,
    ]
}

/// The bytes of `"}`.
pub open spec fn spec_lit_close() -> Seq<u8> {
    seq![34u8, 125u8]
}

/// A score in canonical decimal: optional minus, the whole points, a dot,
/// exactly three milli digits.
pub open spec fn spec_ser_score(m: int) -> Seq<u8> {
    let a = if m < 0 {
        -m
    } else {
        m
    };
    (if m < 0 {
        seq![45u8]
    } else {
        Seq::<u8>::empty()
    }) + spec_dec(a / 1000) + seq![46u8] + seq![
        (48 + (a % 1000) / 100) as u8,
        (48 + (a % 100) / 10) as u8,
        (48 + a % 10) as u8,
    ]
}

/// One worker object on the wire.
pub open spec fn spec_ser_item(it: ItemModel) -> Seq<u8> {
    spec_lit_open() + it.0 + spec_lit_score() + spec_ser_score(it.1) + spec_lit_category()
        + spec_category_label(it.2) + spec_lit_close()
}

/// The worker objects joined by commas.
pub open spec fn spec_ser_items(s: Seq<ItemModel>) -> Seq<u8>
    decreases s.len(),
{
    if s.len() == 0 {
        Seq::<u8>::empty()
    } else if s.len() == 1 {
        spec_ser_item(s[0])
    } else {
        spec_ser_items(s.drop_last()) + seq![44u8] + spec_ser_item(s.last())
    }
}

/// A whole frame: the fleet as an array of worker objects.
pub open spec fn spec_ser_fleet(s: Seq<ItemModel>) -> Seq<u8> {
    seq![91u8] + spec_ser_items(s) + seq![93u8]
}

/// Appends the canonical score rendering.
fn push_score(out: &mut Vec<u8>, m: i64)
    ensures
        final(out)@ == old(out)@ + spec_ser_score(m as int),
{
    let a: u64 = if m >= 0 {
        m as u64
    } else {
        (-(m as i128)) as u64
    };
    let ghost base = out@;
    if m < 0 {
        out.push(45u8);
    }
    let whole = dec_u64(a / 1000);
    append_bytes(out, &whole);
    out.push(46u8);
    let f: u64 = a % 1000;
    out.push(48 + ((f / 100) as u8));
    out.push(48 + (((a % 100) / 10) as u8));
    out.push(48 + ((a % 10) as u8));
    proof {
        assert(a as int == if (m as int) < 0 {
            -(m as int)
        } else {
            m as int
        });
        assert((a % 100) as int == (a as int % 1000) % 100);
        assert(out@ =~= base + spec_ser_score(m as int));
    }
}

/// Appends one worker object.
#[verifier::rlimit(60)]
fn push_item(out: &mut Vec<u8>, it: &QueueItem)
    ensures
        final(out)@ == old(out)@ + spec_ser_item(it@),
{
    let ghost base = out@;
    out.push(123u8);
    out.push(34u8);
    out.push(100u8);
    out.push(110u8);
    out.push(115u8);
    out.push(95u8);
    out.push(110u8);
    out.push(97u8);
    out.push(109u8);
    out.push(101u8);
    out.push(34u8);
    out.push(58u8);
    out.push(34u8);
    proof {
        assert(out@ =~= base + spec_lit_open());
    }
    append_bytes(out, &it.dns_name);
    let ghost b2 = out@;
    out.push(34u8);
    out.push(44u8);
    out.push(34u8);
    out.push(115u8);
    out.push(99u8);
    out.push(111u8);
    out.push(114u8);
    out.push(101u8);
    out.push(34u8);
    out.push(58u8);
    proof {
        assert(out@ =~= b2 + spec_lit_score());
    }
    push_score(out, it.score_milli);
    let ghost b3 = out@;
    out.push(44u8);
    out.push(34u8);
    out.push(117u8);
    out.push(116u8);
    out.push(105u8);
    out.push(108u8);
    out.push(105u8);
    out.push(122u8);
    out.push(97u8);
    out.push(116u8);
    out.push(105u8);
    out.push(111u8);
    out.push(110u8);
    out.push(95u8);
    out.push(99u8);
    out.push(97u8);
    out.push(116u8);
    out.push(101u8);
    out.push(103u8);
    out.push(111u8);
    out.push(114u8);
    out.push(121u8);
    out.push(34u8);
    out.push(58u8);
    out.push(34u8);
    proof {
        assert(out@ =~= b3 + spec_lit_category());
    }
    let label = crate::worker::category_label(it.category);
    append_bytes(out, &label);
    out.push(34u8);
    out.push(125u8);
    proof {
        assert(out@ =~= base + spec_ser_item(it@));
    }
}

/// Serializes the fleet into one canonical frame.
pub fn serialize_queue(items: &Vec<QueueItem>) -> (r: Vec<u8>)
    ensures
        r@ == spec_ser_fleet(items.deep_view_items()),
{
    let ghost s = items.deep_view_items();
    let mut out: Vec<u8> = Vec::new();
    out.push(91u8);
    proof {
        assert(s.take(0) =~= Seq::<ItemModel>::empty());
        assert(out@ =~= seq![91u8] + spec_ser_items(s.take(0)));
    }
    let mut i: usize = 0;
    while i < items.len()
        invariant
            i <= s.len(),
            items@.len() == s.len(),
            forall|j: int| 0 <= j < s.len() ==> s[j] == (#[trigger] items@[j])@,
            out@ == seq![91u8] + spec_ser_items(s.take(i as int)),
        decreases items@.len() - i,
    {
        let ghost oprev = out@;
        if i > 0 {
            out.push(44u8);
        }
        push_item(&mut out, &items[i]);
        proof {
            let t1 = s.take(i + 1);
            assert(t1.drop_last() =~= s.take(i as int));
            assert(t1.last() == s[i as int]);
            if i == 0 {
                assert(t1 =~= seq![s[0]]);
                assert(t1[0] == s[0]);
                assert(out@ =~= seq![91u8] + spec_ser_items(t1));
            } else {
                assert(spec_ser_items(t1) == spec_ser_items(s.take(i as int)) + seq![44u8]
                    + spec_ser_item(s[i as int]));
                assert(out@ =~= seq![91u8] + spec_ser_items(t1));
            }
        }
        i += 1;
    }
    out.push(93u8);
    proof {
        assert(s.take(s.len() as int) =~= s);
        assert(out@ =~= spec_ser_fleet(s));
    }
    out
}


/// Why a frame was rejected: the byte position that broke the form.
#[derive(Clone, Copy, Debug, PartialEq, Eq, Structural)]
pub struct ParseError {
    pub at: usize,
}

/// Consumes an exact literal; fails exactly when the literal is not there.
fn expect_lit(text: &Vec<u8>, p: usize, lit: &Vec<u8>) -> (r: Option<usize>)
    requires
        p <= text@.len(),
    ensures
        match r {
            Some(p2) => p2 == p + lit@.len() && p2 <= text@.len() && text@.subrange(
                p as int,
                p2 as int,
            ) == lit@,
            None => !(p + lit@.len() <= text@.len() && text@.subrange(
                p as int,
                p + lit@.len(),
            ) == lit@),
        },
{
    let n = text.len();
    if lit.len() > n - p {
        return None;
    }
    let mut i: usize = 0;
    while i < lit.len()
        invariant
            n == text@.len(),
            p + lit@.len() <= n,
            i <= lit@.len(),
            forall|j: int| 0 <= j < i ==> text@[p + j] == lit@[j],
        decreases lit@.len() - i,
    {
        if text[p + i] != lit[i] {
            proof {
                if text@.subrange(p as int, p + lit@.len()) == lit@ {
                    assert(text@.subrange(p as int, p + lit@.len())[i as int] == text@[p + i]);
                    assert(false);
                }
            }
            return None;
        }
        i += 1;
    }
    proof {
        assert(text@.subrange(p as int, (p + lit@.len()) as int) =~= lit@);
    }
    Some(p + lit.len())
}

/// Consumes bytes up to the next quote; fails exactly when no quote
/// follows.
fn scan_to_quote(text: &Vec<u8>, p: usize) -> (r: Option<(Vec<u8>, usize)>)
    requires
        p <= text@.len(),
    ensures
        match r {
            Some((name, p2)) => p <= p2 < text@.len() && text@[p2 as int] == 34 && name@ == text@
                .subrange(p as int, p2 as int) && (forall|j: int|
                0 <= j < name@.len() ==> #[trigger] name@[j] != 34),
            None => forall|j: int| p <= j < text@.len() ==> #[trigger] text@[j] != 34,
        },
{
    let n = text.len();
    let mut q: usize = p;
    let mut name: Vec<u8> = Vec::new();
    proof {
        assert(name@ =~= text@.subrange(p as int, p as int));
    }
    while q < n && text[q] != 34
        invariant
            n == text@.len(),
            p <= q <= n,
            name@ == text@.subrange(p as int, q as int),
            forall|j: int| 0 <= j < name@.len() ==> #[trigger] name@[j] != 34,
            forall|j: int| p <= j < q ==> #[trigger] text@[j] != 34,
        decreases n - q,
    {
        name.push(text[q]);
        proof {
            assert(text@.subrange(p as int, q + 1) =~= text@.subrange(p as int, q as int).push(
                text@[q as int],
            ));
        }
        q += 1;
    }
    if q == n {
        return None;
    }
    Some((name, q))
}

/// Reads a canonical score: optional minus, whole points without leading
/// zeros, a dot, exactly three digits; magnitude within the representable
/// range, and no minus on zero. On the canonical rendering of a score the
/// read always succeeds and gives that score back.
#[verifier::rlimit(100)]
fn parse_score(text: &Vec<u8>, p: usize, hint: Ghost<Option<i64>>) -> (r: Option<(i64, usize)>)
    requires
        p <= text@.len(),
        (hint@ matches Some(m) ==> p + spec_ser_score(m as int).len() <= text@.len() && text@
            .subrange(p as int, p + spec_ser_score(m as int).len()) == spec_ser_score(m as int)),
    ensures
        match r {
            Some((m, p2)) => p < p2 <= text@.len() && text@.subrange(p as int, p2 as int)
                == spec_ser_score(m as int),
            None => true,
        },
        (hint@ matches Some(m) ==> r == Some(
            (m, (p + spec_ser_score(m as int).len()) as usize),
        )),
{
    proof {
        match hint@ { Some(m) => {
            lemma_ser_score_shape(m as int, text@, p as int);
        }, None => {} }
    }
    let n = text.len();
    let mut q: usize = p;
    let mut neg = false;
    if q < n && text[q] == 45 {
        neg = true;
        q += 1;
    }
    proof {
        match hint@ { Some(m) => {
            assert(neg == ((m as int) < 0));
        }, None => {} }
    }
    let d0: usize = q;
    if !(q < n && 48 <= text[q] && text[q] <= 57) {
        proof {
            match hint@ {
                Some(m) => {
                    lemma_ser_score_shape(m as int, text@, p as int);
                    let a = spec_abs(m as int);
                    let sg = spec_sgn_len(m as int);
                    crate::text::lemma_dec_digits(a / 1000);
                    assert(d0 == p + sg);
                    assert(text@[p + sg + 0] == spec_dec(a / 1000)[0]);
                    assert(false);
                },
                None => {},
            }
        }
        return None;
    }
    let first = text[q];
    let mut whole: u64 = ((first - 48) as u64);
    q += 1;
    proof {
        assert(text@.subrange(d0 as int, q as int) =~= seq![text@[d0 as int]]);
        assert(spec_digits_value(Seq::<u8>::empty()) == 0);
        assert(seq![text@[d0 as int]].drop_last() =~= Seq::<u8>::empty());
        assert(whole == spec_digits_value(text@.subrange(d0 as int, q as int)));
        match hint@ { Some(m) => {
            let a = if (m as int) < 0 {
                -(m as int)
            } else {
                m as int
            };
            let dd = spec_dec(a / 1000);
            assert(text@.subrange(d0 as int, q as int) =~= dd.take(1));
        }, None => {} }
    }
    if first != 48 {
        while q < n && 48 <= text[q] && text[q] <= 57
            invariant
                n == text@.len(),
                d0 < q <= n,
                p <= d0,
                forall|j: int| d0 <= j < q ==> 48 <= #[trigger] text@[j] <= 57,
                text@[d0 as int] > 48,
                whole == spec_digits_value(text@.subrange(d0 as int, q as int)),
                whole < 100_000_000_000_000_000,
                (hint@ matches Some(m) ==> {
                    let dd = spec_dec(spec_abs(m as int) / 1000);
                    q - d0 <= dd.len() && text@.subrange(d0 as int, q as int) == dd.take(q - d0)
                        && p + spec_ser_score(m as int).len() <= text@.len() && text@.subrange(
                        p as int,
                        p + spec_ser_score(m as int).len(),
                    ) == spec_ser_score(m as int) && d0 == p + spec_sgn_len(m as int)
                }),
            decreases n - q,
        {
            proof {
                match hint@ { Some(m) => {
                    lemma_ser_score_shape(m as int, text@, p as int);
                    let a = if (m as int) < 0 {
                        -(m as int)
                    } else {
                        m as int
                    };
                    let dd = spec_dec(a / 1000);
                    crate::text::lemma_dec_digits(a / 1000);
                    let sg: int = if (m as int) < 0 {
                        1int
                    } else {
                        0int
                    };
                    assert(d0 == p + sg);
                    if q - d0 == dd.len() {
                        assert(text@[p + sg + dd.len()] == 46);
                        assert(p + sg + dd.len() == q as int);
                        assert(false);
                    }
                    assert(text@[p + sg + (q - d0)] == dd[q - d0]);
                    assert(p + sg + (q - d0) == q as int);
                    assert(text@[q as int] == dd[q - d0]);
                    vstd::arithmetic::div_mod::lemma_div_pos_is_pos(a, 1000);
                    crate::text::lemma_dec_round_trip(a / 1000);
                    crate::text::lemma_digits_prefix_le(dd, q - d0 + 1);
                    assert(text@.subrange(d0 as int, q + 1) =~= dd.take(q - d0 + 1));
                    assert(dd.take(q - d0 + 1).drop_last() =~= dd.take(q - d0));
                    assert(a / 1000 <= 9_223_372_036_854_775_808int / 1000) by (nonlinear_arith)
                        requires
                            0 <= a <= 9_223_372_036_854_775_808int,
                    ;
                }, None => {} }
            }
            if whole >= 10_000_000_000_000_000 {
                proof {
                    match hint@ { Some(m) => {
                        let a = if (m as int) < 0 {
                            -(m as int)
                        } else {
                            m as int
                        };
                        let dd = spec_dec(a / 1000);
                        crate::text::lemma_digits_prefix_le(dd, q - d0);
                        assert(false);
                    }, None => {} }
                }
                return None;
            }
            proof {
                let prefix = text@.subrange(d0 as int, q as int);
                assert(text@.subrange(d0 as int, q + 1) =~= prefix.push(text@[q as int]));
                assert(text@.subrange(d0 as int, q + 1).drop_last() =~= prefix);
            }
            whole = whole * 10 + ((text[q] - 48) as u64);
            q += 1;
        }
        proof {
            match hint@ { Some(m) => {
                lemma_ser_score_shape(m as int, text@, p as int);
                let a = if (m as int) < 0 {
                    -(m as int)
                } else {
                    m as int
                };
                let dd = spec_dec(a / 1000);
                crate::text::lemma_dec_digits(a / 1000);
                let sg: int = if (m as int) < 0 {
                    1int
                } else {
                    0int
                };
                assert(d0 == p + sg);
                if q - d0 < dd.len() {
                    assert(text@[p + sg + (q - d0)] == dd[q - d0]);
                    assert(p + sg + (q - d0) == q as int);
                    assert(q < n);
                    assert(false);
                }
                assert(q - d0 == dd.len());
            }, None => {} }
        }
    }
    let ghost dwhole = text@.subrange(d0 as int, q as int);
    proof {
        assert(dwhole.len() >= 1);
        assert(forall|j: int| 0 <= j < dwhole.len() ==> 48 <= #[trigger] dwhole[j] <= 57) by {
            assert(forall|j: int| d0 <= j < q ==> 48 <= #[trigger] text@[j] <= 57);
        }
        crate::text::lemma_dec_canonical(dwhole);
        assert(spec_dec(whole as int) == dwhole);
        match hint@ { Some(m) => {
            let a = if (m as int) < 0 {
                -(m as int)
            } else {
                m as int
            };
            let dd = spec_dec(a / 1000);
            if first == 48 {
                crate::text::lemma_dec_digits(a / 1000);
                if a / 1000 >= 1 {
                    crate::text::lemma_dec_no_leading_zero(a / 1000);
                    assert(text@[d0 as int] == dd[0]);
                    assert(false);
                }
                assert(dd =~= seq![48u8]);
                assert(dwhole =~= dd);
            } else {
                assert(dwhole =~= dd.take(q - d0));
                assert(dwhole =~= dd);
            }
            crate::text::lemma_dec_round_trip(a / 1000);
            assert(whole == a / 1000);
        }, None => {} }
    }
    if !(q < n && text[q] == 46) {
        proof {
            match hint@ { Some(m) => {
                lemma_ser_score_shape(m as int, text@, p as int);
                assert(false);
            }, None => {} }
        }
        return None;
    }
    q += 1;
    if n - q < 3 {
        proof {
            match hint@ { Some(m) => {
                lemma_ser_score_shape(m as int, text@, p as int);
                assert(false);
            }, None => {} }
        }
        return None;
    }
    let c2 = text[q];
    let c1 = text[q + 1];
    let c0 = text[q + 2];
    proof {
        match hint@ { Some(m) => {
            lemma_ser_score_shape(m as int, text@, p as int);
        }, None => {} }
    }
    if !(48 <= c2 && c2 <= 57 && 48 <= c1 && c1 <= 57 && 48 <= c0 && c0 <= 57) {
        proof {
            assert(hint@ is None);
        }
        return None;
    }
    let frac: u64 = ((c2 - 48) as u64) * 100 + ((c1 - 48) as u64) * 10 + ((c0 - 48) as u64);
    let p2: usize = q + 3;
    if whole > 9_223_372_036_854_775 {
        proof {
            match hint@ { Some(m) => {
                let a = if (m as int) < 0 {
                    -(m as int)
                } else {
                    m as int
                };
                assert(a / 1000 <= 9_223_372_036_854_775int) by (nonlinear_arith)
                    requires
                        0 <= a <= 9_223_372_036_854_775_808int,
                ;
                assert(false);
            }, None => {} }
        }
        return None;
    }
    let mag: u64 = whole * 1000 + frac;
    proof {
        match hint@ { Some(m) => {
            let a = if (m as int) < 0 {
                -(m as int)
            } else {
                m as int
            };
            let x = a % 1000;
            vstd::arithmetic::div_mod::lemma_fundamental_div_mod(a, 1000);
            assert(a % 100 == x % 100 && a % 10 == x % 10) by (nonlinear_arith)
                requires
                    a >= 0,
                    x == a % 1000,
            ;
            assert((x / 100) * 100 + ((x % 100) / 10) * 10 + x % 10 == x) by (nonlinear_arith)
                requires
                    0 <= x < 1000,
            ;
            assert(frac == x);
            assert(mag == a);
        }, None => {} }
    }
    if neg {
        if mag == 0 || mag > 9_223_372_036_854_775_808 {
            proof {
                match hint@ { Some(m) => {
                    assert(false);
                }, None => {} }
            }
            return None;
        }
    } else {
        if mag > 9_223_372_036_854_775_807 {
            proof {
                match hint@ { Some(m) => {
                    assert(false);
                }, None => {} }
            }
            return None;
        }
    }
    let m: i64 = if neg {
        (-(mag as i128)) as i64
    } else {
        mag as i64
    };
    proof {
        let a = if (m as int) < 0 {
            -(m as int)
        } else {
            m as int
        };
        assert(a == mag as int);
        assert(a / 1000 == whole as int && a % 1000 == frac as int) by (nonlinear_arith)
            requires
                a == (whole as int) * 1000 + (frac as int),
                0 <= frac < 1000,
                whole >= 0,
        ;
        assert((frac as int) / 100 == c2 - 48 && (frac as int) % 100 == (c1 - 48) * 10 + (c0 - 48))
            by (nonlinear_arith)
            requires
                frac as int == (c2 - 48) * 100 + (c1 - 48) * 10 + (c0 - 48),
                0 <= c2 - 48 <= 9,
                0 <= c1 - 48 <= 9,
                0 <= c0 - 48 <= 9,
        ;
        assert(a % 100 == (a % 1000) % 100) by (nonlinear_arith)
            requires
                a >= 0,
        ;
        assert(((c1 - 48) * 10 + (c0 - 48)) / 10 == c1 - 48 && ((c1 - 48) * 10 + (c0 - 48)) % 10
            == c0 - 48) by (nonlinear_arith)
            requires
                0 <= c1 - 48 <= 9,
                0 <= c0 - 48 <= 9,
        ;
        assert(a % 10 == (a % 100) % 10) by (nonlinear_arith)
            requires
                a >= 0,
        ;
        assert(text@.subrange(p as int, p2 as int) =~= spec_ser_score(m as int));
        match hint@ {
            Some(mh) => {
                assert(m == mh);
                assert(p2 == p + spec_ser_score(mh as int).len());
            },
            None => {},
        }
    }
    Some((m, p2))
}

/// Magnitude of a score.
pub open spec fn spec_abs(m: int) -> int {
    if m < 0 {
        -m
    } else {
        m
    }
}

/// How many bytes the sign takes.
pub open spec fn spec_sgn_len(m: int) -> int {
    if m < 0 {
        1int
    } else {
        0int
    }
}

/// The canonical score layout at an offset: with the rendering in place,
/// each region of the text is pinned — the optional sign, the no-leading-
/// zero whole digits, the dot, the three milli digits.
proof fn lemma_ser_score_shape(m: int, text: Seq<u8>, p: int)
    requires
        0 <= p,
        p + spec_ser_score(m).len() <= text.len(),
        text.subrange(p, p + spec_ser_score(m).len()) == spec_ser_score(m),
    ensures
        spec_ser_score(m).len() == spec_sgn_len(m) + spec_dec(spec_abs(m) / 1000).len() + 4,
        m < 0 ==> text[p] == 45,
        m >= 0 ==> 48 <= text[p] <= 57,
        forall|i: int|
            0 <= i < spec_dec(spec_abs(m) / 1000).len() ==> text[p + spec_sgn_len(m) + i]
                == #[trigger] spec_dec(spec_abs(m) / 1000)[i],
        text[p + spec_sgn_len(m) + spec_dec(spec_abs(m) / 1000).len()] == 46,
        text[p + spec_sgn_len(m) + spec_dec(spec_abs(m) / 1000).len() + 1] == (48 + (spec_abs(m)
            % 1000) / 100) as u8,
        text[p + spec_sgn_len(m) + spec_dec(spec_abs(m) / 1000).len() + 2] == (48 + (spec_abs(m)
            % 100) / 10) as u8,
        text[p + spec_sgn_len(m) + spec_dec(spec_abs(m) / 1000).len() + 3] == (48 + spec_abs(m)
            % 10) as u8,
        48 <= text[p + spec_sgn_len(m) + spec_dec(spec_abs(m) / 1000).len() + 1] <= 57,
        48 <= text[p + spec_sgn_len(m) + spec_dec(spec_abs(m) / 1000).len() + 2] <= 57,
        48 <= text[p + spec_sgn_len(m) + spec_dec(spec_abs(m) / 1000).len() + 3] <= 57,
{
    let a = spec_abs(m);
    let sg = spec_sgn_len(m);
    let dd = spec_dec(a / 1000);
    let ls = spec_ser_score(m);
    crate::text::lemma_dec_digits(a / 1000);
    assert forall|i: int| 0 <= i < ls.len() implies text[p + i] == #[trigger] ls[i] by {
        assert(text.subrange(p, p + ls.len())[i] == text[p + i]);
    }
    assert(m < 0 ==> ls[0] == 45);
    assert forall|i: int|
        0 <= i < dd.len() implies text[p + sg + i] == #[trigger] spec_dec(
        spec_abs(m) / 1000,
    )[i] by {
        assert(ls[sg + i] == dd[i]);
        assert(text[p + (sg + i)] == ls[sg + i]);
    }
    assert(ls[sg + dd.len()] == 46);
    assert(m >= 0 ==> ls[0] == dd[0]);
    assert(0 <= a % 1000 < 1000 && 0 <= a % 100 < 100 && 0 <= a % 10 < 10) by (nonlinear_arith)
        requires
            a >= 0,
    ;
    assert((a % 1000) / 100 <= 9 && (a % 100) / 10 <= 9) by (nonlinear_arith)
        requires
            0 <= a % 1000 < 1000,
            0 <= a % 100 < 100,
    ;
    assert(ls[sg + dd.len() + 1] == (48 + (a % 1000) / 100) as u8);
    assert(ls[sg + dd.len() + 2] == (48 + (a % 100) / 10) as u8);
    assert(ls[sg + dd.len() + 3] == (48 + a % 10) as u8);
}

/// No category label contains a quote, and no two categories share a
/// label.
proof fn lemma_labels_wf(c1: Category, c2: Category)
    ensures
        forall|i: int|
            0 <= i < spec_category_label(c1).len() ==> #[trigger] spec_category_label(c1)[i] != 34,
        c1 != c2 ==> spec_category_label(c1) != spec_category_label(c2),
{
    assert forall|i: int|
        0 <= i < spec_category_label(c1).len() implies #[trigger] spec_category_label(c1)[i]
        != 34 by {
        match c1 {
            Category::Init => {
                assert(spec_category_label(c1)[i] != 34);
            },
            Category::Lu => {
                assert(spec_category_label(c1)[i] != 34);
            },
            Category::Mu => {
                assert(spec_category_label(c1)[i] != 34);
            },
            Category::Hu => {
                assert(spec_category_label(c1)[i] != 34);
            },
            Category::Sundown => {
                assert(spec_category_label(c1)[i] != 34);
            },
        }
    }
    if c1 != c2 && spec_category_label(c1) == spec_category_label(c2) {
        assert(spec_category_label(c1).len() == spec_category_label(c2).len());
        assert(spec_category_label(c1)[0] == spec_category_label(c2)[0]);
        assert(false);
    }
}

/// Reads a category label. On the label of a category followed by a
/// quote, the read always succeeds and gives that category back.
fn parse_category(text: &Vec<u8>, p: usize, hint: Ghost<Option<Category>>) -> (r: Option<
    (Category, usize),
>)
    requires
        p <= text@.len(),
        (hint@ matches Some(c) ==> p + spec_category_label(c).len() < text@.len() && text@
            .subrange(p as int, p + spec_category_label(c).len()) == spec_category_label(c)
            && text@[p + spec_category_label(c).len()] == 34),
    ensures
        match r {
            Some((cat, p2)) => p <= p2 <= text@.len() && text@.subrange(p as int, p2 as int)
                == spec_category_label(cat),
            None => true,
        },
        (hint@ matches Some(c) ==> r == Some(
            (c, (p + spec_category_label(c).len()) as usize),
        )),
{
    proof {
        match hint@ {
            Some(c) => {
                lemma_labels_wf(c, c);
                let ll = spec_category_label(c).len();
                assert forall|j: int| p <= j < p + ll implies #[trigger] text@[j] != 34 by {
                    assert(text@.subrange(p as int, p + ll)[j - p] == text@[j]);
                    assert(spec_category_label(c)[j - p] != 34);
                }
            },
            None => {},
        }
    }
    let scanned = scan_to_quote(text, p);
    match scanned {
        Some((label, q)) => {
            proof {
                match hint@ {
                    Some(c) => {
                        let ll = spec_category_label(c).len();
                        if q < p + ll {
                            assert(text@.subrange(p as int, p + ll)[q - p] == text@[q as int]);
                            assert(spec_category_label(c)[q - p] != 34) by {
                                lemma_labels_wf(c, c);
                            }
                            assert(false);
                        }
                        if q > p + ll {
                            assert(text@.subrange(p as int, q as int)[ll as int] == text@[p
                                + ll]);
                            assert(label@[ll as int] != 34);
                            assert(false);
                        }
                        assert(q == p + ll);
                        assert(label@ =~= spec_category_label(c));
                    },
                    None => {},
                }
            }
            let cats: [Category; 5] = [
                Category::Init,
                Category::Lu,
                Category::Mu,
                Category::Hu,
                Category::Sundown,
            ];
            let mut ci: usize = 0;
            while ci < 5
                invariant
                    p <= q <= text@.len(),
                    label@ == text@.subrange(p as int, q as int),
                    cats@ =~= seq![
                        Category::Init,
                        Category::Lu,
                        Category::Mu,
                        Category::Hu,
                        Category::Sundown,
                    ],
                    (hint@ matches Some(c) ==> label@ == spec_category_label(c) && q == p
                        + spec_category_label(c).len()),
                    (hint@ matches Some(c) ==> forall|k: int|
                        0 <= k < ci ==> cats@[k] != c),
                decreases 5 - ci,
            {
                let cand = cats[ci];
                let lab = crate::worker::category_label(cand);
                if crate::worker::bytes_eq(&label, &lab) {
                    proof {
                        match hint@ {
                            Some(c) => {
                                lemma_labels_wf(cand, c);
                                assert(cand == c);
                            },
                            None => {},
                        }
                    }
                    return Some((cand, q));
                }
                ci += 1;
            }
            proof {
                match hint@ {
                    Some(c) => {
                        assert(cats@[0] != c && cats@[1] != c && cats@[2] != c && cats@[3] != c
                            && cats@[4] != c);
                        assert(false);
                    },
                    None => {},
                }
            }
            None
        },
        None => {
            proof {
                match hint@ {
                    Some(c) => {
                        assert(text@[p + spec_category_label(c).len()] == 34);
                        assert(false);
                    },
                    None => {},
                }
            }
            None
        },
    }
}

/// Builds the literal `{"dns_name":"`.
fn lit_open() -> (r: Vec<u8>)
    ensures
        r@ == spec_lit_open(),
{
    let r: Vec<u8> = vec![
        123u8, 34u8, 100u8, 110u8, 115u8, 95u8, 110u8, 97u8, 109u8, 101u8, 34u8, 58u8, 34u8,
    ];
    proof {
        assert(r@ =~= spec_lit_open());
    }
    r
}

/// Builds the literal `","score":`.
fn lit_score() -> (r: Vec<u8>)
    ensures
        r@ == spec_lit_score(),
{
    let r: Vec<u8> = vec![34u8, 44u8, 34u8, 115u8, 99u8, 111u8, 114u8, 101u8, 34u8, 58u8];
    proof {
        assert(r@ =~= spec_lit_score());
    }
    r
}

/// Builds the literal `,"utilization_category":"`.
fn lit_category() -> (r: Vec<u8>)
    ensures
        r@ == spec_lit_category(),
{
    let r: Vec<u8> = vec![
        44u8, 34u8, 117u8, 116u8, 105u8, 108u8, 105u8, 122u8, 97u8, 116u8, 105u8, 111u8, 110u8,
        95u8, 99u8, 97u8, 116u8, 101u8, 103u8, 111u8, 114u8, 121u8, 34u8, 58u8, 34u8,
    ];
    proof {
        assert(r@ =~= spec_lit_category());
    }
    r
}

/// Builds the literal `"}`.
fn lit_close() -> (r: Vec<u8>)
    ensures
        r@ == spec_lit_close(),
{
    let r: Vec<u8> = vec![34u8, 125u8];
    proof {
        assert(r@ =~= spec_lit_close());
    }
    r
}

/// The canonical worker-object layout at an offset: with the rendering in
/// place, each region of the text is pinned.
#[verifier::rlimit(100)]
proof fn lemma_ser_item_shape(it: ItemModel, text: Seq<u8>, p: int)
    requires
        0 <= p,
        p + spec_ser_item(it).len() <= text.len(),
        text.subrange(p, p + spec_ser_item(it).len()) == spec_ser_item(it),
    ensures
        spec_ser_item(it).len() == 13 + it.0.len() + 10 + spec_ser_score(it.1).len() + 25
            + spec_category_label(it.2).len() + 2,
        text.subrange(p, p + 13) == spec_lit_open(),
        text.subrange(p + 13, p + 13 + it.0.len()) == it.0,
        text.subrange(p + 13 + it.0.len(), p + 23 + it.0.len()) == spec_lit_score(),
        text.subrange(
            p + 23 + it.0.len(),
            p + 23 + it.0.len() + spec_ser_score(it.1).len(),
        ) == spec_ser_score(it.1),
        text.subrange(
            p + 23 + it.0.len() + spec_ser_score(it.1).len(),
            p + 48 + it.0.len() + spec_ser_score(it.1).len(),
        ) == spec_lit_category(),
        text.subrange(
            p + 48 + it.0.len() + spec_ser_score(it.1).len(),
            p + 48 + it.0.len() + spec_ser_score(it.1).len() + spec_category_label(it.2).len(),
        ) == spec_category_label(it.2),
        text.subrange(
            p + 48 + it.0.len() + spec_ser_score(it.1).len() + spec_category_label(it.2).len(),
            p + 50 + it.0.len() + spec_ser_score(it.1).len() + spec_category_label(it.2).len(),
        ) == spec_lit_close(),
{
    let ls = spec_ser_item(it);
    let n0 = it.0.len() as int;
    let sl = spec_ser_score(it.1).len() as int;
    let cl = spec_category_label(it.2).len() as int;
    assert(spec_lit_open().len() == 13);
    assert(spec_lit_score().len() == 10);
    assert(spec_lit_category().len() == 25);
    assert(spec_lit_close().len() == 2);
    assert(ls.len() == 50 + n0 + sl + cl);
    assert forall|i: int| 0 <= i < ls.len() implies text[p + i] == #[trigger] ls[i] by {
        assert(text.subrange(p, p + ls.len())[i] == text[p + i]);
    }
    assert forall|i: int| 0 <= i < n0 implies ls[13 + i] == #[trigger] it.0[i] by {
        assert((spec_lit_open() + it.0)[13 + i] == it.0[i]);
    }
    assert forall|i: int| 0 <= i < 10 implies ls[13 + n0 + i] == #[trigger] spec_lit_score()[i] by {
        assert((spec_lit_open() + it.0 + spec_lit_score())[13 + n0 + i] == spec_lit_score()[i]);
    }
    assert forall|i: int|
        0 <= i < sl implies ls[23 + n0 + i] == #[trigger] spec_ser_score(it.1)[i] by {
        assert((spec_lit_open() + it.0 + spec_lit_score() + spec_ser_score(it.1))[23 + n0 + i]
            == spec_ser_score(it.1)[i]);
    }
    assert forall|i: int|
        0 <= i < 25 implies ls[23 + n0 + sl + i] == #[trigger] spec_lit_category()[i] by {
        assert((spec_lit_open() + it.0 + spec_lit_score() + spec_ser_score(it.1)
            + spec_lit_category())[23 + n0 + sl + i] == spec_lit_category()[i]);
    }
    assert forall|i: int|
        0 <= i < cl implies ls[48 + n0 + sl + i] == #[trigger] spec_category_label(it.2)[i] by {
        assert((spec_lit_open() + it.0 + spec_lit_score() + spec_ser_score(it.1)
            + spec_lit_category() + spec_category_label(it.2))[48 + n0 + sl + i]
            == spec_category_label(it.2)[i]);
    }
    assert forall|i: int|
        0 <= i < 2 implies ls[48 + n0 + sl + cl + i] == #[trigger] spec_lit_close()[i] by {
        assert(ls[48 + n0 + sl + cl + i] == spec_lit_close()[i]);
    }
    assert(text.subrange(p, p + 13) =~= spec_lit_open());
    assert(text.subrange(p + 13, p + 13 + n0) =~= it.0);
    assert(text.subrange(p + 13 + n0, p + 23 + n0) =~= spec_lit_score());
    assert(text.subrange(p + 23 + n0, p + 23 + n0 + sl) =~= spec_ser_score(it.1));
    assert(text.subrange(p + 23 + n0 + sl, p + 48 + n0 + sl) =~= spec_lit_category());
    assert(text.subrange(p + 48 + n0 + sl, p + 48 + n0 + sl + cl) =~= spec_category_label(it.2));
    assert(text.subrange(p + 48 + n0 + sl + cl, p + 50 + n0 + sl + cl) =~= spec_lit_close());
}

/// Reads one worker object. On the canonical rendering of a record with a
/// quote-free name and a representable score, the read always succeeds and
/// gives that record back.
#[verifier::rlimit(100)]
fn parse_item(text: &Vec<u8>, p: usize, hint: Ghost<Option<ItemModel>>) -> (r: Option<
    (QueueItem, usize),
>)
    requires
        p <= text@.len(),
        (hint@ matches Some(it) ==> p + spec_ser_item(it).len() <= text@.len() && text@.subrange(
            p as int,
            p + spec_ser_item(it).len(),
        ) == spec_ser_item(it) && (forall|j: int| 0 <= j < it.0.len() ==> #[trigger] it.0[j] != 34)
            && i64::MIN <= it.1 <= i64::MAX),
    ensures
        match r {
            Some((v, p2)) => p < p2 <= text@.len() && text@.subrange(p as int, p2 as int)
                == spec_ser_item(v@),
            None => true,
        },
        (hint@ matches Some(it) ==> (r matches Some((v, p2)) && v@ == it && p2 == p
            + spec_ser_item(it).len())),
{
    proof {
        match hint@ {
            Some(it) => {
                lemma_ser_item_shape(it, text@, p as int);
            },
            None => {},
        }
    }
    let open = lit_open();
    let p1 = match expect_lit(text, p, &open) {
        Some(v) => v,
        None => {
            proof {
                assert(hint@ is None);
            }
            return None;
        },
    };
    proof {
        match hint@ {
            Some(it) => {
                let n0 = it.0.len() as int;
                assert forall|j: int| p1 <= j < p1 + n0 implies #[trigger] text@[j] != 34 by {
                    assert(text@.subrange(p + 13, p + 13 + n0)[j - p1] == text@[j]);
                    assert(it.0[j - p1] != 34);
                }
                assert(text@.subrange(p + 13 + n0, p + 23 + n0)[0] == text@[p1 + n0]);
                assert(text@[p1 + n0] == 34);
            },
            None => {},
        }
    }
    let (dns_name, p2) = match scan_to_quote(text, p1) {
        Some(v) => v,
        None => {
            proof {
                match hint@ {
                    Some(it) => {
                        assert(text@[p1 + it.0.len()] == 34);
                        assert(false);
                    },
                    None => {},
                }
            }
            return None;
        },
    };
    proof {
        match hint@ {
            Some(it) => {
                let n0 = it.0.len() as int;
                if p2 < p1 + n0 {
                    assert(text@.subrange(p1 as int, p2 as int)[p2 - p1 - 1 + 1 - 1] == text@[p2
                        - 1 + 1 - 1]);
                    assert(text@[p2 as int] != 34) by {
                        assert(p1 <= p2 < p1 + n0);
                    }
                    assert(false);
                }
                if p2 > p1 + n0 {
                    assert(text@.subrange(p1 as int, p2 as int)[n0] == text@[p1 + n0]);
                    assert(dns_name@[n0] != 34);
                    assert(false);
                }
                assert(p2 == p1 + n0);
                assert(dns_name@ =~= it.0);
            },
            None => {},
        }
    }
    let score_lit = lit_score();
    let p3 = match expect_lit(text, p2, &score_lit) {
        Some(v) => v,
        None => {
            proof {
                assert(hint@ is None);
            }
            return None;
        },
    };
    let ghost score_hint: Option<i64> = match hint@ {
        Some(it) => Some(it.1 as i64),
        None => None,
    };
    let (score_milli, p4) = match parse_score(text, p3, Ghost(score_hint)) {
        Some(v) => v,
        None => {
            proof {
                assert(hint@ is None);
            }
            return None;
        },
    };
    let cat_lit = lit_category();
    let p5 = match expect_lit(text, p4, &cat_lit) {
        Some(v) => v,
        None => {
            proof {
                assert(hint@ is None);
            }
            return None;
        },
    };
    let ghost cat_hint: Option<Category> = match hint@ {
        Some(it) => Some(it.2),
        None => None,
    };
    proof {
        match hint@ {
            Some(it) => {
                let off5 = p + 48 + it.0.len() + spec_ser_score(it.1).len();
                let cl = spec_category_label(it.2).len() as int;
                assert(p5 == off5);
                assert(text@.subrange(off5 + cl, off5 + cl + 2)[0] == text@[off5 + cl]);
                assert(text@[p5 + cl] == 34);
            },
            None => {},
        }
    }
    let (category, p6) = match parse_category(text, p5, Ghost(cat_hint)) {
        Some(v) => v,
        None => {
            proof {
                assert(hint@ is None);
            }
            return None;
        },
    };
    let close = lit_close();
    let p7 = match expect_lit(text, p6, &close) {
        Some(v) => v,
        None => {
            proof {
                assert(hint@ is None);
            }
            return None;
        },
    };
    let it = QueueItem { dns_name, score_milli, category };
    proof {
        assert(text@.subrange(p as int, p7 as int) =~= spec_ser_item(it@));
        match hint@ {
            Some(h) => {
                assert(it@.0 =~= h.0);
                assert(it@ == h);
            },
            None => {},
        }
    }
    Some((it, p7))
}

/// A record the channel can carry faithfully: a quote-free name and a
/// representable score.
pub open spec fn spec_item_wf(it: ItemModel) -> bool {
    (forall|j: int| 0 <= j < it.0.len() ==> #[trigger] it.0[j] != 34) && i64::MIN <= it.1
        <= i64::MAX
}

/// A fleet the channel can carry faithfully.
pub open spec fn spec_fleet_wf(s: Seq<ItemModel>) -> bool {
    forall|i: int| 0 <= i < s.len() ==> spec_item_wf(#[trigger] s[i])
}

/// The bytes the worker objects from position `j` on contribute to a
/// frame, separators included.
pub open spec fn spec_ser_tail(s: Seq<ItemModel>, j: int) -> Seq<u8>
    decreases s.len() - j,
{
    if j < 0 || j >= s.len() {
        Seq::<u8>::empty()
    } else {
        (if j > 0 {
            seq![44u8]
        } else {
            Seq::<u8>::empty()
        }) + spec_ser_item(s[j]) + spec_ser_tail(s, j + 1)
    }
}

/// One more worker extends the joined objects by a separator and that
/// worker's object.
proof fn lemma_ser_items_step(s: Seq<ItemModel>, j: int)
    requires
        0 <= j < s.len(),
    ensures
        spec_ser_items(s.take(j + 1)) == spec_ser_items(s.take(j)) + (if j > 0 {
            seq![44u8]
        } else {
            Seq::<u8>::empty()
        }) + spec_ser_item(s[j]),
{
    let t1 = s.take(j + 1);
    assert(t1.drop_last() =~= s.take(j));
    assert(t1.last() == s[j]);
    if j == 0 {
        assert(t1 =~= seq![s[0]]);
        assert(t1[0] == s[0]);
        assert(spec_ser_items(t1) =~= spec_ser_items(s.take(0)) + Seq::<u8>::empty()
            + spec_ser_item(s[0]));
    } else {
        assert(spec_ser_items(t1) =~= spec_ser_items(s.take(j)) + seq![44u8] + spec_ser_item(
            s[j],
        ));
    }
}

/// The joined objects split at any position into the first `j` objects and
/// the rest.
proof fn lemma_ser_split(s: Seq<ItemModel>, j: int)
    requires
        0 <= j <= s.len(),
    ensures
        spec_ser_items(s) == spec_ser_items(s.take(j)) + spec_ser_tail(s, j),
    decreases s.len() - j,
{
    if j == s.len() {
        assert(s.take(j) =~= s);
        assert(spec_ser_items(s) =~= spec_ser_items(s.take(j)) + spec_ser_tail(s, j));
    } else {
        lemma_ser_split(s, j + 1);
        lemma_ser_items_step(s, j);
        assert(spec_ser_items(s) =~= spec_ser_items(s.take(j)) + spec_ser_tail(s, j));
    }
}

/// A worker object takes at least fifty bytes.
proof fn lemma_ser_item_min_len(it: ItemModel)
    ensures
        spec_ser_item(it).len() >= 50,
        spec_ser_item(it)[0] == 123,
{
    assert(spec_lit_open().len() == 13);
    assert(spec_lit_score().len() == 10);
    assert(spec_lit_category().len() == 25);
    assert(spec_lit_close().len() == 2);
    assert(spec_ser_item(it)[0] == spec_lit_open()[0]);
}

/// Where the j-th worker object sits in a frame, and what follows it: a
/// comma before further objects, the closing bracket at the end.
proof fn lemma_frame_at(s: Seq<ItemModel>, text: Seq<u8>, j: int, p: int)
    requires
        text == spec_ser_fleet(s),
        0 <= j < s.len(),
        p == 1 + spec_ser_items(s.take(j)).len() + (if j > 0 {
            1int
        } else {
            0int
        }),
    ensures
        p + spec_ser_item(s[j]).len() + 1 <= text.len(),
        text.subrange(p, p + spec_ser_item(s[j]).len()) == spec_ser_item(s[j]),
        j + 1 < s.len() ==> p + spec_ser_item(s[j]).len() + 1 < text.len() && text[p
            + spec_ser_item(s[j]).len()] == 44,
        j + 1 == s.len() ==> p + spec_ser_item(s[j]).len() + 1 == text.len() && text[p
            + spec_ser_item(s[j]).len()] == 93,
        1 + spec_ser_items(s.take(j + 1)).len() == p + spec_ser_item(s[j]).len(),
{
    lemma_ser_split(s, j);
    lemma_ser_items_step(s, j);
    lemma_ser_item_min_len(s[j]);
    let li = spec_ser_item(s[j]).len() as int;
    let p2 = p + li;
    assert(spec_ser_tail(s, j) =~= (if j > 0 {
        seq![44u8]
    } else {
        Seq::<u8>::empty()
    }) + spec_ser_item(s[j]) + spec_ser_tail(s, j + 1));
    assert(text.len() == 2 + spec_ser_items(s).len());
    assert forall|i: int| 0 <= i < li implies text[p + i] == #[trigger] spec_ser_item(s[j])[i] by {
        assert(spec_ser_items(s)[p - 1 + i] == spec_ser_item(s[j])[i]);
        assert(text[p + i] == (seq![91u8] + spec_ser_items(s) + seq![93u8])[p + i]);
    }
    assert(text.subrange(p, p + li) =~= spec_ser_item(s[j]));
    lemma_ser_split(s, j + 1);
    if j + 1 < s.len() {
        lemma_ser_item_min_len(s[j + 1]);
        assert(spec_ser_tail(s, j + 1) =~= seq![44u8] + spec_ser_item(s[j + 1]) + spec_ser_tail(
            s,
            j + 2,
        ));
        assert(spec_ser_items(s)[p2 - 1] == 44);
        assert(text[p2] == (seq![91u8] + spec_ser_items(s) + seq![93u8])[p2]);
    } else {
        assert(spec_ser_tail(s, j + 1) =~= Seq::<u8>::empty());
        assert(spec_ser_items(s) =~= spec_ser_items(s.take(j + 1)));
        assert(text[p2] == (seq![91u8] + spec_ser_items(s) + seq![93u8])[p2]);
    }
}

/// Reads a whole frame. A returned fleet is exact: the input is, byte for
/// byte, the canonical serialization of that fleet. And success is owed:
/// the canonical frame of any fleet of quote-free names and representable
/// scores — every frame the publisher emits — is accepted. Anything else
/// is rejected with the position that broke the form.
#[verifier::rlimit(100)]
pub fn read_queue(text: &Vec<u8>) -> (r: Result<Vec<QueueItem>, ParseError>)
    ensures
        match r {
            Ok(v) => text@ == spec_ser_fleet(v.deep_view_items()),
            Err(_) => true,
        },
        (exists|s: Seq<ItemModel>| spec_fleet_wf(s) && text@ == spec_ser_fleet(s)) ==> r is Ok,
{
    let ghost hyp: Option<Seq<ItemModel>> = if (exists|s: Seq<ItemModel>|
        spec_fleet_wf(s) && text@ == spec_ser_fleet(s)) {
        Some(
            choose|s: Seq<ItemModel>| spec_fleet_wf(s) && text@ == spec_ser_fleet(s),
        )
    } else {
        None
    };
    let n = text.len();
    if n < 2 || text[0] != 91 {
        proof {
            match hyp {
                Some(s) => {
                    assert(text@.len() == 2 + spec_ser_items(s).len());
                    assert(text@[0] == (seq![91u8] + spec_ser_items(s))[0]);
                    assert(false);
                },
                None => {},
            }
        }
        return Err(ParseError { at: 0 });
    }
    let mut v: Vec<QueueItem> = Vec::new();
    if text[1] == 93 {
        if n == 2 {
            proof {
                assert(v.deep_view_items() =~= Seq::<ItemModel>::empty());
                assert(text@ =~= spec_ser_fleet(v.deep_view_items()));
            }
            return Ok(v);
        } else {
            proof {
                match hyp {
                    Some(s) => {
                        if s.len() == 0 {
                            assert(text@.len() == 2 + spec_ser_items(s).len());
                            assert(false);
                        } else {
                            lemma_ser_split(s, 0);
                            lemma_ser_item_min_len(s[0]);
                            assert(spec_ser_items(s.take(0)) =~= Seq::<u8>::empty());
                            assert(spec_ser_items(s) =~= spec_ser_tail(s, 0));
                            assert(spec_ser_tail(s, 0) =~= spec_ser_item(s[0]) + spec_ser_tail(
                                s,
                                1,
                            ));
                            assert(spec_ser_items(s)[0] == 123);
                            assert(text@[1] == (seq![91u8] + spec_ser_items(s))[1]);
                            assert(false);
                        }
                    },
                    None => {},
                }
            }
            return Err(ParseError { at: 2 });
        }
    }
    proof {
        match hyp {
            Some(s) => {
                if s.len() == 0 {
                    assert(text@.len() == 2 + spec_ser_items(s).len());
                    assert(text@[1] == (seq![91u8] + spec_ser_items(s) + seq![93u8])[1]);
                    assert(false);
                }
                assert(spec_ser_items(s.take(0)) =~= Seq::<u8>::empty());
            },
            None => {},
        }
    }
    let mut p: usize = 1;
    loop
        invariant
            n == text@.len(),
            text@[0] == 91,
            1 <= p <= n,
            v.deep_view_items().len() > 0 ==> text@.subrange(0, p as int) == seq![91u8]
                + spec_ser_items(v.deep_view_items()) + seq![44u8],
            v.deep_view_items().len() == 0 ==> p == 1,
            (exists|s: Seq<ItemModel>| spec_fleet_wf(s) && text@ == spec_ser_fleet(s)) ==> hyp
                is Some,
            (hyp matches Some(s) ==> {
                let j = v.deep_view_items().len() as int;
                &&& spec_fleet_wf(s)
                &&& text@ == spec_ser_fleet(s)
                &&& j < s.len()
                &&& v.deep_view_items() == s.take(j)
                &&& p == 1 + spec_ser_items(s.take(j)).len() + (if j > 0 {
                    1int
                } else {
                    0int
                })
            }),
        decreases n - p,
    {
        let ghost j = v.deep_view_items().len() as int;
        let ghost item_hint: Option<ItemModel> = match hyp {
            Some(s) => Some(s[j]),
            None => None,
        };
        proof {
            match hyp {
                Some(s) => {
                    lemma_frame_at(s, text@, j, p as int);
                    assert(spec_item_wf(s[j]));
                },
                None => {},
            }
        }
        let (it, p2) = match parse_item(text, p, Ghost(item_hint)) {
            Some(x) => x,
            None => {
                proof {
                    assert(hyp is None);
                }
                return Err(ParseError { at: p });
            },
        };
        let ghost models = v.deep_view_items();
        v.push(it);
        proof {
            assert(v.deep_view_items() =~= models.push(it@));
            let m2 = v.deep_view_items();
            assert(m2.drop_last() =~= models);
            assert(m2.last() == it@);
            assert(text@.subrange(0, p2 as int) =~= text@.subrange(0, p as int) + text@.subrange(
                p as int,
                p2 as int,
            ));
            if models.len() == 0 {
                assert(text@.subrange(0, 1) =~= seq![91u8]);
                assert(m2 =~= seq![it@]);
                assert(m2[0] == it@);
                assert(spec_ser_items(m2) == spec_ser_item(it@));
                assert(text@.subrange(0, p2 as int) =~= seq![91u8] + spec_ser_items(m2));
            } else {
                assert(spec_ser_items(m2) == spec_ser_items(models) + seq![44u8] + spec_ser_item(
                    it@,
                ));
                assert(text@.subrange(0, p2 as int) =~= seq![91u8] + spec_ser_items(m2));
            }
            match hyp {
                Some(s) => {
                    assert(it@ == s[j]);
                    assert(v.deep_view_items() =~= s.take(j + 1));
                    lemma_ser_items_step(s, j);
                    assert(p2 == 1 + spec_ser_items(s.take(j + 1)).len());
                },
                None => {},
            }
        }
        proof {
            match hyp {
                Some(s) => {
                    lemma_frame_at(s, text@, j, p as int);
                },
                None => {},
            }
        }
        if p2 < n && text[p2] == 44 {
            if p2 + 1 >= n {
                proof {
                    assert(hyp is None);
                }
                return Err(ParseError { at: p2 });
            }
            p = p2 + 1;
            proof {
                assert(text@.subrange(0, p as int) =~= text@.subrange(0, p2 as int)
                    + seq![44u8]);
                match hyp {
                    Some(s) => {
                        if j + 1 >= s.len() {
                            assert(false);
                        }
                    },
                    None => {},
                }
            }
        } else if p2 < n && text[p2] == 93 {
            if p2 + 1 == n {
                proof {
                    assert(text@.subrange(0, n as int) =~= text@);
                    assert(text@ =~= text@.subrange(0, p2 as int) + seq![93u8]);
                    assert(text@ =~= spec_ser_fleet(v.deep_view_items()));
                }
                return Ok(v);
            } else {
                proof {
                    assert(hyp is None);
                }
                return Err(ParseError { at: p2 + 1 });
            }
        } else {
            proof {
                assert(hyp is None);
            }
            return Err(ParseError { at: p2 });
        }
    }
}

} // verus!
