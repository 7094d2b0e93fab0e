//! Byte-level text helpers: decimal rendering and parsing.
use vstd::prelude::*;

verus! {

/// The shortest decimal rendering of a non-negative number, as ASCII bytes.
pub open spec fn spec_dec(n: int) -> Seq<u8>
    decreases n,
{
    if n < 10 {
        seq![(48 + n) as u8]
    } else {
        spec_dec(n / 10).push((48 + n % 10) as u8)
    }
}

/// Renders a number in decimal.
pub fn dec_u64(n: u64) -> (r: Vec<u8>)
    ensures
        r@ == spec_dec(n as int),
    decreases n,
{
    if n < 10 {
        let mut v: Vec<u8> = Vec::new();
        v.push(48 + (n as u8));
        proof {
            assert(v@ =~= spec_dec(n as int));
        }
        v
    } else {
        let mut v = dec_u64(n / 10);
        v.push(48 + ((n % 10) as u8));
        v
    }
}

/// Decimal digits are ASCII digits, and the rendering is never empty.
pub proof fn lemma_dec_digits(n: int)
    requires
        n >= 0,
    ensures
        spec_dec(n).len() >= 1,
        forall|i: int| 0 <= i < spec_dec(n).len() ==> 48 <= #[trigger] spec_dec(n)[i] <= 57,
    decreases n,
{
    if n >= 10 {
        lemma_dec_digits(n / 10);
    }
}

/// The numeric value of a digit string (most significant first).
pub open spec fn spec_digits_value(s: Seq<u8>) -> int
    decreases s.len(),
{
    if s.len() == 0 {
        0
    } else {
        spec_digits_value(s.drop_last()) * 10 + (s.last() - 48)
    }
}

/// Appends all of `src` to `dst`.
pub fn append_bytes(dst: &mut Vec<u8>, src: &Vec<u8>)
    ensures
        final(dst)@ == old(dst)@ + src@,
{
    let mut i: usize = 0;
    proof {
        assert(dst@ =~= old(dst)@ + src@.take(0));
    }
    while i < src.len()
        invariant
            i <= src@.len(),
            dst@ == old(dst)@ + src@.take(i as int),
        decreases src@.len() - i,
    {
        dst.push(src[i]);
        proof {
            assert(old(dst)@ + src@.take(i + 1) =~= (old(dst)@ + src@.take(i as int)).push(
                src@[i as int],
            ));
        }
        i += 1;
    }
    proof {
        assert(src@.take(src@.len() as int) =~= src@);
    }
}


/// Digit strings read as non-negative numbers; without a leading zero the
/// number is positive.
pub proof fn lemma_digits_value_bounds(d: Seq<u8>)
    requires
        forall|i: int| 0 <= i < d.len() ==> 48 <= #[trigger] d[i] <= 57,
    ensures
        spec_digits_value(d) >= 0,
        d.len() >= 1 && d[0] > 48 ==> spec_digits_value(d) >= 1,
    decreases d.len(),
{
    if d.len() > 0 {
        let t = d.drop_last();
        assert(forall|i: int| 0 <= i < t.len() ==> t[i] == d[i]);
        lemma_digits_value_bounds(t);
        if d.len() > 1 && d[0] > 48 {
            assert(t[0] == d[0]);
            assert(spec_digits_value(t) >= 1);
        }
    }
}

/// A digit string in canonical form — nonempty, no leading zero unless it
/// is just "0" — is exactly the rendering of its value.
pub proof fn lemma_dec_canonical(d: Seq<u8>)
    requires
        d.len() >= 1,
        forall|i: int| 0 <= i < d.len() ==> 48 <= #[trigger] d[i] <= 57,
        d.len() > 1 ==> d[0] != 48,
    ensures
        spec_dec(spec_digits_value(d)) == d,
    decreases d.len(),
{
    lemma_digits_value_bounds(d);
    let v = spec_digits_value(d);
    if d.len() == 1 {
        assert(d.drop_last() =~= Seq::<u8>::empty());
        assert(spec_digits_value(Seq::<u8>::empty()) == 0);
        assert(v == d[0] - 48);
        assert(spec_dec(v) =~= d);
    } else {
        let t = d.drop_last();
        assert(forall|i: int| 0 <= i < t.len() ==> t[i] == d[i]);
        lemma_dec_canonical(t);
        lemma_digits_value_bounds(t);
        assert(t[0] == d[0]);
        assert(spec_digits_value(t) >= 1);
        assert(v == spec_digits_value(t) * 10 + (d.last() - 48));
        assert(v / 10 == spec_digits_value(t) && v % 10 == d.last() - 48) by (nonlinear_arith)
            requires
                v == spec_digits_value(t) * 10 + (d.last() - 48),
                0 <= d.last() - 48 <= 9,
                spec_digits_value(t) >= 0,
        ;
        assert(v >= 10) by (nonlinear_arith)
            requires
                v == spec_digits_value(t) * 10 + (d.last() - 48),
                spec_digits_value(t) >= 1,
                d.last() >= 48,
        ;
        assert(spec_dec(v) == spec_dec(v / 10).push((48 + v % 10) as u8));
        assert(spec_dec(v) =~= d);
    }
}


/// Reading back a rendering gives the number: digits-to-value inverts
/// rendering.
pub proof fn lemma_dec_round_trip(n: int)
    requires
        n >= 0,
    ensures
        spec_digits_value(spec_dec(n)) == n,
    decreases n,
{
    assert(spec_digits_value(Seq::<u8>::empty()) == 0);
    if n < 10 {
        assert(spec_dec(n).drop_last() =~= Seq::<u8>::empty());
        assert(spec_dec(n).last() == (48 + n) as u8);
    } else {
        lemma_dec_round_trip(n / 10);
        assert(spec_dec(n).drop_last() =~= spec_dec(n / 10));
        vstd::arithmetic::div_mod::lemma_fundamental_div_mod(n, 10);
    }
}

/// A rendering never starts with a zero digit unless the number is zero.
pub proof fn lemma_dec_no_leading_zero(n: int)
    requires
        n >= 1,
    ensures
        spec_dec(n)[0] > 48,
    decreases n,
{
    if n >= 10 {
        lemma_dec_no_leading_zero(n / 10);
        assert(spec_dec(n)[0] == spec_dec(n / 10)[0]);
    }
}

/// The value of a digit-string prefix never exceeds the whole string's.
pub proof fn lemma_digits_prefix_le(d: Seq<u8>, k: int)
    requires
        0 <= k <= d.len(),
        forall|i: int| 0 <= i < d.len() ==> 48 <= #[trigger] d[i] <= 57,
    ensures
        0 <= spec_digits_value(d.take(k)) <= spec_digits_value(d),
    decreases d.len() - k,
{
    assert(forall|i: int| 0 <= i < d.take(k).len() ==> 48 <= #[trigger] d.take(k)[i] <= 57);
    lemma_digits_value_bounds(d.take(k));
    if k < d.len() {
        lemma_digits_prefix_le(d, k + 1);
        assert(d.take(k + 1).drop_last() =~= d.take(k));
        assert(spec_digits_value(d.take(k + 1)) == spec_digits_value(d.take(k)) * 10 + (d[k]
            - 48));
        assert(spec_digits_value(d.take(k)) <= spec_digits_value(d.take(k)) * 10 + (d[k] - 48))
            by (nonlinear_arith)
            requires
                spec_digits_value(d.take(k)) >= 0,
                d[k] >= 48,
        ;
    } else {
        assert(d.take(k) =~= d);
    }
}

} // verus!
