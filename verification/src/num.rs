//! Decimal rendering and parsing of unsigned integers, and the four-digit
//! zero-padded ordinal prefix used by chapter file names.

use vstd::prelude::*;

verus! {

use crate::text::spec_is_digit;

/// Value of one digit byte.
pub open spec fn digit_val(b: u8) -> nat {
    if spec_is_digit(b) {
        (b - 48) as nat
    } else {
        0
    }
}

/// Canonical decimal digits of `n`, most significant first, no leading zeros.
pub open spec fn dec_digits(n: nat) -> Seq<u8>
    decreases n,
{
    if n < 10 {
        seq![(48 + n) as u8]
    } else {
        dec_digits(n / 10) + seq![(48 + n % 10) as u8]
    }
}

/// Numeric value of a digit string, most significant first.
pub open spec fn dec_val(s: Seq<u8>) -> nat
    decreases s.len(),
{
    if s.len() == 0 {
        0
    } else {
        dec_val(s.drop_last()) * 10 + digit_val(s.last())
    }
}

/// True when every byte of `s` is a decimal digit.
pub open spec fn all_digits(s: Seq<u8>) -> bool {
    forall|i: int| 0 <= i < s.len() ==> spec_is_digit(#[trigger] s[i])
}

pub open spec fn pow10(k: nat) -> nat
    decreases k,
{
    if k == 0 {
        1nat
    } else {
        10 * pow10((k - 1) as nat)
    }
}

pub proof fn lemma_dec_digits(n: nat)
    ensures
        dec_digits(n).len() >= 1,
        all_digits(dec_digits(n)),
        dec_val(dec_digits(n)) == n,
        dec_digits(n)[0] != 48 || n < 10,
    decreases n,
{
    if n < 10 {
        let s = dec_digits(n);
        assert(s.len() == 1);
        assert(s.last() == (48 + n) as u8);
        assert(s.drop_last().len() == 0);
        assert(dec_val(s.drop_last()) == 0);
        assert(dec_val(s) == digit_val(s.last()));
    } else {
        lemma_dec_digits(n / 10);
        let s = dec_digits(n);
        let h = dec_digits(n / 10);
        assert(s.drop_last() =~= h);
        assert(s.last() == (48 + n % 10) as u8);
        assert(dec_val(s) == dec_val(h) * 10 + n % 10);
        assert(n / 10 * 10 + n % 10 == n) by (nonlinear_arith);
        assert forall|i: int| 0 <= i < s.len() implies spec_is_digit(#[trigger] s[i]) by {
            if i < h.len() {
                assert(s[i] == h[i]);
            }
        }
        assert(s[0] == h[0]);
        assert(n / 10 >= 1);
    }
}

/// A nonempty digit string without a leading zero has value at least 1.
pub proof fn lemma_dec_val_lower_bound(s: Seq<u8>)
    requires
        s.len() >= 1,
        all_digits(s),
        s[0] != 48,
    ensures
        dec_val(s) >= 1,
    decreases s.len(),
{
    if s.len() == 1 {
        assert(dec_val(s.drop_last()) == 0);
    } else {
        let h = s.drop_last();
        assert(all_digits(h)) by {
            assert(forall|i: int| 0 <= i < h.len() ==> h[i] == s[i]);
        }
        lemma_dec_val_lower_bound(h);
        assert(dec_val(s) >= dec_val(h) * 10) by (nonlinear_arith)
            requires
                dec_val(s) == dec_val(h) * 10 + digit_val(s.last()),
        ;
        assert(dec_val(h) * 10 >= 10) by (nonlinear_arith)
            requires
                dec_val(h) >= 1,
        ;
    }
}

/// Canonical digit strings are uniquely readable: rendering the value of a
/// digit string without leading zeros gives the string back.
pub proof fn lemma_dec_canonical(s: Seq<u8>)
    requires
        s.len() >= 1,
        all_digits(s),
        s[0] != 48 || s.len() == 1,
    ensures
        dec_digits(dec_val(s)) == s,
    decreases s.len(),
{
    if s.len() == 1 {
        assert(s.drop_last().len() == 0);
        assert(dec_val(s.drop_last()) == 0);
        assert(dec_val(s) == digit_val(s[0]));
        assert(dec_digits(dec_val(s)) =~= s);
    } else {
        let h = s.drop_last();
        assert(all_digits(h)) by {
            assert(forall|i: int| 0 <= i < h.len() ==> h[i] == s[i]);
        }
        assert(h[0] == s[0]);
        lemma_dec_canonical(h);
        lemma_dec_val_lower_bound(h);
        let n = dec_val(s);
        assert(n == dec_val(h) * 10 + (s.last() - 48));
        assert(n >= 10) by (nonlinear_arith)
            requires
                n == dec_val(h) * 10 + (s.last() - 48),
                dec_val(h) >= 1,
                s.last() >= 48,
        ;
        assert(n / 10 == dec_val(h) && n % 10 == (s.last() - 48)) by (nonlinear_arith)
            requires
                n == dec_val(h) * 10 + (s.last() - 48),
                48 <= s.last() <= 57,
        ;
        assert(dec_digits(n) == dec_digits(dec_val(h)) + seq![(48 + n % 10) as u8]);
        assert(dec_digits(n) =~= s);
    }
}

/// Appending one digit multiplies the value by ten and adds the digit.
pub proof fn lemma_dec_val_push(s: Seq<u8>, d: u8)
    requires
        spec_is_digit(d),
    ensures
        dec_val(s.push(d)) == dec_val(s) * 10 + (d - 48),
{
    assert(s.push(d).drop_last() =~= s);
    assert(s.push(d).last() == d);
}

/// Extending a digit string never lowers its value.
pub proof fn lemma_dec_val_extend_ge(s: Seq<u8>, i: int)
    requires
        0 <= i <= s.len(),
    ensures
        dec_val(s) >= dec_val(s.take(i)),
    decreases s.len() - i,
{
    if i < s.len() {
        lemma_dec_val_extend_ge(s, i + 1);
        let t = s.take(i + 1);
        assert(t.drop_last() =~= s.take(i));
        assert(dec_val(t) >= dec_val(t.drop_last()) * 10) by (nonlinear_arith)
            requires
                dec_val(t) == dec_val(t.drop_last()) * 10 + digit_val(t.last()),
        ;
        assert(dec_val(t.drop_last()) * 10 >= dec_val(t.drop_last())) by (nonlinear_arith);
    } else {
        assert(s.take(i) =~= s);
    }
}

/// Value of a digit string written least-significant digit first.
pub open spec fn lsd_val(rev: Seq<u8>) -> nat
    decreases rev.len(),
{
    if rev.len() == 0 {
        0
    } else {
        digit_val(rev[0]) + 10 * lsd_val(rev.skip(1))
    }
}

proof fn lemma_lsd_val_push(rev: Seq<u8>, d: u8)
    ensures
        lsd_val(rev.push(d)) == lsd_val(rev) + digit_val(d) * pow10(rev.len()),
    decreases rev.len(),
{
    if rev.len() == 0 {
        assert(rev.push(d)[0] == d);
        assert(rev.push(d).skip(1) =~= Seq::<u8>::empty());
        assert(lsd_val(Seq::<u8>::empty()) == 0);
        assert(lsd_val(rev.push(d)) == digit_val(d) + 10 * 0);
        assert(lsd_val(rev) == 0);
        assert(pow10(0) == 1);
        assert(digit_val(d) * 1 == digit_val(d));
    } else {
        assert(rev.push(d).skip(1) =~= rev.skip(1).push(d));
        lemma_lsd_val_push(rev.skip(1), d);
        assert(rev.push(d)[0] == rev[0]);
        assert(lsd_val(rev.push(d)) == digit_val(rev[0]) + 10 * (lsd_val(rev.skip(1))
            + digit_val(d) * pow10(rev.skip(1).len())));
        assert(10 * (lsd_val(rev.skip(1)) + digit_val(d) * pow10(rev.skip(1).len())) == 10
            * lsd_val(rev.skip(1)) + digit_val(d) * (10 * pow10(rev.skip(1).len())))
            by (nonlinear_arith);
        assert(pow10(rev.len()) == 10 * pow10(rev.skip(1).len()));
        assert(lsd_val(rev) == digit_val(rev[0]) + 10 * lsd_val(rev.skip(1)));
    }
}

/// Reversing a least-significant-first digit string gives the usual
/// most-significant-first reading.
proof fn lemma_lsd_reverse(rev: Seq<u8>)
    ensures
        dec_val(rev.reverse()) == lsd_val(rev),
    decreases rev.len(),
{
    if rev.len() > 0 {
        let s = rev.reverse();
        assert(s.last() == rev[0]);
        assert(s.drop_last() =~= rev.skip(1).reverse());
        lemma_lsd_reverse(rev.skip(1));
    }
}

/// Renders `n` in decimal.
pub fn u64_to_dec(n: u64) -> (r: Vec<u8>)
    ensures
        r@ == dec_digits(n as nat),
{
    let mut rev: Vec<u8> = Vec::new();
    let mut m: u64 = n;
    if m == 0 {
        let mut r: Vec<u8> = Vec::new();
        r.push(48);
        assert(r@ =~= dec_digits(0));
        return r;
    }
    proof {
        assert(pow10(0) == 1);
        assert(lsd_val(rev@) == 0);
    }
    while m > 0
        invariant
            m > 0 || rev@.len() > 0,
            m == 0 ==> rev@.last() != 48,
            forall|i: int| 0 <= i < rev@.len() ==> spec_is_digit(#[trigger] rev@[i]),
            n as nat == lsd_val(rev@) + m as nat * pow10(rev@.len()),
        decreases m,
    {
        let d: u8 = 48 + (m % 10) as u8;
        proof {
            lemma_lsd_val_push(rev@, d);
            let k = rev@.len();
            assert(m as nat * pow10(k) == (m as nat % 10) * pow10(k) + (m as nat / 10) * (10
                * pow10(k))) by (nonlinear_arith);
            assert(pow10(k + 1) == 10 * pow10(k));
        }
        rev.push(d);
        m = m / 10;
    }
    let mut r: Vec<u8> = Vec::new();
    let mut i: usize = rev.len();
    while i > 0
        invariant
            i <= rev@.len(),
            r@ =~= rev@.subrange(i as int, rev@.len() as int).reverse(),
        decreases i,
    {
        i = i - 1;
        r.push(rev[i]);
        assert(r@ =~= rev@.subrange(i as int, rev@.len() as int).reverse());
    }
    proof {
        assert(rev@.subrange(0, rev@.len() as int) =~= rev@);
        assert(r@ =~= rev@.reverse());
        lemma_lsd_reverse(rev@);
        assert(pow10(rev@.len()) >= 0);
        assert(dec_val(r@) == n as nat);
        assert(all_digits(r@)) by {
            assert(forall|j: int| 0 <= j < r@.len() ==> r@[j] == rev@[r@.len() - 1 - j]);
        }
        assert(r@[0] == rev@[rev@.len() - 1]);
        lemma_dec_canonical(r@);
    }
    r
}

/// Parses a canonical decimal string: every byte a digit, no leading zero,
/// value within `u64`.
pub fn parse_u64(s: &[u8]) -> (r: Option<u64>)
    ensures
        match r {
            Some(v) => s@.len() >= 1 && all_digits(s@) && dec_val(s@) == v as nat && (
            s@[0] != 48 || s@.len() == 1),
            None => s@.len() == 0 || !all_digits(s@) || dec_val(s@) > u64::MAX || (s@[0]
                == 48 && s@.len() > 1),
        },
{
    if s.len() == 0 {
        return None;
    }
    if s[0] == 48 && s.len() > 1 {
        return None;
    }
    let mut acc: u64 = 0;
    let mut i: usize = 0;
    while i < s.len()
        invariant
            i <= s@.len(),
            forall|j: int| 0 <= j < i ==> spec_is_digit(#[trigger] s@[j]),
            acc as nat == dec_val(s@.take(i as int)),
        decreases s@.len() - i,
    {
        let b = s[i];
        if b < 48 || b > 57 {
            return None;
        }
        let d: u64 = (b - 48) as u64;
        proof {
            lemma_dec_val_push(s@.take(i as int), b);
            assert(s@.take(i as int).push(b) =~= s@.take(i + 1));
        }
        if acc > (u64::MAX - d) / 10 {
            proof {
                lemma_dec_val_extend_ge(s@, i + 1);
                assert(dec_val(s@.take(i + 1)) == acc as nat * 10 + d);
                assert(acc as nat * 10 + d > u64::MAX) by (nonlinear_arith)
                    requires
                        acc as nat > (u64::MAX - d as nat) / 10,
                        d <= 9,
                ;
            }
            return None;
        }
        acc = acc * 10 + d;
        i = i + 1;
    }
    proof {
        assert(s@.take(i as int) =~= s@);
    }
    Some(acc)
}

/// The four-digit zero-padded ordinal, for values below 10000.
pub open spec fn pad4(n: nat) -> Seq<u8> {
    seq![
        (48 + n / 1000 % 10) as u8,
        (48 + n / 100 % 10) as u8,
        (48 + n / 10 % 10) as u8,
        (48 + n % 10) as u8,
    ]
}

/// Distinct ordinals give distinct four-digit prefixes.
pub proof fn lemma_pad4_injective(a: nat, b: nat)
    requires
        a < 10000,
        b < 10000,
        pad4(a) == pad4(b),
    ensures
        a == b,
{
    assert(a / 1000 % 10 == b / 1000 % 10 && a / 100 % 10 == b / 100 % 10 && a / 10 % 10 == b
        / 10 % 10 && a % 10 == b % 10) by {
        assert(pad4(a)[0] == pad4(b)[0]);
        assert(pad4(a)[1] == pad4(b)[1]);
        assert(pad4(a)[2] == pad4(b)[2]);
        assert(pad4(a)[3] == pad4(b)[3]);
    }
    assert(a == a / 1000 % 10 * 1000 + a / 100 % 10 * 100 + a / 10 % 10 * 10 + a % 10)
        by (nonlinear_arith)
        requires
            a < 10000,
    ;
    assert(b == b / 1000 % 10 * 1000 + b / 100 % 10 * 100 + b / 10 % 10 * 10 + b % 10)
        by (nonlinear_arith)
        requires
            b < 10000,
    ;
}

/// Renders the four-digit ordinal prefix.
pub fn ordinal4(n: u32) -> (r: Vec<u8>)
    requires
        n < 10000,
    ensures
        r@ == pad4(n as nat),
        r@.len() == 4,
        all_digits(r@),
{
    let mut r: Vec<u8> = Vec::new();
    r.push(48 + ((n / 1000) % 10) as u8);
    r.push(48 + ((n / 100) % 10) as u8);
    r.push(48 + ((n / 10) % 10) as u8);
    r.push(48 + (n % 10) as u8);
    assert(r@ =~= pad4(n as nat));
    assert forall|i: int| 0 <= i < r@.len() implies spec_is_digit(#[trigger] r@[i]) by {
        assert(n / 1000 % 10 <= 9 && n / 100 % 10 <= 9 && n / 10 % 10 <= 9 && n % 10 <= 9);
    }
    r
}

/// A four-digit digit string is the padded rendering of its own value.
pub proof fn lemma_pad4_of_val(s: Seq<u8>)
    requires
        s.len() == 4,
        all_digits(s),
    ensures
        dec_val(s) < 10000,
        pad4(dec_val(s)) == s,
{
    let d0 = digit_val(s[0]);
    let d1 = digit_val(s[1]);
    let d2 = digit_val(s[2]);
    let d3 = digit_val(s[3]);
    let t3 = s.take(3);
    let t2 = s.take(2);
    let t1 = s.take(1);
    let t0 = s.take(0);
    assert(dec_val(s) == dec_val(t3) * 10 + d3) by {
        assert(s.drop_last() =~= t3);
        assert(s.last() == s[3]);
    }
    assert(dec_val(t3) == dec_val(t2) * 10 + d2) by {
        assert(t3.drop_last() =~= t2);
        assert(t3.last() == s[2]);
    }
    assert(dec_val(t2) == dec_val(t1) * 10 + d1) by {
        assert(t2.drop_last() =~= t1);
        assert(t2.last() == s[1]);
    }
    assert(dec_val(t1) == d0) by {
        assert(t1.len() == 1);
        assert(t1.drop_last() =~= t0);
        assert(t0.len() == 0);
        assert(dec_val(t0) == 0);
        assert(t1.last() == t1[0]);
        assert(t1[0] == s[0]);
    }
    let n = dec_val(s);
    assert(n == d0 * 1000 + d1 * 100 + d2 * 10 + d3 && n < 10000) by (nonlinear_arith)
        requires
            n == ((d0 * 10 + d1) * 10 + d2) * 10 + d3,
            d0 <= 9,
            d1 <= 9,
            d2 <= 9,
            d3 <= 9,
    ;
    assert(n / 1000 % 10 == d0 && n / 100 % 10 == d1 && n / 10 % 10 == d2 && n % 10 == d3)
        by (nonlinear_arith)
        requires
            n == d0 * 1000 + d1 * 100 + d2 * 10 + d3,
            d0 <= 9,
            d1 <= 9,
            d2 <= 9,
            d3 <= 9,
    ;
    assert(pad4(n) =~= s);
}

/// Reads a four-digit ordinal prefix.
pub fn parse_pad4(s: &[u8]) -> (r: Option<u32>)
    ensures
        match r {
            Some(v) => s@.len() >= 4 && v < 10000 && s@.take(4) == pad4(v as nat),
            None => s@.len() < 4 || !all_digits(s@.take(4)),
        },
{
    if s.len() < 4 {
        return None;
    }
    let mut v: u32 = 0;
    let mut i: usize = 0;
    while i < 4
        invariant
            i <= 4,
            s@.len() >= 4,
            v < 10000,
            forall|j: int| 0 <= j < i ==> spec_is_digit(#[trigger] s@[j]),
            v as nat == dec_val(s@.take(i as int)),
        decreases 4 - i,
    {
        let b = s[i];
        if b < 48 || b > 57 {
            proof {
                assert(s@.take(4)[i as int] == s@[i as int]);
            }
            return None;
        }
        proof {
            lemma_dec_val_push(s@.take(i as int), b);
            assert(s@.take(i as int).push(b) =~= s@.take(i + 1));
            lemma_dec_val_small(s@.take(i + 1));
        }
        v = v * 10 + (b - 48) as u32;
        i = i + 1;
    }
    proof {
        assert(all_digits(s@.take(4))) by {
            assert(forall|j: int| 0 <= j < 4 ==> s@.take(4)[j] == s@[j]);
        }
        lemma_pad4_of_val(s@.take(4));
    }
    Some(v)
}

/// A digit string of length at most 4 has value below 10000.
proof fn lemma_dec_val_small(s: Seq<u8>)
    requires
        s.len() <= 4,
        all_digits(s),
    ensures
        dec_val(s) < pow10(s.len()),
        dec_val(s) < 10000,
    decreases s.len(),
{
    if s.len() == 0 {
    } else {
        let h = s.drop_last();
        assert(all_digits(h)) by {
            assert(forall|i: int| 0 <= i < h.len() ==> h[i] == s[i]);
        }
        lemma_dec_val_small(h);
        assert(dec_val(s) < pow10(s.len())) by (nonlinear_arith)
            requires
                dec_val(s) == dec_val(h) * 10 + digit_val(s.last()),
                dec_val(h) < pow10(h.len()),
                digit_val(s.last()) <= 9,
                pow10(s.len()) == 10 * pow10(h.len()),
        ;
        assert(pow10(0) == 1);
        assert(pow10(1) == 10);
        assert(pow10(2) == 100);
        assert(pow10(3) == 1000);
        assert(pow10(4) == 10000);
    }
}

} // verus!
