use vstd::prelude::*;
use vstd::utf8::encode_utf8;

verus! {

/// Decimal places of a price: prices are whole cents.
pub const PRICE_DECIMALS: usize = 2;

/// Decimal places of a quantity: quantities are whole units of 10^-8.
pub const QUANTITY_DECIMALS: usize = 8;

/// The byte of the decimal point.
pub const POINT: u8 = 46;

/// The byte of the digit zero.
pub const ZERO: u8 = 48;

pub open spec fn is_digit(b: u8) -> bool {
    ZERO <= b <= 57
}

pub open spec fn all_digits(s: Seq<u8>) -> bool {
    forall|i: int| 0 <= i < s.len() ==> is_digit(#[trigger] s[i])
}

/// The number that a run of decimal digits writes, most significant first.
pub open spec fn digits_value(s: Seq<u8>) -> nat
    decreases s.len(),
{
    if s.len() == 0 {
        0
    } else {
        digits_value(s.drop_last()) * 10 + (s.last() - ZERO) as nat
    }
}

pub open spec fn pow10(n: nat) -> nat
    decreases n,
{
    if n == 0 {
        1
    } else {
        10 * pow10((n - 1) as nat)
    }
}

/// The digits after the point, when the digits before it end at `k`.
pub open spec fn fraction(s: Seq<u8>, k: int) -> Seq<u8> {
    if k < s.len() {
        s.skip(k + 1)
    } else {
        Seq::empty()
    }
}

/// `s` is digits, then optionally a point and more digits, with at least
/// one digit in all and none but zeros more than `scale` places after the
/// point; the digits before the point end at `k`.
pub open spec fn decimal_shape(s: Seq<u8>, k: int, scale: nat) -> bool {
    &&& 0 <= k <= s.len()
    &&& all_digits(s.take(k))
    &&& (k == s.len() || (s[k] == POINT && all_digits(s.skip(k + 1))))
    &&& k + fraction(s, k).len() > 0
    &&& forall|i: int| scale <= i < fraction(s, k).len() ==> #[trigger] fraction(s, k)[i] == ZERO
}

/// The digits that carry the value: those before the point and at most
/// `scale` after it.
pub open spec fn kept_digits(s: Seq<u8>, k: int, scale: nat) -> Seq<u8> {
    let frac = fraction(s, k);
    if frac.len() <= scale {
        s.take(k) + frac
    } else {
        s.take(k) + frac.take(scale as int)
    }
}

/// The value of such an `s` in units of 10^-scale.
pub open spec fn scaled_value(s: Seq<u8>, k: int, scale: nat) -> nat {
    digits_value(kept_digits(s, k, scale)) * pow10(
        (scale + k - kept_digits(s, k, scale).len()) as nat,
    )
}

/// `s` writes the non-negative decimal `v` * 10^-scale exactly.
pub open spec fn reads_as(s: Seq<u8>, scale: nat, v: nat) -> bool {
    exists|k: int| decimal_shape(s, k, scale) && scaled_value(s, k, scale) == v
}

/// The value that `text` writes in units of 10^-scale, where it is a
/// decimal of that kind whose value fits in `u64`.
pub open spec fn fixed_of(text: Seq<u8>, scale: nat) -> Option<u64> {
    if exists|v: nat| reads_as(text, scale, v) && v <= u64::MAX {
        Some((choose|v: nat| reads_as(text, scale, v) && v <= u64::MAX) as u64)
    } else {
        None
    }
}

/// A text reads as one value at most.
pub proof fn lemma_reads_as_unique(s: Seq<u8>, scale: nat, v1: nat, v2: nat)
    requires
        reads_as(s, scale, v1),
        reads_as(s, scale, v2),
    ensures
        v1 == v2,
{
    let k1 = choose|k: int| decimal_shape(s, k, scale) && scaled_value(s, k, scale) == v1;
    let k2 = choose|k: int| decimal_shape(s, k, scale) && scaled_value(s, k, scale) == v2;
    lemma_shape_point(s, k2, scale, k1);
}

/// A digit run is worth at least any of its prefixes.
pub proof fn lemma_prefix_value(t: Seq<u8>, j: int)
    requires
        all_digits(t),
        0 <= j <= t.len(),
    ensures
        digits_value(t.take(j)) <= digits_value(t),
    decreases t.len(),
{
    if j < t.len() {
        let d = t.drop_last();
        assert(d.take(j) =~= t.take(j));
        assert(all_digits(d));
        lemma_prefix_value(d, j);
    } else {
        assert(t.take(j) =~= t);
    }
}

proof fn lemma_pow10_positive(n: nat)
    ensures
        pow10(n) >= 1,
    decreases n,
{
    if n > 0 {
        lemma_pow10_positive((n - 1) as nat);
    }
}

proof fn lemma_pow10_monotonic(a: nat, b: nat)
    requires
        a <= b,
    ensures
        pow10(a) <= pow10(b),
    decreases b,
{
    if a < b {
        lemma_pow10_monotonic(a, (b - 1) as nat);
        lemma_pow10_positive((b - 1) as nat);
    }
}

/// Where the digits before the point end is fixed by `s` alone.
proof fn lemma_shape_point(s: Seq<u8>, k: int, scale: nat, i: int)
    requires
        decimal_shape(s, k, scale),
        0 <= i <= s.len(),
        all_digits(s.take(i)),
        i == s.len() || !is_digit(s[i]),
    ensures
        k == i,
{
    if k < i {
        assert(s.take(i)[k] == s[k]);
    } else if k > i {
        assert(s.take(k)[i] == s[i]);
    }
}

/// A well-shaped `s` is worth at least any prefix of its kept digits.
proof fn lemma_value_above_prefix(s: Seq<u8>, k: int, scale: nat, j: int)
    requires
        decimal_shape(s, k, scale),
        0 <= j <= kept_digits(s, k, scale).len(),
    ensures
        digits_value(kept_digits(s, k, scale).take(j)) <= scaled_value(s, k, scale),
{
    let d = kept_digits(s, k, scale);
    let frac = fraction(s, k);
    assert(all_digits(d)) by {
        assert forall|x: int| 0 <= x < d.len() implies is_digit(#[trigger] d[x]) by {
            if x < k {
                assert(s.take(k)[x] == d[x]);
            } else {
                assert(d[x] == frac[x - k]);
                assert(frac[x - k] == s[x + 1]);
                assert(s.skip(k + 1)[x - k] == s[x + 1]);
            }
        }
    }
    lemma_prefix_value(d, j);
    let e = (scale + k - d.len()) as nat;
    lemma_pow10_positive(e);
    let dv = digits_value(d);
    let pe = pow10(e);
    assert(dv <= dv * pe) by (nonlinear_arith)
        requires
            pe >= 1,
    ;
}

/// Reads `s` as a non-negative decimal in units of 10^-scale: `None` when
/// it is not digits with an optional point, when it has a nonzero digit
/// beyond `scale` places, or when its value does not fit in `u64`.
fn parse_fixed(s: &[u8], scale: usize) -> (r: Option<u64>)
    requires
        scale <= 18,
    ensures
        r == fixed_of(s@, scale as nat),
{
    let r = read_decimal(s, scale);
    proof {
        let sc = scale as nat;
        match r {
            Some(v) => {
                assert(reads_as(s@, sc, v as nat) && v <= u64::MAX);
                let w = choose|w: nat| reads_as(s@, sc, w) && w <= u64::MAX;
                lemma_reads_as_unique(s@, sc, v as nat, w);
            },
            None => {},
        }
    }
    r
}

/// Reads `s` digit by digit: the value it writes in units of 10^-scale,
/// or `None` when it writes none that fits in `u64`.
fn read_decimal(s: &[u8], scale: usize) -> (r: Option<u64>)
    requires
        scale <= 18,
    ensures
        match r {
            Some(v) => reads_as(s@, scale as nat, v as nat),
            None => forall|v: nat| reads_as(s@, scale as nat, v) ==> v > u64::MAX,
        },
{
    let n = s.len();
    let ghost sc = scale as nat;
    let mut acc: u64 = 0;
    let mut i: usize = 0;
    while i < n && ZERO <= s[i] && s[i] <= 57
        invariant
            n == s@.len(),
            sc == scale as nat,
            i <= n,
            all_digits(s@.take(i as int)),
            acc == digits_value(s@.take(i as int)),
        decreases n - i,
    {
        let wide: u128 = (acc as u128) * 10 + (s[i] - ZERO) as u128;
        assert(s@.take(i + 1).drop_last() =~= s@.take(i as int));
        assert(all_digits(s@.take(i + 1))) by {
            assert forall|x: int| 0 <= x < i + 1 implies is_digit(#[trigger] s@.take(i + 1)[x]) by {
                if x < i {
                    assert(s@.take(i as int)[x] == s@.take(i + 1)[x]);
                }
            }
        }
        if wide > u64::MAX as u128 {
            proof {
                assert forall|v: nat| reads_as(s@, sc, v) implies v > u64::MAX by {
                    let k = choose|k: int| decimal_shape(s@, k, sc) && scaled_value(s@, k, sc) == v;
                    if k <= i {
                        assert(s@.take(i + 1)[k] == s@[k]);
                    }
                    assert(kept_digits(s@, k, sc).take(i + 1) =~= s@.take(i + 1));
                    lemma_value_above_prefix(s@, k, sc, i + 1);
                }
            }
            return None;
        }
        acc = wide as u64;
        i = i + 1;
    }
    let ghost k = i as int;
    if i < n && s[i] != POINT {
        proof {
            assert forall|v: nat| reads_as(s@, sc, v) implies v > u64::MAX by {
                let k2 = choose|k2: int| decimal_shape(s@, k2, sc) && scaled_value(s@, k2, sc) == v;
                lemma_shape_point(s@, k2, sc, k);
            }
        }
        return None;
    }
    let ghost frac = fraction(s@, k);
    let mut j: usize = if i < n {
        i + 1
    } else {
        n
    };
    let mut kept: usize = 0;
    assert(frac.take(0) =~= Seq::<u8>::empty());
    assert(s@.take(k) + frac.take(0) =~= s@.take(k));
    while j < n
        invariant
            n == s@.len(),
            sc == scale as nat,
            k < n ==> s@[k] == POINT,
            0 <= k <= n,
            all_digits(s@.take(k)),
            frac == fraction(s@, k),
            frac.len() == if k < n {
                n - k - 1
            } else {
                0
            },
            j <= n,
            k < n ==> k + 1 <= j,
            k == n ==> j == n,
            kept <= scale <= 18,
            k < n ==> kept == if j - k - 1 <= scale {
                j - k - 1
            } else {
                scale as int
            },
            k == n ==> kept == 0,
            forall|x: int| 0 <= x < j - k - 1 ==> is_digit(#[trigger] frac[x]),
            forall|x: int| scale <= x < j - k - 1 ==> #[trigger] frac[x] == ZERO,
            acc == digits_value(s@.take(k) + frac.take(kept as int)),
        decreases n - j,
    {
        let ghost m = j - k - 1;
        assert(frac[m] == s@[j as int]);
        if !(ZERO <= s[j] && s[j] <= 57) {
            proof {
                assert forall|v: nat| reads_as(s@, sc, v) implies v > u64::MAX by {
                    let k2 = choose|k2: int|
                        decimal_shape(s@, k2, sc) && scaled_value(s@, k2, sc) == v;
                    lemma_shape_point(s@, k2, sc, k);
                    assert(s@.skip(k + 1)[m] == s@[j as int]);
                }
            }
            return None;
        }
        if kept < scale {
            let wide: u128 = (acc as u128) * 10 + (s[j] - ZERO) as u128;
            let ghost before = s@.take(k) + frac.take(kept as int);
            let ghost after = s@.take(k) + frac.take(kept + 1);
            assert(after.drop_last() =~= before);
            if wide > u64::MAX as u128 {
                proof {
                    assert forall|v: nat| reads_as(s@, sc, v) implies v > u64::MAX by {
                        let k2 = choose|k2: int|
                            decimal_shape(s@, k2, sc) && scaled_value(s@, k2, sc) == v;
                        lemma_shape_point(s@, k2, sc, k);
                        assert(kept_digits(s@, k, sc).take(k + kept + 1) =~= after);
                        lemma_value_above_prefix(s@, k, sc, k + kept + 1);
                    }
                }
                return None;
            }
            acc = wide as u64;
            kept = kept + 1;
        } else if s[j] != ZERO {
            proof {
                assert forall|v: nat| reads_as(s@, sc, v) implies v > u64::MAX by {
                    let k2 = choose|k2: int|
                        decimal_shape(s@, k2, sc) && scaled_value(s@, k2, sc) == v;
                    lemma_shape_point(s@, k2, sc, k);
                }
            }
            return None;
        }
        j = j + 1;
    }
    if i == 0 && (i + 1 >= n) {
        proof {
            assert(fraction(s@, k).len() == 0);
            assert forall|v: nat| reads_as(s@, sc, v) implies v > u64::MAX by {
                let k2 = choose|k2: int| decimal_shape(s@, k2, sc) && scaled_value(s@, k2, sc) == v;
                lemma_shape_point(s@, k2, sc, k);
            }
        }
        return None;
    }
    proof {
        assert(decimal_shape(s@, k, sc)) by {
            if k < n {
                assert forall|x: int| 0 <= x < s@.skip(k + 1).len() implies is_digit(
                    #[trigger] s@.skip(k + 1)[x],
                ) by {
                    assert(frac[x] == s@.skip(k + 1)[x]);
                }
            }
        }
        if frac.len() <= sc {
            assert(frac.take(kept as int) =~= frac);
        }
        assert(kept_digits(s@, k, sc) =~= s@.take(k) + frac.take(kept as int));
    }
    let mut factor: u64 = 1;
    let mut e: usize = kept;
    proof {
        reveal_with_fuel(pow10, 19);
        assert(pow10(18) == 1_000_000_000_000_000_000);
    }
    while e < scale
        invariant
            kept <= e <= scale <= 18,
            factor == pow10((e - kept) as nat),
            pow10(18) == 1_000_000_000_000_000_000,
        decreases scale - e,
    {
        proof {
            lemma_pow10_monotonic((e + 1 - kept) as nat, 18);
        }
        factor = factor * 10;
        e = e + 1;
    }
    proof {
        lemma_pow10_monotonic((e - kept) as nat, 18);
        assert((acc as nat) * (factor as nat) <= (u64::MAX as nat) * 1_000_000_000_000_000_000)
            by (nonlinear_arith)
            requires
                acc <= u64::MAX,
                factor <= 1_000_000_000_000_000_000u64,
        ;
    }
    let wide: u128 = (acc as u128) * (factor as u128);
    proof {
        assert(kept_digits(s@, k, sc).len() == k + kept);
        assert(scaled_value(s@, k, sc) == acc * factor);
    }
    if wide > u64::MAX as u128 {
        proof {
            assert forall|v: nat| reads_as(s@, sc, v) implies v > u64::MAX by {
                let k2 = choose|k2: int| decimal_shape(s@, k2, sc) && scaled_value(s@, k2, sc) == v;
                lemma_shape_point(s@, k2, sc, k);
            }
        }
        return None;
    }
    Some(wide as u64)
}

/// Reads a price such as `103123.79` in whole cents; `None` for text that
/// is not such a decimal, has a nonzero digit past the cents, or is too large.
pub fn parse_price(text: &str) -> (r: Option<u64>)
    ensures
        r == fixed_of(encode_utf8(text@), PRICE_DECIMALS as nat),
{
    parse_fixed(text.as_bytes(), PRICE_DECIMALS)
}

/// Reads a quantity such as `0.50608469` in units of 10^-8; `None` for text
/// that is not such a decimal, has a nonzero digit past the eighth place, or
/// is too large.
pub fn parse_quantity(text: &str) -> (r: Option<u64>)
    ensures
        r == fixed_of(encode_utf8(text@), QUANTITY_DECIMALS as nat),
{
    parse_fixed(text.as_bytes(), QUANTITY_DECIMALS)
}

} // verus!
