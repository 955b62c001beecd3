use vstd::arithmetic::div_mod::{lemma_div_denominator, lemma_div_is_ordered,
    lemma_div_multiples_vanish, lemma_fundamental_div_mod, lemma_fundamental_div_mod_converse_div,
    lemma_fundamental_div_mod_converse_mod, lemma_mod_multiples_basic, lemma_mod_multiples_vanish,
    lemma_multiply_divide_lt, lemma_small_mod};
use vstd::arithmetic::power2::{lemma2_to64, lemma2_to64_rest, lemma_pow2_adds, lemma_pow2_pos,
    lemma_pow2_strictly_increases, lemma_pow2_unfold, pow2};
use vstd::bits::{lemma_u64_low_bits_mask_is_mod, lemma_u64_shl_is_mul, lemma_u64_shr_is_div,
    low_bits_mask};
use vstd::prelude::*;

verus! {

/// A script number: an IEEE 754 double, carried as its 64-bit pattern so
/// that the conversion rules over it can be stated and checked exactly.
///
/// Equality on `Number` is bit-pattern equality. It distinguishes the two
/// zero encodings and does not equate distinct not-a-number encodings.
#[derive(Clone, Copy, PartialEq, Eq, Structural, Debug)]
pub struct Number {
    pub bits: u64,
}

/// Whether the sign bit of the pattern is set.
pub open spec fn f64_negative(bits: u64) -> bool {
    bits >= 0x8000_0000_0000_0000
}

/// The biased exponent field of the pattern.
pub open spec fn f64_exp(bits: u64) -> int {
    ((bits as int) / (pow2(52) as int)) % 0x800
}

/// The fraction field of the pattern.
pub open spec fn f64_frac(bits: u64) -> int {
    (bits as int) % (pow2(52) as int)
}

/// Whether the pattern denotes a finite double (neither an infinity nor a
/// not-a-number).
pub open spec fn f64_is_finite(bits: u64) -> bool {
    f64_exp(bits) != 0x7ff
}

/// The exact magnitude of the denoted double when that magnitude is a
/// whole number: a finite double is `sig * 2^(e - 1075)` in magnitude with
/// `sig` the 53-bit significand, so the magnitude is whole exactly when
/// the exponent clears the fraction's low bits.
pub open spec fn f64_magnitude(bits: u64) -> Option<int> {
    let e = f64_exp(bits);
    let m = f64_frac(bits);
    if e == 0x7ff {
        None
    } else if e == 0 {
        if m == 0 {
            Some(0)
        } else {
            None
        }
    } else {
        let sig = m + pow2(52) as int;
        if e >= 1075 {
            Some(sig * pow2((e - 1075) as nat) as int)
        } else if sig % (pow2((1075 - e) as nat) as int) == 0 {
            Some(sig / (pow2((1075 - e) as nat) as int))
        } else {
            None
        }
    }
}

/// The exact integer a pattern denotes, when it denotes one. Both zero
/// encodings denote the integer zero.
pub open spec fn f64_as_int(bits: u64) -> Option<int> {
    match f64_magnitude(bits) {
        Some(v) => Some(
            if f64_negative(bits) {
                -v
            } else {
                v
            },
        ),
        None => None,
    }
}

/// How a number crosses into JSON: as the unsigned integer it exactly
/// equals, else as the signed integer it exactly equals, else as a
/// floating-point number — and not at all when it is not finite.
#[derive(Clone, Copy, PartialEq, Eq, Structural, Debug)]
pub enum NumberClass {
    UInt(u64),
    Int(i64),
    Float,
    NonFinite,
}

/// The JSON shape of a pattern: an unsigned 64-bit integer it round-trips
/// through exactly, else a signed one, else a floating-point number;
/// infinities and not-a-numbers have no JSON shape.
pub open spec fn number_class_spec(bits: u64) -> NumberClass {
    if !f64_is_finite(bits) {
        NumberClass::NonFinite
    } else {
        match f64_as_int(bits) {
            Some(n) => if 0 <= n <= u64::MAX as int {
                NumberClass::UInt(n as u64)
            } else if i64::MIN as int <= n < 0 {
                NumberClass::Int(n as i64)
            } else {
                NumberClass::Float
            },
            None => NumberClass::Float,
        }
    }
}

impl Number {
    /// Wraps a bit pattern obtained from the native representation.
    pub fn from_bits(bits: u64) -> (r: Number)
        ensures
            r.bits == bits,
    {
        Number { bits }
    }

    /// The raw bit pattern, for handing back to the native representation.
    pub fn to_bits(self) -> (r: u64)
        ensures
            r == self.bits,
    {
        self.bits
    }

    /// Classifies the number by the exact integer it denotes, if any:
    /// the unsigned shape wins over the signed one, and a number that
    /// denotes no 64-bit integer keeps its floating-point shape.
    pub fn classify(self) -> (r: NumberClass)
        ensures
            r == number_class_spec(self.bits),
    {
        let bits = self.bits;
        let e: u64 = (bits >> 52u64) & 0x7ff;
        let m: u64 = bits & 0xf_ffff_ffff_ffff;
        let neg: bool = bits >= 0x8000_0000_0000_0000;
        proof {
            lemma2_to64();
            lemma2_to64_rest();
            lemma_u64_shr_is_div(bits, 52);
            lemma_u64_low_bits_mask_is_mod(bits >> 52u64, 11);
            lemma_u64_low_bits_mask_is_mod(bits, 52);
            assert(low_bits_mask(11) == 0x7ff);
            assert(low_bits_mask(52) == 0xf_ffff_ffff_ffff);
            assert(e as int == f64_exp(bits));
            assert(m as int == f64_frac(bits));
        }
        if e == 0x7ff {
            return NumberClass::NonFinite;
        }
        if e == 0 {
            if m == 0 {
                return NumberClass::UInt(0);
            } else {
                return NumberClass::Float;
            }
        }
        let sig: u64 = m + 0x10_0000_0000_0000;
        proof {
            assert(sig as int == f64_frac(bits) + pow2(52) as int);
            assert(0x10_0000_0000_0000 <= sig <= 0x1f_ffff_ffff_ffff);
        }
        if e >= 1075 {
            let p: u64 = e - 1075;
            if !neg {
                if p <= 11 {
                    proof {
                        assert(pow2(p as nat) <= 2048) by {
                            if p < 11 {
                                lemma_pow2_strictly_increases(p as nat, 11);
                            }
                        }
                        assert(sig as int * pow2(p as nat) as int <= u64::MAX as int)
                            by (nonlinear_arith)
                            requires
                                sig <= 0x1f_ffff_ffff_ffff,
                                pow2(p as nat) <= 2048,
                        ;
                        lemma_u64_shl_is_mul(sig, p);
                    }
                    return NumberClass::UInt(sig << p);
                } else {
                    proof {
                        assert(pow2(p as nat) >= 4096) by {
                            if p > 12 {
                                lemma_pow2_strictly_increases(12, p as nat);
                            }
                        }
                        assert(sig as int * pow2(p as nat) as int > u64::MAX as int)
                            by (nonlinear_arith)
                            requires
                                sig >= 0x10_0000_0000_0000,
                                pow2(p as nat) >= 4096,
                        ;
                    }
                    return NumberClass::Float;
                }
            } else {
                if p <= 10 {
                    proof {
                        lemma_pow2_pos(p as nat);
                        assert(pow2(p as nat) <= 1024) by {
                            if p < 10 {
                                lemma_pow2_strictly_increases(p as nat, 10);
                            }
                        }
                        assert((sig as int) * (pow2(p as nat) as int) < 0x8000_0000_0000_0000)
                            by (nonlinear_arith)
                            requires
                                sig <= 0x1f_ffff_ffff_ffff,
                                pow2(p as nat) <= 1024,
                        ;
                        assert((sig as int) * (pow2(p as nat) as int) >= 0x10_0000_0000_0000)
                            by (nonlinear_arith)
                            requires
                                sig >= 0x10_0000_0000_0000,
                                pow2(p as nat) >= 1,
                        ;
                        lemma_u64_shl_is_mul(sig, p);
                    }
                    let mag: u64 = sig << p;
                    return NumberClass::Int(-(mag as i64));
                } else if p == 11 && sig == 0x10_0000_0000_0000 {
                    proof {
                        lemma_pow2_adds(52, 11);
                        assert(sig as int * pow2(11) as int == 0x8000_0000_0000_0000) by {
                            assert(pow2(52) * pow2(11) == pow2(63));
                        }
                    }
                    return NumberClass::Int(i64::MIN);
                } else {
                    proof {
                        if p == 11 {
                            assert(sig > 0x10_0000_0000_0000);
                            assert(sig as int * pow2(11) as int > 0x8000_0000_0000_0000)
                                by (nonlinear_arith)
                                requires
                                    sig >= 0x10_0000_0000_0001,
                                    pow2(11) == 2048,
                            ;
                        } else {
                            assert(pow2(p as nat) >= 4096) by {
                                if p > 12 {
                                    lemma_pow2_strictly_increases(12, p as nat);
                                }
                            }
                            assert(sig as int * pow2(p as nat) as int > 0x8000_0000_0000_0000)
                                by (nonlinear_arith)
                                requires
                                    sig >= 0x10_0000_0000_0000,
                                    pow2(p as nat) >= 4096,
                            ;
                        }
                    }
                    return NumberClass::Float;
                }
            }
        } else {
            let q: u64 = 1075 - e;
            if q <= 52 {
                proof {
                    lemma_pow2_pos(q as nat);
                    assert(pow2(q as nat) <= pow2(52)) by {
                        if q < 52 {
                            lemma_pow2_strictly_increases(q as nat, 52);
                        }
                    }
                    lemma_u64_shl_is_mul(1, q);
                }
                let mask: u64 = (1u64 << q) - 1;
                proof {
                    assert(mask as nat == low_bits_mask(q as nat)) by {
                        assert(low_bits_mask(q as nat) == (pow2(q as nat) - 1) as nat);
                    }
                    lemma_u64_low_bits_mask_is_mod(sig, q as nat);
                }
                if (sig & mask) == 0 {
                    let v: u64 = sig >> q;
                    proof {
                        lemma_u64_shr_is_div(sig, q);
                        lemma_fundamental_div_mod(sig as int, pow2(q as nat) as int);
                        assert(sig as int == pow2(q as nat) as int * (v as int));
                        assert(v >= 1) by {
                            if v == 0 {
                                assert(sig as int == pow2(q as nat) as int * 0);
                            }
                        }
                        assert(f64_magnitude(bits) == Some(v as int));
                    }
                    if !neg {
                        return NumberClass::UInt(v);
                    } else {
                        return NumberClass::Int(-(v as i64));
                    }
                } else {
                    return NumberClass::Float;
                }
            } else {
                proof {
                    assert(pow2(q as nat) > sig as nat) by {
                        assert(pow2(53) == 0x20_0000_0000_0000);
                        if q > 53 {
                            lemma_pow2_strictly_increases(53, q as nat);
                        }
                    }
                    lemma_small_mod(sig as nat, pow2(q as nat));
                }
                return NumberClass::Float;
            }
        }
    }
}

/// The floor of the base-2 logarithm of a positive number (and zero for
/// everything at or below one).
pub open spec fn floor_log2(n: int) -> int
    decreases n,
{
    if n <= 1 {
        0
    } else {
        1 + floor_log2(n / 2)
    }
}

/// The floor of the logarithm brackets its argument between two powers.
pub proof fn lemma_floor_log2_bounds(n: int)
    requires
        n >= 1,
    ensures
        floor_log2(n) >= 0,
        pow2(floor_log2(n) as nat) <= n < pow2((floor_log2(n) + 1) as nat),
    decreases n,
{
    if n == 1 {
        assert(pow2(0) == 1 && pow2(1) == 2) by {
            lemma2_to64();
        }
    } else {
        lemma_floor_log2_bounds(n / 2);
        let f = floor_log2(n / 2);
        lemma_pow2_unfold((f + 1) as nat);
        lemma_pow2_unfold((f + 2) as nat);
        lemma_fundamental_div_mod(n, 2);
    }
}

/// The bracketing determines the floor of the logarithm.
pub proof fn lemma_floor_log2_of(n: int, h: nat)
    requires
        n >= 1,
        pow2(h) <= n < pow2((h + 1) as nat),
    ensures
        floor_log2(n) == h,
    decreases h,
{
    lemma_pow2_pos(h);
    if h == 0 {
        assert(pow2(0) == 1 && pow2(1) == 2) by {
            lemma2_to64();
        }
    } else {
        lemma_pow2_unfold(h);
        lemma_pow2_unfold((h + 1) as nat);
        assert(n >= 2);
        assert(pow2((h - 1) as nat) <= n / 2 < pow2(h)) by {
            lemma_div_is_ordered(pow2(h) as int, n, 2);
            assert(pow2(h) as int / 2 == pow2((h - 1) as nat) as int) by {
                lemma_div_multiples_vanish(pow2((h - 1) as nat) as int, 2);
            }
            lemma_multiply_divide_lt(n, 2, pow2(h) as int);
        }
        lemma_floor_log2_of(n / 2, (h - 1) as nat);
    }
}

/// The pattern of the double nearest to `u`, ties going to the even
/// significand: the 53-bit significand keeps the top bits of `u`, and the
/// cut-off remainder rounds it, carrying into the exponent when the
/// rounded significand overflows.
pub open spec fn bits_of_u64(u: u64) -> u64 {
    if u == 0 {
        0
    } else {
        let h = floor_log2(u as int);
        if h <= 52 {
            (((h + 1023) * pow2(52) as int) + (u - pow2(h as nat) as int) * pow2(
                (52 - h) as nat,
            ) as int) as u64
        } else {
            let s = (h - 52) as nat;
            let keep = (u as int) / (pow2(s) as int);
            let rem = (u as int) % (pow2(s) as int);
            let half = pow2((s - 1) as nat) as int;
            let k2 = if rem > half || (rem == half && keep % 2 == 1) {
                keep + 1
            } else {
                keep
            };
            if k2 == pow2(53) as int {
                ((h + 1024) * pow2(52) as int) as u64
            } else {
                (((h + 1023) * pow2(52) as int) + (k2 - pow2(52) as int)) as u64
            }
        }
    }
}

/// The pattern of the double nearest to `i`: the magnitude rounds as for
/// an unsigned integer and the sign bit carries the sign.
pub open spec fn bits_of_i64(i: i64) -> u64 {
    if i >= 0 {
        bits_of_u64(i as u64)
    } else {
        (0x8000_0000_0000_0000 + bits_of_u64((-(i as int)) as u64)) as u64
    }
}

impl Number {
    /// The double nearest to `u`, ties going to the even significand.
    pub fn from_u64(u: u64) -> (r: Number)
        ensures
            r.bits == bits_of_u64(u),
    {
        if u == 0 {
            return Number { bits: 0 };
        }
        proof {
            lemma2_to64();
            lemma2_to64_rest();
        }
        let mut h: u64 = 0;
        let mut t: u64 = u;
        while t > 1
            invariant
                u >= 1,
                1 <= t,
                h <= 63,
                t as int == (u as int) / (pow2(h as nat) as int),
                pow2(h as nat) <= u as nat,
            decreases t,
        {
            proof {
                lemma2_to64();
                lemma2_to64_rest();
                lemma_pow2_pos(h as nat);
                lemma_pow2_unfold((h + 1) as nat);
                lemma_div_denominator(u as int, pow2(h as nat) as int, 2);
                assert((u as int) / (pow2(h as nat) as int * 2) == (u as int) / (pow2(
                    (h + 1) as nat,
                ) as int));
                assert(pow2((h + 1) as nat) <= u as nat) by {
                    lemma_fundamental_div_mod(u as int, pow2(h as nat) as int);
                    assert(u as int >= 2 * pow2(h as nat)) by (nonlinear_arith)
                        requires
                            u as int == pow2(h as nat) as int * (t as int) + (u as int) % (pow2(
                                h as nat,
                            ) as int),
                            t >= 2,
                            (u as int) % (pow2(h as nat) as int) >= 0,
                            pow2(h as nat) >= 1,
                    ;
                }
                assert(h + 1 <= 63) by {
                    if h + 1 > 63 {
                        assert(pow2((h + 1) as nat) >= pow2(64)) by {
                            if h + 1 > 64 {
                                lemma_pow2_strictly_increases(64, (h + 1) as nat);
                            }
                        }
                    }
                }
            }
            t = t / 2;
            h = h + 1;
        }
        proof {
            lemma_pow2_pos(h as nat);
            lemma_fundamental_div_mod(u as int, pow2(h as nat) as int);
            lemma_pow2_unfold((h + 1) as nat);
            assert(pow2(h as nat) <= u as int && (u as int) < pow2((h + 1) as nat) as int);
            lemma_floor_log2_of(u as int, h as nat);
        }
        if h <= 52 {
            proof {
                lemma_u64_shl_is_mul(1, h);
                lemma_pow2_pos((52 - h) as nat);
                assert(pow2(h as nat) * pow2((52 - h) as nat) == pow2(52)) by {
                    lemma_pow2_adds(h as nat, (52 - h) as nat);
                }
                assert(((u - (1u64 << h)) as int) * (pow2((52 - h) as nat) as int) < pow2(52) as int)
                    by (nonlinear_arith)
                    requires
                        ((u - (1u64 << h)) as int) < pow2(h as nat) as int,
                        pow2(h as nat) as int * pow2((52 - h) as nat) as int == pow2(52) as int,
                        pow2((52 - h) as nat) >= 1,
                    ;
                lemma_u64_shl_is_mul((u - (1u64 << h)) as u64, (52 - h) as u64);
                lemma_u64_shl_is_mul((h + 1023) as u64, 52);
            }
            let frac: u64 = (u - (1u64 << h)) << (52 - h);
            let bits: u64 = ((h + 1023) << 52u64) + frac;
            return Number { bits };
        } else {
            let s: u64 = h - 52;
            proof {
                assert(1 <= s <= 11);
                lemma_pow2_pos(s as nat);
                assert(pow2(s as nat) <= 2048) by {
                    if s < 11 {
                        lemma_pow2_strictly_increases(s as nat, 11);
                    }
                }
                lemma_u64_shl_is_mul(1, s);
                lemma_u64_shl_is_mul(1, (s - 1) as u64);
                lemma_u64_shr_is_div(u, s);
                assert((1u64 << s) - 1 == low_bits_mask(s as nat));
                lemma_u64_low_bits_mask_is_mod(u, s as nat);
                // the kept top bits lie in [2^52, 2^53)
                assert((u as int) / (pow2(s as nat) as int) < pow2(53) as int) by {
                    assert((u as int) < pow2(s as nat) as int * pow2(53) as int) by {
                        lemma_pow2_adds(s as nat, 53);
                        assert((s + 53) as nat == (h + 1) as nat);
                        assert(pow2((h + 1) as nat) == pow2(s as nat) * pow2(53));
                    }
                    lemma_multiply_divide_lt(u as int, pow2(s as nat) as int, pow2(53) as int);
                }
                assert((u as int) / (pow2(s as nat) as int) >= pow2(52) as int) by {
                    lemma_pow2_adds(s as nat, 52);
                    assert(pow2(h as nat) == pow2(s as nat) * pow2(52));
                    lemma_div_is_ordered(pow2(h as nat) as int, u as int, pow2(s as nat) as int);
                    lemma_div_multiples_vanish(pow2(52) as int, pow2(s as nat) as int);
                }
            }
            let keep: u64 = u >> s;
            let rem: u64 = u & ((1u64 << s) - 1);
            let half: u64 = 1u64 << (s - 1);
            let parity: u64 = keep & 1;
            proof {
                assert(low_bits_mask(1) == 1);
                lemma_u64_low_bits_mask_is_mod(keep, 1);
            }
            let up: bool = rem > half || (rem == half && parity == 1);
            let k2: u64 = if up {
                keep + 1
            } else {
                keep
            };
            proof {
                lemma_u64_shl_is_mul((h + 1023) as u64, 52);
                lemma_u64_shl_is_mul((h + 1024) as u64, 52);
                lemma_u64_shl_is_mul(1, 53);
                lemma_u64_shl_is_mul(1, 52);
            }
            let bits: u64 = if k2 == (1u64 << 53) {
                (h + 1024) << 52u64
            } else {
                ((h + 1023) << 52u64) + (k2 - (1u64 << 52))
            };
            return Number { bits };
        }
    }

    /// The double nearest to `i`, ties going to the even significand.
    pub fn from_i64(i: i64) -> (r: Number)
        ensures
            r.bits == bits_of_i64(i),
    {
        if i >= 0 {
            return Number::from_u64(i as u64);
        }
        let mag: u64 = if i == i64::MIN {
            0x8000_0000_0000_0000
        } else {
            (-i) as u64
        };
        let low = Number::from_u64(mag);
        proof {
            lemma_bits_of_u64_high_clear(mag);
        }
        Number { bits: 0x8000_0000_0000_0000 + low.bits }
    }
}

/// A rounded unsigned integer never sets the sign bit: its exponent field
/// stays at or below 1087.
pub proof fn lemma_bits_of_u64_high_clear(u: u64)
    ensures
        bits_of_u64(u) < 0x8000_0000_0000_0000,
{
    if u == 0 {
        return ;
    }
    lemma2_to64();
    lemma2_to64_rest();
    lemma_floor_log2_bounds(u as int);
    let h = floor_log2(u as int);
    assert(h <= 63) by {
        if h > 63 {
            lemma_pow2_strictly_increases(64, h as nat);
            assert(pow2(h as nat) > u as int);
        }
    }
    if h <= 52 {
        lemma_pow2_pos(h as nat);
        lemma_pow2_pos((52 - h) as nat);
        assert(pow2(h as nat) * pow2((52 - h) as nat) == pow2(52)) by {
            lemma_pow2_adds(h as nat, (52 - h) as nat);
        }
        assert((u - pow2(h as nat) as int) * (pow2((52 - h) as nat) as int) < pow2(52) as int)
            by (nonlinear_arith)
            requires
                u - (pow2(h as nat) as int) < pow2(h as nat) as int,
                0 <= u - pow2(h as nat) as int,
                pow2(h as nat) as int * pow2((52 - h) as nat) as int == pow2(52) as int,
                pow2((52 - h) as nat) >= 1,
        ;
        assert((h + 1023) * pow2(52) as int + pow2(52) as int <= 1076 * 0x10_0000_0000_0000);
    } else {
        let s = (h - 52) as nat;
        let keep = (u as int) / (pow2(s) as int);
        lemma_pow2_pos(s);
        assert(keep <= pow2(53) as int) by {
            assert((u as int) < pow2(s) as int * pow2(53) as int) by {
                lemma_pow2_adds(s, 53);
                assert((s + 53) as nat == (h + 1) as nat);
                assert(pow2((h + 1) as nat) == pow2(s) * pow2(53));
            }
            lemma_multiply_divide_lt(u as int, pow2(s) as int, pow2(53) as int);
        }
        assert((h + 1024) * pow2(52) as int <= 1087 * 0x10_0000_0000_0000);
        assert((h + 1023) * pow2(52) as int + pow2(52) as int <= 1087 * 0x10_0000_0000_0000);
    }
}

/// Law: an integer with at most 53 significant bits crosses into a double
/// and back without loss — its rounded pattern classifies as exactly that
/// unsigned integer.
pub proof fn lemma_u64_round_trip_exact(u: u64)
    requires
        u <= 0x20_0000_0000_0000,
    ensures
        number_class_spec(bits_of_u64(u)) == NumberClass::UInt(u),
{
    lemma2_to64();
    lemma2_to64_rest();
    if u == 0 {
        assert(f64_exp(0) == 0);
        assert(f64_frac(0) == 0);
        return ;
    }
    lemma_floor_log2_bounds(u as int);
    let h = floor_log2(u as int);
    assert(h <= 53) by {
        if h > 53 {
            lemma_pow2_strictly_increases(54, (h + 1) as nat);
            assert(pow2(h as nat) > 0x20_0000_0000_0000) by {
                lemma_pow2_strictly_increases(53, h as nat);
            }
        }
    }
    if h <= 52 {
        let frac = (u - pow2(h as nat) as int) * (pow2((52 - h) as nat) as int);
        let bits = bits_of_u64(u);
        assert(pow2(h as nat) * pow2((52 - h) as nat) == pow2(52)) by {
            lemma_pow2_adds(h as nat, (52 - h) as nat);
        }
        lemma_pow2_pos(h as nat);
        lemma_pow2_pos((52 - h) as nat);
        assert(0 <= frac < pow2(52) as int) by (nonlinear_arith)
            requires
                frac == (u - pow2(h as nat) as int) * (pow2((52 - h) as nat) as int),
                0 <= u - (pow2(h as nat) as int) < pow2(h as nat) as int,
                pow2(h as nat) as int * (pow2((52 - h) as nat) as int) == pow2(52) as int,
                pow2((52 - h) as nat) >= 1,
        ;
        assert(bits as int == (h + 1023) * pow2(52) as int + frac);
        lemma_fundamental_div_mod_converse_div(bits as int, pow2(52) as int, h + 1023, frac);
        lemma_fundamental_div_mod_converse_mod(bits as int, pow2(52) as int, h + 1023, frac);
        lemma_small_mod((h + 1023) as nat, 0x800);
        assert(f64_exp(bits) == h + 1023);
        assert(f64_frac(bits) == frac);
        assert(!f64_negative(bits)) by {
            assert(bits as int <= 1075 * pow2(52) as int + pow2(52) as int);
        }
        let e = h + 1023;
        let sig = frac + pow2(52) as int;
        if e >= 1075 {
            assert(h == 52);
            assert(pow2((52 - h) as nat) == 1);
            assert(frac == u - pow2(52) as int) by (nonlinear_arith)
                requires
                    frac == (u - pow2(h as nat) as int) * (pow2((52 - h) as nat) as int),
                    pow2((52 - h) as nat) == 1,
                    pow2(h as nat) == pow2(52),
            ;
            assert(sig == u);
            assert(pow2((e - 1075) as nat) == 1);
            assert(sig * (pow2((e - 1075) as nat) as int) == u) by (nonlinear_arith)
                requires
                    sig == u as int,
                    pow2((e - 1075) as nat) == 1,
            ;
            assert(f64_magnitude(bits) == Some(u as int));
        } else {
            let q = (1075 - e) as nat;
            assert(q == (52 - h) as nat);
            assert(sig == (u - pow2(h as nat) as int) * (pow2(q) as int) + pow2(
                h as nat,
            ) as int * (pow2(q) as int));
            assert(sig == u as int * (pow2(q) as int)) by (nonlinear_arith)
                requires
                    sig == (u - pow2(h as nat) as int) * (pow2(q) as int) + pow2(h as nat) as int
                        * (pow2(q) as int),
            ;
            lemma_pow2_pos(q);
            assert(sig % (pow2(q) as int) == 0) by {
                lemma_mod_multiples_basic(u as int, pow2(q) as int);
            }
            assert(sig / (pow2(q) as int) == u) by {
                lemma_div_multiples_vanish(u as int, pow2(q) as int);
            }
            assert(f64_magnitude(bits) == Some(u as int));
        }
    } else {
        assert(h == 53);
        assert(u == 0x20_0000_0000_0000) by {
            assert(pow2(53) == 0x20_0000_0000_0000);
        }
        let bits = bits_of_u64(u);
        
        assert(bits as int == 1076 * pow2(52) as int);
        lemma_fundamental_div_mod_converse_div(bits as int, pow2(52) as int, 1076, 0);
        lemma_fundamental_div_mod_converse_mod(bits as int, pow2(52) as int, 1076, 0);
        lemma_small_mod(1076nat, 0x800);
        assert(f64_exp(bits) == 1076);
        assert(f64_frac(bits) == 0);
        assert(!f64_negative(bits));
        assert(pow2(52) as int * pow2(1) as int == u) by {
            lemma_pow2_adds(52, 1);
        }
        assert(f64_magnitude(bits) == Some(u as int));
    }
}

/// Law: a negative integer with at most 53 significant bits of magnitude
/// crosses into a double and back without loss.
pub proof fn lemma_i64_round_trip_exact(i: i64)
    requires
        -0x20_0000_0000_0000 <= i < 0,
    ensures
        number_class_spec(bits_of_i64(i)) == NumberClass::Int(i),
{
    lemma2_to64();
    lemma2_to64_rest();
    let mag = (-(i as int)) as u64;
    lemma_u64_round_trip_exact(mag);
    let low = bits_of_u64(mag);
    lemma_bits_of_u64_high_clear(mag);
    let bits = bits_of_i64(i);
    assert(bits as int == 0x8000_0000_0000_0000 + low as int);
    // the sign bit leaves the exponent and fraction fields alone
    let e = f64_exp(low);
    let m = f64_frac(low);
    lemma_fundamental_div_mod(low as int, pow2(52) as int);
    lemma_pow2_pos(52);
    assert((low as int) / (pow2(52) as int) < 0x800) by {
        lemma_multiply_divide_lt(low as int, pow2(52) as int, 0x800);
    }
    lemma_small_mod(((low as int) / (pow2(52) as int)) as nat, 0x800);
    assert(e == (low as int) / (pow2(52) as int));
    let q = (low as int) / (pow2(52) as int);
    assert(bits as int == (q + 0x800) * pow2(52) as int + m) by {
        assert(0x8000_0000_0000_0000 == 0x800 * pow2(52) as int);
        assert(low as int == q * pow2(52) as int + m);
        assert((q + 0x800) * pow2(52) as int == q * pow2(52) as int + 0x800 * pow2(52) as int)
            by (nonlinear_arith)
        ;
    }
    lemma_fundamental_div_mod_converse_div(bits as int, pow2(52) as int, q + 0x800, m);
    lemma_fundamental_div_mod_converse_mod(bits as int, pow2(52) as int, q + 0x800, m);
    assert(f64_frac(bits) == m);
    assert(f64_exp(bits) == (q + 0x800) % 0x800);
    assert((q + 0x800) % 0x800 == q) by {
        lemma_mod_multiples_vanish(1, q, 0x800);
        lemma_small_mod(q as nat, 0x800);
    }
    assert(f64_exp(bits) == e);
    assert(f64_negative(bits));
    assert(f64_magnitude(bits) == f64_magnitude(low));
    assert(f64_magnitude(low) == Some(mag as int));
    assert(f64_as_int(bits) == Some(i as int));
}

} // verus!
