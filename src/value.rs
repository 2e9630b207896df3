use vstd::arithmetic::power2::*;
use vstd::prelude::*;

verus! {

/// A value of the scripting runtime, as far as tables look at it.
///
/// `Number` carries the IEEE-754 binary64 bit pattern of a float. `String`,
/// `Table`, `Function` and `Thread` are handles to objects owned by the
/// runtime, compared by identity.
#[derive(Clone, Copy, Debug, PartialEq, Eq, Structural)]
pub enum Value {
    Nil,
    Boolean(bool),
    Integer(i64),
    Number(u64),
    String(u64),
    Table(u64),
    Function(u64),
    Thread(u64),
}

/// The biased exponent field of a binary64 bit pattern.
pub open spec fn exponent_field(bits: u64) -> u64 {
    (bits >> 52u64) & 0x7ffu64
}

/// The fraction (trailing significand) field of a binary64 bit pattern.
pub open spec fn fraction_field(bits: u64) -> u64 {
    bits & 0xf_ffff_ffff_ffffu64
}

pub open spec fn sign_set(bits: u64) -> bool {
    (bits >> 63u64) == 1u64
}

/// Whether the bit pattern is a NaN: all exponent bits set, fraction non-zero.
pub open spec fn is_nan_spec(bits: u64) -> bool {
    exponent_field(bits) == 0x7ff && fraction_field(bits) != 0
}

/// The absolute value of the float, when it is finite and a whole number.
pub open spec fn whole_magnitude(bits: u64) -> Option<nat> {
    let e = exponent_field(bits) as nat;
    let f = fraction_field(bits) as nat;
    if e == 0x7ff {
        None
    } else if e == 0 {
        // zero, or a subnormal strictly between 0 and 1
        if f == 0 {
            Some(0)
        } else {
            None
        }
    } else {
        let m = f + pow2(52);
        if e >= 1075 {
            Some(m * pow2((e - 1075) as nat))
        } else if m % pow2((1075 - e) as nat) == 0 {
            Some(m / pow2((1075 - e) as nat))
        } else {
            None
        }
    }
}

/// The integer that the float equals, when it equals one.
pub open spec fn whole_value(bits: u64) -> Option<int> {
    match whole_magnitude(bits) {
        Some(n) => Some(
            if sign_set(bits) {
                -n
            } else {
                n as int
            },
        ),
        None => None,
    }
}

/// The `i64` that the float equals exactly, if there is one.
pub open spec fn float_to_i64_spec(bits: u64) -> Option<i64> {
    match whole_value(bits) {
        Some(i) => if i64::MIN <= i <= i64::MAX {
            Some(i as i64)
        } else {
            None
        },
        None => None,
    }
}

/// Whether the float with bit pattern `bits` is a NaN.
pub fn is_nan(bits: u64) -> (r: bool)
    ensures
        r == is_nan_spec(bits),
{
    ((bits >> 52u64) & 0x7ffu64) == 0x7ff && (bits & 0xf_ffff_ffff_ffffu64) != 0
}

fn pow2_u64(s: u64) -> (r: u64)
    requires
        s <= 62,
    ensures
        r == pow2(s as nat),
{
    let mut r: u64 = 1;
    let mut i: u64 = 0;
    proof {
        lemma2_to64();
    }
    while i < s
        invariant
            i <= s <= 62,
            r == pow2(i as nat),
        decreases s - i,
    {
        proof {
            lemma_pow2_unfold((i + 1) as nat);
            lemma_pow2_strictly_increases((i + 1) as nat, 63);
            lemma2_to64_rest();
        }
        r = r * 2;
        i = i + 1;
    }
    r
}

/// The `i64` that the float with bit pattern `bits` equals exactly, if any.
pub fn float_to_i64(bits: u64) -> (r: Option<i64>)
    ensures
        r == float_to_i64_spec(bits),
{
    let e = (bits >> 52u64) & 0x7ffu64;
    let f = bits & 0xf_ffff_ffff_ffffu64;
    let neg = (bits >> 63u64) == 1u64;
    assert(e <= 0x7ff) by (bit_vector)
        requires
            e == (bits >> 52u64) & 0x7ffu64,
    ;
    assert(f <= 0xf_ffff_ffff_ffffu64) by (bit_vector)
        requires
            f == bits & 0xf_ffff_ffff_ffffu64,
    ;
    proof {
        lemma2_to64();
        lemma2_to64_rest();
    }
    if e == 0x7ff {
        return None;
    }
    if e == 0 {
        if f == 0 {
            return Some(0);
        } else {
            return None;
        }
    }
    let m: u64 = f + 0x10_0000_0000_0000u64;
    if e >= 1075 {
        let s = e - 1075;
        if s > 11 {
            proof {
                lemma_pow2_strictly_increases(11, s as nat);
                lemma_pow2_adds(52, 11);
                assert(m * pow2(s as nat) > pow2(52) * pow2(11)) by (nonlinear_arith)
                    requires
                        m >= pow2(52),
                        pow2(s as nat) > pow2(11),
                        pow2(52) > 0,
                ;
            }
            return None;
        }
        if s == 11 {
            proof {
                lemma_pow2_adds(52, 11);
                if f > 0 {
                    assert(m * pow2(11) > pow2(52) * pow2(11)) by (nonlinear_arith)
                        requires
                            m > pow2(52),
                            pow2(11) > 0,
                    ;
                }
            }
            if f == 0 && neg {
                return Some(i64::MIN);
            } else {
                return None;
            }
        }
        let p = pow2_u64(s);
        proof {
            lemma_pow2_adds(53, s as nat);
            if s < 10 {
                lemma_pow2_strictly_increases(s as nat, 10);
            }
            assert(m * p < pow2(53) * pow2(10)) by (nonlinear_arith)
                requires
                    m < pow2(53),
                    p <= pow2(10),
                    p > 0,
            ;
            lemma_pow2_adds(53, 10);
        }
        let mag = m * p;
        if neg {
            Some(-(mag as i64))
        } else {
            Some(mag as i64)
        }
    } else {
        let s = 1075 - e;
        if s > 52 {
            proof {
                if s > 53 {
                    lemma_pow2_strictly_increases(53, s as nat);
                }
                vstd::arithmetic::div_mod::lemma_small_mod(m as nat, pow2(s as nat));
            }
            return None;
        }
        let p = pow2_u64(s);
        if m % p == 0 {
            proof {
                vstd::arithmetic::div_mod::lemma_div_is_ordered_by_denominator(m as int, 1, p as int);
            }
            let mag = m / p;
            if neg {
                Some(-(mag as i64))
            } else {
                Some(mag as i64)
            }
        } else {
            None
        }
    }
}

} // verus!
