use vstd::prelude::*;
use vstd::arithmetic::power2::{
    lemma2_to64, lemma_pow2_adds, lemma_pow2_pos, lemma_pow2_strictly_increases, lemma_pow2_unfold, pow2,
};
use vstd::bits::{lemma_u64_shl_is_mul, lemma_u64_shr_is_div};

verus! {

/// The sign bit of an IEEE 754 single-precision bit pattern.
pub open spec fn single_negative(b: u32) -> bool {
    b >= 0x8000_0000
}

/// The biased exponent of a single-precision bit pattern.
pub open spec fn single_exponent(b: u32) -> nat {
    ((b as nat) / 0x80_0000) % 256
}

/// The fraction of a single-precision bit pattern.
pub open spec fn single_fraction(b: u32) -> nat {
    (b as nat) % 0x80_0000
}

/// The magnitude of a finite single-precision value with exponent `e` and
/// fraction `f`, rounded toward zero: subnormal values are below one, a normal
/// value is `(2^23 + f) * 2^(e - 150)`.
pub open spec fn single_magnitude_trunc(e: nat, f: nat) -> nat {
    if e == 0 {
        0
    } else if e >= 150 {
        (f + 0x80_0000) * pow2((e - 150) as nat)
    } else {
        (f + 0x80_0000) / pow2((150 - e) as nat)
    }
}

/// The `i32` that a single-precision value converts to with `as`: rounded
/// toward zero, saturated at the bounds of `i32`, and 0 for NaN.
pub open spec fn single_as_i32(b: u32) -> i32 {
    let e = single_exponent(b);
    let f = single_fraction(b);
    if e == 255 {
        if f != 0 {
            0
        } else if single_negative(b) {
            i32::MIN
        } else {
            i32::MAX
        }
    } else {
        let t = single_magnitude_trunc(e, f);
        if single_negative(b) {
            if t >= 0x8000_0000 {
                i32::MIN
            } else {
                (0 - t) as i32
            }
        } else {
            if t >= 0x7fff_ffff {
                i32::MAX
            } else {
                t as i32
            }
        }
    }
}

/// Converts the single-precision value with bit pattern `b` to `i32` as `as`
/// does.
pub fn single_to_i32(b: u32) -> (r: i32)
    ensures
        r == single_as_i32(b),
{
    let neg = b >= 0x8000_0000;
    let e = (b / 0x80_0000) % 256;
    let f = b % 0x80_0000;
    if e == 255 {
        if f != 0 {
            return 0;
        } else if neg {
            return i32::MIN;
        } else {
            return i32::MAX;
        }
    }
    let m: u64 = (f + 0x80_0000) as u64;
    proof {
        lemma2_to64();
    }
    let t: u64 = if e == 0 {
        0
    } else if e < 127 {
        proof {
            if 150 - e > 24 {
                lemma_pow2_strictly_increases(24, (150 - e) as nat);
            }
            assert(m < pow2(24));
            assert(m as nat / pow2((150 - e) as nat) == 0) by {
                vstd::arithmetic::div_mod::lemma_basic_div(m as int, pow2((150 - e) as nat) as int);
            }
        }
        0
    } else if e >= 158 {
        proof {
            if e > 158 {
                lemma_pow2_strictly_increases(8, (e - 150) as nat);
            }
            assert(pow2((e - 150) as nat) >= 256);
            assert(m * pow2((e - 150) as nat) >= 0x80_0000 * 256) by (nonlinear_arith)
                requires
                    m >= 0x80_0000,
                    pow2((e - 150) as nat) >= 256,
            ;
        }
        0x1_0000_0000
    } else if e >= 150 {
        let k: u64 = (e - 150) as u64;
        proof {
            if k < 7 {
                lemma_pow2_strictly_increases(k as nat, 7);
            }
            assert(pow2(k as nat) <= 128);
            assert(m * pow2(k as nat) <= 0x100_0000 * 128) by (nonlinear_arith)
                requires
                    m < 0x100_0000,
                    pow2(k as nat) <= 128,
            ;
            lemma_u64_shl_is_mul(m, k);
        }
        m << k
    } else {
        let k: u64 = (150 - e) as u64;
        proof {
            lemma_u64_shr_is_div(m, k);
        }
        m >> k
    };
    assert(t >= 0x8000_0000 ==> single_magnitude_trunc(e as nat, f as nat) >= 0x8000_0000);
    assert(t < 0x8000_0000 ==> single_magnitude_trunc(e as nat, f as nat) == t);
    if neg {
        if t >= 0x8000_0000 {
            i32::MIN
        } else {
            (0 - (t as i64)) as i32
        }
    } else {
        if t >= 0x7fff_ffff {
            i32::MAX
        } else {
            t as i32
        }
    }
}

/// The position of the highest bit set in `m`, for `m >= 1`.
pub open spec fn top_bit(m: nat) -> nat
    decreases m,
{
    if m <= 1 {
        0
    } else {
        1 + top_bit(m / 2)
    }
}

proof fn lemma_top_bit(m: nat)
    requires
        m >= 1,
    ensures
        pow2(top_bit(m)) <= m < pow2(top_bit(m) + 1),
    decreases m,
{
    lemma_pow2_unfold(top_bit(m) + 1);
    if m > 1 {
        lemma_top_bit(m / 2);
        lemma_pow2_unfold(top_bit(m / 2) + 1);
    } else {
        lemma2_to64();
    }
}

/// The significand and unbiased exponent `(q, x)` of the single-precision
/// value nearest to `m >= 1`, ties going to the even significand: the value is
/// `q * 2^(x - 23)` with `2^23 <= q < 2^24`.
pub open spec fn single_round(m: nat) -> (nat, nat) {
    let p = top_bit(m);
    if p <= 23 {
        (m * pow2((23 - p) as nat), p)
    } else {
        let k = (p - 23) as nat;
        let q0 = m / pow2(k);
        let r = m % pow2(k);
        let h = pow2((k - 1) as nat);
        let q = if r > h || (r == h && q0 % 2 == 1) {
            q0 + 1
        } else {
            q0
        };
        if q == 0x100_0000 {
            (0x80_0000, p + 1)
        } else {
            (q, p)
        }
    }
}

/// The bit pattern of the single-precision value that `n as f32` gives: the
/// value nearest to `n`, ties going to the even significand; zero is `+0.0`.
pub open spec fn i32_as_single(n: i32) -> u32 {
    if n == 0 {
        0
    } else {
        let m = (if n < 0 {
            0 - n
        } else {
            n as int
        }) as nat;
        let (q, x) = single_round(m);
        ((if n < 0 {
            0x8000_0000nat
        } else {
            0nat
        }) + (x + 127) * 0x80_0000 + (q - 0x80_0000)) as u32
    }
}

/// The bit pattern of `n` converted to single precision, as `as` does.
pub fn i32_to_single(n: i32) -> (r: u32)
    ensures
        r == i32_as_single(n),
{
    if n == 0 {
        return 0;
    }
    let neg = n < 0;
    let m: u64 = if neg {
        (0 - (n as i64)) as u64
    } else {
        n as u64
    };
    proof {
        lemma2_to64();
        lemma_top_bit(m as nat);
        if top_bit(m as nat) >= 32 {
            if top_bit(m as nat) > 32 {
                lemma_pow2_strictly_increases(32, top_bit(m as nat));
            }
            assert(false);
        }
    }
    let mut p: u64 = 0;
    let mut t: u64 = m;
    while t > 1
        invariant
            1 <= t <= m,
            m <= 0x8000_0000,
            top_bit(m as nat) <= 31,
            top_bit(m as nat) == p + top_bit(t as nat),
        decreases t,
    {
        t = t / 2;
        p = p + 1;
    }
    assert(p == top_bit(m as nat));
    let q: u64;
    let x: u64;
    if p <= 23 {
        let s: u64 = 23 - p;
        proof {
            lemma_pow2_adds(p as nat, s as nat);
            lemma_pow2_pos(s as nat);
            assert(m * pow2(s as nat) < pow2((p + 1) as nat) * pow2(s as nat)) by (nonlinear_arith)
                requires
                    m < pow2((p + 1) as nat),
                    pow2(s as nat) > 0,
            ;
            lemma_pow2_adds((p + 1) as nat, s as nat);
            assert(m * pow2(s as nat) >= pow2(p as nat) * pow2(s as nat)) by (nonlinear_arith)
                requires
                    m >= pow2(p as nat),
                    pow2(s as nat) > 0,
            ;
            lemma_u64_shl_is_mul(m, s);
        }
        q = m << s;
        x = p;
        assert(0x80_0000 <= q < 0x100_0000);
    } else {
        let k: u64 = p - 23;
        proof {
            lemma_u64_shl_is_mul(1, k);
            lemma_pow2_unfold(k as nat);
            lemma_pow2_adds(23, k as nat);
            lemma_pow2_adds(24, k as nat);
            lemma_pow2_pos(k as nat);
        }
        let d: u64 = 1u64 << k;
        let q0 = m / d;
        let r = m % d;
        let h = d / 2;
        proof {
            assert(q0 >= 0x80_0000) by {
                assert(0x80_0000 * d <= m);
                vstd::arithmetic::div_mod::lemma_div_is_ordered(0x80_0000 * d as int, m as int, d as int);
                vstd::arithmetic::div_mod::lemma_div_by_multiple(0x80_0000, d as int);
            }
            assert(q0 < 0x100_0000) by {
                vstd::arithmetic::div_mod::lemma_multiply_divide_lt(m as int, d as int, 0x100_0000);
            }
        }
        let q1 = if r > h || (r == h && q0 % 2 == 1) {
            q0 + 1
        } else {
            q0
        };
        if q1 == 0x100_0000 {
            q = 0x80_0000;
            x = p + 1;
        } else {
            q = q1;
            x = p;
        }
    }
    let sign: u64 = if neg {
        0x8000_0000
    } else {
        0
    };
    (sign + (x + 127) * 0x80_0000 + (q - 0x80_0000)) as u32
}

} // verus!
