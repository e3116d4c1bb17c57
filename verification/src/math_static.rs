//! Numeric helpers and identifier generation for scene objects.

use vstd::prelude::*;

verus! {

/// The `uuid` crate's identifier type, used opaquely for object identity.
#[verifier::external_type_specification]
#[verifier::external_body]
pub struct ExUuid(uuid::Uuid);

/// Relies on `uuid::Uuid::new_v4`: a freshly generated random identifier.
/// Nothing is assumed of the value; distinctness is only probabilistic.
#[allow(non_snake_case)]
#[verifier::external_body]
pub fn generate_UUID() -> uuid::Uuid {
    uuid::Uuid::new_v4()
}

/// Relies on `uuid::Uuid::new_v4` and `uuid::Uuid::as_u128`: a fresh random
/// identifier read as its 128-bit big-endian value.  `new_v4` fixes the
/// version nibble to 4 and the variant bits to `10`; everything else is
/// random, so nothing more is assumed.
#[verifier::external_body]
pub(crate) fn fresh_object_id() -> (r: u128)
    ensures
        (r >> 76) & 0xf == 4,
        (r >> 62) & 0x3 == 2,
{
    uuid::Uuid::new_v4().as_u128()
}

/// 2 to the power `k`.
pub open spec fn pow2(k: nat) -> nat
    decreases k,
{
    if k == 0 {
        1
    } else {
        2 * pow2((k - 1) as nat)
    }
}

/// No perfect square is twice a power of four; equivalently, `2` times the
/// square of a power of two is never itself a square.
proof fn lemma_square_ne_twice_pow2_square(v: int, k: nat)
    requires
        v >= 0,
    ensures
        v * v != 2 * pow2(k) * pow2(k),
    decreases k,
{
    let p = pow2(k) as int;
    assert(2 * p * p == 2 * (p * p)) by (nonlinear_arith);
    if k == 0 {
        if v * v == 2 {
            assert(0 <= v <= 1 ==> v * v <= 1) by (nonlinear_arith);
            assert(v >= 2 ==> v * v >= 4) by (nonlinear_arith);
            assert(false);
        }
    } else {
        if v * v == 2 * (p * p) {
            // v * v is even, so v is even; halving both sides recurses.
            if v % 2 != 0 {
                let w = v / 2;
                assert(v == 2 * w + 1);
                assert((2 * w + 1) * (2 * w + 1) == 4 * (w * w + w) + 1) by (nonlinear_arith);
                assert(4 * (w * w + w) + 1 != 2 * (p * p));
                assert(false);
            }
            let w = v / 2;
            let q = pow2((k - 1) as nat) as int;
            assert(p == 2 * q);
            assert(v == 2 * w);
            assert((2 * w) * (2 * w) == 4 * (w * w)) by (nonlinear_arith);
            assert((2 * q) * (2 * q) == 4 * (q * q)) by (nonlinear_arith);
            assert(4 * (w * w) == 2 * (4 * (q * q)));
            assert(w * w == 2 * (q * q));
            assert(2 * (q * q) == 2 * q * q) by (nonlinear_arith);
            lemma_square_ne_twice_pow2_square(w, (k - 1) as nat);
            assert(false);
        }
    }
}

/// The power of two nearest to `value` on a logarithmic scale: the result
/// `r` is the unique power of two with `r * r < 2 * value * value` and
/// `value * value < 2 * r * r`.  A `value` of zero maps to 1.  The bound on
/// `value` keeps the result within 32 bits.
pub fn nearest_power_of_two(value: u32) -> (r: u32)
    requires
        (value as int) * (value as int) < 0x8000_0000_0000_0000,
    ensures
        exists|k: nat| r == pow2(k),
        value == 0 ==> r == 1,
        value > 0 ==> (r as int) * (r as int) < 2 * (value as int) * (value as int),
        value > 0 ==> (value as int) * (value as int) < 2 * (r as int) * (r as int),
{
    if value == 0 {
        proof {
            assert(pow2(0) == 1);
        }
        return 1;
    }
    let mut p: u32 = 1;
    let ghost mut k: nat = 0;
    while p <= value / 2
        invariant
            1 <= p <= value,
            value >= 1,
            p == pow2(k),
        decreases value - p,
    {
        proof {
            assert(pow2(k + 1) == 2 * pow2(k));
            k = k + 1;
        }
        p = p * 2;
    }
    // Now p <= value < 2 * p; pick whichever of p and 2p is nearer in log scale.
    let ghost vi = value as int;
    let ghost pi = p as int;
    proof {
        assert(vi * vi < 0xffff_ffff_ffff_ffff) by (nonlinear_arith)
            requires
                0 <= vi < 0x1_0000_0000,
        ;
        assert(pi * pi <= vi * vi) by (nonlinear_arith)
            requires
                0 <= pi <= vi,
        ;
    }
    let vv: u64 = (value as u64) * (value as u64);
    let pp: u64 = (p as u64) * (p as u64);
    proof {
        assert(vv == vi * vi);
        assert(pp == pi * pi);
        assert(value < 2 * p);
        assert(vi * vi < (2 * pi) * (2 * pi)) by (nonlinear_arith)
            requires
                0 <= vi < 2 * pi,
        ;
    }
    if vv < 2 * pp {
        proof {
            assert(vi * vi >= 1) by (nonlinear_arith)
                requires
                    vi >= 1,
            ;
            assert(2 * vi * vi == 2 * (vi * vi)) by (nonlinear_arith);
            assert(2 * pi * pi == 2 * (pi * pi)) by (nonlinear_arith);
            assert(pi * pi < 2 * (vi * vi));
            assert(vi * vi < 2 * (pi * pi));
        }
        p
    } else {
        proof {
            lemma_square_ne_twice_pow2_square(vi, k);
            assert(vi * vi != 2 * pow2(k) * pow2(k));
            assert(2 * pow2(k) * pow2(k) == 2 * (pi * pi)) by (nonlinear_arith)
                requires
                    pow2(k) == pi && pi >= 0,
            ;
            assert(vi * vi > 2 * (pi * pi));
            assert(pow2(k + 1) == 2 * pow2(k));
            let di = 2 * pi;
            assert(di * di == 4 * (pi * pi)) by (nonlinear_arith)
                requires
                    di == 2 * pi,
            ;
            assert(2 * vi * vi == 2 * (vi * vi)) by (nonlinear_arith);
            assert(2 * di * di == 2 * (di * di)) by (nonlinear_arith);
            assert(di * di < 2 * (vi * vi));
            assert(vi * vi < (2 * pi) * (2 * pi)) by (nonlinear_arith)
                requires
                    0 <= vi < 2 * pi,
            ;
            assert(vi * vi < 2 * (di * di));
            // The doubled candidate still fits in 32 bits.
            assert(2 * (pi * pi) < 0x8000_0000_0000_0000);
            assert(pi < 0x8000_0000) by (nonlinear_arith)
                requires
                    pi >= 1 && pi * pi < 0x4000_0000_0000_0000,
            ;
        }
        2 * p
    }
}

} // verus!
