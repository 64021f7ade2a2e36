//! The scatter sampler: a fixed list of unit-length offset vectors,
//! drawn once and reused for every scatter event of every pixel.

use crate::fixed::{
    is_sqrt, isqrt_i128, lemma_mul_bound, lemma_sqrt_floor_le, mul_wide, SCALE,
};
use crate::vector::{norm2, Vec3, Vector};
use vstd::prelude::*;

verus! {

/// The vector is a unit vector up to the fixed-point quantum: each
/// component is within `SCALE` and the squared raw magnitude is within
/// `SCALE` of `SCALE * SCALE`.
pub open spec fn near_unit(v: Vec3) -> bool {
    &&& -SCALE <= v.x <= SCALE
    &&& -SCALE <= v.y <= SCALE
    &&& -SCALE <= v.z <= SCALE
    &&& SCALE as int * SCALE as int - SCALE <= norm2(v) <= SCALE as int * SCALE as int + SCALE
}

/// Relies on `rand::random_range`: a draw from a nonempty inclusive
/// range lies inside that range.
#[verifier::external_body]
fn random_in_range(lo: i64, hi: i64) -> (r: i64)
    requires
        lo <= hi,
    ensures
        lo <= r <= hi,
{
    rand::random_range(lo..=hi)
}

/// Relies on `rand::random`: a fair coin flip; nothing is assumed of the
/// outcome.
#[verifier::external_body]
fn random_sign() -> bool {
    rand::random()
}

/// The precomputed list of scatter offsets.
pub struct Lambertian {
    pub vectors: Vec<Vector>,
}

/// Every stored offset is a unit vector up to the quantum.
pub open spec fn wf_lambertian(l: Lambertian) -> bool {
    forall|k: int| 0 <= k < l.vectors@.len() ==> near_unit(#[trigger] l.vectors@[k]@)
}

impl Lambertian {
    /// Draw `num_of_vectors` offsets: `x` uniform across the unit range,
    /// `y` uniform across what the unit magnitude leaves for it, and `z`
    /// the remaining magnitude with a coin-flipped sign.  Every offset
    /// has unit magnitude up to the fixed-point quantum.
    pub fn new(num_of_vectors: usize) -> (l: Lambertian)
        ensures
            l.vectors@.len() == num_of_vectors,
            wf_lambertian(l),
    {
        let mut vectors: Vec<Vector> = Vec::new();
        let ss: i128 = (SCALE as i128) * (SCALE as i128);
        let mut idx: usize = 0;
        while idx < num_of_vectors
            invariant
                vectors@.len() == idx,
                0 <= idx <= num_of_vectors,
                ss == SCALE as int * SCALE as int,
                forall|k: int| 0 <= k < vectors@.len() ==> near_unit(#[trigger] vectors@[k]@),
            decreases num_of_vectors - idx,
        {
            let x = random_in_range(-SCALE, SCALE);
            let xx = mul_wide(x, x);
            proof {
                lemma_mul_bound(x as int, x as int, SCALE as int, SCALE as int);
                assert(0 <= x as int * x as int) by (nonlinear_arith);
            }
            let y_bound = isqrt_i128(ss - xx);
            proof {
                lemma_sqrt_floor_le(ss - xx, SCALE as int);
            }
            let y = random_in_range(-(y_bound as i64), y_bound as i64);
            let yy = mul_wide(y, y);
            proof {
                lemma_mul_bound(y as int, y as int, y_bound as int, y_bound as int);
                assert(0 <= y as int * y as int) by (nonlinear_arith);
                assert(y_bound as int * y_bound as int <= ss - xx);
            }
            let rem = ss - xx - yy;
            let z0 = isqrt_i128(rem);
            proof {
                lemma_sqrt_floor_le(rem as int, SCALE as int);
            }
            let diff = rem - z0 * z0;
            let z: i64 = if diff > z0 {
                proof {
                    assert(z0 < SCALE) by (nonlinear_arith)
                        requires
                            is_sqrt(rem as int, z0 as int) && rem <= ss && ss == SCALE as int
                                * SCALE as int && rem - z0 as int * z0 as int > z0 && SCALE
                                > 0;
                }
                (z0 + 1) as i64
            } else {
                z0 as i64
            };
            let z_signed: i64 = if random_sign() {
                z
            } else {
                -z
            };
            let v = Vector { x, y, z: z_signed };
            proof {
                assert(near_unit(v@)) by (nonlinear_arith)
                    requires
                        v@.x == x as int && v@.y == y as int && v@.z == z_signed as int
                            && (z_signed == z || z_signed == -z) && is_sqrt(
                            rem as int,
                            z0 as int,
                        ) && rem == ss - x as int * x as int - y as int * y as int && ss
                            == SCALE as int * SCALE as int && -SCALE <= x <= SCALE && 0 <= rem
                            && z0 <= SCALE && (if rem - z0 as int * z0 as int > z0 {
                            z == z0 + 1 && z0 < SCALE
                        } else {
                            z == z0
                        }) && -(y_bound as int) <= y <= y_bound as int && y_bound <= SCALE
                            && SCALE > 0;
            }
            vectors.push(v);
            idx = idx + 1;
        }
        Lambertian { vectors }
    }

    /// The shared offset list.
    pub fn get_offsets(&self) -> (r: &Vec<Vector>)
        ensures
            r@ == self.vectors@,
    {
        &self.vectors
    }
}

} // verus!
