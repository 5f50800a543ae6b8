//! A concrete short-Weierstrass curve `y^2 = x^3 + CURVE_B` over the field,
//! supplying the primitive interface the gadgets consume: a fixed base point,
//! doubling and addition in affine coordinates, and an endomorphism constant.

use vstd::prelude::*;

verus! {

use crate::field::{fadd, fmul, fneg, fsub, fwf, Field, FIELD_ORDER};

/// The constant term of the curve equation.
pub const CURVE_B: u64 = 3;

/// A cube root of unity: `(x, y) -> (ZETA * x, y)` is an endomorphism of the
/// curve.
pub const ZETA: u64 = 1513477735;

/// Whether `(x, y)` satisfies the curve equation.
pub open spec fn on_curve(x: int, y: int) -> bool {
    fmul(y, y) == fadd(fmul(fmul(x, x), x), CURVE_B as int)
}

/// The doubling relation in affine coordinates, witnessed by the tangent
/// slope.
pub open spec fn dbl_rel_with(lam: int, x: int, y: int, x2: int, y2: int) -> bool {
    &&& fwf(lam)
    &&& fmul(lam, fmul(2, y)) == fmul(3, fmul(x, x))
    &&& x2 == fsub(fmul(lam, lam), fmul(2, x))
    &&& y2 == fsub(fmul(lam, fsub(x, x2)), y)
}

/// The doubling relation with the slope abstracted away.
pub open spec fn dbl_rel(x: int, y: int, x2: int, y2: int) -> bool {
    exists|lam: int| dbl_rel_with(lam, x, y, x2, y2)
}

/// The chord-addition relation in affine coordinates, witnessed by the chord
/// slope.
pub open spec fn add_rel_with(
    lam: int,
    x1: int,
    y1: int,
    x2: int,
    y2: int,
    x3: int,
    y3: int,
) -> bool {
    &&& fwf(lam)
    &&& fmul(lam, fsub(x2, x1)) == fsub(y2, y1)
    &&& x3 == fsub(fsub(fmul(lam, lam), x1), x2)
    &&& y3 == fsub(fmul(lam, fsub(x1, x3)), y1)
}

/// The chord-addition relation with the slope abstracted away.
pub open spec fn add_rel(x1: int, y1: int, x2: int, y2: int, x3: int, y3: int) -> bool {
    exists|lam: int| add_rel_with(lam, x1, y1, x2, y2, x3, y3)
}

/// `q` is a doubling of `p` in the sense of `AffinePoint::double`'s
/// contract: a nonzero result satisfies the doubling relation, and the
/// identity only ever doubles to itself.
pub open spec fn dbl_step_ok(p: AffinePoint, q: AffinePoint) -> bool {
    &&& q.wf()
    &&& (!q.zero ==> !p.zero && dbl_rel(p.x.as_int(), p.y.as_int(), q.x.as_int(), q.y.as_int()))
    &&& (p.zero ==> q.zero)
}

/// Each point of the sequence is a doubling of the one before it.
pub open spec fn dbl_chain(chain: Seq<AffinePoint>) -> bool {
    forall|i: int| 0 <= i < chain.len() - 1 ==> dbl_step_ok(#[trigger] chain[i], chain[i + 1])
}

/// Extending a doubling chain by one valid doubling step keeps it a chain.
pub proof fn lemma_dbl_chain_push(prev: Seq<AffinePoint>, q: AffinePoint)
    requires
        dbl_chain(prev),
        prev.len() > 0,
        q.wf(),
        !q.zero ==> !prev.last().zero && dbl_rel(
            prev.last().x.as_int(),
            prev.last().y.as_int(),
            q.x.as_int(),
            q.y.as_int(),
        ),
        prev.last().zero ==> q.zero,
    ensures
        dbl_chain(prev.push(q)),
{
    let chain = prev.push(q);
    assert forall|i: int| 0 <= i < chain.len() - 1 implies dbl_step_ok(
        #[trigger] chain[i],
        chain[i + 1],
    ) by {
        if i < prev.len() - 1 {
            assert(chain[i] == prev[i] && chain[i + 1] == prev[i + 1]);
            assert(dbl_step_ok(prev[i], prev[i + 1]));
        } else {
            assert(chain[i] == prev.last());
        }
    }
}

/// A doubling chain of length `n + 1` from the base point.
pub open spec fn base_dbl_chain(chain: Seq<AffinePoint>, n: int) -> bool {
    &&& chain.len() == n + 1
    &&& chain[0].wf()
    &&& !chain[0].zero
    &&& chain[0].x.as_int() == 1
    &&& chain[0].y.as_int() == 2
    &&& dbl_chain(chain)
}

/// An elliptic-curve point in affine coordinates, or the identity when
/// `zero` is set (the coordinates are then meaningless).
#[derive(Copy, Clone, PartialEq, Eq, Debug, Structural)]
pub struct AffinePoint {
    pub x: Field,
    pub y: Field,
    pub zero: bool,
}

impl AffinePoint {
    /// Canonical coordinates.
    pub open spec fn wf(self) -> bool {
        self.x.wf() && self.y.wf()
    }

    /// The identity of the curve group.
    pub fn identity() -> (r: AffinePoint)
        ensures
            r.wf(),
            r.zero,
    {
        AffinePoint { x: Field::zero(), y: Field::zero(), zero: true }
    }

    /// A fixed base point of the curve.
    pub fn generator_affine() -> (r: AffinePoint)
        ensures
            r.wf(),
            !r.zero,
            r.x.as_int() == 1,
            r.y.as_int() == 2,
            on_curve(r.x.as_int(), r.y.as_int()),
    {
        let r = AffinePoint {
            x: Field { value: 1 },
            y: Field { value: 2 },
            zero: false,
        };
        proof {
            assert(on_curve(1, 2));
        }
        r
    }

    /// Double a point in affine coordinates. When the tangent is vertical
    /// (or the point is the identity, or the slope denominator admits no
    /// inverse) the result is the identity.
    pub fn double(&self) -> (r: AffinePoint)
        requires
            self.wf(),
        ensures
            r.wf(),
            !r.zero ==> !self.zero && dbl_rel(
                self.x.as_int(),
                self.y.as_int(),
                r.x.as_int(),
                r.y.as_int(),
            ),
            self.zero ==> r.zero,
    {
        if self.zero || self.y.is_zero() {
            return AffinePoint::identity();
        }
        let two = Field::from_canonical_u64(2);
        let three = Field::from_canonical_u64(3);
        let denom = two.mul(self.y);
        match denom.multiplicative_inverse() {
            None => AffinePoint::identity(),
            Some(inv) => {
                let lam = three.mul(self.x).mul(self.x).mul(inv);
                let x2 = lam.mul(lam).sub(two.mul(self.x));
                let y2 = lam.mul(self.x.sub(x2)).sub(self.y);
                proof {
                    let l = lam.as_int();
                    let d = denom.as_int();
                    // lam * (2y) == 3x^2: multiply the inverse equation through.
                    crate::field::lemma_fmul_assoc(
                        fmul(fmul(3, self.x.as_int()), self.x.as_int()),
                        inv.as_int(),
                        d,
                    );
                    crate::field::lemma_fmul_comm(inv.as_int(), d);
                    crate::field::lemma_fmul_one_right(
                        fmul(fmul(3, self.x.as_int()), self.x.as_int()),
                    );
                    crate::field::lemma_fmul_assoc(3, self.x.as_int(), self.x.as_int());
                    assert(fmul(l, d) == fmul(3, fmul(self.x.as_int(), self.x.as_int())));
                    assert(dbl_rel_with(
                        l,
                        self.x.as_int(),
                        self.y.as_int(),
                        x2.as_int(),
                        y2.as_int(),
                    ));
                }
                AffinePoint { x: x2, y: y2, zero: false }
            },
        }
    }

    /// Add two points in affine coordinates by the chord law. Exceptional
    /// configurations (either operand the identity, or equal abscissae)
    /// are resolved as the group law requires, falling back to doubling or
    /// the identity.
    pub fn add(&self, rhs: &AffinePoint) -> (r: AffinePoint)
        requires
            self.wf(),
            rhs.wf(),
        ensures
            r.wf(),
            self.zero ==> r == *rhs,
            rhs.zero && !self.zero ==> r == *self,
            !self.zero && !rhs.zero && self.x.as_int() != rhs.x.as_int() && !r.zero ==> add_rel(
                self.x.as_int(),
                self.y.as_int(),
                rhs.x.as_int(),
                rhs.y.as_int(),
                r.x.as_int(),
                r.y.as_int(),
            ),
    {
        if self.zero {
            return *rhs;
        }
        if rhs.zero {
            return *self;
        }
        if self.x.value == rhs.x.value {
            if self.y.value == rhs.y.value {
                return self.double();
            }
            return AffinePoint::identity();
        }
        let dx = rhs.x.sub(self.x);
        let dy = rhs.y.sub(self.y);
        match dx.multiplicative_inverse() {
            None => AffinePoint::identity(),
            Some(inv) => {
                let lam = dy.mul(inv);
                let x3 = lam.mul(lam).sub(self.x).sub(rhs.x);
                let y3 = lam.mul(self.x.sub(x3)).sub(self.y);
                proof {
                    let l = lam.as_int();
                    let d = dx.as_int();
                    crate::field::lemma_fmul_assoc(dy.as_int(), inv.as_int(), d);
                    crate::field::lemma_fmul_comm(inv.as_int(), d);
                    crate::field::lemma_fmul_one_right(dy.as_int());
                    assert(fmul(l, d) == dy.as_int());
                    assert(add_rel_with(
                        l,
                        self.x.as_int(),
                        self.y.as_int(),
                        rhs.x.as_int(),
                        rhs.y.as_int(),
                        x3.as_int(),
                        y3.as_int(),
                    ));
                }
                AffinePoint { x: x3, y: y3, zero: false }
            },
        }
    }

    /// The inverse of a point: the reflection across the x-axis.
    pub fn neg(&self) -> (r: AffinePoint)
        requires
            self.wf(),
        ensures
            r.wf(),
            r.zero == self.zero,
            r.x == self.x,
            r.y.as_int() == fneg(self.y.as_int()),
    {
        AffinePoint { x: self.x, y: self.y.neg(), zero: self.zero }
    }
}

} // verus!
