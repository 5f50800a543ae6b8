//! A catalog of gates: each gate kind has a fixed boolean prefix selecting its
//! behaviour among the rows of the constant matrix, fixed wire-slot indices,
//! and a witness-generation rule. A gate instance acts as its own witness
//! generator; standalone generators derive inverses and bit decompositions.

use vstd::prelude::*;

verus! {

use crate::curve::{add_rel, dbl_rel};
use crate::field::{bit_of, fadd, fmul, fpow, Field, FIELD_ORDER};
use crate::target::{wire_ti, Target, NUM_ROUTED_WIRES, NUM_WIRES};

// Arithmetic gate slots: output = c0 * m0 * m1 + c1 * addend.
pub const WIRE_MULTIPLICAND_0: usize = 0;
pub const WIRE_MULTIPLICAND_1: usize = 1;
pub const WIRE_ADDEND: usize = 2;
pub const WIRE_OUTPUT: usize = 3;

// Buffer gate slot holding the configured constant, when one is configured.
pub const WIRE_BUFFER_CONST: usize = 5;

// Curve-addition gate slots. The new group accumulator appears on slots
// 0 and 1 of the following gate.
pub const WIRE_GROUP_ACC_X: usize = 0;
pub const WIRE_GROUP_ACC_Y: usize = 1;
pub const WIRE_SCALAR_ACC_OLD: usize = 2;
pub const WIRE_SCALAR_ACC_NEW: usize = 3;
pub const WIRE_ADDEND_X: usize = 4;
pub const WIRE_ADDEND_Y: usize = 5;
pub const WIRE_SCALAR_BIT: usize = 6;

// Curve-doubling gate slots.
pub const WIRE_X_OLD: usize = 0;
pub const WIRE_Y_OLD: usize = 1;
pub const WIRE_X_NEW: usize = 2;
pub const WIRE_Y_NEW: usize = 3;

// Sponge half-round gate slots.
pub const WIRE_INPUT_0: usize = 0;
pub const WIRE_INPUT_1: usize = 1;
pub const WIRE_INPUT_2: usize = 2;
pub const WIRE_OUTPUT_0: usize = 3;
pub const WIRE_OUTPUT_1: usize = 4;
pub const WIRE_OUTPUT_2: usize = 5;

/// The closed catalog of gate types.
#[derive(Copy, Clone, PartialEq, Eq, Debug, Structural)]
pub enum GateKind {
    /// `output = c0 * m0 * m1 + c1 * addend`.
    Arithmetic,
    /// A passthrough gate; pins its constant slot when one is configured.
    Buffer,
    /// Re-exposes its advice slots on the following gate's routed slots.
    PublicInput,
    /// One conditional curve addition step of a double-and-add schedule.
    CurveAdd,
    /// One curve doubling step.
    CurveDbl,
    /// First half-round of the algebraic sponge permutation.
    RescueA,
    /// Second half-round of the algebraic sponge permutation.
    RescueB,
}

impl GateKind {
    /// The boolean prefix of this gate's constant rows, as field values.
    pub open spec fn prefix_spec(self) -> Seq<int> {
        match self {
            GateKind::Arithmetic => seq![0, 0],
            GateKind::RescueA => seq![1, 0],
            GateKind::RescueB => seq![1, 1],
            GateKind::Buffer => seq![0, 1, 0, 0],
            GateKind::PublicInput => seq![0, 1, 0, 1],
            GateKind::CurveAdd => seq![0, 1, 1, 0],
            GateKind::CurveDbl => seq![0, 1, 1, 1],
        }
    }

    /// The prefix as concrete field elements.
    pub fn prefix(self) -> (r: Vec<Field>)
        ensures
            r@.len() == self.prefix_spec().len(),
            forall|j: int|
                0 <= j < r@.len() ==> (#[trigger] r@[j]).wf() && r@[j].as_int()
                    == self.prefix_spec()[j],
    {
        let mut r: Vec<Field> = Vec::new();
        match self {
            GateKind::Arithmetic => {
                r.push(Field::zero());
                r.push(Field::zero());
            },
            GateKind::RescueA => {
                r.push(Field::one());
                r.push(Field::zero());
            },
            GateKind::RescueB => {
                r.push(Field::one());
                r.push(Field::one());
            },
            GateKind::Buffer => {
                r.push(Field::zero());
                r.push(Field::one());
                r.push(Field::zero());
                r.push(Field::zero());
            },
            GateKind::PublicInput => {
                r.push(Field::zero());
                r.push(Field::one());
                r.push(Field::zero());
                r.push(Field::one());
            },
            GateKind::CurveAdd => {
                r.push(Field::zero());
                r.push(Field::one());
                r.push(Field::one());
                r.push(Field::zero());
            },
            GateKind::CurveDbl => {
                r.push(Field::zero());
                r.push(Field::one());
                r.push(Field::one());
                r.push(Field::one());
            },
        }
        r
    }
}

/// A deferred computation deriving target values from already-known ones.
/// Gates act as their own generators; the standalone variants derive a
/// multiplicative inverse and a binary decomposition.
pub enum WitnessGenerator {
    /// Gate number `index` derives its output wires from its input wires.
    Gate { index: usize, kind: GateKind },
    /// Derives `x_inv` as the multiplicative inverse of `x`.
    Inverse { x: Target, x_inv: Target },
    /// Derives `bits` as the canonical little-endian decomposition of `x`.
    Split { x: Target, bits: Vec<Target> },
}

/// The specification-level shape of a witness generator.
pub enum GenView {
    Gate { index: int, kind: GateKind },
    Inverse { x: Target, x_inv: Target },
    Split { x: Target, bits: Seq<Target> },
}

impl WitnessGenerator {
    pub open spec fn view(&self) -> GenView {
        match self {
            WitnessGenerator::Gate { index, kind } => GenView::Gate {
                index: *index as int,
                kind: *kind,
            },
            WitnessGenerator::Inverse { x, x_inv } => GenView::Inverse { x: *x, x_inv: *x_inv },
            WitnessGenerator::Split { x, bits } => GenView::Split { x: *x, bits: bits@ },
        }
    }
}

/// The value a witness assigns to a wire.
pub open spec fn wval(w: Map<Target, int>, g: int, s: int) -> int {
    w[wire_ti(g, s)]
}

/// Whether a witness assigns a wire at all.
pub open spec fn whas(w: Map<Target, int>, g: int, s: int) -> bool {
    w.contains_key(wire_ti(g, s))
}

/// The arithmetic gate: `output = c0 * m0 * m1 + c1 * addend`, with `c0`
/// and `c1` the two constants following the prefix.
pub open spec fn arith_holds(g: int, row: Seq<int>, w: Map<Target, int>) -> bool {
    &&& row.len() == 5
    &&& whas(w, g, 0) && whas(w, g, 1) && whas(w, g, 2) && whas(w, g, 3)
    &&& wval(w, g, 3) == fadd(
        fmul(row[2], fmul(wval(w, g, 0), wval(w, g, 1))),
        fmul(row[3], wval(w, g, 2)),
    )
}

/// The buffer gate pins its constant slot when a constant is configured.
pub open spec fn buffer_holds(g: int, row: Seq<int>, w: Map<Target, int>) -> bool {
    row.len() > 4 ==> whas(w, g, 5) && wval(w, g, 5) == row[4]
}

/// The public-input gate re-exposes its advice slots on the following
/// gate's routed slots, shifted down by `NUM_ROUTED_WIRES`.
pub open spec fn public_input_holds(g: int, w: Map<Target, int>) -> bool {
    forall|s: int|
        NUM_ROUTED_WIRES <= s < NUM_WIRES ==> whas(w, g, s) && whas(
            w,
            g + 1,
            s - NUM_ROUTED_WIRES,
        ) && wval(w, g + 1, s - NUM_ROUTED_WIRES) == #[trigger] wval(w, g, s)
}

/// One conditional curve addition: the scalar accumulator is doubled and
/// takes the bit in; the group accumulator, carried on to the next gate's
/// first two slots, takes the addend in exactly when the bit is set.
pub open spec fn curve_add_holds(g: int, w: Map<Target, int>) -> bool {
    &&& whas(w, g, 0) && whas(w, g, 1) && whas(w, g, 2) && whas(w, g, 3) && whas(w, g, 4) && whas(
        w,
        g,
        5,
    ) && whas(w, g, 6)
    &&& whas(w, g + 1, 0) && whas(w, g + 1, 1)
    &&& wval(w, g, 3) == fadd(fmul(2, wval(w, g, 2)), wval(w, g, 6))
    &&& (wval(w, g, 6) == 0 || wval(w, g, 6) == 1)
    &&& (wval(w, g, 6) == 0 ==> wval(w, g + 1, 0) == wval(w, g, 0) && wval(w, g + 1, 1) == wval(
        w,
        g,
        1,
    ))
    &&& (wval(w, g, 6) == 1 ==> add_rel(
        wval(w, g, 0),
        wval(w, g, 1),
        wval(w, g, 4),
        wval(w, g, 5),
        wval(w, g + 1, 0),
        wval(w, g + 1, 1),
    ))
}

/// One curve doubling in affine coordinates.
pub open spec fn curve_dbl_holds(g: int, w: Map<Target, int>) -> bool {
    &&& whas(w, g, 0) && whas(w, g, 1) && whas(w, g, 2) && whas(w, g, 3)
    &&& dbl_rel(wval(w, g, 0), wval(w, g, 1), wval(w, g, 2), wval(w, g, 3))
}

/// One output slot of a sponge half-round on a width-3 state: the slot takes
/// the state total in, is raised to the fifth power, and takes its round
/// constant in.
pub open spec fn rescue_out(s0: int, s1: int, s2: int, si: int, c: int) -> int {
    fadd(fpow(fadd(fadd(fadd(s0, s1), s2), si), 5), c)
}

pub open spec fn rescue_holds(g: int, row: Seq<int>, w: Map<Target, int>) -> bool {
    &&& row.len() == 5
    &&& whas(w, g, 0) && whas(w, g, 1) && whas(w, g, 2) && whas(w, g, 3) && whas(w, g, 4) && whas(
        w,
        g,
        5,
    )
    &&& wval(w, g, 3) == rescue_out(wval(w, g, 0), wval(w, g, 1), wval(w, g, 2), wval(w, g, 0), row[2])
    &&& wval(w, g, 4) == rescue_out(wval(w, g, 0), wval(w, g, 1), wval(w, g, 2), wval(w, g, 1), row[3])
    &&& wval(w, g, 5) == rescue_out(wval(w, g, 0), wval(w, g, 1), wval(w, g, 2), wval(w, g, 2), row[4])
}

/// What it means for a witness to be consistent with one generator, over
/// the circuit's gate-constant rows.
pub open spec fn gen_holds(g: GenView, consts: Seq<Seq<int>>, w: Map<Target, int>) -> bool {
    match g {
        GenView::Gate { index, kind } => 0 <= index < consts.len() && match kind {
            GateKind::Arithmetic => arith_holds(index, consts[index], w),
            GateKind::Buffer => buffer_holds(index, consts[index], w),
            GateKind::PublicInput => public_input_holds(index, w),
            GateKind::CurveAdd => curve_add_holds(index, w),
            GateKind::CurveDbl => curve_dbl_holds(index, w),
            GateKind::RescueA => rescue_holds(index, consts[index], w),
            GateKind::RescueB => rescue_holds(index, consts[index], w),
        },
        GenView::Inverse { x, x_inv } => w.contains_key(x) && w.contains_key(x_inv) && fmul(
            w[x],
            w[x_inv],
        ) == 1,
        GenView::Split { x, bits } => w.contains_key(x) && forall|i: int|
            0 <= i < bits.len() ==> w.contains_key(#[trigger] bits[i]) && w[bits[i]] == bit_of(
                w[x],
                i as nat,
            ),
    }
}

/// Number of rounds of the sponge permutation; each round is one A and one
/// B half-round gate.
pub const RESCUE_ROUNDS: usize = 8;

/// Round constants, derived deterministically from the round index.
pub open spec fn rescue_const(k: int) -> int {
    k % (FIELD_ORDER as int)
}

/// The three A-half-round constants of round `r`.
pub open spec fn rescue_a_consts(r: int) -> Seq<int> {
    seq![rescue_const(6 * r + 1), rescue_const(6 * r + 2), rescue_const(6 * r + 3)]
}

/// The three B-half-round constants of round `r`.
pub open spec fn rescue_b_consts(r: int) -> Seq<int> {
    seq![rescue_const(6 * r + 4), rescue_const(6 * r + 5), rescue_const(6 * r + 6)]
}

fn rescue_const_exec(k: u64) -> (r: Field)
    ensures
        r.wf(),
        r.as_int() == rescue_const(k as int),
{
    Field::from_canonical_u64(k)
}

/// The round constants of every permutation round, derived from the round
/// index alone, for the given state width.
pub fn generate_rescue_constants(width: usize) -> (r: Vec<(Vec<Field>, Vec<Field>)>)
    requires
        width == 3,
    ensures
        r@.len() == RESCUE_ROUNDS as int,
        forall|i: int|
            0 <= i < RESCUE_ROUNDS as int ==> {
                &&& (#[trigger] r@[i]).0@.len() == 3
                &&& r@[i].1@.len() == 3
                &&& (forall|j: int|
                    0 <= j < 3 ==> (#[trigger] r@[i].0@[j]).wf() && r@[i].0@[j].as_int()
                        == rescue_a_consts(i)[j])
                &&& (forall|j: int|
                    0 <= j < 3 ==> (#[trigger] r@[i].1@[j]).wf() && r@[i].1@[j].as_int()
                        == rescue_b_consts(i)[j])
            },
{
    let mut r: Vec<(Vec<Field>, Vec<Field>)> = Vec::new();
    let mut i: usize = 0;
    while i < RESCUE_ROUNDS
        invariant
            i <= RESCUE_ROUNDS,
            r@.len() == i as int,
            forall|q: int|
                0 <= q < i as int ==> {
                    &&& (#[trigger] r@[q]).0@.len() == 3
                    &&& r@[q].1@.len() == 3
                    &&& (forall|j: int|
                        0 <= j < 3 ==> (#[trigger] r@[q].0@[j]).wf() && r@[q].0@[j].as_int()
                            == rescue_a_consts(q)[j])
                    &&& (forall|j: int|
                        0 <= j < 3 ==> (#[trigger] r@[q].1@[j]).wf() && r@[q].1@[j].as_int()
                            == rescue_b_consts(q)[j])
                },
        decreases RESCUE_ROUNDS - i,
    {
        let base: u64 = 6 * (i as u64);
        let mut a: Vec<Field> = Vec::new();
        a.push(rescue_const_exec(base + 1));
        a.push(rescue_const_exec(base + 2));
        a.push(rescue_const_exec(base + 3));
        let mut b: Vec<Field> = Vec::new();
        b.push(rescue_const_exec(base + 4));
        b.push(rescue_const_exec(base + 5));
        b.push(rescue_const_exec(base + 6));
        r.push((a, b));
        i = i + 1;
    }
    r
}


/// One full permutation round on a width-3 state: an A half-round followed
/// by a B half-round, each with its own constants.
pub open spec fn rescue_round_vals(
    s0: int,
    s1: int,
    s2: int,
    a0: int,
    a1: int,
    a2: int,
    b0: int,
    b1: int,
    b2: int,
) -> (int, int, int) {
    let t0 = rescue_out(s0, s1, s2, s0, a0);
    let t1 = rescue_out(s0, s1, s2, s1, a1);
    let t2 = rescue_out(s0, s1, s2, s2, a2);
    (
        rescue_out(t0, t1, t2, t0, b0),
        rescue_out(t0, t1, t2, t1, b1),
        rescue_out(t0, t1, t2, t2, b2),
    )
}

/// The state after the first `n` permutation rounds.
pub open spec fn rescue_perm_upto(s: (int, int, int), n: nat) -> (int, int, int)
    decreases n,
{
    if n == 0 {
        s
    } else {
        let p = rescue_perm_upto(s, (n - 1) as nat);
        let r = n - 1;
        rescue_round_vals(
            p.0,
            p.1,
            p.2,
            rescue_const(6 * r + 1),
            rescue_const(6 * r + 2),
            rescue_const(6 * r + 3),
            rescue_const(6 * r + 4),
            rescue_const(6 * r + 5),
            rescue_const(6 * r + 6),
        )
    }
}

/// The full fixed permutation.
pub open spec fn rescue_perm(s: (int, int, int)) -> (int, int, int) {
    rescue_perm_upto(s, RESCUE_ROUNDS as nat)
}

/// Absorption: each chunk of up to two values is added elementwise into the
/// two rate slots (the capacity slot is never touched), and the permutation
/// is applied once per chunk.
pub open spec fn sponge_absorb(vals: Seq<int>, st: (int, int, int)) -> (int, int, int)
    decreases vals.len(),
{
    if vals.len() == 0 {
        st
    } else if vals.len() == 1 {
        rescue_perm((fadd(st.0, vals[0]), st.1, st.2))
    } else {
        sponge_absorb(
            vals.skip(2),
            rescue_perm((fadd(st.0, vals[0]), fadd(st.1, vals[1]), st.2)),
        )
    }
}

/// The permutation applied `m` times.
pub open spec fn perm_iter(st: (int, int, int), m: nat) -> (int, int, int)
    decreases m,
{
    if m == 0 {
        st
    } else {
        rescue_perm(perm_iter(st, (m - 1) as nat))
    }
}

/// Squeezing: output `k` reads rate slot `k % 2` of the absorbed state after
/// `k / 2` further permutations, so the permutation is re-applied only once
/// both rate slots of the current state are consumed.
pub open spec fn sponge_output(vals: Seq<int>, k: nat) -> int {
    let st = perm_iter(sponge_absorb(vals, (0, 0, 0)), k / 2);
    if k % 2 == 0 {
        st.0
    } else {
        st.1
    }
}

} // verus!
