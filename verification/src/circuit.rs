//! The finished circuit: gate-constant matrix, resolved routing partitions
//! and generator list, plus witness generation. Generation runs the
//! generators to a fixed point, propagating values across routing classes,
//! and then checks the result, so a returned witness provably satisfies the
//! circuit.

use vstd::prelude::*;

verus! {

use crate::builder::{constraint_ok, rows_view};
use crate::curve::{add_rel_with, dbl_rel_with};
use crate::field::{fadd, fmul, fwf, Field};
use crate::gates::{
    arith_holds, buffer_holds, curve_add_holds, curve_dbl_holds, gen_holds, public_input_holds,
    rescue_holds, GateKind, GenView, WitnessGenerator,
};
use crate::partitions::RoutingTargetPartitions;
use crate::target::{wire_ti, Target, Wire, NUM_ROUTED_WIRES, NUM_WIRES};
use crate::witness::{witness_wf, PartialWitness, Witness};

/// Why witness generation failed.
#[derive(Copy, Clone, PartialEq, Eq, Debug, Structural)]
pub enum WitnessError {
    /// Two routes force different values onto one target.
    Conflict,
    /// The fixed point was reached with constrained targets still
    /// unassigned: the circuit is under-constrained.
    Stalled,
    /// A multiplicative-inverse generator met an input with no inverse.
    InverseOfZero,
    /// A gate's witness rule cannot be met (an exceptional curve
    /// configuration, a non-boolean scalar bit, or a malformed row).
    UnsatisfiableGate,
}

/// The immutable output of `build`. The copy constraints are kept beside
/// their resolution into partitions: they are what a witness is checked
/// against, while the partitions serve routing and value propagation.
pub struct Circuit {
    pub gate_constants: Vec<Vec<Field>>,
    pub routing_target_partitions: RoutingTargetPartitions,
    pub copy_constraints: Vec<(Target, Target)>,
    pub generators: Vec<WitnessGenerator>,
}

impl Circuit {
    /// The constant matrix as canonical representatives.
    pub open spec fn rows(&self) -> Seq<Seq<int>> {
        rows_view(self.gate_constants@)
    }

    /// The generator list, specification-level.
    pub open spec fn gens(&self) -> Seq<GenView> {
        self.generators@.map(|i: int, g: WitnessGenerator| g@)
    }

    /// Structural consistency of the finished circuit.
    pub open spec fn wf(&self) -> bool {
        &&& self.routing_target_partitions.wf()
        &&& forall|i: int, j: int|
            0 <= i < self.rows().len() && 0 <= j < (#[trigger] self.rows()[i]).len() ==> fwf(
                #[trigger] self.rows()[i][j],
            )
    }

    /// A witness satisfies the circuit when it is canonical, meets every
    /// recorded copy constraint, and is consistent with every generator.
    pub open spec fn satisfied_by(&self, w: Map<Target, int>) -> bool {
        &&& witness_wf(w)
        &&& forall|k: int|
            0 <= k < self.copy_constraints@.len() ==> constraint_ok(
                #[trigger] self.copy_constraints@[k],
                w,
            )
        &&& forall|k: int|
            0 <= k < self.gens().len() ==> gen_holds(#[trigger] self.gens()[k], self.rows(), w)
    }

    /// Number of gates.
    pub fn num_gates(&self) -> (r: usize)
        ensures
            r as int == self.rows().len(),
    {
        self.gate_constants.len()
    }

    /// One constant of one row, as a well-formed field element.
    fn row_const(&self, g: usize, j: usize) -> (r: Field)
        requires
            self.wf(),
            (g as int) < self.rows().len(),
            (j as int) < self.rows()[g as int].len(),
        ensures
            r.wf(),
            r.as_int() == self.rows()[g as int][j as int],
    {
        proof {
            assert(self.rows()[g as int] == crate::builder::field_vals(
                self.gate_constants@[g as int]@,
            ));
            assert(self.rows()[g as int][j as int] == self.gate_constants@[g as int]@[
                j as int
            ].as_int());
        }
        self.gate_constants[g][j]
    }

    /// Run one generator against the current partial assignment: `None`
    /// when its dependencies are not all assigned yet, otherwise the newly
    /// derived values.
    fn run_generator(&self, k: usize, w: &PartialWitness) -> (r: Result<
        Option<Vec<(Target, Field)>>,
        WitnessError,
    >)
        requires
            self.wf(),
            w.wf(),
            (k as int) < self.gens().len(),
        ensures
            (r matches Ok(Some(outs)) ==> forall|i: int|
                0 <= i < outs@.len() ==> (#[trigger] outs@[i]).1.wf()),
    {
        let generator = &self.generators[k];
        match generator {
            WitnessGenerator::Inverse { x, x_inv } => {
                if !w.contains_target(*x) {
                    return Ok(None);
                }
                let v = w.get_target(*x);
                match v.multiplicative_inverse() {
                    None => Err(WitnessError::InverseOfZero),
                    Some(iv) => {
                        let mut outs: Vec<(Target, Field)> = Vec::new();
                        outs.push((*x_inv, iv));
                        Ok(Some(outs))
                    },
                }
            },
            WitnessGenerator::Split { x, bits } => {
                if !w.contains_target(*x) {
                    return Ok(None);
                }
                let v = w.get_target(*x);
                let mut outs: Vec<(Target, Field)> = Vec::new();
                let n = bits.len();
                let mut i: usize = 0;
                while i < n
                    invariant
                        v.wf(),
                        n == bits@.len(),
                        i <= n,
                        forall|q: int| 0 <= q < outs@.len() ==> (#[trigger] outs@[q]).1.wf(),
                    decreases n - i,
                {
                    let bit = if i < 64 {
                        Field::from_canonical_bool(v.canonical_bit(i))
                    } else {
                        Field::zero()
                    };
                    outs.push((bits[i], bit));
                    i = i + 1;
                }
                Ok(Some(outs))
            },
            WitnessGenerator::Gate { index, kind } => {
                let g = *index;
                if g >= self.gate_constants.len() {
                    return Err(WitnessError::UnsatisfiableGate);
                }
                proof {
                    assert(g < usize::MAX) by {
                        assert(g < self.gate_constants@.len());
                    }
                }
                self.run_gate(g, *kind, w)
            },
        }
    }

    fn run_gate(&self, g: usize, kind: GateKind, w: &PartialWitness) -> (r: Result<
        Option<Vec<(Target, Field)>>,
        WitnessError,
    >)
        requires
            self.wf(),
            w.wf(),
            g < usize::MAX,
            (g as int) < self.rows().len(),
        ensures
            (r matches Ok(Some(outs)) ==> forall|i: int|
                0 <= i < outs@.len() ==> (#[trigger] outs@[i]).1.wf()),
    {
        let row_len = self.gate_constants[g].len();
        proof {
            assert(self.rows()[g as int].len() == self.gate_constants@[g as int]@.len());
        }
        match kind {
            GateKind::Arithmetic => {
                if row_len != 5 {
                    return Err(WitnessError::UnsatisfiableGate);
                }
                let t0 = Target::Wire(Wire { gate: g, input: 0 });
                let t1 = Target::Wire(Wire { gate: g, input: 1 });
                let t2 = Target::Wire(Wire { gate: g, input: 2 });
                if !w.contains_target(t0) || !w.contains_target(t1) || !w.contains_target(t2) {
                    return Ok(None);
                }
                let m0 = w.get_target(t0);
                let m1 = w.get_target(t1);
                let ad = w.get_target(t2);
                let out = self.row_const(g, 2).mul(m0.mul(m1)).add(self.row_const(g, 3).mul(ad));
                let mut outs: Vec<(Target, Field)> = Vec::new();
                outs.push((Target::Wire(Wire { gate: g, input: 3 }), out));
                Ok(Some(outs))
            },
            GateKind::Buffer => {
                if row_len > 4 {
                    let c = self.row_const(g, 4);
                    let mut outs: Vec<(Target, Field)> = Vec::new();
                    outs.push((Target::Wire(Wire { gate: g, input: 5 }), c));
                    Ok(Some(outs))
                } else {
                    Ok(None)
                }
            },
            GateKind::PublicInput => {
                let mut outs: Vec<(Target, Field)> = Vec::new();
                let mut s: usize = NUM_ROUTED_WIRES;
                while s < NUM_WIRES
                    invariant
                        self.wf(),
                        w.wf(),
                        NUM_ROUTED_WIRES <= s,
                        g < usize::MAX,
                        (g as int) < self.rows().len(),
                        forall|q: int| 0 <= q < outs@.len() ==> (#[trigger] outs@[q]).1.wf(),
                    decreases NUM_WIRES - s,
                {
                    let src = Target::Wire(Wire { gate: g, input: s });
                    if !w.contains_target(src) {
                        return Ok(None);
                    }
                    let v = w.get_target(src);
                    outs.push((
                        Target::Wire(Wire { gate: g + 1, input: s - NUM_ROUTED_WIRES }),
                        v,
                    ));
                    s = s + 1;
                }
                Ok(Some(outs))
            },
            GateKind::CurveAdd => {
                let tax = Target::Wire(Wire { gate: g, input: 0 });
                let tay = Target::Wire(Wire { gate: g, input: 1 });
                let tso = Target::Wire(Wire { gate: g, input: 2 });
                let tbx = Target::Wire(Wire { gate: g, input: 4 });
                let tby = Target::Wire(Wire { gate: g, input: 5 });
                let tbit = Target::Wire(Wire { gate: g, input: 6 });
                if !w.contains_target(tax) || !w.contains_target(tay) || !w.contains_target(tso)
                    || !w.contains_target(tbx) || !w.contains_target(tby) || !w.contains_target(
                    tbit,
                ) {
                    return Ok(None);
                }
                let accx = w.get_target(tax);
                let accy = w.get_target(tay);
                let so = w.get_target(tso);
                let ax = w.get_target(tbx);
                let ay = w.get_target(tby);
                let bit = w.get_target(tbit);
                let two = Field::from_canonical_u64(2);
                let sn = two.mul(so).add(bit);
                let mut outs: Vec<(Target, Field)> = Vec::new();
                outs.push((Target::Wire(Wire { gate: g, input: 3 }), sn));
                if bit.value == 0 {
                    outs.push((Target::Wire(Wire { gate: g + 1, input: 0 }), accx));
                    outs.push((Target::Wire(Wire { gate: g + 1, input: 1 }), accy));
                    Ok(Some(outs))
                } else if bit.value == 1 {
                    let dx = ax.sub(accx);
                    if dx.is_zero() {
                        return Err(WitnessError::UnsatisfiableGate);
                    }
                    match dx.multiplicative_inverse() {
                        None => Err(WitnessError::UnsatisfiableGate),
                        Some(iv) => {
                            let lam = ay.sub(accy).mul(iv);
                            let outx = lam.mul(lam).sub(accx).sub(ax);
                            let outy = lam.mul(accx.sub(outx)).sub(accy);
                            outs.push((Target::Wire(Wire { gate: g + 1, input: 0 }), outx));
                            outs.push((Target::Wire(Wire { gate: g + 1, input: 1 }), outy));
                            Ok(Some(outs))
                        },
                    }
                } else {
                    Err(WitnessError::UnsatisfiableGate)
                }
            },
            GateKind::CurveDbl => {
                let tx = Target::Wire(Wire { gate: g, input: 0 });
                let ty = Target::Wire(Wire { gate: g, input: 1 });
                if !w.contains_target(tx) || !w.contains_target(ty) {
                    return Ok(None);
                }
                let x = w.get_target(tx);
                let y = w.get_target(ty);
                let two = Field::from_canonical_u64(2);
                let three = Field::from_canonical_u64(3);
                let denom = two.mul(y);
                match denom.multiplicative_inverse() {
                    None => Err(WitnessError::UnsatisfiableGate),
                    Some(iv) => {
                        let lam = three.mul(x.mul(x)).mul(iv);
                        let nx = lam.mul(lam).sub(two.mul(x));
                        let ny = lam.mul(x.sub(nx)).sub(y);
                        let mut outs: Vec<(Target, Field)> = Vec::new();
                        outs.push((Target::Wire(Wire { gate: g, input: 2 }), nx));
                        outs.push((Target::Wire(Wire { gate: g, input: 3 }), ny));
                        Ok(Some(outs))
                    },
                }
            },
            GateKind::RescueA => self.run_rescue(g, w),
            GateKind::RescueB => self.run_rescue(g, w),
        }
    }

    fn run_rescue(&self, g: usize, w: &PartialWitness) -> (r: Result<
        Option<Vec<(Target, Field)>>,
        WitnessError,
    >)
        requires
            self.wf(),
            w.wf(),
            (g as int) < self.rows().len(),
        ensures
            (r matches Ok(Some(outs)) ==> forall|i: int|
                0 <= i < outs@.len() ==> (#[trigger] outs@[i]).1.wf()),
    {
        let row_len = self.gate_constants[g].len();
        proof {
            assert(self.rows()[g as int].len() == self.gate_constants@[g as int]@.len());
        }
        if row_len != 5 {
            return Err(WitnessError::UnsatisfiableGate);
        }
        let t0 = Target::Wire(Wire { gate: g, input: 0 });
        let t1 = Target::Wire(Wire { gate: g, input: 1 });
        let t2 = Target::Wire(Wire { gate: g, input: 2 });
        if !w.contains_target(t0) || !w.contains_target(t1) || !w.contains_target(t2) {
            return Ok(None);
        }
        let s0 = w.get_target(t0);
        let s1 = w.get_target(t1);
        let s2 = w.get_target(t2);
        let total = s0.add(s1).add(s2);
        let o0 = total.add(s0).exp(5).add(self.row_const(g, 2));
        let o1 = total.add(s1).exp(5).add(self.row_const(g, 3));
        let o2 = total.add(s2).exp(5).add(self.row_const(g, 4));
        let mut outs: Vec<(Target, Field)> = Vec::new();
        outs.push((Target::Wire(Wire { gate: g, input: 3 }), o0));
        outs.push((Target::Wire(Wire { gate: g, input: 4 }), o1));
        outs.push((Target::Wire(Wire { gate: g, input: 5 }), o2));
        Ok(Some(outs))
    }

    /// Complete a partial assignment to a fixed point: propagate values
    /// across routing classes and run every generator whose dependencies
    /// are met, then check the result. A returned assignment provably
    /// satisfies the circuit and preserves the caller's primary inputs.
    pub fn complete_witness(&self, inputs: PartialWitness) -> (r: Result<
        PartialWitness,
        WitnessError,
    >)
        requires
            self.wf(),
            inputs.wf(),
        ensures
            (r matches Ok(w) ==> w.wf() && self.satisfied_by(w@) && inputs@.submap_of(w@)),
    {
        let mut w = inputs;
        let ghost inputs0 = w@;
        let n_classes = self.routing_target_partitions.num_classes();
        let n_gens = self.generators.len();
        let mut fuel: u128 = (self.routing_target_partitions.num_targets() as u128) + 64
            * (n_gens as u128) + 2;
        let mut changed = true;
        while changed && fuel > 0
            invariant
                self.wf(),
                w.wf(),
                inputs0.submap_of(w@),
                n_classes as int == self.routing_target_partitions.classes().len(),
                n_gens as int == self.gens().len(),
            decreases fuel,
        {
            changed = false;
            fuel = fuel - 1;
            // Propagate the first known value of each class to all members.
            let mut i: usize = 0;
            while i < n_classes
                invariant
                    self.wf(),
                    w.wf(),
                    inputs0.submap_of(w@),
                    i <= n_classes,
                    n_classes as int == self.routing_target_partitions.classes().len(),
                decreases n_classes - i,
            {
                let m = self.routing_target_partitions.class_len(i);
                let mut found: Option<Field> = None;
                let mut j: usize = 0;
                while j < m
                    invariant
                        self.wf(),
                        w.wf(),
                        i < n_classes,
                        n_classes as int == self.routing_target_partitions.classes().len(),
                        m as int == self.routing_target_partitions.classes()[i as int].len(),
                        j <= m,
                        (found matches Some(v) ==> v.wf()),
                    decreases m - j,
                {
                    let t = self.routing_target_partitions.class_member(i, j);
                    if w.contains_target(t) {
                        let v = w.get_target(t);
                        match found {
                            None => {
                                found = Some(v);
                            },
                            Some(v0) => {
                                if v0 != v {
                                    return Err(WitnessError::Conflict);
                                }
                            },
                        }
                    }
                    j = j + 1;
                }
                match found {
                    Some(v) => {
                        let mut j2: usize = 0;
                        while j2 < m
                            invariant
                                self.wf(),
                                w.wf(),
                                inputs0.submap_of(w@),
                                v.wf(),
                                i < n_classes,
                                n_classes as int
                                    == self.routing_target_partitions.classes().len(),
                                m as int == self.routing_target_partitions.classes()[
                                    i as int
                                ].len(),
                                j2 <= m,
                            decreases m - j2,
                        {
                            let t = self.routing_target_partitions.class_member(i, j2);
                            if !w.contains_target(t) {
                                let ghost wpre = w@;
                                w.set_target(t, v);
                                changed = true;
                                proof {
                                    assert(wpre.submap_of(w@)) by {
                                        assert forall|key: Target|
                                            #[trigger] wpre.dom().contains(key) implies w@
                                            .dom().contains(key) && wpre[key] == w@[key] by {
                                            assert(w@ == wpre.insert(t, v.as_int()));
                                            assert(key != t);
                                        }
                                    }
                                    vstd::map_lib::lemma_submap_of_trans(inputs0, wpre, w@);
                                }
                            }
                            j2 = j2 + 1;
                        }
                    },
                    None => {},
                }
                i = i + 1;
            }
            // Run every generator whose dependencies are assigned.
            let mut k: usize = 0;
            while k < n_gens
                invariant
                    self.wf(),
                    w.wf(),
                    inputs0.submap_of(w@),
                    k <= n_gens,
                    n_gens as int == self.gens().len(),
                decreases n_gens - k,
            {
                match self.run_generator(k, &w) {
                    Err(e) => {
                        return Err(e);
                    },
                    Ok(None) => {},
                    Ok(Some(outs)) => {
                        let n_outs = outs.len();
                        let mut q: usize = 0;
                        while q < n_outs
                            invariant
                                self.wf(),
                                w.wf(),
                                inputs0.submap_of(w@),
                                q <= n_outs,
                                n_outs == outs@.len(),
                                forall|p: int|
                                    0 <= p < outs@.len() ==> (#[trigger] outs@[p]).1.wf(),
                            decreases n_outs - q,
                        {
                            let (t, v) = outs[q];
                            if w.contains_target(t) {
                                let existing = w.get_target(t);
                                if existing != v {
                                    return Err(WitnessError::Conflict);
                                }
                            } else {
                                let ghost wpre = w@;
                                w.set_target(t, v);
                                changed = true;
                                proof {
                                    assert(wpre.submap_of(w@)) by {
                                        assert forall|key: Target|
                                            #[trigger] wpre.dom().contains(key) implies w@
                                            .dom().contains(key) && wpre[key] == w@[key] by {
                                            assert(w@ == wpre.insert(t, v.as_int()));
                                            assert(key != t);
                                        }
                                    }
                                    vstd::map_lib::lemma_submap_of_trans(inputs0, wpre, w@);
                                }
                            }
                            q = q + 1;
                        }
                    },
                }
                k = k + 1;
            }
        }
        match self.check_satisfied(&w) {
            Ok(()) => Ok(w),
            Err(e) => Err(e),
        }
    }

    /// Check an assignment against the circuit: every routing class with two
    /// or more members is fully assigned and constant, and every generator's
    /// rule holds. Success establishes `satisfied_by`.
    fn check_satisfied(&self, w: &PartialWitness) -> (r: Result<(), WitnessError>)
        requires
            self.wf(),
            w.wf(),
        ensures
            (r is Ok ==> self.satisfied_by(w@)),
    {
        let nc = self.copy_constraints.len();
        let mut i: usize = 0;
        while i < nc
            invariant
                self.wf(),
                w.wf(),
                i <= nc,
                nc == self.copy_constraints@.len(),
                forall|q: int|
                    0 <= q < i as int ==> constraint_ok(#[trigger] self.copy_constraints@[q], w@),
            decreases nc - i,
        {
            let (a, b) = self.copy_constraints[i];
            if !w.contains_target(a) || !w.contains_target(b) {
                return Err(WitnessError::Stalled);
            }
            if w.get_target(a) != w.get_target(b) {
                return Err(WitnessError::Conflict);
            }
            i = i + 1;
        }
        let n_gens = self.generators.len();
        let mut k: usize = 0;
        while k < n_gens
            invariant
                self.wf(),
                w.wf(),
                k <= n_gens,
                n_gens as int == self.gens().len(),
                forall|q: int|
                    0 <= q < k as int ==> gen_holds(#[trigger] self.gens()[q], self.rows(), w@),
            decreases n_gens - k,
        {
            match self.check_generator(k, w) {
                Ok(()) => {},
                Err(e) => {
                    return Err(e);
                },
            }
            k = k + 1;
        }
        proof {
            w.lemma_values_wf();
        }
        Ok(())
    }

    /// Check one generator's rule. Success establishes `gen_holds`.
    fn check_generator(&self, k: usize, w: &PartialWitness) -> (r: Result<(), WitnessError>)
        requires
            self.wf(),
            w.wf(),
            (k as int) < self.gens().len(),
        ensures
            (r is Ok ==> gen_holds(self.gens()[k as int], self.rows(), w@)),
    {
        let generator = &self.generators[k];
        proof {
            assert(self.gens()[k as int] == self.generators@[k as int]@);
        }
        match generator {
            WitnessGenerator::Inverse { x, x_inv } => {
                if !w.contains_target(*x) || !w.contains_target(*x_inv) {
                    return Err(WitnessError::Stalled);
                }
                let v = w.get_target(*x);
                let iv = w.get_target(*x_inv);
                let product = v.mul(iv);
                if product.value == 1 {
                    Ok(())
                } else {
                    Err(WitnessError::UnsatisfiableGate)
                }
            },
            WitnessGenerator::Split { x, bits } => {
                if !w.contains_target(*x) {
                    return Err(WitnessError::Stalled);
                }
                let v = w.get_target(*x);
                let n = bits.len();
                let mut i: usize = 0;
                while i < n
                    invariant
                        self.wf(),
                        w.wf(),
                        v.wf(),
                        w@.contains_key(*x),
                        v.as_int() == w@[*x],
                        n == bits@.len(),
                        i <= n,
                        forall|q: int|
                            0 <= q < i as int ==> w@.contains_key(#[trigger] bits@[q])
                                && w@[bits@[q]] == crate::field::bit_of(w@[*x], q as nat),
                    decreases n - i,
                {
                    let t = bits[i];
                    if !w.contains_target(t) {
                        return Err(WitnessError::Stalled);
                    }
                    let bv = w.get_target(t);
                    let expected = if i < 64 {
                        Field::from_canonical_bool(v.canonical_bit(i))
                    } else {
                        Field::zero()
                    };
                    if bv != expected {
                        return Err(WitnessError::UnsatisfiableGate);
                    }
                    proof {
                        if i >= 64 {
                            lemma_high_bit_zero(v.as_int(), i as nat);
                        }
                    }
                    i = i + 1;
                }
                Ok(())
            },
            WitnessGenerator::Gate { index, kind } => {
                let g = *index;
                if g >= self.gate_constants.len() {
                    return Err(WitnessError::UnsatisfiableGate);
                }
                proof {
                    assert(g < usize::MAX) by {
                        assert(g < self.gate_constants@.len());
                    }
                }
                self.check_gate(g, *kind, w)
            },
        }
    }

    #[verifier::rlimit(50)]
    fn check_gate(&self, g: usize, kind: GateKind, w: &PartialWitness) -> (r: Result<
        (),
        WitnessError,
    >)
        requires
            self.wf(),
            w.wf(),
            g < usize::MAX,
            (g as int) < self.rows().len(),
        ensures
            (r is Ok ==> gen_holds(
                GenView::Gate { index: g as int, kind },
                self.rows(),
                w@,
            )),
    {
        let row_len = self.gate_constants[g].len();
        proof {
            assert(self.rows()[g as int].len() == self.gate_constants@[g as int]@.len());
        }
        match kind {
            GateKind::Arithmetic => {
                if row_len != 5 {
                    return Err(WitnessError::UnsatisfiableGate);
                }
                let vals = match self.wire_vals(g, 0, 4, w) {
                    None => {
                        return Err(WitnessError::Stalled);
                    },
                    Some(v) => v,
                };
                let out = self.row_const(g, 2).mul(vals[0].mul(vals[1])).add(
                    self.row_const(g, 3).mul(vals[2]),
                );
                if out == vals[3] {
                    proof {
                        assert(arith_holds(g as int, self.rows()[g as int], w@));
                        assert(gen_holds(
                            GenView::Gate { index: g as int, kind },
                            self.rows(),
                            w@,
                        ));
                    }
                    Ok(())
                } else {
                    Err(WitnessError::UnsatisfiableGate)
                }
            },
            GateKind::Buffer => {
                if row_len > 4 {
                    let t = Target::Wire(Wire { gate: g, input: 5 });
                    if !w.contains_target(t) {
                        return Err(WitnessError::Stalled);
                    }
                    let v = w.get_target(t);
                    if v.value == self.row_const(g, 4).value {
                        proof {
                        assert(gen_holds(
                            GenView::Gate { index: g as int, kind },
                            self.rows(),
                            w@,
                        ));
                    }
                    Ok(())
                    } else {
                        Err(WitnessError::UnsatisfiableGate)
                    }
                } else {
                    proof {
                        assert(gen_holds(
                            GenView::Gate { index: g as int, kind },
                            self.rows(),
                            w@,
                        ));
                    }
                    Ok(())
                }
            },
            GateKind::PublicInput => {
                let mut s: usize = NUM_ROUTED_WIRES;
                while s < NUM_WIRES
                    invariant
                        self.wf(),
                        w.wf(),
                        NUM_ROUTED_WIRES <= s,
                        g < usize::MAX,
                        forall|q: int|
                            NUM_ROUTED_WIRES <= q < s as int ==> {
                                &&& w@.contains_key(wire_ti(g as int, q))
                                &&& w@.contains_key(
                                    wire_ti(g as int + 1, q - NUM_ROUTED_WIRES as int),
                                )
                                &&& w@[wire_ti(g as int + 1, q - NUM_ROUTED_WIRES as int)] == w@[
                                    wire_ti(g as int, q)
                                ]
                            },
                    decreases NUM_WIRES - s,
                {
                    let src = Target::Wire(Wire { gate: g, input: s });
                    let dst = Target::Wire(Wire { gate: g + 1, input: s - NUM_ROUTED_WIRES });
                    if !w.contains_target(src) || !w.contains_target(dst) {
                        return Err(WitnessError::Stalled);
                    }
                    if w.get_target(src) != w.get_target(dst) {
                        return Err(WitnessError::UnsatisfiableGate);
                    }
                    s = s + 1;
                }
                proof {
                    assert forall|q: int|
                        NUM_ROUTED_WIRES <= q < NUM_WIRES implies crate::gates::whas(
                        w@,
                        g as int,
                        q,
                    ) && crate::gates::whas(w@, g as int + 1, q - NUM_ROUTED_WIRES as int)
                        && crate::gates::wval(w@, g as int + 1, q - NUM_ROUTED_WIRES as int)
                        == crate::gates::wval(w@, g as int, q) by {}
                    assert(public_input_holds(g as int, w@));
                    assert(gen_holds(
                        GenView::Gate { index: g as int, kind },
                        self.rows(),
                        w@,
                    ));
                }
                Ok(())
            },
            GateKind::CurveAdd => {
                let vals = match self.wire_vals(g, 0, 7, w) {
                    None => {
                        return Err(WitnessError::Stalled);
                    },
                    Some(v) => v,
                };
                let t_outx = Target::Wire(Wire { gate: g + 1, input: 0 });
                let t_outy = Target::Wire(Wire { gate: g + 1, input: 1 });
                if !w.contains_target(t_outx) || !w.contains_target(t_outy) {
                    return Err(WitnessError::Stalled);
                }
                let outx = w.get_target(t_outx);
                let outy = w.get_target(t_outy);
                let accx = vals[0];
                let accy = vals[1];
                let so = vals[2];
                let sn = vals[3];
                let ax = vals[4];
                let ay = vals[5];
                let bit = vals[6];
                let two = Field::from_canonical_u64(2);
                if sn != two.mul(so).add(bit) {
                    return Err(WitnessError::UnsatisfiableGate);
                }
                if bit.value == 0 {
                    if outx == accx && outy == accy {
                        proof {
                        assert(gen_holds(
                            GenView::Gate { index: g as int, kind },
                            self.rows(),
                            w@,
                        ));
                    }
                    Ok(())
                    } else {
                        Err(WitnessError::UnsatisfiableGate)
                    }
                } else if bit.value == 1 {
                    let dx = ax.sub(accx);
                    match dx.multiplicative_inverse() {
                        None => Err(WitnessError::UnsatisfiableGate),
                        Some(iv) => {
                            let lam = ay.sub(accy).mul(iv);
                            let slope_ok = lam.mul(dx) == ay.sub(accy);
                            let x_ok = outx == lam.mul(lam).sub(accx).sub(ax);
                            let y_ok = outy == lam.mul(accx.sub(outx)).sub(accy);
                            if slope_ok && x_ok && y_ok {
                                proof {
                                    assert(add_rel_with(
                                        lam.as_int(),
                                        accx.as_int(),
                                        accy.as_int(),
                                        ax.as_int(),
                                        ay.as_int(),
                                        outx.as_int(),
                                        outy.as_int(),
                                    ));
                                    assert(curve_add_holds(g as int, w@));
                                    assert(gen_holds(
                                        GenView::Gate { index: g as int, kind },
                                        self.rows(),
                                        w@,
                                    ));
                                }
                                Ok(())
                            } else {
                                Err(WitnessError::UnsatisfiableGate)
                            }
                        },
                    }
                } else {
                    Err(WitnessError::UnsatisfiableGate)
                }
            },
            GateKind::CurveDbl => {
                let vals = match self.wire_vals(g, 0, 4, w) {
                    None => {
                        return Err(WitnessError::Stalled);
                    },
                    Some(v) => v,
                };
                let x = vals[0];
                let y = vals[1];
                let nx = vals[2];
                let ny = vals[3];
                let two = Field::from_canonical_u64(2);
                let three = Field::from_canonical_u64(3);
                let denom = two.mul(y);
                match denom.multiplicative_inverse() {
                    None => Err(WitnessError::UnsatisfiableGate),
                    Some(iv) => {
                        let lam = three.mul(x.mul(x)).mul(iv);
                        let slope_ok = lam.mul(denom) == three.mul(x.mul(x));
                        let x_ok = nx == lam.mul(lam).sub(two.mul(x));
                        let y_ok = ny == lam.mul(x.sub(nx)).sub(y);
                        if slope_ok && x_ok && y_ok {
                            proof {
                                assert(fmul(lam.as_int(), fmul(2, y.as_int())) == fmul(
                                    3,
                                    fmul(x.as_int(), x.as_int()),
                                ));
                                assert(dbl_rel_with(
                                    lam.as_int(),
                                    x.as_int(),
                                    y.as_int(),
                                    nx.as_int(),
                                    ny.as_int(),
                                ));
                                assert(curve_dbl_holds(g as int, w@));
                                assert(gen_holds(
                                    GenView::Gate { index: g as int, kind },
                                    self.rows(),
                                    w@,
                                ));
                            }
                            Ok(())
                        } else {
                            Err(WitnessError::UnsatisfiableGate)
                        }
                    },
                }
            },
            GateKind::RescueA => {
                let res = self.check_rescue(g, w);
                proof {
                    if res is Ok {
                        assert(rescue_holds(g as int, self.rows()[g as int], w@));
                        assert(gen_holds(
                            GenView::Gate { index: g as int, kind },
                            self.rows(),
                            w@,
                        ));
                    }
                }
                res
            },
            GateKind::RescueB => {
                let res = self.check_rescue(g, w);
                proof {
                    if res is Ok {
                        assert(rescue_holds(g as int, self.rows()[g as int], w@));
                        assert(gen_holds(
                            GenView::Gate { index: g as int, kind },
                            self.rows(),
                            w@,
                        ));
                    }
                }
                res
            },
        }
    }

    fn check_rescue(&self, g: usize, w: &PartialWitness) -> (r: Result<(), WitnessError>)
        requires
            self.wf(),
            w.wf(),
            (g as int) < self.rows().len(),
        ensures
            (r is Ok ==> rescue_holds(g as int, self.rows()[g as int], w@)),
    {
        let row_len = self.gate_constants[g].len();
        proof {
            assert(self.rows()[g as int].len() == self.gate_constants@[g as int]@.len());
        }
        if row_len != 5 {
            return Err(WitnessError::UnsatisfiableGate);
        }
        let vals = match self.wire_vals(g, 0, 6, w) {
            None => {
                return Err(WitnessError::Stalled);
            },
            Some(v) => v,
        };
        let total = vals[0].add(vals[1]).add(vals[2]);
        let o0 = total.add(vals[0]).exp(5).add(self.row_const(g, 2));
        let o1 = total.add(vals[1]).exp(5).add(self.row_const(g, 3));
        let o2 = total.add(vals[2]).exp(5).add(self.row_const(g, 4));
        if vals[3] == o0 && vals[4] == o1 && vals[5] == o2 {
            Ok(())
        } else {
            Err(WitnessError::UnsatisfiableGate)
        }
    }

    /// The values of consecutive wire slots, or `None` when one is missing.
    fn wire_vals(&self, g: usize, lo: usize, n: usize, w: &PartialWitness) -> (r: Option<
        Vec<Field>,
    >)
        requires
            w.wf(),
            lo + n <= NUM_WIRES,
        ensures
            (r matches Some(vals) ==> {
                &&& vals@.len() == n as int
                &&& forall|q: int|
                    0 <= q < n as int ==> w@.contains_key(#[trigger] wire_ti(g as int, lo + q))
                &&& forall|q: int|
                    0 <= q < n as int ==> (#[trigger] vals@[q]).wf() && vals@[q].as_int() == w@[
                        wire_ti(g as int, lo + q)
                    ]
            }),
    {
        let mut vals: Vec<Field> = Vec::new();
        let mut q: usize = 0;
        while q < n
            invariant
                w.wf(),
                q <= n,
                lo + n <= NUM_WIRES,
                vals@.len() == q as int,
                forall|p: int|
                    0 <= p < q as int ==> w@.contains_key(#[trigger] wire_ti(g as int, lo + p)),
                forall|p: int|
                    0 <= p < q as int ==> (#[trigger] vals@[p]).wf() && vals@[p].as_int() == w@[
                        wire_ti(g as int, lo + p)
                    ],
            decreases n - q,
        {
            let t = Target::Wire(Wire { gate: g, input: lo + q });
            proof {
                assert(t == wire_ti(g as int, lo + q as int));
            }
            if !w.contains_target(t) {
                return None;
            }
            let val = w.get_target(t);
            let ghost vals_pre = vals@;
            vals.push(val);
            proof {
                assert forall|p: int|
                    0 <= p < q + 1 implies w@.contains_key(#[trigger] wire_ti(g as int, lo + p))
                    && vals@[p].wf() && vals@[p].as_int() == w@[wire_ti(g as int, lo + p)] by {
                    if p < q as int {
                        assert(vals@[p] == vals_pre[p]);
                        assert(vals_pre[p].wf() && vals_pre[p].as_int() == w@[
                            wire_ti(g as int, lo + p)
                        ]);
                    } else {
                        assert(vals@[p] == val);
                        assert(wire_ti(g as int, lo + p) == t);
                    }
                }
            }
            q = q + 1;
        }
        Some(vals)
    }

    /// Generate the dense witness from the caller's primary inputs: complete
    /// the assignment to a fixed point, check it, and lay the wire values
    /// out row-major, unconstrained slots zero-filled.
    pub fn generate_witness(&self, inputs: PartialWitness) -> (r: Result<Witness, WitnessError>)
        requires
            self.wf(),
            inputs.wf(),
        ensures
            (r matches Ok(wt) ==> exists|m: Map<Target, int>|
                {
                    &&& #[trigger] self.satisfied_by(m)
                    &&& inputs@.submap_of(m)
                    &&& wt@.len() == self.rows().len()
                    &&& forall|g: int, s: int|
                        0 <= g < wt@.len() && 0 <= s < NUM_WIRES ==> wt@[g][s] == (
                        if m.contains_key(wire_ti(g, s)) {
                            m[wire_ti(g, s)]
                        } else {
                            0
                        })
                }),
    {
        let full = match self.complete_witness(inputs) {
            Ok(full) => full,
            Err(e) => {
                return Err(e);
            },
        };
        let n = self.num_gates();
        let mut rows: Vec<Vec<Field>> = Vec::new();
        let mut g: usize = 0;
        while g < n
            invariant
                self.wf(),
                full.wf(),
                g <= n,
                n as int == self.rows().len(),
                rows@.len() == g as int,
                forall|p: int| 0 <= p < g as int ==> (#[trigger] rows@[p])@.len() == NUM_WIRES as int,
                forall|p: int, s: int|
                    0 <= p < g as int && 0 <= s < NUM_WIRES ==> (#[trigger] rows@[p]@[s]).wf()
                        && rows@[p]@[s].as_int() == (if full@.contains_key(wire_ti(p, s)) {
                        full@[wire_ti(p, s)]
                    } else {
                        0
                    }),
            decreases n - g,
        {
            let mut row: Vec<Field> = Vec::new();
            let mut s: usize = 0;
            while s < NUM_WIRES
                invariant
                    self.wf(),
                    full.wf(),
                    g < n,
                    s <= NUM_WIRES,
                    row@.len() == s as int,
                    forall|p: int|
                        0 <= p < s as int ==> (#[trigger] row@[p]).wf() && row@[p].as_int() == (
                        if full@.contains_key(wire_ti(g as int, p)) {
                            full@[wire_ti(g as int, p)]
                        } else {
                            0
                        }),
                decreases NUM_WIRES - s,
            {
                let t = Target::Wire(Wire { gate: g, input: s });
                let v = if full.contains_target(t) {
                    full.get_target(t)
                } else {
                    Field::zero()
                };
                row.push(v);
                s = s + 1;
            }
            rows.push(row);
            g = g + 1;
        }
        let wt = Witness::from_rows(rows);
        proof {
            let m = full@;
            assert forall|gg: int, ss: int|
                0 <= gg < wt@.len() && 0 <= ss < NUM_WIRES implies wt@[gg][ss] == (
                if m.contains_key(wire_ti(gg, ss)) {
                    m[wire_ti(gg, ss)]
                } else {
                    0
                }) by {
                assert(wt@[gg][ss] == rows@[gg]@[ss].as_int());
                assert(rows@[gg]@[ss].as_int() == (if m.contains_key(wire_ti(gg, ss)) {
                    m[wire_ti(gg, ss)]
                } else {
                    0
                }));
            }
            assert(self.satisfied_by(m) && inputs@.submap_of(m) && wt@.len() == self.rows().len()
                && forall|gg: int, ss: int|
                0 <= gg < wt@.len() && 0 <= ss < NUM_WIRES ==> wt@[gg][ss] == (
                if m.contains_key(wire_ti(gg, ss)) {
                    m[wire_ti(gg, ss)]
                } else {
                    0
                }));
        }
        Ok(wt)
    }
}

/// Beyond the field's bit length every canonical bit is zero.
proof fn lemma_high_bit_zero(v: int, i: nat)
    requires
        0 <= v < crate::field::FIELD_ORDER as int,
        i >= 64,
    ensures
        crate::field::bit_of(v, i) == 0,
{
    vstd::arithmetic::power2::lemma2_to64();
    vstd::arithmetic::power2::lemma_pow2_adds(64, (i - 64) as nat);
    vstd::arithmetic::power2::lemma_pow2_pos((i - 64) as nat);
    let p = vstd::arithmetic::power2::pow2(i) as int;
    assert(p >= vstd::arithmetic::power2::pow2(64)) by {
        vstd::arithmetic::mul::lemma_mul_increases(
            vstd::arithmetic::power2::pow2((i - 64) as nat) as int,
            vstd::arithmetic::power2::pow2(64) as int,
        );
    }
    vstd::arithmetic::div_mod::lemma_basic_div(v, p);
}

} // verus!
