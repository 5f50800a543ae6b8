use plonk::builder::{CircuitBuilder, MsmPart};
use plonk::circuit::WitnessError;
use plonk::curve::AffinePoint;
use plonk::field::{Field, FIELD_ORDER};
use plonk::partitions::RoutingTargetPartitions;
use plonk::target::{PublicInput, Target, VirtualTarget, Wire};
use plonk::witness::PartialWitness;

fn f(v: u64) -> Field {
    Field::from_canonical_u64(v)
}

// Field arithmetic sanity.
#[test]
fn field_arithmetic_exact_values() {
    assert_eq!(f(3).add(f(4)).to_u64(), 7);
    assert_eq!(f(FIELD_ORDER - 1).add(f(5)).to_u64(), 4);
    assert_eq!(f(3).sub(f(4)).to_u64(), FIELD_ORDER - 1);
    assert_eq!(f(1 << 20).mul(f(1 << 15)).to_u64(), (1u64 << 35) % FIELD_ORDER);
    assert_eq!(f(0).sub(f(1)).to_u64(), FIELD_ORDER - 1);
}

#[test]
fn field_inverse_round_trip() {
    let x = f(123456789);
    let inv = x.multiplicative_inverse().unwrap();
    assert_eq!(x.mul(inv).to_u64(), 1);
    assert!(f(0).multiplicative_inverse().is_none());
}

#[test]
fn field_exp_matches_repeated_multiplication() {
    let x = f(7);
    let mut expected = f(1);
    for _ in 0..11 {
        expected = expected.mul(x);
    }
    assert_eq!(x.exp(11).to_u64(), expected.to_u64());
    assert_eq!(x.exp(0).to_u64(), 1);
}

#[test]
fn field_num_bits() {
    assert_eq!(f(0).num_bits(), 0);
    assert_eq!(f(1).num_bits(), 1);
    assert_eq!(f(5).num_bits(), 3);
    assert_eq!(f(1 << 30).num_bits(), 31);
}

// The curve primitives.
#[test]
fn generator_is_on_curve_and_doubles_on_curve() {
    let g = AffinePoint::generator_affine();
    let on_curve = |p: &AffinePoint| {
        let y2 = p.y.mul(p.y);
        let rhs = p.x.mul(p.x).mul(p.x).add(f(plonk::curve::CURVE_B));
        y2 == rhs
    };
    assert!(on_curve(&g));
    let g2 = g.double();
    assert!(!g2.zero);
    assert!(on_curve(&g2));
    let g3 = g2.add(&g);
    assert!(!g3.zero);
    assert!(on_curve(&g3));
}

// Partition invariant: every added target lies in exactly one class, and
// merges join classes exactly as declared.
#[test]
fn partitions_track_declared_merges() {
    let t = |i: usize| Target::VirtualTarget(VirtualTarget { index: i });
    let mut parts = RoutingTargetPartitions::new();
    for i in 0..4 {
        parts.add_partition(t(i));
    }
    parts.merge(t(0), t(1));
    parts.merge(t(1), t(2));
    // Membership scan: each target appears in exactly one class.
    let find_class = |parts: &RoutingTargetPartitions, target: Target| {
        let mut hits = Vec::new();
        for i in 0..parts.num_classes() {
            for j in 0..parts.class_len(i) {
                if parts.class_member(i, j) == target {
                    hits.push(i);
                }
            }
        }
        assert_eq!(hits.len(), 1, "target in exactly one class");
        hits[0]
    };
    let c0 = find_class(&parts, t(0));
    let c1 = find_class(&parts, t(1));
    let c2 = find_class(&parts, t(2));
    let c3 = find_class(&parts, t(3));
    assert_eq!(c0, c1);
    assert_eq!(c1, c2);
    assert_ne!(c2, c3);
    // Merging already-joined targets changes nothing observable.
    parts.merge(t(2), t(0));
    assert_eq!(find_class(&parts, t(0)), find_class(&parts, t(2)));
    assert_ne!(find_class(&parts, t(0)), find_class(&parts, t(3)));
}

// Constant memoization: one gate per distinct value, identical targets for
// identical values.
#[test]
fn constant_wires_are_memoized() {
    let mut builder = CircuitBuilder::new();
    let a1 = builder.constant_wire(f(42));
    let gates_after_first = builder.num_gates();
    let a2 = builder.constant_wire(f(42));
    assert_eq!(a1, a2);
    assert_eq!(builder.num_gates(), gates_after_first);
    let b = builder.constant_wire(f(43));
    assert_ne!(a1, b);
    assert_eq!(builder.num_gates(), gates_after_first + 1);
}

fn run_binary_op(
    op: impl Fn(&mut CircuitBuilder, Target, Target) -> Target,
    a: u64,
    b: u64,
) -> (u64, usize) {
    let mut builder = CircuitBuilder::new();
    // Materialize the identity shortcuts up front so the op itself adds
    // exactly one gate.
    builder.zero_wire();
    builder.one_wire();
    let x = builder.add_virtual_target();
    let y = builder.add_virtual_target();
    let before = builder.num_gates();
    let t = op(&mut builder, x, y);
    let emitted = builder.num_gates() - before;
    let circuit = builder.build();
    let mut inputs = PartialWitness::new();
    inputs.set_target(x, f(a));
    inputs.set_target(y, f(b));
    let w = circuit.complete_witness(inputs).unwrap();
    (w.get_target(t).to_u64(), emitted)
}

// Arithmetic correctness: satisfying witnesses evaluate add/sub/mul to the
// field results, one gate per call on non-shortcut operands.
#[test]
fn add_evaluates_to_field_sum() {
    let (v, gates) = run_binary_op(|b, x, y| b.add(x, y), 1234, 5678);
    assert_eq!(v, 6912);
    assert_eq!(gates, 1);
}

#[test]
fn sub_evaluates_to_field_difference() {
    let (v, gates) = run_binary_op(|b, x, y| b.sub(x, y), 1234, 5678);
    assert_eq!(v, FIELD_ORDER - 4444);
    assert_eq!(gates, 1);
}

#[test]
fn mul_evaluates_to_field_product() {
    let (v, gates) = run_binary_op(|b, x, y| b.mul(x, y), 123456, 654321);
    assert_eq!(v, (123456u64 * 654321) % FIELD_ORDER);
    assert_eq!(gates, 1);
}

#[test]
fn add_short_circuits_on_zero() {
    let mut builder = CircuitBuilder::new();
    let zero = builder.zero_wire();
    let x = builder.add_virtual_target();
    let before = builder.num_gates();
    let t = builder.add(x, zero);
    assert_eq!(t, x);
    assert_eq!(builder.num_gates(), before);
    let one = builder.one_wire();
    let u = builder.mul(one, x);
    assert_eq!(u, x);
}

// Inverse round-trip: x * inv(x) evaluates to one; inversion of zero fails
// generation fatally.
#[test]
fn inv_round_trips_for_nonzero() {
    let mut builder = CircuitBuilder::new();
    let x = builder.add_virtual_target();
    let x_inv = builder.inv(x);
    let circuit = builder.build();
    let mut inputs = PartialWitness::new();
    inputs.set_target(x, f(987654321));
    let w = circuit.complete_witness(inputs).unwrap();
    let prod = w.get_target(x).mul(w.get_target(x_inv));
    assert_eq!(prod.to_u64(), 1);
}

#[test]
fn inv_of_zero_fails_generation() {
    let mut builder = CircuitBuilder::new();
    let x = builder.add_virtual_target();
    builder.inv(x);
    let circuit = builder.build();
    let mut inputs = PartialWitness::new();
    inputs.set_target(x, f(0));
    match circuit.complete_witness(inputs) {
        Err(WitnessError::InverseOfZero) => {}
        other => panic!("expected fatal inversion failure, got {:?}", other.is_ok()),
    }
}

#[test]
fn div_evaluates_to_quotient() {
    let mut builder = CircuitBuilder::new();
    let x = builder.add_virtual_target();
    let y = builder.add_virtual_target();
    let q = builder.div(x, y);
    let circuit = builder.build();
    let mut inputs = PartialWitness::new();
    inputs.set_target(x, f(84));
    inputs.set_target(y, f(2));
    let w = circuit.complete_witness(inputs).unwrap();
    assert_eq!(w.get_target(q).mul(w.get_target(y)).to_u64(), 84);
}

// Exponentiation: the zero exponent gives the multiplicative identity, and
// a small exponent matches repeated multiplication.
#[test]
fn exp_constant_zero_power_is_one() {
    let mut builder = CircuitBuilder::new();
    let x = builder.add_virtual_target();
    let t = builder.exp_constant(x, f(0));
    let circuit = builder.build();
    let mut inputs = PartialWitness::new();
    inputs.set_target(x, f(92137));
    let w = circuit.complete_witness(inputs).unwrap();
    assert_eq!(w.get_target(t).to_u64(), 1);
}

#[test]
fn exp_constant_small_power() {
    let mut builder = CircuitBuilder::new();
    let x = builder.add_virtual_target();
    let t = builder.exp_constant_usize(x, 5);
    let circuit = builder.build();
    let mut inputs = PartialWitness::new();
    inputs.set_target(x, f(31337));
    let w = circuit.complete_witness(inputs).unwrap();
    let xv = f(31337);
    let expected = xv.mul(xv).mul(xv).mul(xv).mul(xv);
    assert_eq!(w.get_target(t).to_u64(), expected.to_u64());
}

#[test]
fn mul_add_and_mul_sub_compose() {
    let mut builder = CircuitBuilder::new();
    let x = builder.add_virtual_target();
    let y = builder.add_virtual_target();
    let z = builder.add_virtual_target();
    let ma = builder.mul_add(x, y, z);
    let ms = builder.mul_sub(x, y, z);
    let circuit = builder.build();
    let mut inputs = PartialWitness::new();
    inputs.set_target(x, f(11));
    inputs.set_target(y, f(12));
    inputs.set_target(z, f(13));
    let w = circuit.complete_witness(inputs).unwrap();
    assert_eq!(w.get_target(ma).to_u64(), 145);
    assert_eq!(w.get_target(ms).to_u64(), 119);
}

#[test]
fn add_many_and_mul_many() {
    let mut builder = CircuitBuilder::new();
    let ts = builder.add_virtual_targets(3);
    let sum = builder.add_many(ts.as_slice());
    let product = builder.mul_many(ts.as_slice());
    let circuit = builder.build();
    let mut inputs = PartialWitness::new();
    inputs.set_target(ts[0], f(2));
    inputs.set_target(ts[1], f(3));
    inputs.set_target(ts[2], f(5));
    let w = circuit.complete_witness(inputs).unwrap();
    assert_eq!(w.get_target(sum).to_u64(), 10);
    assert_eq!(w.get_target(product).to_u64(), 30);
}

#[test]
fn split_binary_decomposes() {
    let mut builder = CircuitBuilder::new();
    let x = builder.add_virtual_target();
    let bits = builder.split_binary(x, 6);
    let circuit = builder.build();
    let mut inputs = PartialWitness::new();
    inputs.set_target(x, f(0b101101));
    let w = circuit.complete_witness(inputs).unwrap();
    let expected = [1u64, 0, 1, 1, 0, 1];
    for (i, bit) in bits.iter().enumerate() {
        assert_eq!(w.get_target(*bit).to_u64(), expected[i]);
    }
}

// Sponge determinism and distinctness.
#[test]
fn rescue_sponge_is_deterministic_across_constructions() {
    let run = |values: [u64; 3]| -> Vec<u64> {
        let mut builder = CircuitBuilder::new();
        let ins = builder.add_virtual_targets(3);
        let outs = builder.rescue_sponge(ins.as_slice(), 2);
        let circuit = builder.build();
        let mut inputs = PartialWitness::new();
        for (i, t) in ins.iter().enumerate() {
            inputs.set_target(*t, f(values[i]));
        }
        let w = circuit.complete_witness(inputs).unwrap();
        outs.iter().map(|t| w.get_target(*t).to_u64()).collect()
    };
    let first = run([10, 20, 30]);
    let second = run([10, 20, 30]);
    assert_eq!(first, second);
    let changed = run([10, 21, 30]);
    assert_ne!(first, changed);
    let changed_first = run([11, 20, 30]);
    assert_ne!(first, changed_first);
}

#[test]
fn rescue_hash_wrappers_agree_with_sponge() {
    let mut builder = CircuitBuilder::new();
    let ins = builder.add_virtual_targets(2);
    let one_out = builder.rescue_hash_n_to_1(ins.as_slice());
    let circuit = builder.build();
    let mut inputs = PartialWitness::new();
    inputs.set_target(ins[0], f(7));
    inputs.set_target(ins[1], f(8));
    let w = circuit.complete_witness(inputs).unwrap();
    // Just a smoke check that a value came out and is reduced.
    assert!(w.get_target(one_out).to_u64() < FIELD_ORDER);
}

// MSM correctness on small known scalars.
#[test]
fn curve_msm_matches_direct_sum() {
    let g = AffinePoint::generator_affine();
    let p2 = g.double();
    let p3 = p2.add(&g);
    let scalars: [u64; 3] = [0, 1, 3];
    let points = [g, p2, p3];

    let mut builder = CircuitBuilder::new();
    let mut parts = Vec::new();
    let mut bit_targets = Vec::new();
    for point in points.iter() {
        let bits = builder.add_virtual_targets(4);
        let addend = builder.constant_affine_point(*point);
        bit_targets.push(bits.clone());
        parts.push(MsmPart { scalar_bits: bits, addend });
    }
    let result = builder.curve_msm(parts.as_slice()).unwrap();
    let circuit = builder.build();

    let mut inputs = PartialWitness::new();
    for (j, bits) in bit_targets.iter().enumerate() {
        for (i, bit) in bits.iter().enumerate() {
            inputs.set_target(*bit, f((scalars[j] >> i) & 1));
        }
    }
    let w = circuit.complete_witness(inputs).unwrap();

    // The per-part scalar accumulators carry the bit-weighted sums.
    for (j, scalar_target) in result.scalars.iter().enumerate() {
        assert_eq!(w.get_target(*scalar_target).to_u64(), scalars[j]);
    }

    // The sum evaluates to the direct computation 0*G + 1*2G + 3*3G.
    let mut expected = AffinePoint::identity();
    for (j, point) in points.iter().enumerate() {
        for _ in 0..scalars[j] {
            expected = expected.add(point);
        }
    }
    assert!(!expected.zero);
    assert_eq!(w.get_target(result.sum.x).to_u64(), expected.x.to_u64());
    assert_eq!(w.get_target(result.sum.y).to_u64(), expected.y.to_u64());
}

#[test]
fn curve_gadgets_generate_curve_points() {
    let g = AffinePoint::generator_affine();
    let p2 = g.double();
    let mut builder = CircuitBuilder::new();
    let a = builder.constant_affine_point(g);
    let b = builder.constant_affine_point(p2);
    let s = builder.curve_add(a, b);
    let d = builder.curve_double(a);
    builder.curve_assert_valid(a);
    let circuit = builder.build();
    let w = circuit.complete_witness(PartialWitness::new()).unwrap();
    let expected_sum = g.add(&p2);
    assert_eq!(w.get_target(s.x).to_u64(), expected_sum.x.to_u64());
    assert_eq!(w.get_target(s.y).to_u64(), expected_sum.y.to_u64());
    assert_eq!(w.get_target(d.x).to_u64(), p2.x.to_u64());
    assert_eq!(w.get_target(d.y).to_u64(), p2.y.to_u64());
}

// Public input addressing: index 7 with 11 wires and 6 routed wires lands
// on gate 0, raw slot 7, remapped to gate 1, slot 1.
#[test]
fn public_input_seven_remaps_to_following_gate() {
    let pi = PublicInput { index: 7 };
    match pi.routable_target() {
        Target::Wire(Wire { gate, input }) => {
            assert_eq!(gate, 1);
            assert_eq!(input, 1);
        }
        _ => panic!("expected a wire target"),
    }
    // Raw slot 6 is the first slot outside the routed range and remaps too.
    let pi6 = PublicInput { index: 6 };
    match pi6.routable_target() {
        Target::Wire(Wire { gate, input }) => {
            assert_eq!(gate, 1);
            assert_eq!(input, 0);
        }
        _ => panic!("expected a wire target"),
    }
    // A routed raw slot stays in place.
    let pi3 = PublicInput { index: 3 };
    match pi3.routable_target() {
        Target::Wire(Wire { gate, input }) => {
            assert_eq!(gate, 0);
            assert_eq!(input, 3);
        }
        _ => panic!("expected a wire target"),
    }
}

#[test]
fn route_public_inputs_copies_advice_slots() {
    let mut builder = CircuitBuilder::new();
    let pis = builder.stage_public_inputs(8);
    builder.route_public_inputs();
    assert_eq!(builder.num_gates(), 2);
    let circuit = builder.build();
    let mut inputs = PartialWitness::new();
    for (i, pi) in pis.iter().enumerate() {
        inputs.set_wire(
            Wire { gate: 0, input: pi.index },
            f(100 + i as u64),
        );
    }
    // The unstaged slots of the public-input gate are supplied as zero.
    for s in 8..11 {
        inputs.set_wire(Wire { gate: 0, input: s }, f(0));
    }
    let w = circuit.complete_witness(inputs).unwrap();
    for pi in pis.iter() {
        assert_eq!(w.get_target(pi.routable_target()).to_u64(), 100 + pi.index as u64);
    }
}

// Conflicting copy constraints are reported, not silently resolved.
#[test]
fn conflicting_constraint_fails_generation() {
    let mut builder = CircuitBuilder::new();
    let x = builder.add_virtual_target();
    let y = builder.add_virtual_target();
    builder.copy(x, y);
    let circuit = builder.build();
    let mut inputs = PartialWitness::new();
    inputs.set_target(x, f(1));
    inputs.set_target(y, f(2));
    match circuit.complete_witness(inputs) {
        Err(WitnessError::Conflict) => {}
        other => panic!("expected a conflict, got ok={}", other.is_ok()),
    }
}

// An under-constrained circuit stalls instead of inventing values.
#[test]
fn missing_input_stalls_generation() {
    let mut builder = CircuitBuilder::new();
    let x = builder.add_virtual_target();
    let y = builder.add_virtual_target();
    builder.add(x, y);
    let circuit = builder.build();
    let mut inputs = PartialWitness::new();
    inputs.set_target(x, f(1));
    match circuit.complete_witness(inputs) {
        Err(WitnessError::Stalled) => {}
        other => panic!("expected a stall, got ok={}", other.is_ok()),
    }
}

#[test]
fn generate_witness_produces_dense_rows() {
    let mut builder = CircuitBuilder::new();
    let x = builder.add_virtual_target();
    let y = builder.add_virtual_target();
    let t = builder.add(x, y);
    let circuit = builder.build();
    let mut inputs = PartialWitness::new();
    inputs.set_target(x, f(20));
    inputs.set_target(y, f(22));
    let witness = circuit.generate_witness(inputs).unwrap();
    assert_eq!(witness.num_rows(), circuit.num_gates());
    match t {
        Target::Wire(w) => {
            assert_eq!(witness.get(w.gate, w.input).to_u64(), 42);
        }
        _ => panic!("expected a wire output"),
    }
}

#[test]
fn curve_msm_endo_produces_scalars_per_part() {
    let g = AffinePoint::generator_affine();
    let mut builder = CircuitBuilder::new();
    let bits = builder.add_virtual_targets(128);
    let addend = builder.constant_affine_point(g);
    let parts = vec![MsmPart { scalar_bits: bits, addend }];
    let before = builder.num_gates();
    let result = builder.curve_msm_endo(parts.as_slice()).unwrap();
    assert_eq!(result.msm_result.scalars.len(), 1);
    assert_eq!(result.actual_scalars.len(), 1);
    // One curve addition and one doubling per bit pair, plus the
    // arithmetic gates of the selections and scalar bookkeeping.
    assert!(builder.num_gates() >= before + 2 * 64);
    let total = builder.num_gates();
    let circuit = builder.build();
    assert_eq!(circuit.num_gates(), total);
}

#[test]
fn partial_witness_set_and_get() {
    let mut w = PartialWitness::new();
    let t = Target::VirtualTarget(VirtualTarget { index: 0 });
    assert!(!w.contains_target(t));
    w.set_target(t, f(99));
    assert!(w.contains_target(t));
    assert_eq!(w.get_target(t).to_u64(), 99);
    let wire = Wire { gate: 3, input: 4 };
    w.set_wire(wire, f(5));
    assert_eq!(w.get_wire(wire).to_u64(), 5);
}
