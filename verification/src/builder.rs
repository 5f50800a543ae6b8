//! The circuit builder: the mutable construction context. It allocates
//! virtual targets and public inputs, emits gates, records copy constraints,
//! and exposes the arithmetic and cryptographic gadgets.
//!
//! Contracts are stated against `satisfies`: a witness satisfies a builder
//! state when it meets every recorded copy constraint and is consistent with
//! every recorded generator. A gadget's postcondition then pins the value of
//! its result in every satisfying witness (`forces_*`).

use vstd::prelude::*;

verus! {

use crate::field::{
    bit_of, fadd, fmul, fneg, fpow, fsub, fwf, lemma_fadd_zero, lemma_fmul_assoc, lemma_fmul_comm,
    lemma_fmul_neg_one, lemma_fmul_one_left, lemma_fmul_one_right, lemma_fmul_zero, Field,
    FIELD_ORDER,
};
use crate::gates::{
    gen_holds, GateKind, GenView, WitnessGenerator, WIRE_ADDEND, WIRE_BUFFER_CONST,
    WIRE_MULTIPLICAND_0, WIRE_MULTIPLICAND_1, WIRE_OUTPUT,
};
use crate::target::{
    wire_ti, AffinePointTarget, PublicInput, Target, VirtualTarget, Wire, NUM_CONSTANTS,
    NUM_ROUTED_WIRES, NUM_WIRES,
};
use crate::circuit::Circuit;
use crate::curve::AffinePoint;
use crate::gates::rescue_perm_upto;
use crate::partitions::RoutingTargetPartitions;
use crate::witness::witness_wf;
use vstd::arithmetic::power2::pow2;

/// The canonical representatives of a row of field elements.
pub open spec fn field_vals(s: Seq<Field>) -> Seq<int> {
    s.map(|i: int, f: Field| f.as_int())
}

/// The canonical representatives of the whole constant matrix.
pub open spec fn rows_view(s: Seq<Vec<Field>>) -> Seq<Seq<int>> {
    s.map(|i: int, v: Vec<Field>| field_vals(v@))
}

/// The specification-level state of a builder: what the recorded gates,
/// constraints and generators say, independent of representation.
pub struct BuilderView {
    pub public_input_index: int,
    pub virtual_target_index: int,
    pub gate_constants: Seq<Seq<int>>,
    pub copy_constraints: Seq<(Target, Target)>,
    pub generators: Seq<GenView>,
    pub constants: Map<int, Target>,
}

/// A target the builder has created: a virtual target already allocated, or
/// a wire slot of a gate already emitted.
pub open spec fn target_valid(b: BuilderView, t: Target) -> bool {
    match t {
        Target::VirtualTarget(v) => (v.index as int) < b.virtual_target_index,
        Target::Wire(w) => (w.gate as int) < b.gate_constants.len() && (w.input as int)
            < NUM_WIRES as int,
    }
}

/// One copy constraint is met: both targets assigned, with equal values.
pub open spec fn constraint_ok(p: (Target, Target), w: Map<Target, int>) -> bool {
    w.contains_key(p.0) && w.contains_key(p.1) && w[p.0] == w[p.1]
}

/// A witness satisfies a builder state when it is canonical, meets every
/// recorded copy constraint and is consistent with every recorded generator.
pub open spec fn satisfies(b: BuilderView, w: Map<Target, int>) -> bool {
    &&& witness_wf(w)
    &&& forall|k: int|
        0 <= k < b.copy_constraints.len() ==> constraint_ok(#[trigger] b.copy_constraints[k], w)
    &&& forall|k: int|
        0 <= k < b.generators.len() ==> gen_holds(
            #[trigger] b.generators[k],
            b.gate_constants,
            w,
        )
}

/// Every gate generator points at a row that exists.
pub open spec fn view_wf(b: BuilderView) -> bool {
    forall|k: int|
        0 <= k < b.generators.len() ==> match #[trigger] b.generators[k] {
            GenView::Gate { index, kind } => 0 <= index < b.gate_constants.len(),
            _ => true,
        }
}

/// The later state records everything the earlier one did, in place.
pub open spec fn extends(pre: BuilderView, post: BuilderView) -> bool {
    &&& pre.gate_constants.is_prefix_of(post.gate_constants)
    &&& pre.copy_constraints.is_prefix_of(post.copy_constraints)
    &&& pre.generators.is_prefix_of(post.generators)
    &&& pre.virtual_target_index <= post.virtual_target_index
    &&& pre.public_input_index <= post.public_input_index
}

/// Whatever satisfies a later builder state satisfies every earlier one.
pub proof fn lemma_satisfies_extends(pre: BuilderView, post: BuilderView, w: Map<Target, int>)
    requires
        view_wf(pre),
        extends(pre, post),
        satisfies(post, w),
    ensures
        satisfies(pre, w),
{
    assert forall|k: int| 0 <= k < pre.copy_constraints.len() implies constraint_ok(
        #[trigger] pre.copy_constraints[k],
        w,
    ) by {
        assert(pre.copy_constraints[k] == post.copy_constraints[k]);
    }
    assert forall|k: int| 0 <= k < pre.generators.len() implies gen_holds(
        #[trigger] pre.generators[k],
        pre.gate_constants,
        w,
    ) by {
        assert(pre.generators[k] == post.generators[k]);
        assert(gen_holds(post.generators[k], post.gate_constants, w));
        match pre.generators[k] {
            GenView::Gate { index, kind } => {
                assert(pre.gate_constants[index] == post.gate_constants[index]);
            },
            _ => {},
        }
    }
}

pub proof fn lemma_extends_trans(a: BuilderView, b: BuilderView, c: BuilderView)
    requires
        extends(a, b),
        extends(b, c),
    ensures
        extends(a, c),
{
    assert(a.gate_constants.is_prefix_of(c.gate_constants)) by {
        assert(a.gate_constants =~= c.gate_constants.subrange(0, a.gate_constants.len() as int));
    }
    assert(a.copy_constraints.is_prefix_of(c.copy_constraints)) by {
        assert(a.copy_constraints =~= c.copy_constraints.subrange(
            0,
            a.copy_constraints.len() as int,
        ));
    }
    assert(a.generators.is_prefix_of(c.generators)) by {
        assert(a.generators =~= c.generators.subrange(0, a.generators.len() as int));
    }
}

/// Every satisfying witness assigns `v` to `t`.
pub open spec fn forces_val(b: BuilderView, t: Target, v: int) -> bool {
    forall|w: Map<Target, int>|
        #[trigger] satisfies(b, w) ==> w.contains_key(t) && w[t] == v
}

/// Every satisfying witness assigns `t` and `u` one value.
pub open spec fn forces_eq(b: BuilderView, t: Target, u: Target) -> bool {
    forall|w: Map<Target, int>|
        #[trigger] satisfies(b, w) ==> constraint_ok((t, u), w)
}

/// Every satisfying witness assigning the operands assigns their sum to `t`.
pub open spec fn forces_sum(b: BuilderView, t: Target, x: Target, y: Target) -> bool {
    forall|w: Map<Target, int>|
        #[trigger] satisfies(b, w) && w.contains_key(x) && w.contains_key(y) ==> w.contains_key(t)
            && w[t] == fadd(w[x], w[y])
}

/// Every satisfying witness assigning the operands assigns their difference
/// to `t`.
pub open spec fn forces_diff(b: BuilderView, t: Target, x: Target, y: Target) -> bool {
    forall|w: Map<Target, int>|
        #[trigger] satisfies(b, w) && w.contains_key(x) && w.contains_key(y) ==> w.contains_key(t)
            && w[t] == fsub(w[x], w[y])
}

/// Every satisfying witness assigning the operands assigns their product to
/// `t`.
pub open spec fn forces_prod(b: BuilderView, t: Target, x: Target, y: Target) -> bool {
    forall|w: Map<Target, int>|
        #[trigger] satisfies(b, w) && w.contains_key(x) && w.contains_key(y) ==> w.contains_key(t)
            && w[t] == fmul(w[x], w[y])
}

/// Every satisfying witness assigns `x` and `t` values whose product is the
/// multiplicative identity; in particular no satisfying witness assigns `x`
/// the additive identity.
pub open spec fn forces_inv(b: BuilderView, x: Target, t: Target) -> bool {
    forall|w: Map<Target, int>|
        #[trigger] satisfies(b, w) ==> w.contains_key(x) && w.contains_key(t) && w[x] != 0 && fmul(
            w[x],
            w[t],
        ) == 1
}

/// Every satisfying witness assigning `x` assigns `x` raised to `e` to `t`.
pub open spec fn forces_pow(b: BuilderView, t: Target, x: Target, e: nat) -> bool {
    forall|w: Map<Target, int>|
        #[trigger] satisfies(b, w) && w.contains_key(x) ==> w.contains_key(t) && w[t] == fpow(
            w[x],
            e,
        )
}

/// Every satisfying witness assigning `x` assigns its negation to `t`.
pub open spec fn forces_neg(b: BuilderView, t: Target, x: Target) -> bool {
    forall|w: Map<Target, int>|
        #[trigger] satisfies(b, w) && w.contains_key(x) ==> w.contains_key(t) && w[t] == fneg(
            w[x],
        )
}

/// The values a witness assigns to a list of targets, in order.
pub open spec fn target_vals(w: Map<Target, int>, ts: Seq<Target>) -> Seq<int>
    decreases ts.len(),
{
    if ts.len() == 0 {
        Seq::empty()
    } else {
        target_vals(w, ts.drop_last()).push(w[ts.last()])
    }
}

pub proof fn lemma_target_vals(w: Map<Target, int>, ts: Seq<Target>)
    ensures
        target_vals(w, ts).len() == ts.len(),
        forall|i: int| 0 <= i < ts.len() ==> #[trigger] target_vals(w, ts)[i] == w[ts[i]],
    decreases ts.len(),
{
    if ts.len() > 0 {
        lemma_target_vals(w, ts.drop_last());
        assert forall|i: int| 0 <= i < ts.len() implies #[trigger] target_vals(w, ts)[i] == w[
            ts[i]
        ] by {
            if i < ts.len() - 1 {
                assert(target_vals(w, ts.drop_last())[i] == w[ts.drop_last()[i]]);
            }
        }
    }
}

/// Every listed target is assigned.
pub open spec fn targets_assigned(w: Map<Target, int>, ts: Seq<Target>) -> bool {
    forall|i: int| 0 <= i < ts.len() ==> w.contains_key(#[trigger] ts[i])
}

/// Every satisfying witness assigning the inputs assigns each output the
/// sponge of the input values: determinism of the sponge at the value level.
pub open spec fn forces_sponge(b: BuilderView, outs: Seq<Target>, ins: Seq<Target>) -> bool {
    forall|w: Map<Target, int>|
        #[trigger] satisfies(b, w) && targets_assigned(w, ins) ==> forall|k: int|
            0 <= k < outs.len() ==> w.contains_key(#[trigger] outs[k]) && w[outs[k]]
                == crate::gates::sponge_output(target_vals(w, ins), k as nat)
}

/// Every satisfying witness assigns every listed target the matching bit of
/// `x`'s canonical decomposition.
pub open spec fn forces_bits(b: BuilderView, bits: Seq<Target>, x: Target) -> bool {
    forall|w: Map<Target, int>|
        #[trigger] satisfies(b, w) ==> w.contains_key(x) && forall|i: int|
            0 <= i < bits.len() ==> w.contains_key(#[trigger] bits[i]) && w[bits[i]] == bit_of(
                w[x],
                i as nat,
            )
}

pub proof fn lemma_forces_val_mono(pre: BuilderView, post: BuilderView, t: Target, v: int)
    requires
        view_wf(pre),
        extends(pre, post),
        forces_val(pre, t, v),
    ensures
        forces_val(post, t, v),
{
    assert forall|w: Map<Target, int>| #[trigger] satisfies(post, w) implies w.contains_key(t)
        && w[t] == v by {
        lemma_satisfies_extends(pre, post, w);
    }
}





pub proof fn lemma_forces_inv_mono(pre: BuilderView, post: BuilderView, x: Target, t: Target)
    requires
        view_wf(pre),
        extends(pre, post),
        forces_inv(pre, x, t),
    ensures
        forces_inv(post, x, t),
{
    assert forall|w: Map<Target, int>| #[trigger] satisfies(post, w) implies w.contains_key(x)
        && w.contains_key(t) && w[x] != 0 && fmul(w[x], w[t]) == 1 by {
        lemma_satisfies_extends(pre, post, w);
    }
}

pub proof fn lemma_forces_pow_mono(
    pre: BuilderView,
    post: BuilderView,
    t: Target,
    x: Target,
    e: nat,
)
    requires
        view_wf(pre),
        extends(pre, post),
        forces_pow(pre, t, x, e),
    ensures
        forces_pow(post, t, x, e),
{
    assert forall|w: Map<Target, int>|
        #[trigger] satisfies(post, w) && w.contains_key(x) implies w.contains_key(t) && w[t]
        == fpow(w[x], e) by {
        lemma_satisfies_extends(pre, post, w);
    }
}

/// The constant row a memoized constant lives in: the buffer prefix followed
/// by the constant itself.
pub open spec fn buffer_row(c: int) -> Seq<int> {
    GateKind::Buffer.prefix_spec().push(c)
}

/// A memoized constant is pinned by a buffer gate and its generator.
pub open spec fn constant_binding(b: BuilderView, c: int, t: Target) -> bool {
    exists|g: int, k: int|
        #![auto]
        {
            &&& 0 <= g < b.gate_constants.len()
            &&& 0 <= k < b.generators.len()
            &&& t == wire_ti(g, 5)
            &&& b.gate_constants[g] == buffer_row(c)
            &&& b.generators[k] == GenView::Gate { index: g, kind: GateKind::Buffer }
        }
}

/// The constant-cache mapping of an association list of field keys.
pub closed spec fn cmap(s: Seq<(Field, Target)>) -> Map<int, Target>
    decreases s.len(),
{
    if s.len() == 0 {
        Map::empty()
    } else {
        cmap(s.drop_last()).insert(s.last().0.as_int(), s.last().1)
    }
}

proof fn lemma_cmap_absent(s: Seq<(Field, Target)>, c: int)
    requires
        forall|i: int| 0 <= i < s.len() ==> (#[trigger] s[i]).0.as_int() != c,
    ensures
        !cmap(s).contains_key(c),
    decreases s.len(),
{
    if s.len() > 0 {
        lemma_cmap_absent(s.drop_last(), c);
    }
}

spec fn cmap_wf(s: Seq<(Field, Target)>) -> bool {
    forall|i: int, j: int|
        0 <= i < j < s.len() ==> (#[trigger] s[i]).0.as_int() != (#[trigger] s[j]).0.as_int()
}

proof fn lemma_cmap_lookup(s: Seq<(Field, Target)>, j: int)
    requires
        cmap_wf(s),
        0 <= j < s.len(),
    ensures
        cmap(s).contains_key(s[j].0.as_int()),
        cmap(s)[s[j].0.as_int()] == s[j].1,
    decreases s.len(),
{
    if j < s.len() - 1 {
        lemma_cmap_lookup(s.drop_last(), j);
    }
}

proof fn lemma_cmap_dom(s: Seq<(Field, Target)>, c: int)
    requires
        cmap(s).contains_key(c),
    ensures
        exists|i: int| 0 <= i < s.len() && (#[trigger] s[i]).0.as_int() == c,
    decreases s.len(),
{
    if s.len() > 0 && s.last().0.as_int() != c {
        lemma_cmap_dom(s.drop_last(), c);
        let i = choose|i: int|
            0 <= i < s.drop_last().len() && (#[trigger] s.drop_last()[i]).0.as_int() == c;
        assert(s[i].0.as_int() == c);
    }
}

/// The mutable construction context for one circuit.
pub struct CircuitBuilder {
    public_input_index: usize,
    virtual_target_index: usize,
    gate_constants: Vec<Vec<Field>>,
    copy_constraints: Vec<(Target, Target)>,
    generators: Vec<WitnessGenerator>,
    constant_wires: Vec<(Field, Target)>,
}

impl CircuitBuilder {
    /// What the builder has recorded so far.
    pub closed spec fn view(&self) -> BuilderView {
        BuilderView {
            public_input_index: self.public_input_index as int,
            virtual_target_index: self.virtual_target_index as int,
            gate_constants: rows_view(self.gate_constants@),
            copy_constraints: self.copy_constraints@,
            generators: self.generators@.map(|i: int, g: WitnessGenerator| g@),
            constants: cmap(self.constant_wires@),
        }
    }

    /// Internal consistency: rows hold canonical values, generators point at
    /// live rows, constraints join created targets, and the constant cache
    /// is backed by pinned buffer gates.
    pub closed spec fn wf(&self) -> bool {
        &&& view_wf(self@)
        &&& cmap_wf(self.constant_wires@)
        &&& forall|i: int, j: int|
            0 <= i < self@.gate_constants.len() && 0 <= j < (
            #[trigger] self@.gate_constants[i]).len() ==> fwf(#[trigger] self@.gate_constants[i][j])
        &&& forall|k: int|
            0 <= k < self@.copy_constraints.len() ==> target_valid(
                self@,
                (#[trigger] self@.copy_constraints[k]).0,
            ) && target_valid(self@, self@.copy_constraints[k].1)
        &&& forall|i: int|
            0 <= i < self.constant_wires@.len() ==> (#[trigger] self.constant_wires@[i]).0.wf()
                && constant_binding(
                self@,
                self.constant_wires@[i].0.as_int(),
                self.constant_wires@[i].1,
            ) && target_valid(self@, self.constant_wires@[i].1)
    }

    /// A fresh builder with nothing recorded.
    pub fn new() -> (r: CircuitBuilder)
        ensures
            r.wf(),
            r@.public_input_index == 0,
            r@.virtual_target_index == 0,
            r@.gate_constants == Seq::<Seq<int>>::empty(),
            r@.copy_constraints == Seq::<(Target, Target)>::empty(),
            r@.generators == Seq::<GenView>::empty(),
            r@.constants == Map::<int, Target>::empty(),
    {
        let r = CircuitBuilder {
            public_input_index: 0,
            virtual_target_index: 0,
            gate_constants: Vec::new(),
            copy_constraints: Vec::new(),
            generators: Vec::new(),
            constant_wires: Vec::new(),
        };
        proof {
            assert(r@.gate_constants =~= Seq::<Seq<int>>::empty());
            assert(r@.generators =~= Seq::<GenView>::empty());
        }
        r
    }

    /// Number of gates emitted so far.
    pub fn num_gates(&self) -> (r: usize)
        ensures
            r as int == self@.gate_constants.len(),
    {
        self.gate_constants.len()
    }

    /// Record a copy constraint between two routing targets. Constraining a
    /// target the builder never created is a programming error, ruled out by
    /// the precondition.
    pub fn copy(&mut self, target_1: Target, target_2: Target)
        requires
            old(self).wf(),
            target_valid(old(self)@, target_1),
            target_valid(old(self)@, target_2),
        ensures
            final(self).wf(),
            extends(old(self)@, final(self)@),
            final(self)@ == (BuilderView {
                copy_constraints: old(self)@.copy_constraints.push((target_1, target_2)),
                ..old(self)@
            }),
            forces_eq(final(self)@, target_1, target_2),
    {
        let ghost pre = self@;
        self.copy_constraints.push((target_1, target_2));
        proof {
            assert(self@.copy_constraints =~= pre.copy_constraints.push((target_1, target_2)));
            assert(self@ == (BuilderView { copy_constraints: self@.copy_constraints, ..pre }));
            assert forall|w: Map<Target, int>| #[trigger] satisfies(self@, w) implies
                constraint_ok((target_1, target_2), w) by {
                let k = pre.copy_constraints.len() as int;
                assert(self@.copy_constraints[k] == (target_1, target_2));
            }
            assert forall|i: int| 0 <= i < self.constant_wires@.len() implies (
            #[trigger] self.constant_wires@[i]).0.wf() && constant_binding(
                self@,
                self.constant_wires@[i].0.as_int(),
                self.constant_wires@[i].1,
            ) && target_valid(self@, self.constant_wires@[i].1) by {
                assert(constant_binding(pre, self.constant_wires@[i].0.as_int(),
                    self.constant_wires@[i].1));
            }
            assert(self.wf());
        }
    }

    /// Emit a gate: its row is the kind's prefix followed by the supplied
    /// configuration constants; every emitted gate is registered as its own
    /// witness generator. Overfilling the row is a programming error, ruled
    /// out by the precondition.
    pub fn add_gate(&mut self, kind: GateKind, gate_constants: Vec<Field>)
        requires
            old(self).wf(),
            kind.prefix_spec().len() + gate_constants@.len() <= NUM_CONSTANTS as int,
            forall|j: int| 0 <= j < gate_constants@.len() ==> (#[trigger] gate_constants@[j]).wf(),
        ensures
            final(self).wf(),
            extends(old(self)@, final(self)@),
            final(self)@ == (BuilderView {
                gate_constants: old(self)@.gate_constants.push(
                    kind.prefix_spec() + field_vals(gate_constants@),
                ),
                generators: old(self)@.generators.push(
                    GenView::Gate { index: old(self)@.gate_constants.len() as int, kind },
                ),
                ..old(self)@
            }),
    {
        let ghost pre = self@;
        let index = self.gate_constants.len();
        let mut all_constants = kind.prefix();
        let mut rest = gate_constants;
        all_constants.append(&mut rest);
        proof {
            assert(field_vals(all_constants@) =~= kind.prefix_spec() + field_vals(
                gate_constants@,
            ));
        }
        self.gate_constants.push(all_constants);
        self.generators.push(WitnessGenerator::Gate { index, kind });
        proof {
            assert(self@.gate_constants =~= pre.gate_constants.push(
                kind.prefix_spec() + field_vals(gate_constants@),
            ));
            assert(self@.generators =~= pre.generators.push(
                GenView::Gate { index: index as int, kind },
            ));
            assert(self@ == (BuilderView {
                gate_constants: self@.gate_constants,
                generators: self@.generators,
                ..pre
            }));
            lemma_wf_append(pre, self@, *self);
        }
    }

    /// Register a standalone witness generator. A gate generator must point
    /// at a gate that exists.
    pub fn add_generator(&mut self, gate: WitnessGenerator)
        requires
            old(self).wf(),
            (match gate@ {
                GenView::Gate { index, kind } => 0 <= index < old(self)@.gate_constants.len(),
                _ => true,
            }),
        ensures
            final(self).wf(),
            extends(old(self)@, final(self)@),
            final(self)@ == (BuilderView {
                generators: old(self)@.generators.push(gate@),
                ..old(self)@
            }),
    {
        let ghost pre = self@;
        self.generators.push(gate);
        proof {
            assert(self@.generators =~= pre.generators.push(gate@));
            assert(self@ == (BuilderView { generators: self@.generators, ..pre }));
            lemma_wf_append(pre, self@, *self);
        }
    }

    /// Allocate a fresh virtual target.
    pub fn add_virtual_target(&mut self) -> (r: Target)
        requires
            old(self).wf(),
            old(self)@.virtual_target_index < usize::MAX as int,
        ensures
            final(self).wf(),
            extends(old(self)@, final(self)@),
            final(self)@ == (BuilderView {
                virtual_target_index: old(self)@.virtual_target_index + 1,
                ..old(self)@
            }),
            r == Target::VirtualTarget(
                VirtualTarget { index: old(self)@.virtual_target_index as usize },
            ),
            target_valid(final(self)@, r),
    {
        let ghost pre = self@;
        let index = self.virtual_target_index;
        self.virtual_target_index = self.virtual_target_index + 1;
        proof {
            assert(self@ == (BuilderView {
                virtual_target_index: pre.virtual_target_index + 1,
                ..pre
            }));
            lemma_wf_append(pre, self@, *self);
        }
        Target::VirtualTarget(VirtualTarget { index })
    }

    /// Allocate `n` fresh virtual targets.
    pub fn add_virtual_targets(&mut self, n: usize) -> (r: Vec<Target>)
        requires
            old(self).wf(),
            old(self)@.virtual_target_index + n <= usize::MAX as int,
        ensures
            final(self).wf(),
            extends(old(self)@, final(self)@),
            final(self)@ == (BuilderView {
                virtual_target_index: old(self)@.virtual_target_index + n,
                ..old(self)@
            }),
            r@.len() == n as int,
            forall|i: int|
                0 <= i < n as int ==> #[trigger] r@[i] == Target::VirtualTarget(
                    VirtualTarget { index: (old(self)@.virtual_target_index + i) as usize },
                ),
            forall|i: int| 0 <= i < n as int ==> target_valid(final(self)@, #[trigger] r@[i]),
    {
        let ghost pre = self@;
        let mut r: Vec<Target> = Vec::new();
        let mut i: usize = 0;
        while i < n
            invariant
                i <= n,
                self.wf(),
                pre.virtual_target_index + n <= usize::MAX as int,
                self@ == (BuilderView {
                    virtual_target_index: pre.virtual_target_index + i,
                    ..pre
                }),
                r@.len() == i as int,
                forall|q: int|
                    0 <= q < i as int ==> #[trigger] r@[q] == Target::VirtualTarget(
                        VirtualTarget { index: (pre.virtual_target_index + q) as usize },
                    ),
            decreases n - i,
        {
            let t = self.add_virtual_target();
            r.push(t);
            i = i + 1;
        }
        proof {
            assert(extends(pre, self@));
        }
        r
    }

    /// Stage one public input, in staging order.
    pub fn stage_public_input(&mut self) -> (r: PublicInput)
        requires
            old(self).wf(),
            old(self)@.public_input_index < usize::MAX as int,
        ensures
            final(self).wf(),
            extends(old(self)@, final(self)@),
            final(self)@ == (BuilderView {
                public_input_index: old(self)@.public_input_index + 1,
                ..old(self)@
            }),
            r.index as int == old(self)@.public_input_index,
    {
        let ghost pre = self@;
        let index = self.public_input_index;
        self.public_input_index = self.public_input_index + 1;
        proof {
            assert(self@ == (BuilderView {
                public_input_index: pre.public_input_index + 1,
                ..pre
            }));
            lemma_wf_append(pre, self@, *self);
        }
        PublicInput { index }
    }

    /// Stage `n` public inputs, in staging order.
    pub fn stage_public_inputs(&mut self, n: usize) -> (r: Vec<PublicInput>)
        requires
            old(self).wf(),
            old(self)@.public_input_index + n <= usize::MAX as int,
        ensures
            final(self).wf(),
            extends(old(self)@, final(self)@),
            final(self)@ == (BuilderView {
                public_input_index: old(self)@.public_input_index + n,
                ..old(self)@
            }),
            r@.len() == n as int,
            forall|i: int|
                0 <= i < n as int ==> (#[trigger] r@[i]).index as int == old(self)@.public_input_index + i,
    {
        let ghost pre = self@;
        let mut r: Vec<PublicInput> = Vec::new();
        let mut i: usize = 0;
        while i < n
            invariant
                i <= n,
                self.wf(),
                pre.public_input_index + n <= usize::MAX as int,
                self@ == (BuilderView {
                    public_input_index: pre.public_input_index + i,
                    ..pre
                }),
                r@.len() == i as int,
                forall|q: int|
                    0 <= q < i as int ==> (#[trigger] r@[q]).index as int == pre.public_input_index
                        + q,
            decreases n - i,
        {
            let p = self.stage_public_input();
            r.push(p);
            i = i + 1;
        }
        proof {
            assert(extends(pre, self@));
        }
        r
    }
}

/// Well-formedness is stable under recording more state: the shared closing
/// argument of the primitive builder operations. `post` must extend `pre`
/// without touching the constant cache, and any new generator must point at
/// a live row.
proof fn lemma_wf_append(pre: BuilderView, post: BuilderView, b: CircuitBuilder)
    requires
        b@ == post,
        extends(pre, post),
        b.wf_parts_except_view(pre),
    ensures
        b.wf(),
{
    b.lemma_wf_parts(pre);
}

impl CircuitBuilder {
    /// The pieces of `wf` that survive any extension, relative to the state
    /// `pre` that was known well formed.
    spec fn wf_parts_except_view(&self, pre: BuilderView) -> bool {
        &&& extends(pre, self@)
        &&& cmap_wf(self.constant_wires@)
        &&& view_wf(pre)
        &&& forall|k: int|
            pre.generators.len() <= k < self@.generators.len() ==> match #[trigger] self@.generators[k] {
                GenView::Gate { index, kind } => 0 <= index < self@.gate_constants.len(),
                _ => true,
            }
        &&& forall|i: int, j: int|
            0 <= i < pre.gate_constants.len() && 0 <= j < (#[trigger] pre.gate_constants[i]).len()
                ==> fwf(#[trigger] pre.gate_constants[i][j])
        &&& forall|i: int, j: int|
            pre.gate_constants.len() <= i < self@.gate_constants.len() && 0 <= j < (
            #[trigger] self@.gate_constants[i]).len() ==> fwf(#[trigger] self@.gate_constants[i][j])
        &&& forall|k: int|
            0 <= k < pre.copy_constraints.len() ==> target_valid(
                pre,
                (#[trigger] pre.copy_constraints[k]).0,
            ) && target_valid(pre, pre.copy_constraints[k].1)
        &&& forall|k: int|
            pre.copy_constraints.len() <= k < self@.copy_constraints.len() ==> target_valid(
                self@,
                (#[trigger] self@.copy_constraints[k]).0,
            ) && target_valid(self@, self@.copy_constraints[k].1)
        &&& forall|i: int|
            0 <= i < self.constant_wires@.len() ==> (#[trigger] self.constant_wires@[i]).0.wf()
                && constant_binding(
                pre,
                self.constant_wires@[i].0.as_int(),
                self.constant_wires@[i].1,
            ) && target_valid(pre, self.constant_wires@[i].1)
    }

    proof fn lemma_wf_parts(&self, pre: BuilderView)
        requires
            self.wf_parts_except_view(pre),
        ensures
            self.wf(),
    {
        let post = self@;
        assert forall|k: int| 0 <= k < post.generators.len() implies match #[trigger] post.generators[k] {
            GenView::Gate { index, kind } => 0 <= index < post.gate_constants.len(),
            _ => true,
        } by {
            if k < pre.generators.len() {
                assert(post.generators[k] == pre.generators[k]);
            }
        }
        assert forall|i: int, j: int|
            0 <= i < post.gate_constants.len() && 0 <= j < (
            #[trigger] post.gate_constants[i]).len() implies fwf(
            #[trigger] post.gate_constants[i][j],
        ) by {
            if i < pre.gate_constants.len() {
                assert(post.gate_constants[i] == pre.gate_constants[i]);
            }
        }
        assert forall|k: int| 0 <= k < post.copy_constraints.len() implies target_valid(
            post,
            (#[trigger] post.copy_constraints[k]).0,
        ) && target_valid(post, post.copy_constraints[k].1) by {
            if k < pre.copy_constraints.len() {
                assert(post.copy_constraints[k] == pre.copy_constraints[k]);
                lemma_target_valid_mono(pre, post, post.copy_constraints[k].0);
                lemma_target_valid_mono(pre, post, post.copy_constraints[k].1);
            }
        }
        assert forall|i: int| 0 <= i < self.constant_wires@.len() implies (
        #[trigger] self.constant_wires@[i]).0.wf() && constant_binding(
            post,
            self.constant_wires@[i].0.as_int(),
            self.constant_wires@[i].1,
        ) && target_valid(post, self.constant_wires@[i].1) by {
            lemma_constant_binding_mono(
                pre,
                post,
                self.constant_wires@[i].0.as_int(),
                self.constant_wires@[i].1,
            );
            lemma_target_valid_mono(pre, post, self.constant_wires@[i].1);
        }
    }
}

/// A created target stays created.
pub proof fn lemma_target_valid_mono(pre: BuilderView, post: BuilderView, t: Target)
    requires
        extends(pre, post),
        target_valid(pre, t),
    ensures
        target_valid(post, t),
{
}

proof fn lemma_constant_binding_mono(pre: BuilderView, post: BuilderView, c: int, t: Target)
    requires
        extends(pre, post),
        constant_binding(pre, c, t),
    ensures
        constant_binding(post, c, t),
{
    let (g, k) = choose|g: int, k: int|
        #![auto]
        {
            &&& 0 <= g < pre.gate_constants.len()
            &&& 0 <= k < pre.generators.len()
            &&& t == wire_ti(g, 5)
            &&& pre.gate_constants[g] == buffer_row(c)
            &&& pre.generators[k] == GenView::Gate { index: g, kind: GateKind::Buffer }
        };
    assert(post.gate_constants[g] == pre.gate_constants[g]);
    assert(post.generators[k] == pre.generators[k]);
}


impl CircuitBuilder {
    /// The target pinned to a constant: materialized at most once per
    /// distinct field value, as a buffer gate whose constant slot holds the
    /// value, and cached thereafter.
    pub fn constant_wire(&mut self, c: Field) -> (r: Target)
        requires
            old(self).wf(),
            c.wf(),
        ensures
            final(self).wf(),
            extends(old(self)@, final(self)@),
            forces_val(final(self)@, r, c.as_int()),
            target_valid(final(self)@, r),
            final(self)@.constants == old(self)@.constants.insert(c.as_int(), r),
            old(self)@.constants.contains_key(c.as_int()) ==> *final(self) == *old(self) && r
                == old(self)@.constants[c.as_int()],
            !old(self)@.constants.contains_key(c.as_int()) ==> (final(self)@.gate_constants.len()
                == old(self)@.gate_constants.len() + 1 && r == wire_ti(
                old(self)@.gate_constants.len() as int,
                5,
            ) && final(self)@.copy_constraints == old(self)@.copy_constraints && final(self)@.virtual_target_index == old(self)@.virtual_target_index && final(self)@.public_input_index == old(self)@.public_input_index),
    {
        let n = self.constant_wires.len();
        let mut i: usize = 0;
        while i < n
            invariant
                self.wf(),
                i <= n,
                n == self.constant_wires@.len(),
                forall|k: int|
                    0 <= k < i as int ==> (#[trigger] self.constant_wires@[k]).0.as_int()
                        != c.as_int(),
            decreases n - i,
        {
            if self.constant_wires[i].0 == c {
                let r = self.constant_wires[i].1;
                proof {
                    lemma_cmap_lookup(self.constant_wires@, i as int);
                    assert(self@.constants.insert(c.as_int(), r) =~= self@.constants);
                    self.lemma_binding_forces(i as int);
                }
                return r;
            }
            i = i + 1;
        }
        proof {
            lemma_cmap_absent(self.constant_wires@, c.as_int());
        }
        let result = self.create_constant_wire(c);
        let ghost mid = self@;
        let ghost entries = self.constant_wires@;
        self.constant_wires.push((c, result));
        proof {
            assert(self.constant_wires@.drop_last() =~= entries);
            assert(self@.constants =~= cmap(entries).insert(c.as_int(), result));
            assert(self@ == BuilderView { constants: self@.constants, ..mid });
            assert forall|q: int, j: int|
                0 <= q < j < self.constant_wires@.len() implies (
            #[trigger] self.constant_wires@[q]).0.as_int() != (
            #[trigger] self.constant_wires@[j]).0.as_int() by {
                if j == self.constant_wires@.len() - 1 {
                    if exists|p: int|
                        0 <= p < entries.len() && (#[trigger] entries[p]).0.as_int()
                            == c.as_int() {
                        let p = choose|p: int|
                            0 <= p < entries.len() && (#[trigger] entries[p]).0.as_int()
                                == c.as_int();
                        lemma_cmap_lookup(entries, p);
                        assert(false);
                    }
                    assert(entries[q] == self.constant_wires@[q]);
                }
            }
            let nn = self.constant_wires@.len() - 1;
            assert forall|q: int| 0 <= q < self.constant_wires@.len() implies (
            #[trigger] self.constant_wires@[q]).0.wf() && constant_binding(
                self@,
                self.constant_wires@[q].0.as_int(),
                self.constant_wires@[q].1,
            ) && target_valid(self@, self.constant_wires@[q].1) by {
                if q < nn {
                    assert(self.constant_wires@[q] == entries[q]);
                }
            }
            assert(self.wf());
            self.lemma_binding_forces(nn);
        }
        result
    }

    /// Every satisfying witness pins a cached constant's target to its value.
    proof fn lemma_binding_forces(&self, i: int)
        requires
            self.wf(),
            0 <= i < self.constant_wires_entries().len(),
        ensures
            forces_val(
                self@,
                self.constant_wires_entries()[i].1,
                self.constant_wires_entries()[i].0.as_int(),
            ),
    {
        let c = self.constant_wires_entries()[i].0.as_int();
        let t = self.constant_wires_entries()[i].1;
        assert(constant_binding(self@, c, t));
        let (g, k) = choose|g: int, k: int|
            #![auto]
            {
                &&& 0 <= g < self@.gate_constants.len()
                &&& 0 <= k < self@.generators.len()
                &&& t == wire_ti(g, 5)
                &&& self@.gate_constants[g] == buffer_row(c)
                &&& self@.generators[k] == GenView::Gate { index: g, kind: GateKind::Buffer }
            };
        assert forall|w: Map<Target, int>| #[trigger] satisfies(self@, w) implies w.contains_key(t)
            && w[t] == c by {
            assert(gen_holds(self@.generators[k], self@.gate_constants, w));
            assert(buffer_row(c).len() == 5);
            assert(buffer_row(c)[4] == c);
        }
    }

    /// The constant-cache entries, for stating the memoization facts.
    pub closed spec fn constant_wires_entries(&self) -> Seq<(Field, Target)> {
        self.constant_wires@
    }

    fn create_constant_wire(&mut self, c: Field) -> (r: Target)
        requires
            old(self).wf(),
            c.wf(),
        ensures
            final(self).wf(),
            extends(old(self)@, final(self)@),
            r == wire_ti(old(self)@.gate_constants.len() as int, 5),
            target_valid(final(self)@, r),
            final(self)@ == (BuilderView {
                gate_constants: old(self)@.gate_constants.push(buffer_row(c.as_int())),
                generators: old(self)@.generators.push(
                    GenView::Gate {
                        index: old(self)@.gate_constants.len() as int,
                        kind: GateKind::Buffer,
                    },
                ),
                ..old(self)@
            }),
            constant_binding(final(self)@, c.as_int(), r),
    {
        let index = self.num_gates();
        let mut cs: Vec<Field> = Vec::new();
        cs.push(c);
        proof {
            assert(GateKind::Buffer.prefix_spec() + field_vals(cs@) =~= buffer_row(c.as_int()));
        }
        self.add_gate(GateKind::Buffer, cs);
        proof {
            let g = index as int;
            let k = self@.generators.len() - 1;
            assert(self@.gate_constants[g] == buffer_row(c.as_int()));
            assert(self@.generators[k] == GenView::Gate { index: g, kind: GateKind::Buffer });
        }
        Target::Wire(Wire { gate: index, input: WIRE_BUFFER_CONST })
    }

    /// The target pinned to the additive identity.
    pub fn zero_wire(&mut self) -> (r: Target)
        requires
            old(self).wf(),
        ensures
            final(self).wf(),
            extends(old(self)@, final(self)@),
            forces_val(final(self)@, r, 0),
            target_valid(final(self)@, r),
            final(self)@.constants == old(self)@.constants.insert(0, r),
            old(self)@.constants.contains_key(0) ==> *final(self) == *old(self) && r == old(self)@.constants[0],
    {
        self.constant_wire(Field::zero())
    }

    /// The target pinned to the multiplicative identity.
    pub fn one_wire(&mut self) -> (r: Target)
        requires
            old(self).wf(),
        ensures
            final(self).wf(),
            extends(old(self)@, final(self)@),
            forces_val(final(self)@, r, 1),
            target_valid(final(self)@, r),
            final(self)@.constants == old(self)@.constants.insert(1, r),
            old(self)@.constants.contains_key(1) ==> *final(self) == *old(self) && r == old(self)@.constants[1],
    {
        self.constant_wire(Field::one())
    }

    /// The target pinned to the negation of the multiplicative identity.
    pub fn neg_one_wire(&mut self) -> (r: Target)
        requires
            old(self).wf(),
        ensures
            final(self).wf(),
            extends(old(self)@, final(self)@),
            forces_val(final(self)@, r, FIELD_ORDER as int - 1),
            target_valid(final(self)@, r),
    {
        self.constant_wire(Field::neg_one())
    }

    /// The target pinned to a small constant.
    pub fn constant_wire_u32(&mut self, c: u32) -> (r: Target)
        requires
            old(self).wf(),
        ensures
            final(self).wf(),
            extends(old(self)@, final(self)@),
            forces_val(final(self)@, r, c as int % (FIELD_ORDER as int)),
            target_valid(final(self)@, r),
    {
        self.constant_wire(Field::from_canonical_u32(c))
    }

    /// Emit one arithmetic gate computing `c0 * m0 * m1 + c1 * addend` and
    /// wire the three operands to it.
    fn arithmetic_gate(&mut self, c0: Field, c1: Field, m0: Target, m1: Target, addend: Target)
        -> (r: Target)
        requires
            old(self).wf(),
            c0.wf(),
            c1.wf(),
            target_valid(old(self)@, m0),
            target_valid(old(self)@, m1),
            target_valid(old(self)@, addend),
        ensures
            final(self).wf(),
            extends(old(self)@, final(self)@),
            target_valid(final(self)@, r),
            r == wire_ti(old(self)@.gate_constants.len() as int, 3),
            final(self)@.gate_constants.len() == old(self)@.gate_constants.len() + 1,
            final(self)@.virtual_target_index == old(self)@.virtual_target_index,
            final(self)@.public_input_index == old(self)@.public_input_index,
            final(self)@.constants == old(self)@.constants,
            forall|w: Map<Target, int>|
                #[trigger] satisfies(final(self)@, w) ==> w.contains_key(m0) && w.contains_key(m1)
                    && w.contains_key(addend) && w.contains_key(r) && w[r] == fadd(
                    fmul(c0.as_int(), fmul(w[m0], w[m1])),
                    fmul(c1.as_int(), w[addend]),
                ),
    {
        let ghost pre = self@;
        let index = self.num_gates();
        let mut cs: Vec<Field> = Vec::new();
        cs.push(c0);
        cs.push(c1);
        cs.push(Field::zero());
        self.add_gate(GateKind::Arithmetic, cs);
        let ghost b1 = self@;
        self.copy(m0, Target::Wire(Wire { gate: index, input: WIRE_MULTIPLICAND_0 }));
        let ghost b2 = self@;
        self.copy(m1, Target::Wire(Wire { gate: index, input: WIRE_MULTIPLICAND_1 }));
        let ghost b3 = self@;
        self.copy(addend, Target::Wire(Wire { gate: index, input: WIRE_ADDEND }));
        let r = Target::Wire(Wire { gate: index, input: WIRE_OUTPUT });
        proof {
            let g = index as int;
            let post = self@;
            lemma_extends_trans(pre, b1, b2);
            lemma_extends_trans(pre, b2, b3);
            lemma_extends_trans(pre, b3, post);
            let row = pre.gate_constants.push(
                GateKind::Arithmetic.prefix_spec() + field_vals(cs@),
            )[g];
            assert(post.gate_constants[g] == row);
            assert(row.len() == 5);
            assert(row[2] == c0.as_int());
            assert(row[3] == c1.as_int());
            let k = pre.generators.len() as int;
            assert(post.generators[k] == GenView::Gate { index: g, kind: GateKind::Arithmetic });
            let cc = pre.copy_constraints.len() as int;
            assert(post.copy_constraints[cc] == (m0, wire_ti(g, 0)));
            assert(post.copy_constraints[cc + 1] == (m1, wire_ti(g, 1)));
            assert(post.copy_constraints[cc + 2] == (addend, wire_ti(g, 2)));
            assert forall|w: Map<Target, int>| #[trigger] satisfies(post, w) implies w
                .contains_key(m0) && w.contains_key(m1) && w.contains_key(addend)
                && w.contains_key(r) && w[r] == fadd(
                fmul(c0.as_int(), fmul(w[m0], w[m1])),
                fmul(c1.as_int(), w[addend]),
            ) by {
                assert(constraint_ok(post.copy_constraints[cc], w));
                assert(constraint_ok(post.copy_constraints[cc + 1], w));
                assert(constraint_ok(post.copy_constraints[cc + 2], w));
                assert(gen_holds(post.generators[k], post.gate_constants, w));
            }
        }
        r
    }

    /// The sum of two targets. Adding the cached zero constant on either
    /// side is short-circuited without a gate.
    pub fn add(&mut self, x: Target, y: Target) -> (t: Target)
        requires
            old(self).wf(),
            target_valid(old(self)@, x),
            target_valid(old(self)@, y),
        ensures
            final(self).wf(),
            extends(old(self)@, final(self)@),
            target_valid(final(self)@, t),
            forces_sum(final(self)@, t, x, y),
            old(self)@.constants.contains_key(0) && x == old(self)@.constants[0] ==> t == y
                && *final(self) == *old(self),
            old(self)@.constants.contains_key(0) && x != old(self)@.constants[0] && y == old(self)@.constants[0] ==> t == x && *final(self) == *old(self),
            old(self)@.constants.contains_key(0) && old(self)@.constants.contains_key(1) && x
                != old(self)@.constants[0] && y != old(self)@.constants[0] ==> final(self)@.gate_constants.len() == old(self)@.gate_constants.len() + 1,
    {
        let zero = self.zero_wire();
        if x == zero {
            proof {
                assert forall|w: Map<Target, int>|
                    #[trigger] satisfies(self@, w) && w.contains_key(x) && w.contains_key(y)
                    implies w.contains_key(y) && w[y] == fadd(w[x], w[y]) by {
                    assert(w[x] == 0);
                    lemma_fadd_zero(w[y]);
                }
            }
            return y;
        }
        if y == zero {
            proof {
                assert forall|w: Map<Target, int>|
                    #[trigger] satisfies(self@, w) && w.contains_key(x) && w.contains_key(y)
                    implies w.contains_key(x) && w[x] == fadd(w[x], w[y]) by {
                    assert(w[y] == 0);
                    lemma_fadd_zero(w[x]);
                }
            }
            return x;
        }
        let ghost b0 = old(self)@;
        let ghost b1 = self@;
        let one = self.one_wire();
        let ghost b2 = self@;
        let t = self.arithmetic_gate(Field::one(), Field::one(), x, one, y);
        proof {
            lemma_extends_trans(b0, b1, b2);
            lemma_extends_trans(b0, b2, self@);
            lemma_forces_val_mono(b2, self@, one, 1);
            assert forall|w: Map<Target, int>|
                #[trigger] satisfies(self@, w) && w.contains_key(x) && w.contains_key(y) implies w
                .contains_key(t) && w[t] == fadd(w[x], w[y]) by {
                assert(w.contains_key(one) && w[one] == 1);
                lemma_fmul_one_right(w[x]);
                lemma_fmul_one_left(fmul(w[x], w[one]));
                lemma_fmul_one_left(w[y]);
            }
        }
        t
    }

    /// The difference of two targets. Subtracting the cached zero constant
    /// is short-circuited without a gate.
    pub fn sub(&mut self, x: Target, y: Target) -> (t: Target)
        requires
            old(self).wf(),
            target_valid(old(self)@, x),
            target_valid(old(self)@, y),
        ensures
            final(self).wf(),
            extends(old(self)@, final(self)@),
            target_valid(final(self)@, t),
            forces_diff(final(self)@, t, x, y),
            old(self)@.constants.contains_key(0) && y == old(self)@.constants[0] ==> t == x
                && *final(self) == *old(self),
            old(self)@.constants.contains_key(0) && old(self)@.constants.contains_key(1) && y
                != old(self)@.constants[0] ==> final(self)@.gate_constants.len() == old(self)@.gate_constants.len() + 1,
    {
        let zero = self.zero_wire();
        if y == zero {
            proof {
                assert forall|w: Map<Target, int>|
                    #[trigger] satisfies(self@, w) && w.contains_key(x) && w.contains_key(y)
                    implies w.contains_key(x) && w[x] == fsub(w[x], w[y]) by {
                    assert(w[y] == 0);
                    assert(fneg(0) == 0);
                    lemma_fadd_zero(w[x]);
                }
            }
            return x;
        }
        let ghost b0 = old(self)@;
        let ghost b1 = self@;
        let one = self.one_wire();
        let ghost b2 = self@;
        let t = self.arithmetic_gate(Field::one(), Field::neg_one(), x, one, y);
        proof {
            lemma_extends_trans(b0, b1, b2);
            lemma_extends_trans(b0, b2, self@);
            lemma_forces_val_mono(b2, self@, one, 1);
            assert forall|w: Map<Target, int>|
                #[trigger] satisfies(self@, w) && w.contains_key(x) && w.contains_key(y) implies w
                .contains_key(t) && w[t] == fsub(w[x], w[y]) by {
                assert(w.contains_key(one) && w[one] == 1);
                lemma_fmul_one_right(w[x]);
                lemma_fmul_one_left(fmul(w[x], w[one]));
                lemma_fmul_neg_one(w[y]);
            }
        }
        t
    }

    /// The product of two targets. Multiplying by the cached one constant
    /// on either side is short-circuited without a gate.
    pub fn mul(&mut self, x: Target, y: Target) -> (t: Target)
        requires
            old(self).wf(),
            target_valid(old(self)@, x),
            target_valid(old(self)@, y),
        ensures
            final(self).wf(),
            extends(old(self)@, final(self)@),
            target_valid(final(self)@, t),
            forces_prod(final(self)@, t, x, y),
            old(self)@.constants.contains_key(1) && x == old(self)@.constants[1] ==> t == y
                && *final(self) == *old(self),
            old(self)@.constants.contains_key(1) && x != old(self)@.constants[1] && y == old(self)@.constants[1] ==> t == x && *final(self) == *old(self),
            old(self)@.constants.contains_key(0) && old(self)@.constants.contains_key(1) && x
                != old(self)@.constants[1] && y != old(self)@.constants[1] ==> final(self)@.gate_constants.len() == old(self)@.gate_constants.len() + 1,
    {
        let one = self.one_wire();
        if x == one {
            proof {
                assert forall|w: Map<Target, int>|
                    #[trigger] satisfies(self@, w) && w.contains_key(x) && w.contains_key(y)
                    implies w.contains_key(y) && w[y] == fmul(w[x], w[y]) by {
                    assert(w[x] == 1);
                    lemma_fmul_one_left(w[y]);
                }
            }
            return y;
        }
        if y == one {
            proof {
                assert forall|w: Map<Target, int>|
                    #[trigger] satisfies(self@, w) && w.contains_key(x) && w.contains_key(y)
                    implies w.contains_key(x) && w[x] == fmul(w[x], w[y]) by {
                    assert(w[y] == 1);
                    lemma_fmul_one_right(w[x]);
                }
            }
            return x;
        }
        let ghost b0 = old(self)@;
        let ghost b1 = self@;
        let zero = self.zero_wire();
        let ghost b2 = self@;
        let t = self.arithmetic_gate(Field::one(), Field::zero(), x, y, zero);
        proof {
            lemma_extends_trans(b0, b1, b2);
            lemma_extends_trans(b0, b2, self@);
            lemma_forces_val_mono(b2, self@, zero, 0);
            assert forall|w: Map<Target, int>|
                #[trigger] satisfies(self@, w) && w.contains_key(x) && w.contains_key(y) implies w
                .contains_key(t) && w[t] == fmul(w[x], w[y]) by {
                assert(w.contains_key(zero) && w[zero] == 0);
                lemma_fmul_one_left(fmul(w[x], w[y]));
                lemma_fmul_zero(w[zero]);
                lemma_fadd_zero(fmul(w[x], w[y]));
            }
        }
        t
    }

    /// Twice a target.
    pub fn double(&mut self, x: Target) -> (t: Target)
        requires
            old(self).wf(),
            target_valid(old(self)@, x),
        ensures
            final(self).wf(),
            extends(old(self)@, final(self)@),
            target_valid(final(self)@, t),
            forces_sum(final(self)@, t, x, x),
    {
        self.add(x, x)
    }

    /// A target squared.
    pub fn square(&mut self, x: Target) -> (t: Target)
        requires
            old(self).wf(),
            target_valid(old(self)@, x),
        ensures
            final(self).wf(),
            extends(old(self)@, final(self)@),
            target_valid(final(self)@, t),
            forces_prod(final(self)@, t, x, x),
    {
        self.mul(x, x)
    }

    /// The negation of a target, as a multiplication by the cached negative
    /// identity.
    pub fn neg(&mut self, x: Target) -> (t: Target)
        requires
            old(self).wf(),
            target_valid(old(self)@, x),
        ensures
            final(self).wf(),
            extends(old(self)@, final(self)@),
            target_valid(final(self)@, t),
            forces_neg(final(self)@, t, x),
    {
        let ghost b0 = old(self)@;
        let neg_one = self.neg_one_wire();
        let ghost b1 = self@;
        let t = self.mul(x, neg_one);
        proof {
            lemma_extends_trans(b0, b1, self@);
            lemma_forces_val_mono(b1, self@, neg_one, FIELD_ORDER as int - 1);
            assert forall|w: Map<Target, int>|
                #[trigger] satisfies(self@, w) && w.contains_key(x) implies w.contains_key(t)
                && w[t] == fneg(w[x]) by {
                assert(w.contains_key(neg_one) && w[neg_one] == FIELD_ORDER as int - 1);
                lemma_fmul_neg_one(w[x]);
            }
        }
        t
    }
}

/// The field sum of the values a witness gives a list of targets.
pub open spec fn terms_sum(w: Map<Target, int>, ts: Seq<Target>) -> int
    decreases ts.len(),
{
    if ts.len() == 0 {
        0
    } else {
        fadd(terms_sum(w, ts.drop_last()), w[ts.last()])
    }
}

/// The field product of the values a witness gives a list of targets.
pub open spec fn terms_prod(w: Map<Target, int>, ts: Seq<Target>) -> int
    decreases ts.len(),
{
    if ts.len() == 0 {
        1
    } else {
        fmul(terms_prod(w, ts.drop_last()), w[ts.last()])
    }
}

fn copy_targets(v: &Vec<Target>) -> (r: Vec<Target>)
    ensures
        r@ == v@,
{
    let mut r: Vec<Target> = Vec::new();
    let mut i: usize = 0;
    while i < v.len()
        invariant
            i <= v@.len(),
            r@ =~= v@.subrange(0, i as int),
        decreases v@.len() - i,
    {
        r.push(v[i]);
        proof {
            assert(r@ =~= v@.subrange(0, i + 1));
        }
        i = i + 1;
    }
    proof {
        assert(r@ =~= v@);
    }
    r
}

impl CircuitBuilder {
    /// The sum of a list of targets, folded left from the zero constant.
    pub fn add_many(&mut self, terms: &[Target]) -> (t: Target)
        requires
            old(self).wf(),
            forall|i: int| 0 <= i < terms@.len() ==> target_valid(old(self)@, #[trigger] terms@[i]),
        ensures
            final(self).wf(),
            extends(old(self)@, final(self)@),
            target_valid(final(self)@, t),
            forall|w: Map<Target, int>|
                (#[trigger] satisfies(final(self)@, w) && (forall|i: int|
                    0 <= i < terms@.len() ==> w.contains_key(#[trigger] terms@[i])))
                    ==> w.contains_key(t) && w[t] == terms_sum(w, terms@),
            terms@.len() == 0 ==> t == final(self)@.constants[0],
            terms@.len() == 0 && old(self)@.constants.contains_key(0) ==> *final(self) == *old(self) && t == old(self)@.constants[0],
    {
        let ghost b0 = self@;
        let mut sum = self.zero_wire();
        let ghost b_zero = *self;
        let ghost sum0 = sum;
        let n = terms.len();
        let mut i: usize = 0;
        while i < n
            invariant
                self.wf(),
                i <= n,
                n == terms@.len(),
                n == 0 ==> *self == b_zero && sum == sum0,
                extends(b0, self@),
                forall|q: int| 0 <= q < n as int ==> target_valid(b0, #[trigger] terms@[q]),
                target_valid(self@, sum),
                forall|w: Map<Target, int>|
                    (#[trigger] satisfies(self@, w) && (forall|q: int|
                        0 <= q < i as int ==> w.contains_key(#[trigger] terms@[q]))) ==> w
                        .contains_key(sum) && w[sum] == terms_sum(w, terms@.subrange(0, i as int)),
            decreases n - i,
        {
            let ghost bl = self@;
            let ghost old_sum = sum;
            proof {
                lemma_target_valid_mono(b0, self@, terms@[i as int]);
            }
            sum = self.add(sum, terms[i]);
            proof {
                lemma_extends_trans(b0, bl, self@);
                assert forall|w: Map<Target, int>|
                    (#[trigger] satisfies(self@, w) && (forall|q: int|
                        0 <= q < i + 1 ==> w.contains_key(#[trigger] terms@[q]))) implies w
                    .contains_key(sum) && w[sum] == terms_sum(w, terms@.subrange(0, i + 1)) by {
                    lemma_satisfies_extends(bl, self@, w);
                    assert(w.contains_key(terms@[i as int]));
                    assert(w.contains_key(old_sum) && w[old_sum] == terms_sum(
                        w,
                        terms@.subrange(0, i as int),
                    ));
                    assert(terms@.subrange(0, i + 1).drop_last() =~= terms@.subrange(0, i as int));
                }
            }
            i = i + 1;
        }
        proof {
            assert(terms@.subrange(0, n as int) =~= terms@);
        }
        sum
    }

    /// The product of a list of targets, folded left from the one constant.
    pub fn mul_many(&mut self, terms: &[Target]) -> (t: Target)
        requires
            old(self).wf(),
            forall|i: int| 0 <= i < terms@.len() ==> target_valid(old(self)@, #[trigger] terms@[i]),
        ensures
            final(self).wf(),
            extends(old(self)@, final(self)@),
            target_valid(final(self)@, t),
            forall|w: Map<Target, int>|
                (#[trigger] satisfies(final(self)@, w) && (forall|i: int|
                    0 <= i < terms@.len() ==> w.contains_key(#[trigger] terms@[i])))
                    ==> w.contains_key(t) && w[t] == terms_prod(w, terms@),
            terms@.len() == 0 ==> t == final(self)@.constants[1],
            terms@.len() == 0 && old(self)@.constants.contains_key(1) ==> *final(self) == *old(self) && t == old(self)@.constants[1],
    {
        let ghost b0 = self@;
        let mut product = self.one_wire();
        let ghost b_one = *self;
        let ghost product0 = product;
        let n = terms.len();
        let mut i: usize = 0;
        while i < n
            invariant
                self.wf(),
                i <= n,
                n == terms@.len(),
                n == 0 ==> *self == b_one && product == product0,
                extends(b0, self@),
                forall|q: int| 0 <= q < n as int ==> target_valid(b0, #[trigger] terms@[q]),
                target_valid(self@, product),
                forall|w: Map<Target, int>|
                    (#[trigger] satisfies(self@, w) && (forall|q: int|
                        0 <= q < i as int ==> w.contains_key(#[trigger] terms@[q]))) ==> w
                        .contains_key(product) && w[product] == terms_prod(
                        w,
                        terms@.subrange(0, i as int),
                    ),
            decreases n - i,
        {
            let ghost bl = self@;
            let ghost old_product = product;
            proof {
                lemma_target_valid_mono(b0, self@, terms@[i as int]);
            }
            product = self.mul(product, terms[i]);
            proof {
                lemma_extends_trans(b0, bl, self@);
                assert forall|w: Map<Target, int>|
                    (#[trigger] satisfies(self@, w) && (forall|q: int|
                        0 <= q < i + 1 ==> w.contains_key(#[trigger] terms@[q]))) implies w
                    .contains_key(product) && w[product] == terms_prod(
                    w,
                    terms@.subrange(0, i + 1),
                ) by {
                    lemma_satisfies_extends(bl, self@, w);
                    assert(w.contains_key(terms@[i as int]));
                    assert(w.contains_key(old_product) && w[old_product] == terms_prod(
                        w,
                        terms@.subrange(0, i as int),
                    ));
                    assert(terms@.subrange(0, i + 1).drop_last() =~= terms@.subrange(0, i as int));
                }
            }
            i = i + 1;
        }
        proof {
            assert(terms@.subrange(0, n as int) =~= terms@);
        }
        product
    }

    /// The multiplicative inverse of a target: a virtual target derived by a
    /// generator (which fails fatally on a zero input), tied to the
    /// constraint side by `x * x_inv == 1` through a product gate
    /// copy-constrained to the one constant.
    pub fn inv(&mut self, x: Target) -> (t: Target)
        requires
            old(self).wf(),
            target_valid(old(self)@, x),
            old(self)@.virtual_target_index < usize::MAX as int,
        ensures
            final(self).wf(),
            extends(old(self)@, final(self)@),
            target_valid(final(self)@, t),
            forces_inv(final(self)@, x, t),
    {
        let ghost b0 = self@;
        let x_inv = self.add_virtual_target();
        let ghost b1 = self@;
        self.add_generator(WitnessGenerator::Inverse { x, x_inv });
        let ghost b2 = self@;
        let ghost k = b1.generators.len() as int;

        // Enforce that x * x_inv == 1.
        let product = self.mul(x, x_inv);
        let ghost b3 = self@;
        let one = self.one_wire();
        let ghost b4 = self@;
        self.copy(product, one);
        proof {
            lemma_extends_trans(b0, b1, b2);
            lemma_extends_trans(b0, b2, b3);
            lemma_extends_trans(b0, b3, b4);
            lemma_extends_trans(b0, b4, self@);
            lemma_extends_trans(b2, b3, b4);
            lemma_extends_trans(b2, b4, self@);
            assert(b2.generators[k] == GenView::Inverse { x, x_inv });
            assert forall|w: Map<Target, int>| #[trigger] satisfies(b2, w) implies w
                .contains_key(x) && w.contains_key(x_inv) && w[x] != 0 && fmul(w[x], w[x_inv])
                == 1 by {
                assert(gen_holds(b2.generators[k], b2.gate_constants, w));
                if w[x] == 0 {
                    lemma_fmul_zero(w[x_inv]);
                }
            }
            lemma_forces_inv_mono(b2, self@, x, x_inv);
        }
        x_inv
    }

    /// The quotient of two targets: `x * inv(y)`, so that in every
    /// satisfying witness the result multiplied by `y` gives back `x`.
    pub fn div(&mut self, x: Target, y: Target) -> (t: Target)
        requires
            old(self).wf(),
            target_valid(old(self)@, x),
            target_valid(old(self)@, y),
            old(self)@.virtual_target_index < usize::MAX as int,
        ensures
            final(self).wf(),
            extends(old(self)@, final(self)@),
            target_valid(final(self)@, t),
            forall|w: Map<Target, int>|
                #[trigger] satisfies(final(self)@, w) && w.contains_key(x) ==> w.contains_key(t)
                    && w.contains_key(y) && fmul(w[t], w[y]) == w[x],
    {
        let ghost b0 = self@;
        let y_inv = self.inv(y);
        let ghost b1 = self@;
        let t = self.mul(x, y_inv);
        proof {
            lemma_extends_trans(b0, b1, self@);
            assert forall|w: Map<Target, int>|
                #[trigger] satisfies(self@, w) && w.contains_key(x) implies w.contains_key(t)
                && w.contains_key(y) && fmul(w[t], w[y]) == w[x] by {
                lemma_satisfies_extends(b1, self@, w);
                assert(w.contains_key(y) && w.contains_key(y_inv) && fmul(w[y], w[y_inv]) == 1);
                assert(w[t] == fmul(w[x], w[y_inv]));
                lemma_fmul_assoc(w[x], w[y_inv], w[y]);
                lemma_fmul_comm(w[y_inv], w[y]);
                lemma_fmul_comm(w[y], w[y_inv]);
                lemma_fmul_one_right(w[x]);
            }
        }
        t
    }

    /// Multiply and add: `x * y + z`, as a product gate followed by a sum
    /// gate.
    pub fn mul_add(&mut self, x: Target, y: Target, z: Target) -> (t: Target)
        requires
            old(self).wf(),
            target_valid(old(self)@, x),
            target_valid(old(self)@, y),
            target_valid(old(self)@, z),
        ensures
            final(self).wf(),
            extends(old(self)@, final(self)@),
            target_valid(final(self)@, t),
            forall|w: Map<Target, int>|
                #[trigger] satisfies(final(self)@, w) && w.contains_key(x) && w.contains_key(y)
                    && w.contains_key(z) ==> w.contains_key(t) && w[t] == fadd(
                    fmul(w[x], w[y]),
                    w[z],
                ),
    {
        let ghost b0 = self@;
        let product = self.mul(x, y);
        let ghost b1 = self@;
        let t = self.add(product, z);
        proof {
            lemma_extends_trans(b0, b1, self@);
            assert forall|w: Map<Target, int>|
                #[trigger] satisfies(self@, w) && w.contains_key(x) && w.contains_key(y)
                    && w.contains_key(z) implies w.contains_key(t) && w[t] == fadd(
                fmul(w[x], w[y]),
                w[z],
            ) by {
                lemma_satisfies_extends(b1, self@, w);
            }
        }
        t
    }

    /// Multiply and subtract: `x * y - z`, as a product gate followed by a
    /// difference gate.
    pub fn mul_sub(&mut self, x: Target, y: Target, z: Target) -> (t: Target)
        requires
            old(self).wf(),
            target_valid(old(self)@, x),
            target_valid(old(self)@, y),
            target_valid(old(self)@, z),
        ensures
            final(self).wf(),
            extends(old(self)@, final(self)@),
            target_valid(final(self)@, t),
            forall|w: Map<Target, int>|
                #[trigger] satisfies(final(self)@, w) && w.contains_key(x) && w.contains_key(y)
                    && w.contains_key(z) ==> w.contains_key(t) && w[t] == fsub(
                    fmul(w[x], w[y]),
                    w[z],
                ),
    {
        let ghost b0 = self@;
        let product = self.mul(x, y);
        let ghost b1 = self@;
        let t = self.sub(product, z);
        proof {
            lemma_extends_trans(b0, b1, self@);
            assert forall|w: Map<Target, int>|
                #[trigger] satisfies(self@, w) && w.contains_key(x) && w.contains_key(y)
                    && w.contains_key(z) implies w.contains_key(t) && w[t] == fsub(
                fmul(w[x], w[y]),
                w[z],
            ) by {
                lemma_satisfies_extends(b1, self@, w);
            }
        }
        t
    }

    /// `x` raised to a constant power, by square-and-multiply over the
    /// exponent's canonical bits: no more squarings than the exponent's bit
    /// length, and the one constant for a zero exponent.
    pub fn exp_constant(&mut self, x: Target, power: Field) -> (t: Target)
        requires
            old(self).wf(),
            target_valid(old(self)@, x),
            power.wf(),
        ensures
            final(self).wf(),
            extends(old(self)@, final(self)@),
            target_valid(final(self)@, t),
            forces_pow(final(self)@, t, x, power.as_int() as nat),
            power.as_int() == 0 ==> t == final(self)@.constants[1],
            power.as_int() == 0 && old(self)@.constants.contains_key(1) ==> *final(self) == *old(self) && t == old(self)@.constants[1],
    {
        let ghost b0 = self@;
        let mut product = self.one_wire();
        let ghost b_one = *self;
        let ghost product0 = product;
        let mut current = x;
        let mut k: u64 = power.value;
        let ghost mut j: nat = 0;
        let ghost mut done: nat = 0;
        proof {
            vstd::arithmetic::power2::lemma2_to64();
            assert forall|w: Map<Target, int>|
                #[trigger] satisfies(self@, w) && w.contains_key(x) implies w.contains_key(current)
                && w[current] == fpow(w[x], pow2(j)) by {
                assert(fpow(w[x], 0) == 1);
                assert(fpow(w[x], 1) == fmul(w[x], fpow(w[x], 0)));
                lemma_fmul_one_right(w[x]);
            }
        }
        while k > 0
            invariant
                self.wf(),
                extends(b0, self@),
                power.value == 0 ==> (k == 0 && *self == b_one && product == product0),
                target_valid(self@, product),
                target_valid(self@, current),
                forces_pow(self@, product, x, done),
                forces_pow(self@, current, x, pow2(j)),
                done + k * pow2(j) == power.as_int(),
            decreases k,
        {
            let ghost bl = self@;
            let ghost old_product = product;
            let ghost old_current = current;
            let ghost old_done = done;
            if k % 2 == 1 {
                product = self.mul(product, current);
                proof {
                    done = done + pow2(j);
                    assert forall|w: Map<Target, int>|
                        #[trigger] satisfies(self@, w) && w.contains_key(x) implies w.contains_key(
                        product,
                    ) && w[product] == fpow(w[x], done) by {
                        lemma_satisfies_extends(bl, self@, w);
                        assert(w.contains_key(old_product) && w[old_product] == fpow(
                            w[x],
                            old_done,
                        ));
                        assert(w.contains_key(old_current) && w[old_current] == fpow(
                            w[x],
                            pow2(j),
                        ));
                        crate::field::lemma_fpow_adds(w[x], old_done, pow2(j));
                    }
                }
            } else {
                proof {
                    lemma_forces_pow_mono(bl, self@, product, x, done);
                }
            }
            let ghost bm = self@;
            current = self.square(current);
            proof {
                lemma_extends_trans(b0, bl, bm);
                lemma_extends_trans(b0, bm, self@);
                lemma_forces_pow_mono(bm, self@, product, x, done);
                assert forall|w: Map<Target, int>|
                    #[trigger] satisfies(self@, w) && w.contains_key(x) implies w.contains_key(
                    current,
                ) && w[current] == fpow(w[x], pow2(j + 1)) by {
                    lemma_satisfies_extends(bm, self@, w);
                    lemma_satisfies_extends(bl, bm, w);
                    assert(w.contains_key(old_current) && w[old_current] == fpow(w[x], pow2(j)));
                    crate::field::lemma_fpow_adds(w[x], pow2(j), pow2(j));
                    vstd::arithmetic::power2::lemma_pow2_adds(j, 1);
                    vstd::arithmetic::power2::lemma2_to64();
                }
                assert(old_done + k * pow2(j) == power.as_int());
                assert(k * pow2(j) == 2 * (k as int / 2) * pow2(j) + (k as int % 2) * pow2(j))
                    by (nonlinear_arith);
                vstd::arithmetic::power2::lemma_pow2_adds(j, 1);
                vstd::arithmetic::power2::lemma2_to64();
                assert((k as int / 2) * pow2(j + 1) == 2 * (k as int / 2) * pow2(j))
                    by (nonlinear_arith)
                    requires
                        pow2(j + 1) == 2 * pow2(j),
                ;
                j = j + 1;
            }
            k = k / 2;
        }
        proof {
            assert(k == 0);
            assert(0 * pow2(j) == 0) by (nonlinear_arith);
            assert(done == power.as_int() as nat);
        }
        product
    }

    /// `x` raised to a constant machine-integer power, reduced into the
    /// field first.
    pub fn exp_constant_usize(&mut self, x: Target, power: usize) -> (t: Target)
        requires
            old(self).wf(),
            target_valid(old(self)@, x),
        ensures
            final(self).wf(),
            extends(old(self)@, final(self)@),
            target_valid(final(self)@, t),
            forces_pow(
                final(self)@,
                t,
                x,
                (power as int % (FIELD_ORDER as int)) as nat,
            ),
    {
        self.exp_constant(x, Field::from_canonical_usize(power))
    }

    /// Fresh virtual targets carrying the canonical little-endian bit
    /// decomposition of `x`, derived by a generator. No recomposition or
    /// bit-validity constraint is emitted here: that responsibility lies
    /// with the caller.
    pub fn split_binary(&mut self, x: Target, bits: usize) -> (r: Vec<Target>)
        requires
            old(self).wf(),
            target_valid(old(self)@, x),
            old(self)@.virtual_target_index + bits <= usize::MAX as int,
        ensures
            final(self).wf(),
            extends(old(self)@, final(self)@),
            r@.len() == bits as int,
            forall|i: int| 0 <= i < bits as int ==> target_valid(final(self)@, #[trigger] r@[i]),
            forces_bits(final(self)@, r@, x),
            final(self)@.gate_constants == old(self)@.gate_constants,
            final(self)@.copy_constraints == old(self)@.copy_constraints,
    {
        let ghost b0 = self@;
        let bit_targets = self.add_virtual_targets(bits);
        let ghost b1 = self@;
        let generator_bits = copy_targets(&bit_targets);
        self.add_generator(WitnessGenerator::Split { x, bits: generator_bits });
        let ghost k = b1.generators.len() as int;
        proof {
            lemma_extends_trans(b0, b1, self@);
            assert(self@.generators[k] == GenView::Split { x, bits: bit_targets@ });
            assert forall|w: Map<Target, int>| #[trigger] satisfies(self@, w) implies w
                .contains_key(x) && (forall|i: int|
                0 <= i < bit_targets@.len() ==> w.contains_key(#[trigger] bit_targets@[i])
                    && w[bit_targets@[i]] == bit_of(w[x], i as nat)) by {
                assert(gen_holds(self@.generators[k], self@.gate_constants, w));
                assert forall|i: int| 0 <= i < bit_targets@.len() implies w.contains_key(
                    #[trigger] bit_targets@[i],
                ) && w[bit_targets@[i]] == bit_of(w[x], i as nat) by {
                    match self@.generators[k] {
                        GenView::Split { x: gx, bits } => {
                            assert(bits == bit_targets@);
                            assert(w.contains_key(bits[i]) && w[bits[i]] == bit_of(
                                w[gx],
                                i as nat,
                            ));
                        },
                        _ => {
                            assert(false);
                        },
                    }
                }
            }
        }
        bit_targets
    }

    /// Two registered constants with different values are different targets:
    /// each is pinned by its own buffer gate.
    pub proof fn lemma_distinct_constants(&self, c1: int, c2: int)
        requires
            self.wf(),
            self@.constants.contains_key(c1),
            self@.constants.contains_key(c2),
            c1 != c2,
        ensures
            self@.constants[c1] != self@.constants[c2],
    {
        lemma_cmap_dom(self.constant_wires_entries(), c1);
        lemma_cmap_dom(self.constant_wires_entries(), c2);
        let i1 = choose|i: int|
            0 <= i < self.constant_wires_entries().len() && (
            #[trigger] self.constant_wires_entries()[i]).0.as_int() == c1;
        let i2 = choose|i: int|
            0 <= i < self.constant_wires_entries().len() && (
            #[trigger] self.constant_wires_entries()[i]).0.as_int() == c2;
        lemma_cmap_lookup(self.constant_wires_entries(), i1);
        lemma_cmap_lookup(self.constant_wires_entries(), i2);
        let t1 = self@.constants[c1];
        let t2 = self@.constants[c2];
        assert(constant_binding(self@, c1, t1));
        assert(constant_binding(self@, c2, t2));
        if t1 == t2 {
            let (g1, k1) = choose|g: int, k: int|
                #![auto]
                {
                    &&& 0 <= g < self@.gate_constants.len()
                    &&& 0 <= k < self@.generators.len()
                    &&& t1 == wire_ti(g, 5)
                    &&& self@.gate_constants[g] == buffer_row(c1)
                    &&& self@.generators[k] == GenView::Gate { index: g, kind: GateKind::Buffer }
                };
            let (g2, k2) = choose|g: int, k: int|
                #![auto]
                {
                    &&& 0 <= g < self@.gate_constants.len()
                    &&& 0 <= k < self@.generators.len()
                    &&& t2 == wire_ti(g, 5)
                    &&& self@.gate_constants[g] == buffer_row(c2)
                    &&& self@.generators[k] == GenView::Gate { index: g, kind: GateKind::Buffer }
                };
            assert(g1 as usize == g2 as usize);
            assert(g1 == g2);
            assert(buffer_row(c1)[4] == buffer_row(c2)[4]);
            assert(false);
        }
    }
}

/// The least integer no smaller than `a / b`.
pub open spec fn ceil_div(a: int, b: int) -> int {
    a / b + if a % b == 0 {
        0int
    } else {
        1int
    }
}

fn ceil_div_usize(a: usize, b: usize) -> (r: usize)
    requires
        b > 0,
        a + b <= usize::MAX,
    ensures
        r as int == ceil_div(a as int, b as int),
{
    if a % b == 0 {
        a / b
    } else {
        a / b + 1
    }
}

impl CircuitBuilder {
    /// Emit the gates that make the staged public inputs routable: one
    /// public-input gate and one buffer gate per `NUM_WIRES` staged inputs.
    /// Must be called before any other gate is added: that it was not is a
    /// programming error, ruled out by the precondition.
    pub fn route_public_inputs(&mut self)
        requires
            old(self).wf(),
            old(self)@.gate_constants.len() == 0,
            old(self)@.public_input_index + NUM_WIRES <= usize::MAX,
        ensures
            final(self).wf(),
            extends(old(self)@, final(self)@),
            final(self)@.gate_constants.len() == 2 * ceil_div(
                old(self)@.public_input_index,
                NUM_WIRES as int,
            ),
            final(self)@.copy_constraints == old(self)@.copy_constraints,
            final(self)@.virtual_target_index == old(self)@.virtual_target_index,
            final(self)@.public_input_index == old(self)@.public_input_index,
            forall|q: int|
                0 <= q < ceil_div(old(self)@.public_input_index, NUM_WIRES as int)
                    ==> #[trigger] final(self)@.generators[old(self)@.generators.len() + 2 * q]
                        == (GenView::Gate {
                    index: 2 * q,
                    kind: GateKind::PublicInput,
                }) && final(self)@.generators[old(self)@.generators.len() + 2 * q + 1]
                        == (GenView::Gate {
                    index: 2 * q + 1,
                    kind: GateKind::Buffer,
                }),
    {
        let ghost b0 = self@;
        let num_pi_gates = ceil_div_usize(self.public_input_index, NUM_WIRES);
        let mut i: usize = 0;
        while i < num_pi_gates
            invariant
                self.wf(),
                i <= num_pi_gates,
                extends(b0, self@),
                self@.gate_constants.len() == 2 * i,
                self@.generators.len() == b0.generators.len() + 2 * i,
                self@.copy_constraints == b0.copy_constraints,
                self@.virtual_target_index == b0.virtual_target_index,
                self@.public_input_index == b0.public_input_index,
                self@.constants == b0.constants,
                forall|q: int|
                    0 <= q < i as int ==> #[trigger] self@.generators[b0.generators.len() + 2 * q]
                        == (GenView::Gate {
                        index: 2 * q,
                        kind: GateKind::PublicInput,
                    }) && self@.generators[b0.generators.len() + 2 * q + 1] == (GenView::Gate {
                        index: 2 * q + 1,
                        kind: GateKind::Buffer,
                    }),
            decreases num_pi_gates - i,
        {
            let ghost bl = self@;
            self.add_gate(GateKind::PublicInput, Vec::new());
            let ghost bm = self@;
            self.add_gate(GateKind::Buffer, Vec::new());
            proof {
                lemma_extends_trans(b0, bl, bm);
                lemma_extends_trans(b0, bm, self@);
                assert(field_vals(Seq::<Field>::empty()) =~= Seq::<int>::empty());
            }
            i = i + 1;
        }
    }

    /// Resolve the recorded targets and copy constraints into routing
    /// partitions: one class per virtual target and per wire of every
    /// emitted gate, then one merge per copy constraint, in order.
    fn get_routing_partitions(&self) -> (r: RoutingTargetPartitions)
        requires
            self.wf(),
        ensures
            r.wf(),
            forall|t: Target| r.registered(t) <==> target_valid(self@, t),
            r.edges() == self@.copy_constraints,
            forall|k: int|
                0 <= k < self@.copy_constraints.len() ==> r.same_class(
                    (#[trigger] self@.copy_constraints[k]).0,
                    self@.copy_constraints[k].1,
                ),
    {
        let mut partitions = RoutingTargetPartitions::new();
        let nv = self.virtual_target_index;
        let mut i: usize = 0;
        while i < nv
            invariant
                partitions.wf(),
                i <= nv,
                nv as int == self@.virtual_target_index,
                partitions.edges() == Seq::<(Target, Target)>::empty(),
                forall|t: Target|
                    partitions.registered(t) <==> (t matches Target::VirtualTarget(v) && (
                    v.index as int) < i as int),
            decreases nv - i,
        {
            let ghost pp = partitions;
            let t_new = Target::VirtualTarget(VirtualTarget { index: i });
            proof {
                assert(!pp.registered(t_new));
            }
            partitions.add_partition(t_new);
            proof {
                assert forall|t: Target|
                    partitions.registered(t) <==> (t matches Target::VirtualTarget(v) && (
                v.index as int) < i + 1) by {
                    assert(pp.registered(t) <==> (t matches Target::VirtualTarget(v) && (
                    v.index as int) < i as int));
                }
            }
            i = i + 1;
        }
        let ng = self.num_gates();
        let mut gate: usize = 0;
        while gate < ng
            invariant
                partitions.wf(),
                gate <= ng,
                nv as int == self@.virtual_target_index,
                ng as int == self@.gate_constants.len(),
                partitions.edges() == Seq::<(Target, Target)>::empty(),
                forall|t: Target|
                    partitions.registered(t) <==> ((t matches Target::VirtualTarget(v) && (
                    v.index as int) < nv as int) || (t matches Target::Wire(wr) && (
                    wr.gate as int) < gate as int && (wr.input as int) < NUM_WIRES as int)),
            decreases ng - gate,
        {
            let mut input: usize = 0;
            while input < NUM_WIRES
                invariant
                    partitions.wf(),
                    input <= NUM_WIRES,
                    gate < ng,
                    nv as int == self@.virtual_target_index,
                    ng as int == self@.gate_constants.len(),
                    partitions.edges() == Seq::<(Target, Target)>::empty(),
                    forall|t: Target|
                        partitions.registered(t) <==> ((t matches Target::VirtualTarget(v) && (
                        v.index as int) < nv as int) || (t matches Target::Wire(wr) && (
                        wr.gate as int) < gate as int && (wr.input as int) < NUM_WIRES as int) || (
                        t matches Target::Wire(wr) && wr.gate == gate && (wr.input as int)
                            < input as int)),
                decreases NUM_WIRES - input,
            {
                let ghost pp = partitions;
                let t_new = Target::Wire(Wire { gate, input });
                proof {
                    assert(!pp.registered(t_new));
                }
                partitions.add_partition(t_new);
                proof {
                    assert forall|t: Target|
                        partitions.registered(t) <==> ((t matches Target::VirtualTarget(v) && (
                    v.index as int) < nv as int) || (t matches Target::Wire(wr) && (
                    wr.gate as int) < gate as int && (wr.input as int) < NUM_WIRES as int) || (
                    t matches Target::Wire(wr) && wr.gate == gate && (wr.input as int) < input
                        + 1)) by {
                        assert(pp.registered(t) <==> ((t matches Target::VirtualTarget(v) && (
                        v.index as int) < nv as int) || (t matches Target::Wire(wr) && (
                        wr.gate as int) < gate as int && (wr.input as int) < NUM_WIRES as int) || (
                        t matches Target::Wire(wr) && wr.gate == gate && (wr.input as int)
                            < input as int)));
                    }
                }
                input = input + 1;
            }
            gate = gate + 1;
        }
        let nc = self.copy_constraints.len();
        let mut k: usize = 0;
        while k < nc
            invariant
                partitions.wf(),
                k <= nc,
                nc as int == self@.copy_constraints.len(),
                self.wf(),
                forall|t: Target| partitions.registered(t) <==> target_valid(self@, t),
                partitions.edges() == self@.copy_constraints.subrange(0, k as int),
                forall|q: int|
                    0 <= q < k as int ==> partitions.same_class(
                        (#[trigger] self@.copy_constraints[q]).0,
                        self@.copy_constraints[q].1,
                    ),
            decreases nc - k,
        {
            let (a, b) = self.copy_constraints[k];
            proof {
                assert(target_valid(self@, self@.copy_constraints[k as int].0));
                assert(target_valid(self@, self@.copy_constraints[k as int].1));
            }
            partitions.merge(a, b);
            proof {
                assert(partitions.edges() =~= self@.copy_constraints.subrange(0, k + 1));
            }
            k = k + 1;
        }
        proof {
            assert(self@.copy_constraints.subrange(0, nc as int) =~= self@.copy_constraints);
        }
        partitions
    }

    /// Finalize the circuit: resolve routing partitions and hand over the
    /// gate matrix and generator list. Every witness satisfying the finished
    /// circuit satisfies the builder's recorded state.
    pub fn build(self) -> (r: Circuit)
        requires
            self.wf(),
        ensures
            r.wf(),
            r.rows() == self@.gate_constants,
            r.gens() == self@.generators,
            r.routing_target_partitions.edges() == self@.copy_constraints,
            r.copy_constraints@ == self@.copy_constraints,
            forall|t: Target| r.routing_target_partitions.registered(t) <==> target_valid(self@, t),
            forall|w: Map<Target, int>| #[trigger] r.satisfied_by(w) ==> satisfies(self@, w),
    {
        let routing_target_partitions = self.get_routing_partitions();
        let ghost pre = self@;
        let CircuitBuilder { gate_constants, copy_constraints, generators, .. } = self;
        let r = Circuit { gate_constants, routing_target_partitions, copy_constraints, generators };
        proof {
            assert(r.rows() == pre.gate_constants);
            assert(r.gens() =~= pre.generators);
            assert forall|w: Map<Target, int>| #[trigger] r.satisfied_by(w) implies satisfies(
                pre,
                w,
            ) by {
                assert forall|k: int| 0 <= k < pre.copy_constraints.len() implies constraint_ok(
                    #[trigger] pre.copy_constraints[k],
                    w,
                ) by {
                    assert(constraint_ok(r.copy_constraints@[k], w));
                }
                assert forall|k: int| 0 <= k < pre.generators.len() implies gen_holds(
                    #[trigger] pre.generators[k],
                    pre.gate_constants,
                    w,
                ) by {
                    assert(gen_holds(r.gens()[k], r.rows(), w));
                }
            }
        }
        r
    }
}

/// Every satisfying witness assigning the three state inputs assigns the
/// three outputs the state after `n` permutation rounds.
pub open spec fn forces_perm_upto(
    b: BuilderView,
    outs: (Target, Target, Target),
    ins: (Target, Target, Target),
    n: nat,
) -> bool {
    forall|w: Map<Target, int>|
        #[trigger] satisfies(b, w) && w.contains_key(ins.0) && w.contains_key(ins.1)
            && w.contains_key(ins.2) ==> w.contains_key(outs.0) && w.contains_key(outs.1)
            && w.contains_key(outs.2) && (w[outs.0], w[outs.1], w[outs.2]) == rescue_perm_upto(
            (w[ins.0], w[ins.1], w[ins.2]),
            n,
        )
}

impl CircuitBuilder {
    /// One permutation round: an A half-round gate and a B half-round gate,
    /// the state wired input to output in series.
    #[verifier::rlimit(100)]
    #[verifier::spinoff_prover]
    fn rescue_round(
        &mut self,
        inputs: [Target; 3],
        a_constants: &Vec<Field>,
        b_constants: &Vec<Field>,
    ) -> (r: [Target; 3])
        requires
            old(self).wf(),
            target_valid(old(self)@, inputs[0]),
            target_valid(old(self)@, inputs[1]),
            target_valid(old(self)@, inputs[2]),
            a_constants@.len() == 3,
            b_constants@.len() == 3,
            forall|j: int| 0 <= j < 3 ==> (#[trigger] a_constants@[j]).wf(),
            forall|j: int| 0 <= j < 3 ==> (#[trigger] b_constants@[j]).wf(),
        ensures
            final(self).wf(),
            extends(old(self)@, final(self)@),
            target_valid(final(self)@, r[0]),
            target_valid(final(self)@, r[1]),
            target_valid(final(self)@, r[2]),
            forall|w: Map<Target, int>|
                #[trigger] satisfies(final(self)@, w) && w.contains_key(inputs[0])
                    && w.contains_key(inputs[1]) && w.contains_key(inputs[2]) ==> w.contains_key(
                    r[0],
                ) && w.contains_key(r[1]) && w.contains_key(r[2]) && (w[r[0]], w[r[1]], w[r[2]])
                    == crate::gates::rescue_round_vals(
                    w[inputs[0]],
                    w[inputs[1]],
                    w[inputs[2]],
                    a_constants@[0].as_int(),
                    a_constants@[1].as_int(),
                    a_constants@[2].as_int(),
                    b_constants@[0].as_int(),
                    b_constants@[1].as_int(),
                    b_constants@[2].as_int(),
                ),
    {
        let ghost pre = self@;
        let a_index = self.num_gates();
        let mut ac: Vec<Field> = Vec::new();
        ac.push(a_constants[0]);
        ac.push(a_constants[1]);
        ac.push(a_constants[2]);
        self.add_gate(GateKind::RescueA, ac);
        let ghost b1 = self@;
        let b_index = self.num_gates();
        let mut bc: Vec<Field> = Vec::new();
        bc.push(b_constants[0]);
        bc.push(b_constants[1]);
        bc.push(b_constants[2]);
        self.add_gate(GateKind::RescueB, bc);
        let ghost b2 = self@;

        self.copy(inputs[0], Target::Wire(Wire { gate: a_index, input: 0 }));
        let ghost b3 = self@;
        self.copy(inputs[1], Target::Wire(Wire { gate: a_index, input: 1 }));
        let ghost b4 = self@;
        self.copy(inputs[2], Target::Wire(Wire { gate: a_index, input: 2 }));
        let ghost b5 = self@;
        self.copy(
            Target::Wire(Wire { gate: a_index, input: 3 }),
            Target::Wire(Wire { gate: b_index, input: 0 }),
        );
        let ghost b6 = self@;
        self.copy(
            Target::Wire(Wire { gate: a_index, input: 4 }),
            Target::Wire(Wire { gate: b_index, input: 1 }),
        );
        let ghost b7 = self@;
        self.copy(
            Target::Wire(Wire { gate: a_index, input: 5 }),
            Target::Wire(Wire { gate: b_index, input: 2 }),
        );
        let r = [
            Target::Wire(Wire { gate: b_index, input: 3 }),
            Target::Wire(Wire { gate: b_index, input: 4 }),
            Target::Wire(Wire { gate: b_index, input: 5 }),
        ];
        proof {
            let post = self@;
            lemma_extends_trans(pre, b1, b2);
            lemma_extends_trans(pre, b2, b3);
            lemma_extends_trans(pre, b3, b4);
            lemma_extends_trans(pre, b4, b5);
            lemma_extends_trans(pre, b5, b6);
            lemma_extends_trans(pre, b6, b7);
            lemma_extends_trans(pre, b7, post);
            let ga = a_index as int;
            let gb = b_index as int;
            let ka = pre.generators.len() as int;
            let kb = ka + 1;
            assert(post.generators[ka] == GenView::Gate { index: ga, kind: GateKind::RescueA });
            assert(post.generators[kb] == GenView::Gate { index: gb, kind: GateKind::RescueB });
            let row_a = post.gate_constants[ga];
            let row_b = post.gate_constants[gb];
            assert(row_a == GateKind::RescueA.prefix_spec() + field_vals(ac@));
            assert(row_b == GateKind::RescueB.prefix_spec() + field_vals(bc@));
            assert(row_a[2] == a_constants@[0].as_int());
            assert(row_a[3] == a_constants@[1].as_int());
            assert(row_a[4] == a_constants@[2].as_int());
            assert(row_b[2] == b_constants@[0].as_int());
            assert(row_b[3] == b_constants@[1].as_int());
            assert(row_b[4] == b_constants@[2].as_int());
            let cc = pre.copy_constraints.len() as int;
            assert(post.copy_constraints[cc] == (inputs[0], wire_ti(ga, 0)));
            assert(post.copy_constraints[cc + 1] == (inputs[1], wire_ti(ga, 1)));
            assert(post.copy_constraints[cc + 2] == (inputs[2], wire_ti(ga, 2)));
            assert(post.copy_constraints[cc + 3] == (wire_ti(ga, 3), wire_ti(gb, 0)));
            assert(post.copy_constraints[cc + 4] == (wire_ti(ga, 4), wire_ti(gb, 1)));
            assert(post.copy_constraints[cc + 5] == (wire_ti(ga, 5), wire_ti(gb, 2)));
            assert forall|w: Map<Target, int>|
                #[trigger] satisfies(post, w) && w.contains_key(inputs[0]) && w.contains_key(
                inputs[1],
            ) && w.contains_key(inputs[2]) implies w.contains_key(r[0]) && w.contains_key(r[1])
                && w.contains_key(r[2]) && (w[r[0]], w[r[1]], w[r[2]])
                == crate::gates::rescue_round_vals(
                w[inputs[0]],
                w[inputs[1]],
                w[inputs[2]],
                a_constants@[0].as_int(),
                a_constants@[1].as_int(),
                a_constants@[2].as_int(),
                b_constants@[0].as_int(),
                b_constants@[1].as_int(),
                b_constants@[2].as_int(),
            ) by {
                assert(constraint_ok(post.copy_constraints[cc], w));
                assert(constraint_ok(post.copy_constraints[cc + 1], w));
                assert(constraint_ok(post.copy_constraints[cc + 2], w));
                assert(constraint_ok(post.copy_constraints[cc + 3], w));
                assert(constraint_ok(post.copy_constraints[cc + 4], w));
                assert(constraint_ok(post.copy_constraints[cc + 5], w));
                assert(gen_holds(post.generators[ka], post.gate_constants, w));
                assert(gen_holds(post.generators[kb], post.gate_constants, w));
            }
        }
        r
    }

    /// The fixed sponge permutation: the configured number of rounds, each
    /// an A and a B half-round gate in series, with deterministically
    /// derived round constants.
    #[verifier::rlimit(100)]
    #[verifier::spinoff_prover]
    pub fn rescue_permutation_3x3(&mut self, inputs: [Target; 3]) -> (r: [Target; 3])
        requires
            old(self).wf(),
            target_valid(old(self)@, inputs[0]),
            target_valid(old(self)@, inputs[1]),
            target_valid(old(self)@, inputs[2]),
        ensures
            final(self).wf(),
            extends(old(self)@, final(self)@),
            target_valid(final(self)@, r[0]),
            target_valid(final(self)@, r[1]),
            target_valid(final(self)@, r[2]),
            forces_perm_upto(
                final(self)@,
                (r[0], r[1], r[2]),
                (inputs[0], inputs[1], inputs[2]),
                crate::gates::RESCUE_ROUNDS as nat,
            ),
    {
        let ghost b0 = self@;
        let all_constants = crate::gates::generate_rescue_constants(3);
        let mut state = inputs;
        let mut round: usize = 0;
        proof {
            assert forall|w: Map<Target, int>|
                #[trigger] satisfies(self@, w) && w.contains_key(inputs[0]) && w.contains_key(
                inputs[1],
            ) && w.contains_key(inputs[2]) implies w.contains_key(state[0]) && w.contains_key(
                state[1],
            ) && w.contains_key(state[2]) && (w[state[0]], w[state[1]], w[state[2]])
                == crate::gates::rescue_perm_upto(
                (w[inputs[0]], w[inputs[1]], w[inputs[2]]),
                0,
            ) by {}
        }
        while round < crate::gates::RESCUE_ROUNDS
            invariant
                self.wf(),
                round <= crate::gates::RESCUE_ROUNDS,
                extends(b0, self@),
                target_valid(self@, inputs[0]),
                target_valid(self@, inputs[1]),
                target_valid(self@, inputs[2]),
                target_valid(self@, state[0]),
                target_valid(self@, state[1]),
                target_valid(self@, state[2]),
                all_constants@.len() == crate::gates::RESCUE_ROUNDS as int,
                forall|i: int|
                    0 <= i < crate::gates::RESCUE_ROUNDS as int ==> {
                        &&& (#[trigger] all_constants@[i]).0@.len() == 3
                        &&& all_constants@[i].1@.len() == 3
                        &&& (forall|j: int|
                            0 <= j < 3 ==> (#[trigger] all_constants@[i].0@[j]).wf()
                                && all_constants@[i].0@[j].as_int()
                                == crate::gates::rescue_a_consts(i)[j])
                        &&& (forall|j: int|
                            0 <= j < 3 ==> (#[trigger] all_constants@[i].1@[j]).wf()
                                && all_constants@[i].1@[j].as_int()
                                == crate::gates::rescue_b_consts(i)[j])
                    },
                forces_perm_upto(
                    self@,
                    (state[0], state[1], state[2]),
                    (inputs[0], inputs[1], inputs[2]),
                    round as nat,
                ),
            decreases crate::gates::RESCUE_ROUNDS - round,
        {
            let ghost bl = self@;
            let ghost old_state = state;
            state = self.rescue_round(state, &all_constants[round].0, &all_constants[round].1);
            proof {
                lemma_extends_trans(b0, bl, self@);
                assert forall|w: Map<Target, int>|
                    #[trigger] satisfies(self@, w) && w.contains_key(inputs[0]) && w.contains_key(
                    inputs[1],
                ) && w.contains_key(inputs[2]) implies w.contains_key(state[0]) && w.contains_key(
                    state[1],
                ) && w.contains_key(state[2]) && (w[state[0]], w[state[1]], w[state[2]])
                    == crate::gates::rescue_perm_upto(
                    (w[inputs[0]], w[inputs[1]], w[inputs[2]]),
                    (round + 1) as nat,
                ) by {
                    lemma_satisfies_extends(bl, self@, w);
                    assert(w.contains_key(old_state[0]) && w.contains_key(old_state[1])
                        && w.contains_key(old_state[2]) && (
                    w[old_state[0]],
                    w[old_state[1]],
                    w[old_state[2]],
                    ) == crate::gates::rescue_perm_upto(
                        (w[inputs[0]], w[inputs[1]], w[inputs[2]]),
                        round as nat,
                    ));
                    assert(crate::gates::rescue_a_consts(round as int)[0]
                        == crate::gates::rescue_const(6 * (round as int) + 1));
                }
            }
            round = round + 1;
        }
        state
    }

    /// A width-3, rate-2, capacity-1 sponge: absorb the inputs two at a
    /// time into the two rate slots (the capacity slot untouched) with a
    /// permutation after each chunk, then squeeze the rate slots in order,
    /// permuting again only once both are consumed and more outputs are
    /// needed. Every satisfying witness assigns each output the sponge of
    /// the input values: the outputs are a pure function of the input
    /// values and the output count.
    #[verifier::rlimit(100)]
    #[verifier::spinoff_prover]
    pub fn rescue_sponge(&mut self, inputs: &[Target], num_outputs: usize) -> (r: Vec<Target>)
        requires
            old(self).wf(),
            forall|i: int| 0 <= i < inputs@.len() ==> target_valid(old(self)@, #[trigger] inputs@[i]),
        ensures
            final(self).wf(),
            extends(old(self)@, final(self)@),
            r@.len() == num_outputs as int,
            forall|k: int| 0 <= k < num_outputs as int ==> target_valid(final(self)@, #[trigger] r@[k]),
            forces_sponge(final(self)@, r@, inputs@),
    {
        let ghost b0 = self@;
        let zero = self.zero_wire();
        let mut state: [Target; 3] = [zero, zero, zero];

        // Absorb all input chunks.
        let n = inputs.len();
        let mut consumed: usize = 0;
        proof {
            assert forall|w: Map<Target, int>|
                #[trigger] satisfies(self@, w) && targets_assigned(w, inputs@) implies {
                &&& w.contains_key(state[0]) && w.contains_key(state[1]) && w.contains_key(
                    state[2],
                )
                &&& crate::gates::sponge_absorb(
                    target_vals(w, inputs@).skip(0),
                    (w[state[0]], w[state[1]], w[state[2]]),
                ) == crate::gates::sponge_absorb(target_vals(w, inputs@), (0, 0, 0))
            } by {
                assert(w.contains_key(zero) && w[zero] == 0);
                assert(target_vals(w, inputs@).skip(0) =~= target_vals(w, inputs@));
            }
        }
        while consumed < n
            invariant
                self.wf(),
                consumed <= n,
                n == inputs@.len(),
                extends(b0, self@),
                forall|i: int| 0 <= i < n as int ==> target_valid(b0, #[trigger] inputs@[i]),
                target_valid(self@, state[0]),
                target_valid(self@, state[1]),
                target_valid(self@, state[2]),
                forall|w: Map<Target, int>|
                    #[trigger] satisfies(self@, w) && targets_assigned(w, inputs@) ==> {
                        &&& w.contains_key(state[0]) && w.contains_key(state[1])
                            && w.contains_key(state[2])
                        &&& crate::gates::sponge_absorb(
                            target_vals(w, inputs@).skip(consumed as int),
                            (w[state[0]], w[state[1]], w[state[2]]),
                        ) == crate::gates::sponge_absorb(target_vals(w, inputs@), (0, 0, 0))
                    },
            decreases n - consumed,
        {
            let ghost bl = self@;
            let ghost old_state = state;
            let ghost c0 = consumed as int;
            proof {
                lemma_target_valid_mono(b0, self@, inputs@[consumed as int]);
            }
            let s0 = self.add(state[0], inputs[consumed]);
            let ghost bs0 = self@;
            consumed = consumed + 1;
            let two_absorbed = consumed < n;
            let s1 = if consumed < n {
                proof {
                    lemma_target_valid_mono(b0, self@, inputs@[consumed as int]);
                    lemma_target_valid_mono(bl, bs0, old_state[1]);
                }
                let s1 = self.add(state[1], inputs[consumed]);
                consumed = consumed + 1;
                s1
            } else {
                state[1]
            };
            let ghost bs1 = self@;
            proof {
                lemma_target_valid_mono(bl, bs1, old_state[2]);
                lemma_target_valid_mono(bs0, bs1, s0);
            }
            state = self.rescue_permutation_3x3([s0, s1, state[2]]);
            proof {
                lemma_extends_trans(bl, bs0, bs1);
                lemma_extends_trans(bl, bs1, self@);
                lemma_extends_trans(b0, bl, self@);
                assert forall|w: Map<Target, int>|
                    #[trigger] satisfies(self@, w) && targets_assigned(w, inputs@) implies {
                    &&& w.contains_key(state[0]) && w.contains_key(state[1]) && w.contains_key(
                        state[2],
                    )
                    &&& crate::gates::sponge_absorb(
                        target_vals(w, inputs@).skip(consumed as int),
                        (w[state[0]], w[state[1]], w[state[2]]),
                    ) == crate::gates::sponge_absorb(target_vals(w, inputs@), (0, 0, 0))
                } by {
                    lemma_satisfies_extends(bs1, self@, w);
                    lemma_satisfies_extends(bs0, bs1, w);
                    lemma_satisfies_extends(bl, bs0, w);
                    lemma_target_vals(w, inputs@);
                    let vals = target_vals(w, inputs@);
                    assert(w.contains_key(inputs@[c0]));
                    assert(w.contains_key(old_state[0]) && w.contains_key(old_state[1])
                        && w.contains_key(old_state[2]));
                    assert(w.contains_key(s0) && w[s0] == fadd(w[old_state[0]], w[inputs@[c0]]));
                    let st = (w[old_state[0]], w[old_state[1]], w[old_state[2]]);
                    assert(vals.skip(c0)[0] == vals[c0]);
                    if two_absorbed {
                        assert(w.contains_key(inputs@[c0 + 1]));
                        assert(w.contains_key(s1) && w[s1] == fadd(
                            w[old_state[1]],
                            w[inputs@[c0 + 1]],
                        ));
                        assert(vals.skip(c0)[1] == vals[c0 + 1]);
                        assert(vals.skip(c0).len() >= 2);
                        assert(vals.skip(c0).skip(2) =~= vals.skip(c0 + 2));
                        assert((w[state[0]], w[state[1]], w[state[2]])
                            == crate::gates::rescue_perm((
                            fadd(st.0, vals[c0]),
                            fadd(st.1, vals[c0 + 1]),
                            st.2,
                        )));
                        assert(crate::gates::sponge_absorb(vals.skip(c0), st)
                            == crate::gates::sponge_absorb(
                            vals.skip(c0 + 2),
                            crate::gates::rescue_perm((
                                fadd(st.0, vals[c0]),
                                fadd(st.1, vals[c0 + 1]),
                                st.2,
                            )),
                        ));
                    } else {
                        assert(s1 == old_state[1]);
                        assert(vals.skip(c0).len() == 1);
                        assert((w[state[0]], w[state[1]], w[state[2]])
                            == crate::gates::rescue_perm((fadd(st.0, vals[c0]), st.1, st.2)));
                        assert(crate::gates::sponge_absorb(vals.skip(c0), st)
                            == crate::gates::rescue_perm((fadd(st.0, vals[c0]), st.1, st.2)));
                        assert(vals.skip(c0 + 1).len() == 0);
                    }
                }
            }
        }

        // Squeeze until we have the desired number of outputs.
        let mut outputs: Vec<Target> = Vec::new();
        let ghost mut m: nat = 0;
        proof {
            assert forall|w: Map<Target, int>|
                #[trigger] satisfies(self@, w) && targets_assigned(w, inputs@) implies {
                &&& w.contains_key(state[0]) && w.contains_key(state[1]) && w.contains_key(
                    state[2],
                )
                &&& ((w[state[0]], w[state[1]], w[state[2]]) == crate::gates::perm_iter(
                    crate::gates::sponge_absorb(target_vals(w, inputs@), (0, 0, 0)),
                    0,
                ))
            } by {
                let vals = target_vals(w, inputs@);
                lemma_target_vals(w, inputs@);
                assert(vals.skip(n as int).len() == 0);
                assert(crate::gates::sponge_absorb(
                    vals.skip(n as int),
                    (w[state[0]], w[state[1]], w[state[2]]),
                ) == (w[state[0]], w[state[1]], w[state[2]]));
            }
        }
        while outputs.len() < num_outputs
            invariant
                self.wf(),
                extends(b0, self@),
                outputs@.len() <= num_outputs as int,
                outputs@.len() == 2 * m || outputs@.len() == num_outputs as int,
                forall|k: int|
                    0 <= k < outputs@.len() ==> target_valid(self@, #[trigger] outputs@[k]),
                target_valid(self@, state[0]),
                target_valid(self@, state[1]),
                target_valid(self@, state[2]),
                forall|w: Map<Target, int>|
                    #[trigger] satisfies(self@, w) && targets_assigned(w, inputs@) ==> {
                        &&& w.contains_key(state[0]) && w.contains_key(state[1])
                            && w.contains_key(state[2])
                        &&& ((w[state[0]], w[state[1]], w[state[2]]) == crate::gates::perm_iter(
                            crate::gates::sponge_absorb(target_vals(w, inputs@), (0, 0, 0)),
                            m,
                        ))
                        &&& forall|k: int|
                            0 <= k < outputs@.len() ==> w.contains_key(#[trigger] outputs@[k])
                                && w[outputs@[k]] == crate::gates::sponge_output(
                                target_vals(w, inputs@),
                                k as nat,
                            )
                    },
            decreases num_outputs - outputs.len(),
        {
            let ghost len0 = outputs@.len();
            proof {
                assert(len0 == 2 * m);
            }
            outputs.push(state[0]);
            proof {
                assert forall|w: Map<Target, int>|
                    #[trigger] satisfies(self@, w) && targets_assigned(w, inputs@) implies
                    forall|k: int|
                        0 <= k < outputs@.len() ==> w.contains_key(#[trigger] outputs@[k])
                            && w[outputs@[k]] == crate::gates::sponge_output(
                            target_vals(w, inputs@),
                            k as nat,
                        ) by {
                    assert forall|k: int| 0 <= k < outputs@.len() implies w.contains_key(
                        #[trigger] outputs@[k],
                    ) && w[outputs@[k]] == crate::gates::sponge_output(
                        target_vals(w, inputs@),
                        k as nat,
                    ) by {
                        if k == len0 {
                            assert(outputs@[k] == state[0]);
                            assert(k as nat / 2 == m && k as nat % 2 == 0);
                        }
                    }
                }
            }
            if outputs.len() < num_outputs {
                let ghost len1 = outputs@.len();
                outputs.push(state[1]);
                proof {
                    assert forall|w: Map<Target, int>|
                        #[trigger] satisfies(self@, w) && targets_assigned(w, inputs@) implies
                        forall|k: int|
                            0 <= k < outputs@.len() ==> w.contains_key(#[trigger] outputs@[k])
                                && w[outputs@[k]] == crate::gates::sponge_output(
                                target_vals(w, inputs@),
                                k as nat,
                            ) by {
                        assert forall|k: int| 0 <= k < outputs@.len() implies w.contains_key(
                            #[trigger] outputs@[k],
                        ) && w[outputs@[k]] == crate::gates::sponge_output(
                            target_vals(w, inputs@),
                            k as nat,
                        ) by {
                            if k == len1 {
                                assert(outputs@[k] == state[1]);
                                assert(k as nat / 2 == m && k as nat % 2 == 1);
                            }
                        }
                    }
                }
            }
            if outputs.len() < num_outputs {
                let ghost bl = self@;
                let ghost old_state = state;
                state = self.rescue_permutation_3x3(state);
                proof {
                    lemma_extends_trans(b0, bl, self@);
                    assert forall|k: int|
                        0 <= k < outputs@.len() implies target_valid(
                        self@,
                        #[trigger] outputs@[k],
                    ) by {
                        lemma_target_valid_mono(bl, self@, outputs@[k]);
                    }
                    assert forall|w: Map<Target, int>|
                        #[trigger] satisfies(self@, w) && targets_assigned(w, inputs@) implies {
                        &&& w.contains_key(state[0]) && w.contains_key(state[1])
                            && w.contains_key(state[2])
                        &&& ((w[state[0]], w[state[1]], w[state[2]]) == crate::gates::perm_iter(
                            crate::gates::sponge_absorb(target_vals(w, inputs@), (0, 0, 0)),
                            m + 1,
                        ))
                        &&& forall|k: int|
                            0 <= k < outputs@.len() ==> w.contains_key(#[trigger] outputs@[k])
                                && w[outputs@[k]] == crate::gates::sponge_output(
                                target_vals(w, inputs@),
                                k as nat,
                            )
                    } by {
                        lemma_satisfies_extends(bl, self@, w);
                        assert(w.contains_key(old_state[0]) && w.contains_key(old_state[1])
                            && w.contains_key(old_state[2]));
                        assert((w[state[0]], w[state[1]], w[state[2]])
                            == crate::gates::rescue_perm((
                            w[old_state[0]],
                            w[old_state[1]],
                            w[old_state[2]],
                        )));
                    }
                    m = m + 1;
                }
            }
        }
        proof {
            assert forall|w: Map<Target, int>|
                #[trigger] satisfies(self@, w) && targets_assigned(w, inputs@) implies forall|
                k: int,
            |
                0 <= k < outputs@.len() ==> w.contains_key(#[trigger] outputs@[k]) && w[outputs@[k]]
                    == crate::gates::sponge_output(target_vals(w, inputs@), k as nat) by {}
        }
        outputs
    }

    /// The sponge squeezed to a single output: the first squeezed rate slot
    /// over the same inputs.
    pub fn rescue_hash_n_to_1(&mut self, inputs: &[Target]) -> (r: Target)
        requires
            old(self).wf(),
            forall|i: int| 0 <= i < inputs@.len() ==> target_valid(old(self)@, #[trigger] inputs@[i]),
        ensures
            final(self).wf(),
            extends(old(self)@, final(self)@),
            target_valid(final(self)@, r),
            forall|w: Map<Target, int>|
                #[trigger] satisfies(final(self)@, w) && targets_assigned(w, inputs@)
                    ==> w.contains_key(r) && w[r] == crate::gates::sponge_output(
                    target_vals(w, inputs@),
                    0,
                ),
    {
        let outputs = self.rescue_sponge(inputs, 1);
        let r = outputs[0];
        proof {
            assert(outputs@[0] == r);
        }
        r
    }

    /// The sponge squeezed to two outputs, in squeeze order.
    pub fn rescue_hash_n_to_2(&mut self, inputs: &[Target]) -> (r: (Target, Target))
        requires
            old(self).wf(),
            forall|i: int| 0 <= i < inputs@.len() ==> target_valid(old(self)@, #[trigger] inputs@[i]),
        ensures
            final(self).wf(),
            extends(old(self)@, final(self)@),
            target_valid(final(self)@, r.0),
            target_valid(final(self)@, r.1),
            forall|w: Map<Target, int>|
                #[trigger] satisfies(final(self)@, w) && targets_assigned(w, inputs@)
                    ==> w.contains_key(r.0) && w.contains_key(r.1) && w[r.0]
                    == crate::gates::sponge_output(target_vals(w, inputs@), 0) && w[r.1]
                    == crate::gates::sponge_output(target_vals(w, inputs@), 1),
    {
        let outputs = self.rescue_sponge(inputs, 2);
        let r = (outputs[0], outputs[1]);
        proof {
            assert(outputs@[0] == r.0 && outputs@[1] == r.1);
        }
        r
    }
}

/// Why a gadget could not be built.
#[derive(Copy, Clone, PartialEq, Eq, Debug, Structural)]
pub enum CircuitError {
    /// Repeated doubling of the nonzero base point degenerated to the
    /// identity, so it cannot be materialized as a constant point.
    DegenerateBasePoint,
}

/// A component of a multi-scalar multiplication: one scalar bit sequence
/// (little-endian) weighting one addend point.
pub struct MsmPart {
    pub scalar_bits: Vec<Target>,
    pub addend: AffinePointTarget,
}

/// Like `MsmPart`, but with a constant base point.
pub struct FixedBaseMsmPart {
    pub scalar_bits: Vec<Target>,
    pub addend: AffinePoint,
}

/// The result of a multi-scalar multiplication: the summed point, and per
/// part the weighted sum of the given scalar bits, for the caller to
/// cross-check against an expected scalar.
pub struct MsmResult {
    pub sum: AffinePointTarget,
    pub scalars: Vec<Target>,
}

/// The result of an endomorphism-accelerated multi-scalar multiplication:
/// beside the nominal scalars, the scalar each point was actually
/// multiplied by under the endomorphism decomposition.
pub struct MsmEndoResult {
    pub msm_result: MsmResult,
    pub actual_scalars: Vec<Target>,
}

/// The bit-weighted value accumulated from bit positions `i` and above:
/// most-significant first, the accumulator doubling as each bit comes in.
pub open spec fn scalar_val_from(w: Map<Target, int>, bits: Seq<Target>, i: int) -> int
    decreases bits.len() - i,
{
    if i < 0 || i >= bits.len() {
        0
    } else {
        fadd(fmul(2, scalar_val_from(w, bits, i + 1)), w[bits[i]])
    }
}

/// A wire either of an emitted gate or of one about to be emitted:
/// the accumulator of a double-and-add schedule lives one gate ahead until
/// the next gate takes it in.
pub open spec fn target_near(b: BuilderView, t: Target) -> bool {
    match t {
        Target::Wire(w) => (w.gate as int) <= b.gate_constants.len() && (w.input as int)
            < NUM_WIRES as int,
        Target::VirtualTarget(v) => (v.index as int) < b.virtual_target_index,
    }
}

/// The scalar bit sequences of a part list, in order.
pub open spec fn parts_bits(parts: Seq<MsmPart>) -> Seq<Seq<Target>>
    decreases parts.len(),
{
    if parts.len() == 0 {
        Seq::empty()
    } else {
        parts_bits(parts.drop_last()).push(parts.last().scalar_bits@)
    }
}

pub proof fn lemma_parts_bits(parts: Seq<MsmPart>)
    ensures
        parts_bits(parts).len() == parts.len(),
        forall|j: int|
            0 <= j < parts.len() ==> #[trigger] parts_bits(parts)[j] == parts[j].scalar_bits@,
    decreases parts.len(),
{
    if parts.len() > 0 {
        lemma_parts_bits(parts.drop_last());
        assert forall|j: int| 0 <= j < parts.len() implies #[trigger] parts_bits(parts)[j]
            == parts[j].scalar_bits@ by {
            if j < parts.len() - 1 {
                assert(parts_bits(parts.drop_last())[j] == parts.drop_last()[j].scalar_bits@);
            }
        }
    }
}

/// The scalar bit sequences of a fixed-base part list, in order.
pub open spec fn fixed_parts_bits(parts: Seq<FixedBaseMsmPart>) -> Seq<Seq<Target>>
    decreases parts.len(),
{
    if parts.len() == 0 {
        Seq::empty()
    } else {
        fixed_parts_bits(parts.drop_last()).push(parts.last().scalar_bits@)
    }
}

pub proof fn lemma_fixed_parts_bits(parts: Seq<FixedBaseMsmPart>)
    ensures
        fixed_parts_bits(parts).len() == parts.len(),
        forall|j: int|
            0 <= j < parts.len() ==> #[trigger] fixed_parts_bits(parts)[j]
                == parts[j].scalar_bits@,
    decreases parts.len(),
{
    if parts.len() > 0 {
        lemma_fixed_parts_bits(parts.drop_last());
        assert forall|j: int| 0 <= j < parts.len() implies #[trigger] fixed_parts_bits(parts)[j]
            == parts[j].scalar_bits@ by {
            if j < parts.len() - 1 {
                assert(fixed_parts_bits(parts.drop_last())[j] == parts.drop_last()[
                    j
                ].scalar_bits@);
            }
        }
    }
}

/// The longest scalar bit length of a part list.
pub open spec fn max_bits_of(parts: Seq<MsmPart>) -> int
    decreases parts.len(),
{
    if parts.len() == 0 {
        0
    } else {
        let rest = max_bits_of(parts.drop_last());
        let lastlen = parts.last().scalar_bits@.len() as int;
        if lastlen >= rest {
            lastlen
        } else {
            rest
        }
    }
}

/// The longest scalar bit length of a fixed-base part list.
pub open spec fn fixed_max_bits_of(parts: Seq<FixedBaseMsmPart>) -> int
    decreases parts.len(),
{
    if parts.len() == 0 {
        0
    } else {
        let rest = fixed_max_bits_of(parts.drop_last());
        let lastlen = parts.last().scalar_bits@.len() as int;
        if lastlen >= rest {
            lastlen
        } else {
            rest
        }
    }
}

/// Part lists with pointwise equal scalar bit lengths have one longest
/// length.
pub proof fn lemma_max_bits_eq(a: Seq<MsmPart>, b: Seq<FixedBaseMsmPart>)
    requires
        a.len() == b.len(),
        forall|j: int|
            0 <= j < a.len() ==> (#[trigger] a[j]).scalar_bits@.len() == b[j].scalar_bits@.len(),
    ensures
        max_bits_of(a) == fixed_max_bits_of(b),
    decreases a.len(),
{
    if a.len() > 0 {
        assert forall|j: int| 0 <= j < a.drop_last().len() implies (
        #[trigger] a.drop_last()[j]).scalar_bits@.len() == b.drop_last()[
            j
        ].scalar_bits@.len() by {
            assert(a[j].scalar_bits@.len() == b[j].scalar_bits@.len());
        }
        lemma_max_bits_eq(a.drop_last(), b.drop_last());
        assert(a.last().scalar_bits@.len() == b.last().scalar_bits@.len());
    }
}

/// All scalar bits of all parts are assigned.
pub open spec fn msm_bits_contained(w: Map<Target, int>, bits: Seq<Seq<Target>>) -> bool {
    forall|j: int, q: int|
        0 <= j < bits.len() && 0 <= q < bits[j].len() ==> w.contains_key(#[trigger] bits[j][q])
}

/// Every satisfying witness assigning all scalar bits gives `t` the
/// bit-weighted value of `bits` from position `i` up.
pub open spec fn scalar_forced(
    b: BuilderView,
    all_bits: Seq<Seq<Target>>,
    t: Target,
    bits: Seq<Target>,
    i: int,
) -> bool {
    forall|w: Map<Target, int>|
        #[trigger] satisfies(b, w) && msm_bits_contained(w, all_bits) ==> w.contains_key(t) && w[t]
            == scalar_val_from(w, bits, i)
}

proof fn lemma_scalar_forced_mono(
    pre: BuilderView,
    post: BuilderView,
    all_bits: Seq<Seq<Target>>,
    t: Target,
    bits: Seq<Target>,
    i: int,
)
    requires
        view_wf(pre),
        extends(pre, post),
        scalar_forced(pre, all_bits, t, bits, i),
    ensures
        scalar_forced(post, all_bits, t, bits, i),
{
    assert forall|w: Map<Target, int>|
        #[trigger] satisfies(post, w) && msm_bits_contained(w, all_bits) implies w.contains_key(t)
        && w[t] == scalar_val_from(w, bits, i) by {
        lemma_satisfies_extends(pre, post, w);
    }
}

impl CircuitBuilder {
    /// The pair of constant wires pinned to the coordinates of a concrete
    /// nonzero curve point. Materializing the identity is a programming
    /// error, ruled out by the precondition.
    pub fn constant_affine_point(&mut self, point: AffinePoint) -> (r: AffinePointTarget)
        requires
            old(self).wf(),
            point.wf(),
            !point.zero,
        ensures
            final(self).wf(),
            extends(old(self)@, final(self)@),
            target_valid(final(self)@, r.x),
            target_valid(final(self)@, r.y),
            forces_val(final(self)@, r.x, point.x.as_int()),
            forces_val(final(self)@, r.y, point.y.as_int()),
    {
        let ghost b0 = self@;
        let x = self.constant_wire(point.x);
        let ghost b1 = self@;
        let y = self.constant_wire(point.y);
        proof {
            lemma_extends_trans(b0, b1, self@);
            lemma_forces_val_mono(b1, self@, x, point.x.as_int());
            lemma_target_valid_mono(b1, self@, x);
        }
        AffinePointTarget { x, y }
    }

    /// Constrain a coordinate pair to satisfy the curve equation
    /// `y^2 == x^3 + CURVE_B`.
    pub fn curve_assert_valid(&mut self, p: AffinePointTarget)
        requires
            old(self).wf(),
            target_valid(old(self)@, p.x),
            target_valid(old(self)@, p.y),
        ensures
            final(self).wf(),
            extends(old(self)@, final(self)@),
            forall|w: Map<Target, int>|
                #[trigger] satisfies(final(self)@, w) && w.contains_key(p.x) && w.contains_key(
                    p.y,
                ) ==> crate::curve::on_curve(w[p.x], w[p.y]),
    {
        let ghost b0 = self@;
        let y2 = self.square(p.y);
        let ghost b1 = self@;
        let x2 = self.square(p.x);
        let ghost b2 = self@;
        let x3 = self.mul(x2, p.x);
        let ghost b3 = self@;
        let b_wire = self.constant_wire(Field::from_canonical_u64(crate::curve::CURVE_B));
        let ghost b4 = self@;
        let rhs = self.add(x3, b_wire);
        let ghost b5 = self@;
        self.copy(y2, rhs);
        proof {
            lemma_extends_trans(b0, b1, b2);
            lemma_extends_trans(b0, b2, b3);
            lemma_extends_trans(b0, b3, b4);
            lemma_extends_trans(b0, b4, b5);
            lemma_extends_trans(b0, b5, self@);
            let cc = b5.copy_constraints.len() as int;
            assert(self@.copy_constraints[cc] == (y2, rhs));
            assert forall|w: Map<Target, int>|
                #[trigger] satisfies(self@, w) && w.contains_key(p.x) && w.contains_key(p.y)
                implies crate::curve::on_curve(w[p.x], w[p.y]) by {
                lemma_satisfies_extends(b5, self@, w);
                lemma_satisfies_extends(b4, b5, w);
                lemma_satisfies_extends(b3, b4, w);
                lemma_satisfies_extends(b2, b3, w);
                lemma_satisfies_extends(b1, b2, w);
                assert(w.contains_key(y2) && w[y2] == fmul(w[p.y], w[p.y]));
                assert(w.contains_key(x2) && w[x2] == fmul(w[p.x], w[p.x]));
                assert(w.contains_key(x3) && w[x3] == fmul(w[x2], w[p.x]));
                assert(w.contains_key(b_wire) && w[b_wire] == crate::curve::CURVE_B as int);
                assert(w.contains_key(rhs) && w[rhs] == fadd(w[x3], w[b_wire]));
                assert(constraint_ok(self@.copy_constraints[cc], w));
            }
        }
    }

    /// The inverse of a point target: the y-coordinate negated.
    pub fn curve_neg(&mut self, p: AffinePointTarget) -> (r: AffinePointTarget)
        requires
            old(self).wf(),
            target_valid(old(self)@, p.x),
            target_valid(old(self)@, p.y),
        ensures
            final(self).wf(),
            extends(old(self)@, final(self)@),
            target_valid(final(self)@, r.x),
            target_valid(final(self)@, r.y),
            r.x == p.x,
            forces_neg(final(self)@, r.y, p.y),
    {
        let neg_y = self.neg(p.y);
        proof {
            lemma_target_valid_mono(old(self)@, self@, p.x);
        }
        AffinePointTarget { x: p.x, y: neg_y }
    }

    /// One curve addition: a curve-add gate with its scalar bit pinned to
    /// one, followed by a buffer gate re-exposing the accumulator outputs
    /// as routable wires.
    #[verifier::rlimit(100)]
    #[verifier::spinoff_prover]
    pub fn curve_add(&mut self, p_1: AffinePointTarget, p_2: AffinePointTarget) -> (r:
        AffinePointTarget)
        requires
            old(self).wf(),
            target_valid(old(self)@, p_1.x),
            target_valid(old(self)@, p_1.y),
            target_valid(old(self)@, p_2.x),
            target_valid(old(self)@, p_2.y),
        ensures
            final(self).wf(),
            extends(old(self)@, final(self)@),
            target_valid(final(self)@, r.x),
            target_valid(final(self)@, r.y),
            forall|w: Map<Target, int>|
                #[trigger] satisfies(final(self)@, w) && w.contains_key(p_1.x) && w.contains_key(
                    p_1.y,
                ) && w.contains_key(p_2.x) && w.contains_key(p_2.y) ==> w.contains_key(r.x)
                    && w.contains_key(r.y) && crate::curve::add_rel(
                    w[p_1.x],
                    w[p_1.y],
                    w[p_2.x],
                    w[p_2.y],
                    w[r.x],
                    w[r.y],
                ),
    {
        let ghost b0 = self@;
        let one = self.one_wire();
        let ghost b1 = self@;
        let zero = self.zero_wire();
        let ghost b2 = self@;
        let add_index = self.num_gates();
        self.add_gate(GateKind::CurveAdd, Vec::new());
        let ghost b3 = self@;
        let buffer_index = self.num_gates();
        self.add_gate(GateKind::Buffer, Vec::new());
        let ghost b4 = self@;

        self.copy(p_1.x, Target::Wire(Wire { gate: add_index, input: 0 }));
        let ghost b5 = self@;
        self.copy(p_1.y, Target::Wire(Wire { gate: add_index, input: 1 }));
        let ghost b6 = self@;
        self.copy(zero, Target::Wire(Wire { gate: add_index, input: 2 }));
        let ghost b7 = self@;
        self.copy(p_2.x, Target::Wire(Wire { gate: add_index, input: 4 }));
        let ghost b8 = self@;
        self.copy(p_2.y, Target::Wire(Wire { gate: add_index, input: 5 }));
        let ghost b9 = self@;
        self.copy(one, Target::Wire(Wire { gate: add_index, input: 6 }));

        let result_x = Target::Wire(Wire { gate: buffer_index, input: 0 });
        let result_y = Target::Wire(Wire { gate: buffer_index, input: 1 });
        proof {
            let post = self@;
            lemma_extends_trans(b0, b1, b2);
            lemma_extends_trans(b0, b2, b3);
            lemma_extends_trans(b0, b3, b4);
            lemma_extends_trans(b0, b4, b5);
            lemma_extends_trans(b0, b5, b6);
            lemma_extends_trans(b0, b6, b7);
            lemma_extends_trans(b0, b7, b8);
            lemma_extends_trans(b0, b8, b9);
            lemma_extends_trans(b0, b9, post);
            lemma_extends_trans(b1, b2, post);
            let ga = add_index as int;
            let ka = b2.generators.len() as int;
            assert(post.generators[ka] == GenView::Gate { index: ga, kind: GateKind::CurveAdd });
            let cc = b4.copy_constraints.len() as int;
            assert(post.copy_constraints[cc] == (p_1.x, wire_ti(ga, 0)));
            assert(post.copy_constraints[cc + 1] == (p_1.y, wire_ti(ga, 1)));
            assert(post.copy_constraints[cc + 2] == (zero, wire_ti(ga, 2)));
            assert(post.copy_constraints[cc + 3] == (p_2.x, wire_ti(ga, 4)));
            assert(post.copy_constraints[cc + 4] == (p_2.y, wire_ti(ga, 5)));
            assert(post.copy_constraints[cc + 5] == (one, wire_ti(ga, 6)));
            lemma_forces_val_mono(b1, post, one, 1);
            assert forall|w: Map<Target, int>|
                #[trigger] satisfies(post, w) && w.contains_key(p_1.x) && w.contains_key(p_1.y)
                    && w.contains_key(p_2.x) && w.contains_key(p_2.y) implies w.contains_key(
                result_x,
            ) && w.contains_key(result_y) && crate::curve::add_rel(
                w[p_1.x],
                w[p_1.y],
                w[p_2.x],
                w[p_2.y],
                w[result_x],
                w[result_y],
            ) by {
                assert(constraint_ok(post.copy_constraints[cc], w));
                assert(constraint_ok(post.copy_constraints[cc + 1], w));
                assert(constraint_ok(post.copy_constraints[cc + 3], w));
                assert(constraint_ok(post.copy_constraints[cc + 4], w));
                assert(constraint_ok(post.copy_constraints[cc + 5], w));
                assert(w.contains_key(one) && w[one] == 1);
                assert(gen_holds(post.generators[ka], post.gate_constants, w));
                assert(crate::gates::wval(w, ga, 6) == 1);
                assert(result_x == wire_ti(ga + 1, 0));
                assert(result_y == wire_ti(ga + 1, 1));
            }
        }
        AffinePointTarget { x: result_x, y: result_y }
    }

    /// One curve doubling gate.
    pub fn curve_double(&mut self, p: AffinePointTarget) -> (r: AffinePointTarget)
        requires
            old(self).wf(),
            target_valid(old(self)@, p.x),
            target_valid(old(self)@, p.y),
        ensures
            final(self).wf(),
            extends(old(self)@, final(self)@),
            target_valid(final(self)@, r.x),
            target_valid(final(self)@, r.y),
            forall|w: Map<Target, int>|
                #[trigger] satisfies(final(self)@, w) && w.contains_key(p.x) && w.contains_key(
                    p.y,
                ) ==> w.contains_key(r.x) && w.contains_key(r.y) && crate::curve::dbl_rel(
                    w[p.x],
                    w[p.y],
                    w[r.x],
                    w[r.y],
                ),
    {
        let ghost b0 = self@;
        let idx_dbl = self.num_gates();
        self.add_gate(GateKind::CurveDbl, Vec::new());
        let ghost b1 = self@;
        self.copy(p.x, Target::Wire(Wire { gate: idx_dbl, input: 0 }));
        let ghost b2 = self@;
        self.copy(p.y, Target::Wire(Wire { gate: idx_dbl, input: 1 }));
        let rx = Target::Wire(Wire { gate: idx_dbl, input: 2 });
        let ry = Target::Wire(Wire { gate: idx_dbl, input: 3 });
        proof {
            let post = self@;
            lemma_extends_trans(b0, b1, b2);
            lemma_extends_trans(b0, b2, post);
            let g = idx_dbl as int;
            let k = b0.generators.len() as int;
            assert(post.generators[k] == GenView::Gate { index: g, kind: GateKind::CurveDbl });
            let cc = b1.copy_constraints.len() as int;
            assert(post.copy_constraints[cc] == (p.x, wire_ti(g, 0)));
            assert(post.copy_constraints[cc + 1] == (p.y, wire_ti(g, 1)));
            assert forall|w: Map<Target, int>|
                #[trigger] satisfies(post, w) && w.contains_key(p.x) && w.contains_key(p.y)
                implies w.contains_key(rx) && w.contains_key(ry) && crate::curve::dbl_rel(
                w[p.x],
                w[p.y],
                w[rx],
                w[ry],
            ) by {
                assert(constraint_ok(post.copy_constraints[cc], w));
                assert(constraint_ok(post.copy_constraints[cc + 1], w));
                assert(gen_holds(post.generators[k], post.gate_constants, w));
            }
        }
        AffinePointTarget { x: rx, y: ry }
    }

    /// Curve subtraction: addition of the negation.
    pub fn curve_sub(&mut self, p_1: AffinePointTarget, p_2: AffinePointTarget) -> (r:
        AffinePointTarget)
        requires
            old(self).wf(),
            target_valid(old(self)@, p_1.x),
            target_valid(old(self)@, p_1.y),
            target_valid(old(self)@, p_2.x),
            target_valid(old(self)@, p_2.y),
        ensures
            final(self).wf(),
            extends(old(self)@, final(self)@),
            target_valid(final(self)@, r.x),
            target_valid(final(self)@, r.y),
            forall|w: Map<Target, int>|
                #[trigger] satisfies(final(self)@, w) && w.contains_key(p_1.x) && w.contains_key(
                    p_1.y,
                ) && w.contains_key(p_2.x) && w.contains_key(p_2.y) ==> w.contains_key(r.x)
                    && w.contains_key(r.y) && crate::curve::add_rel(
                    w[p_1.x],
                    w[p_1.y],
                    w[p_2.x],
                    crate::field::fneg(w[p_2.y]),
                    w[r.x],
                    w[r.y],
                ),
    {
        let ghost b0 = self@;
        let neg_p_2 = self.curve_neg(p_2);
        let ghost b1 = self@;
        let r = self.curve_add(p_1, neg_p_2);
        proof {
            lemma_extends_trans(b0, b1, self@);
            assert forall|w: Map<Target, int>|
                #[trigger] satisfies(self@, w) && w.contains_key(p_1.x) && w.contains_key(p_1.y)
                    && w.contains_key(p_2.x) && w.contains_key(p_2.y) implies w.contains_key(r.x)
                && w.contains_key(r.y) && crate::curve::add_rel(
                w[p_1.x],
                w[p_1.y],
                w[p_2.x],
                crate::field::fneg(w[p_2.y]),
                w[r.x],
                w[r.y],
            ) by {
                lemma_satisfies_extends(b1, self@, w);
                assert(w.contains_key(neg_p_2.y) && w[neg_p_2.y] == crate::field::fneg(w[p_2.y]));
                assert(neg_p_2.x == p_2.x);
            }
        }
        r
    }
}

impl CircuitBuilder {
    /// Multi-scalar multiplication by double-and-add, most-significant bit
    /// first: per bit position, one conditional curve-add gate per part
    /// whose scalar still has a bit there, then one shared doubling. The
    /// accumulator is seeded with the base point rather than the identity,
    /// its repeatedly doubled copy subtracted out at the end; it fails only
    /// when that doubled copy degenerates to the identity. In every
    /// satisfying witness each returned scalar carries the bit-weighted sum
    /// of its part's scalar bits. An empty part list is a programming
    /// error, ruled out by the precondition.
    #[verifier::rlimit(100)]
    #[verifier::spinoff_prover]
    pub fn curve_msm(&mut self, parts: &[MsmPart]) -> (r: Result<MsmResult, CircuitError>)
        requires
            old(self).wf(),
            parts@.len() > 0,
            forall|j: int|
                0 <= j < parts@.len() ==> target_valid(old(self)@, (#[trigger] parts@[j]).addend.x)
                    && target_valid(old(self)@, parts@[j].addend.y),
            forall|j: int, q: int|
                0 <= j < parts@.len() && 0 <= q < parts@[j].scalar_bits@.len() ==> target_valid(
                    old(self)@,
                    #[trigger] parts@[j].scalar_bits@[q],
                ),
        ensures
            final(self).wf(),
            extends(old(self)@, final(self)@),
            (r matches Ok(res) ==> {
                &&& res.scalars@.len() == parts@.len()
                &&& target_valid(final(self)@, res.sum.x)
                &&& target_valid(final(self)@, res.sum.y)
                &&& forall|j: int|
                    0 <= j < parts@.len() ==> scalar_forced(
                        final(self)@,
                        parts_bits(parts@),
                        #[trigger] res.scalars@[j],
                        parts@[j].scalar_bits@,
                        0,
                    )
                &&& (exists|chain: Seq<AffinePoint>|
                    crate::curve::base_dbl_chain(chain, max_bits_of(parts@))
                        && !(#[trigger] chain.last()).zero)
            }),
            (r matches Err(e) ==> e == CircuitError::DegenerateBasePoint && (exists|
                chain: Seq<AffinePoint>,
            |
                crate::curve::base_dbl_chain(chain, max_bits_of(parts@)) && (
                #[trigger] chain.last()).zero)),
    {
        let ghost b0 = self@;
        let np = parts.len();
        // Seed the accumulator with an arbitrary nonzero point, recording
        // the chain its repeated doublings form.
        let mut filler = AffinePoint::generator_affine();
        let ghost mut chain: Seq<AffinePoint> = seq![filler];
        let mut acc = self.constant_affine_point(filler);
        let ghost b1 = self@;
        let zero = self.zero_wire();
        let mut scalars: Vec<Target> = Vec::new();
        let mut jz: usize = 0;
        while jz < np
            invariant
                self.wf(),
                jz <= np,
                extends(b1, self@),
                forces_val(self@, zero, 0),
                target_valid(self@, zero),
                scalars@.len() == jz as int,
                forall|q: int| 0 <= q < jz as int ==> #[trigger] scalars@[q] == zero,
            decreases np - jz,
        {
            scalars.push(zero);
            jz = jz + 1;
        }
        let mut max_bits: usize = 0;
        let mut jm: usize = 0;
        while jm < np
            invariant
                jm <= np,
                np == parts@.len(),
                forall|q: int|
                    0 <= q < jm as int ==> (#[trigger] parts@[q]).scalar_bits@.len()
                        <= max_bits as int,
                max_bits as int == max_bits_of(parts@.subrange(0, jm as int)),
            decreases np - jm,
        {
            proof {
                assert(parts@.subrange(0, jm + 1).drop_last() =~= parts@.subrange(0, jm as int));
            }
            if parts[jm].scalar_bits.len() > max_bits {
                max_bits = parts[jm].scalar_bits.len();
            }
            jm = jm + 1;
        }
        proof {
            assert(parts@.subrange(0, np as int) =~= parts@);
        }
        let ghost b2 = self@;
        proof {
            lemma_extends_trans(b0, b1, b2);
            assert forall|j: int| 0 <= j < np as int implies scalar_forced(
                self@,
                parts_bits(parts@),
                #[trigger] scalars@[j],
                parts@[j].scalar_bits@,
                max_bits as int,
            ) by {
                assert(scalars@[j] == zero);
                assert forall|w: Map<Target, int>|
                    #[trigger] satisfies(self@, w) && msm_bits_contained(w, parts_bits(parts@)) implies w
                    .contains_key(zero) && w[zero] == scalar_val_from(
                    w,
                    parts@[j].scalar_bits@,
                    max_bits as int,
                ) by {}
            }
        }
        proof {
            assert(extends(b1, self@));
            assert(target_valid(b1, acc.x));
            assert(target_valid(b1, acc.y));
            lemma_target_valid_mono(b1, self@, acc.x);
            lemma_target_valid_mono(b1, self@, acc.y);
            assert(target_valid(self@, acc.x));
            assert(target_near(self@, acc.x));
        }
        let mut rem: usize = max_bits;
        while rem > 0
            invariant
                self.wf(),
                rem <= max_bits,
                np == parts@.len(),
                extends(b0, self@),
                scalars@.len() == np as int,
                forall|q: int| 0 <= q < np as int ==> target_valid(self@, #[trigger] scalars@[q]),
                target_near(self@, acc.x),
                target_near(self@, acc.y),
                filler.wf(),
                forall|j: int|
                    0 <= j < np as int ==> target_valid(self@, (#[trigger] parts@[j]).addend.x)
                        && target_valid(self@, parts@[j].addend.y),
                forall|j: int, q: int|
                    0 <= j < np as int && 0 <= q < parts@[j].scalar_bits@.len() ==> target_valid(
                        self@,
                        #[trigger] parts@[j].scalar_bits@[q],
                    ),
                forall|q: int|
                    0 <= q < np as int ==> (#[trigger] parts@[q]).scalar_bits@.len()
                        <= max_bits as int,
                max_bits as int == max_bits_of(parts@),
                chain.len() == max_bits - rem + 1,
                chain.last() == filler,
                chain[0].wf() && !chain[0].zero && chain[0].x.as_int() == 1 && chain[0].y.as_int()
                    == 2,
                crate::curve::dbl_chain(chain),
                forall|j: int|
                    0 <= j < np as int ==> scalar_forced(
                        self@,
                        parts_bits(parts@),
                        #[trigger] scalars@[j],
                        parts@[j].scalar_bits@,
                        rem as int,
                    ),
            decreases rem,
        {
            let bit_pos = rem - 1;
            // Double the shared accumulator before this bit's additions.
            let ghost b_dbl = self@;
            let idx_dbl = self.num_gates();
            self.add_gate(GateKind::CurveDbl, Vec::new());
            let ghost b_dbl2 = self@;
            self.copy(acc.x, Target::Wire(Wire { gate: idx_dbl, input: 0 }));
            let ghost b_dbl3 = self@;
            self.copy(acc.y, Target::Wire(Wire { gate: idx_dbl, input: 1 }));
            acc = AffinePointTarget {
                x: Target::Wire(Wire { gate: idx_dbl, input: 2 }),
                y: Target::Wire(Wire { gate: idx_dbl, input: 3 }),
            };
            // Also double the filler, so its repeatedly doubled copy can be
            // subtracted out at the end.
            filler = filler.double();
            proof {
                crate::curve::lemma_dbl_chain_push(chain, filler);
                chain = chain.push(filler);
                lemma_extends_trans(b_dbl, b_dbl2, b_dbl3);
                lemma_extends_trans(b_dbl, b_dbl3, self@);
                lemma_extends_trans(b0, b_dbl, self@);
                assert forall|jj: int| 0 <= jj < np as int implies scalar_forced(
                    self@,
                    parts_bits(parts@),
                    #[trigger] scalars@[jj],
                    parts@[jj].scalar_bits@,
                    rem as int,
                ) by {
                    lemma_scalar_forced_mono(
                        b_dbl,
                        self@,
                        parts_bits(parts@),
                        scalars@[jj],
                        parts@[jj].scalar_bits@,
                        rem as int,
                    );
                }
            }
            let ghost b_iter = self@;
            // One conditional addition per part with a bit at this position;
            // each gate hands the accumulator on to the next.
            let mut j: usize = 0;
            while j < np
                invariant
                    self.wf(),
                    j <= np,
                    np == parts@.len(),
                    bit_pos as int == rem - 1,
                    rem <= max_bits,
                    extends(b_iter, self@),
                    scalars@.len() == np as int,
                    target_near(self@, acc.x),
                    target_near(self@, acc.y),
                    forall|q: int|
                        0 <= q < np as int ==> target_valid(self@, #[trigger] scalars@[q]),
                    forall|jj: int|
                        0 <= jj < np as int ==> target_valid(
                            self@,
                            (#[trigger] parts@[jj]).addend.x,
                        ) && target_valid(self@, parts@[jj].addend.y),
                    forall|jj: int, q: int|
                        0 <= jj < np as int && 0 <= q < parts@[jj].scalar_bits@.len()
                            ==> target_valid(self@, #[trigger] parts@[jj].scalar_bits@[q]),
                    forall|jj: int|
                        j as int <= jj < np as int ==> scalar_forced(
                            self@,
                            parts_bits(parts@),
                            #[trigger] scalars@[jj],
                            parts@[jj].scalar_bits@,
                            rem as int,
                        ),
                    forall|jj: int|
                        0 <= jj < j as int ==> scalar_forced(
                            self@,
                            parts_bits(parts@),
                            #[trigger] scalars@[jj],
                            parts@[jj].scalar_bits@,
                            bit_pos as int,
                        ),
                decreases np - j,
            {
                let ghost bl = self@;
                let ghost old_scalar = scalars@[j as int];
                if bit_pos < parts[j].scalar_bits.len() {
                    let bit = parts[j].scalar_bits[bit_pos];
                    let idx_add = self.num_gates();
                    self.add_gate(GateKind::CurveAdd, Vec::new());
                    let ghost c0 = self@;
                    self.copy(acc.x, Target::Wire(Wire { gate: idx_add, input: 0 }));
                    let ghost c0b = self@;
                    self.copy(acc.y, Target::Wire(Wire { gate: idx_add, input: 1 }));
                    let ghost c1 = self@;
                    self.copy(scalars[j], Target::Wire(Wire { gate: idx_add, input: 2 }));
                    let ghost c2 = self@;
                    self.copy(parts[j].addend.x, Target::Wire(Wire { gate: idx_add, input: 4 }));
                    let ghost c3 = self@;
                    self.copy(parts[j].addend.y, Target::Wire(Wire { gate: idx_add, input: 5 }));
                    let ghost c4 = self@;
                    self.copy(bit, Target::Wire(Wire { gate: idx_add, input: 6 }));
                    let new_scalar = Target::Wire(Wire { gate: idx_add, input: 3 });
                    scalars[j] = new_scalar;
                    let next_gate = self.num_gates();
                    acc = AffinePointTarget {
                        x: Target::Wire(Wire { gate: next_gate, input: 0 }),
                        y: Target::Wire(Wire { gate: next_gate, input: 1 }),
                    };
                    proof {
                        let post = self@;
                        lemma_extends_trans(bl, c0, c0b);
                        lemma_extends_trans(bl, c0b, c1);
                        lemma_extends_trans(bl, c1, c2);
                        lemma_extends_trans(bl, c2, c3);
                        lemma_extends_trans(bl, c3, c4);
                        lemma_extends_trans(bl, c4, post);
                        lemma_extends_trans(b_iter, bl, post);
                        let ga = idx_add as int;
                        let ka = bl.generators.len() as int;
                        assert(post.generators[ka] == GenView::Gate {
                            index: ga,
                            kind: GateKind::CurveAdd,
                        });
                        let cc = c1.copy_constraints.len() as int;
                        assert(post.copy_constraints[cc] == (old_scalar, wire_ti(ga, 2)));
                        assert(post.copy_constraints[cc + 3] == (
                            parts@[j as int].scalar_bits@[bit_pos as int],
                            wire_ti(ga, 6),
                        ));
                        assert forall|w: Map<Target, int>|
                            #[trigger] satisfies(post, w) && msm_bits_contained(w, parts_bits(parts@))
                            implies w.contains_key(new_scalar) && w[new_scalar]
                            == scalar_val_from(
                            w,
                            parts@[j as int].scalar_bits@,
                            bit_pos as int,
                        ) by {
                            lemma_satisfies_extends(bl, post, w);
                            assert(w.contains_key(old_scalar) && w[old_scalar]
                                == scalar_val_from(
                                w,
                                parts@[j as int].scalar_bits@,
                                rem as int,
                            ));
                            assert(constraint_ok(post.copy_constraints[cc], w));
                            assert(constraint_ok(post.copy_constraints[cc + 3], w));
                            assert(gen_holds(post.generators[ka], post.gate_constants, w));
                            lemma_parts_bits(parts@);
                            assert(w.contains_key(
                                parts@[j as int].scalar_bits@[bit_pos as int],
                            ));
                        }
                        assert forall|jj: int|
                            0 <= jj < np as int && jj != j as int implies scalar_forced(
                            post,
                            parts_bits(parts@),
                            #[trigger] scalars@[jj],
                            parts@[jj].scalar_bits@,
                            if jj < j as int {
                                bit_pos as int
                            } else {
                                rem as int
                            },
                        ) by {
                            if jj < j as int {
                                lemma_scalar_forced_mono(
                                    bl,
                                    post,
                                    parts_bits(parts@),
                                    scalars@[jj],
                                    parts@[jj].scalar_bits@,
                                    bit_pos as int,
                                );
                            } else {
                                lemma_scalar_forced_mono(
                                    bl,
                                    post,
                                    parts_bits(parts@),
                                    scalars@[jj],
                                    parts@[jj].scalar_bits@,
                                    rem as int,
                                );
                            }
                        }
                    }
                } else {
                    proof {
                        assert forall|w: Map<Target, int>|
                            #[trigger] satisfies(self@, w) && msm_bits_contained(w, parts_bits(parts@))
                            implies w.contains_key(scalars@[j as int]) && w[scalars@[j as int]]
                            == scalar_val_from(
                            w,
                            parts@[j as int].scalar_bits@,
                            bit_pos as int,
                        ) by {
                            assert(w.contains_key(old_scalar) && w[old_scalar]
                                == scalar_val_from(
                                w,
                                parts@[j as int].scalar_bits@,
                                rem as int,
                            ));
                        }
                    }
                }
                j = j + 1;
            }
            rem = bit_pos;
        }
        // Re-expose the accumulator on a live gate before the subtraction.
        let ghost b_buf = self@;
        self.add_gate(GateKind::Buffer, Vec::new());
        proof {
            lemma_extends_trans(b0, b_buf, self@);
            assert forall|jj: int| 0 <= jj < np as int implies scalar_forced(
                self@,
                parts_bits(parts@),
                #[trigger] scalars@[jj],
                parts@[jj].scalar_bits@,
                0,
            ) by {
                lemma_scalar_forced_mono(
                    b_buf,
                    self@,
                    parts_bits(parts@),
                    scalars@[jj],
                    parts@[jj].scalar_bits@,
                    0,
                );
            }
        }
        // Subtract the repeatedly doubled copy of the seed point.
        proof {
            assert(crate::curve::base_dbl_chain(chain, max_bits_of(parts@)));
        }
        if filler.zero {
            return Err(CircuitError::DegenerateBasePoint);
        }
        let ghost b_end = self@;
        let filler_target = self.constant_affine_point(filler);
        let ghost b_end2 = self@;
        proof {
            assert(target_valid(self@, acc.x));
            assert(target_valid(self@, acc.y));
        }
        let sum = self.curve_sub(acc, filler_target);
        proof {
            lemma_extends_trans(b_end, b_end2, self@);
            lemma_extends_trans(b0, b_end, self@);
            assert forall|jj: int| 0 <= jj < np as int implies scalar_forced(
                self@,
                parts_bits(parts@),
                #[trigger] scalars@[jj],
                parts@[jj].scalar_bits@,
                0,
            ) by {
                lemma_scalar_forced_mono(
                    b_end,
                    self@,
                    parts_bits(parts@),
                    scalars@[jj],
                    parts@[jj].scalar_bits@,
                    0,
                );
            }
        }
        Ok(MsmResult { sum, scalars })
    }

    /// Fixed-base multi-scalar multiplication: each constant addend is
    /// materialized as a constant point target and the variable-base
    /// routine does the rest.
    pub fn curve_msm_fixed_base(&mut self, parts: &[FixedBaseMsmPart]) -> (r: Result<
        MsmResult,
        CircuitError,
    >)
        requires
            old(self).wf(),
            parts@.len() > 0,
            forall|j: int|
                0 <= j < parts@.len() ==> (#[trigger] parts@[j]).addend.wf()
                    && !parts@[j].addend.zero,
            forall|j: int, q: int|
                0 <= j < parts@.len() && 0 <= q < parts@[j].scalar_bits@.len() ==> target_valid(
                    old(self)@,
                    #[trigger] parts@[j].scalar_bits@[q],
                ),
        ensures
            final(self).wf(),
            extends(old(self)@, final(self)@),
            (r matches Ok(res) ==> {
                &&& res.scalars@.len() == parts@.len()
                &&& target_valid(final(self)@, res.sum.x)
                &&& target_valid(final(self)@, res.sum.y)
                &&& forall|j: int|
                    0 <= j < parts@.len() ==> scalar_forced(
                        final(self)@,
                        fixed_parts_bits(parts@),
                        #[trigger] res.scalars@[j],
                        parts@[j].scalar_bits@,
                        0,
                    )
                &&& (exists|chain: Seq<AffinePoint>|
                    crate::curve::base_dbl_chain(chain, fixed_max_bits_of(parts@))
                        && !(#[trigger] chain.last()).zero)
            }),
            (r matches Err(e) ==> e == CircuitError::DegenerateBasePoint && (exists|
                chain: Seq<AffinePoint>,
            |
                crate::curve::base_dbl_chain(chain, fixed_max_bits_of(parts@)) && (
                #[trigger] chain.last()).zero)),
    {
        let ghost b0 = self@;
        let np = parts.len();
        let mut variable_parts: Vec<MsmPart> = Vec::new();
        let mut j: usize = 0;
        while j < np
            invariant
                self.wf(),
                j <= np,
                np == parts@.len(),
                extends(b0, self@),
                forall|q: int|
                    0 <= q < np as int ==> (#[trigger] parts@[q]).addend.wf()
                        && !parts@[q].addend.zero,
                forall|q: int, p: int|
                    0 <= q < np as int && 0 <= p < parts@[q].scalar_bits@.len() ==> target_valid(
                        b0,
                        #[trigger] parts@[q].scalar_bits@[p],
                    ),
                variable_parts@.len() == j as int,
                forall|q: int|
                    0 <= q < j as int ==> (#[trigger] variable_parts@[q]).scalar_bits@ == parts@[
                        q
                    ].scalar_bits@,
                forall|q: int|
                    0 <= q < j as int ==> target_valid(
                        self@,
                        (#[trigger] variable_parts@[q]).addend.x,
                    ) && target_valid(self@, variable_parts@[q].addend.y),
                forall|q: int, p: int|
                    0 <= q < j as int && 0 <= p < variable_parts@[q].scalar_bits@.len()
                        ==> target_valid(self@, #[trigger] variable_parts@[q].scalar_bits@[p]),
            decreases np - j,
        {
            let ghost bl = self@;
            let scalar_bits = copy_targets(&parts[j].scalar_bits);
            let addend = self.constant_affine_point(parts[j].addend);
            proof {
                assert forall|q: int|
                    0 <= q < j as int implies target_valid(
                    self@,
                    (#[trigger] variable_parts@[q]).addend.x,
                ) && target_valid(self@, variable_parts@[q].addend.y) by {
                    lemma_target_valid_mono(bl, self@, variable_parts@[q].addend.x);
                    lemma_target_valid_mono(bl, self@, variable_parts@[q].addend.y);
                }
                assert forall|q: int, p: int|
                    0 <= q < j + 1 && 0 <= p < variable_parts@.push(
                        MsmPart { scalar_bits, addend },
                    )[q].scalar_bits@.len() implies target_valid(
                    self@,
                    #[trigger] variable_parts@.push(
                        MsmPart { scalar_bits, addend },
                    )[q].scalar_bits@[p],
                ) by {
                    if q < j as int {
                        lemma_target_valid_mono(bl, self@, variable_parts@[q].scalar_bits@[p]);
                    } else {
                        lemma_target_valid_mono(b0, self@, parts@[q].scalar_bits@[p]);
                    }
                }
                lemma_extends_trans(b0, bl, self@);
            }
            variable_parts.push(MsmPart { scalar_bits, addend });
            j = j + 1;
        }
        proof {
            lemma_parts_bits(variable_parts@);
            lemma_fixed_parts_bits(parts@);
            assert(parts_bits(variable_parts@) =~= fixed_parts_bits(parts@));
            assert forall|q: int| 0 <= q < np as int implies (
            #[trigger] variable_parts@[q]).scalar_bits@.len() == parts@[q].scalar_bits@.len() by {
                assert(variable_parts@[q].scalar_bits@ == parts@[q].scalar_bits@);
            }
            lemma_max_bits_eq(variable_parts@, parts@);
        }
        let r = self.curve_msm(variable_parts.as_slice());
        proof {
            match &r {
                Ok(res) => {
                    assert forall|q: int| 0 <= q < parts@.len() implies scalar_forced(
                        self@,
                        fixed_parts_bits(parts@),
                        #[trigger] res.scalars@[q],
                        parts@[q].scalar_bits@,
                        0,
                    ) by {
                        assert(scalar_forced(
                            self@,
                            parts_bits(variable_parts@),
                            res.scalars@[q],
                            variable_parts@[q].scalar_bits@,
                            0,
                        ));
                        assert(variable_parts@[q].scalar_bits@ == parts@[q].scalar_bits@);
                    }
                },
                Err(_) => {},
            }
        }
        r
    }
}

impl CircuitBuilder {
    /// Endomorphism-accelerated multi-scalar multiplication for 128-bit
    /// scalars, processed two bits at a time with the same double-and-add
    /// skeleton: per pair, the high bit selects the endomorphism image of
    /// the addend (its x-coordinate scaled by `ZETA`), the low bit selects
    /// the sign of its y-coordinate, and the adjusted addend is added
    /// unconditionally. Beside each nominal bit-weighted scalar, the scalar
    /// the point was actually multiplied by is accumulated from the
    /// per-pair factors. Scalars of any other length are a programming
    /// error, ruled out by the precondition.
    #[verifier::rlimit(100)]
    pub fn curve_msm_endo(&mut self, parts: &[MsmPart]) -> (r: Result<MsmEndoResult, CircuitError>)
        requires
            old(self).wf(),
            parts@.len() > 0,
            forall|j: int|
                0 <= j < parts@.len() ==> target_valid(old(self)@, (#[trigger] parts@[j]).addend.x)
                    && target_valid(old(self)@, parts@[j].addend.y),
            forall|j: int| 0 <= j < parts@.len() ==> (#[trigger] parts@[j]).scalar_bits@.len() == 128,
            forall|j: int, q: int|
                0 <= j < parts@.len() && 0 <= q < parts@[j].scalar_bits@.len() ==> target_valid(
                    old(self)@,
                    #[trigger] parts@[j].scalar_bits@[q],
                ),
        ensures
            final(self).wf(),
            extends(old(self)@, final(self)@),
            (r matches Ok(res) ==> {
                &&& res.msm_result.scalars@.len() == parts@.len()
                &&& res.actual_scalars@.len() == parts@.len()
                &&& target_valid(final(self)@, res.msm_result.sum.x)
                &&& target_valid(final(self)@, res.msm_result.sum.y)
                &&& forall|j: int|
                    0 <= j < parts@.len() ==> target_valid(
                        final(self)@,
                        #[trigger] res.msm_result.scalars@[j],
                    ) && target_valid(final(self)@, res.actual_scalars@[j])
                &&& forall|j: int|
                    0 <= j < parts@.len() ==> scalar_forced(
                        final(self)@,
                        parts_bits(parts@),
                        #[trigger] res.msm_result.scalars@[j],
                        parts@[j].scalar_bits@,
                        0,
                    )
            }),
    {
        let ghost b0 = self@;
        let np = parts.len();
        let zeta = self.constant_wire(Field::from_canonical_u64(crate::curve::ZETA));
        let one = self.one_wire();
        // Seed clear of the base points' endomorphism images and inverses.
        let g = AffinePoint::generator_affine();
        let mut filler = g.double().add(&g);
        if filler.zero {
            return Err(CircuitError::DegenerateBasePoint);
        }
        let mut acc = self.constant_affine_point(filler);
        let zero = self.zero_wire();
        let mut scalars: Vec<Target> = Vec::new();
        let mut actual_scalars: Vec<Target> = Vec::new();
        let mut jz: usize = 0;
        while jz < np
            invariant
                jz <= np,
                self.wf(),
                target_valid(self@, zero),
                scalars@.len() == jz as int,
                actual_scalars@.len() == jz as int,
                forall|q: int| 0 <= q < jz as int ==> #[trigger] scalars@[q] == zero,
                forall|q: int| 0 <= q < jz as int ==> #[trigger] actual_scalars@[q] == zero,
            decreases np - jz,
        {
            scalars.push(zero);
            actual_scalars.push(zero);
            jz = jz + 1;
        }
        let ghost b2 = self@;
        proof {
            lemma_extends_trans(b0, b2, self@);
            assert forall|j: int| 0 <= j < np as int implies scalar_forced(
                self@,
                parts_bits(parts@),
                #[trigger] scalars@[j],
                parts@[j].scalar_bits@,
                128,
            ) by {
                assert(scalars@[j] == zero);
                assert forall|w: Map<Target, int>|
                    #[trigger] satisfies(self@, w) && msm_bits_contained(w, parts_bits(parts@))
                    implies w.contains_key(zero) && w[zero] == scalar_val_from(
                    w,
                    parts@[j].scalar_bits@,
                    128,
                ) by {}
            }
        }
        let mut pair: usize = 64;
        while pair > 0
            invariant
                self.wf(),
                pair <= 64,
                np == parts@.len(),
                extends(b0, self@),
                target_valid(self@, zeta),
                target_valid(self@, one),
                target_valid(self@, acc.x),
                target_valid(self@, acc.y),
                filler.wf(),
                scalars@.len() == np as int,
                actual_scalars@.len() == np as int,
                forall|q: int| 0 <= q < np as int ==> target_valid(self@, #[trigger] scalars@[q]),
                forall|q: int|
                    0 <= q < np as int ==> target_valid(self@, #[trigger] actual_scalars@[q]),
                forall|j: int|
                    0 <= j < np as int ==> target_valid(self@, (#[trigger] parts@[j]).addend.x)
                        && target_valid(self@, parts@[j].addend.y),
                forall|j: int| 0 <= j < np as int ==> (#[trigger] parts@[j]).scalar_bits@.len() == 128,
                forall|j: int, q: int|
                    0 <= j < np as int && 0 <= q < parts@[j].scalar_bits@.len() ==> target_valid(
                        self@,
                        #[trigger] parts@[j].scalar_bits@[q],
                    ),
                forall|j: int|
                    0 <= j < np as int ==> scalar_forced(
                        self@,
                        parts_bits(parts@),
                        #[trigger] scalars@[j],
                        parts@[j].scalar_bits@,
                        2 * (pair as int),
                    ),
            decreases pair,
        {
            pair = pair - 1;
            let mut j: usize = 0;
            while j < np
                invariant
                    self.wf(),
                    j <= np,
                    pair < 64,
                    np == parts@.len(),
                    extends(b0, self@),
                    target_valid(self@, zeta),
                    target_valid(self@, one),
                    target_valid(self@, acc.x),
                    target_valid(self@, acc.y),
                    scalars@.len() == np as int,
                    actual_scalars@.len() == np as int,
                    forall|q: int|
                        0 <= q < np as int ==> target_valid(self@, #[trigger] scalars@[q]),
                    forall|q: int|
                        0 <= q < np as int ==> target_valid(self@, #[trigger] actual_scalars@[q]),
                    forall|jj: int|
                        0 <= jj < np as int ==> target_valid(
                            self@,
                            (#[trigger] parts@[jj]).addend.x,
                        ) && target_valid(self@, parts@[jj].addend.y),
                    forall|jj: int|
                        0 <= jj < np as int ==> (#[trigger] parts@[jj]).scalar_bits@.len() == 128,
                    forall|jj: int, q: int|
                        0 <= jj < np as int && 0 <= q < parts@[jj].scalar_bits@.len()
                            ==> target_valid(self@, #[trigger] parts@[jj].scalar_bits@[q]),
                    forall|jj: int|
                        j as int <= jj < np as int ==> scalar_forced(
                            self@,
                            parts_bits(parts@),
                            #[trigger] scalars@[jj],
                            parts@[jj].scalar_bits@,
                            2 * (pair as int) + 2,
                        ),
                    forall|jj: int|
                        0 <= jj < j as int ==> scalar_forced(
                            self@,
                            parts_bits(parts@),
                            #[trigger] scalars@[jj],
                            parts@[jj].scalar_bits@,
                            2 * (pair as int),
                        ),
                decreases np - j,
            {
                let ghost bl = self@;
                let ghost old_scalar = scalars@[j as int];
                let b_hi = parts[j].scalar_bits[2 * pair + 1];
                let b_lo = parts[j].scalar_bits[2 * pair];
                // Nominal scalar: both bits in, most significant first.
                let d1 = self.double(scalars[j]);
                let ghost c1 = self@;
                let s1 = self.add(d1, b_hi);
                let ghost c2 = self@;
                let d2 = self.double(s1);
                let ghost c3 = self@;
                let s2 = self.add(d2, b_lo);
                let ghost c4 = self@;
                scalars[j] = s2;
                proof {
                    lemma_extends_trans(bl, c1, c2);
                    lemma_extends_trans(bl, c2, c3);
                    lemma_extends_trans(bl, c3, c4);
                    assert forall|w: Map<Target, int>|
                        #[trigger] satisfies(c4, w) && msm_bits_contained(w, parts_bits(parts@))
                        implies w.contains_key(s2) && w[s2] == scalar_val_from(
                        w,
                        parts@[j as int].scalar_bits@,
                        2 * (pair as int),
                    ) by {
                        lemma_satisfies_extends(c3, c4, w);
                        lemma_satisfies_extends(c2, c3, w);
                        lemma_satisfies_extends(c1, c2, w);
                        lemma_satisfies_extends(bl, c1, w);
                        lemma_parts_bits(parts@);
                        let bits = parts@[j as int].scalar_bits@;
                        assert(parts_bits(parts@)[j as int] == bits);
                        assert(w.contains_key(parts_bits(parts@)[j as int][2 * (pair as int)
                            + 1]));
                        assert(w.contains_key(parts_bits(parts@)[j as int][2 * (pair as int)]));
                        assert(w.contains_key(bits[2 * (pair as int) + 1]) && w.contains_key(
                            bits[2 * (pair as int)],
                        ));
                        assert(w.contains_key(old_scalar) && w[old_scalar] == scalar_val_from(
                            w,
                            bits,
                            2 * (pair as int) + 2,
                        ));
                        assert(w.contains_key(d1) && w[d1] == fadd(w[old_scalar], w[old_scalar]));
                        assert(w.contains_key(s1) && w[s1] == fadd(w[d1], w[b_hi]));
                        assert(w.contains_key(d2) && w[d2] == fadd(w[s1], w[s1]));
                        assert(w.contains_key(s2) && w[s2] == fadd(w[d2], w[b_lo]));
                        assert(fadd(w[old_scalar], w[old_scalar]) == fmul(2, w[old_scalar]));
                        assert(fadd(w[s1], w[s1]) == fmul(2, w[s1]));
                        assert(w[s1] == scalar_val_from(w, bits, 2 * (pair as int) + 1));
                    }
                }
                // The addend, endomorphism-mapped when the high bit is set.
                let zx = self.mul(zeta, parts[j].addend.x);
                let dx = self.sub(zx, parts[j].addend.x);
                let sx = self.mul_add(b_hi, dx, parts[j].addend.x);
                // The sign factor `2 * b_lo - 1`.
                let tb = self.double(b_lo);
                let sign = self.sub(tb, one);
                let sy = self.mul(parts[j].addend.y, sign);
                acc = self.curve_add(acc, AffinePointTarget { x: sx, y: sy });
                // Actual scalar: the per-pair factor
                // `(b_hi ? ZETA : 1) * (2 * b_lo - 1)` accumulated.
                let zd = self.sub(zeta, one);
                let zfac = self.mul_add(b_hi, zd, one);
                let pair_factor = self.mul(zfac, sign);
                let da = self.double(actual_scalars[j]);
                let sa = self.add(da, pair_factor);
                actual_scalars[j] = sa;
                proof {
                    lemma_extends_trans(bl, c4, self@);
                    lemma_extends_trans(b0, bl, self@);
                    assert forall|q: int|
                        0 <= q < np as int implies target_valid(self@, #[trigger] scalars@[q])
                        && target_valid(self@, actual_scalars@[q]) by {
                        if q != j as int {
                            lemma_target_valid_mono(bl, self@, scalars@[q]);
                            lemma_target_valid_mono(bl, self@, actual_scalars@[q]);
                        } else {
                            lemma_target_valid_mono(c4, self@, scalars@[q]);
                        }
                    }
                    assert forall|jj: int|
                        0 <= jj < np as int implies scalar_forced(
                        self@,
                        parts_bits(parts@),
                        #[trigger] scalars@[jj],
                        parts@[jj].scalar_bits@,
                        if jj <= j as int {
                            2 * (pair as int)
                        } else {
                            2 * (pair as int) + 2
                        },
                    ) by {
                        if jj == j as int {
                            lemma_scalar_forced_mono(
                                c4,
                                self@,
                                parts_bits(parts@),
                                scalars@[jj],
                                parts@[jj].scalar_bits@,
                                2 * (pair as int),
                            );
                        } else if jj < j as int {
                            lemma_scalar_forced_mono(
                                bl,
                                self@,
                                parts_bits(parts@),
                                scalars@[jj],
                                parts@[jj].scalar_bits@,
                                2 * (pair as int),
                            );
                        } else {
                            lemma_scalar_forced_mono(
                                bl,
                                self@,
                                parts_bits(parts@),
                                scalars@[jj],
                                parts@[jj].scalar_bits@,
                                2 * (pair as int) + 2,
                            );
                        }
                    }
                }
                j = j + 1;
            }
            let ghost bd = self@;
            acc = self.curve_double(acc);
            filler = filler.double();
            proof {
                lemma_extends_trans(b0, bd, self@);
                assert forall|jj: int| 0 <= jj < np as int implies scalar_forced(
                    self@,
                    parts_bits(parts@),
                    #[trigger] scalars@[jj],
                    parts@[jj].scalar_bits@,
                    2 * (pair as int),
                ) by {
                    lemma_scalar_forced_mono(
                        bd,
                        self@,
                        parts_bits(parts@),
                        scalars@[jj],
                        parts@[jj].scalar_bits@,
                        2 * (pair as int),
                    );
                }
            }
        }
        if filler.zero {
            return Err(CircuitError::DegenerateBasePoint);
        }
        let ghost be = self@;
        let filler_target = self.constant_affine_point(filler);
        let ghost be2 = self@;
        let sum = self.curve_sub(acc, filler_target);
        proof {
            lemma_extends_trans(be, be2, self@);
            lemma_extends_trans(b0, be, self@);
            assert forall|jj: int| 0 <= jj < np as int implies scalar_forced(
                self@,
                parts_bits(parts@),
                #[trigger] scalars@[jj],
                parts@[jj].scalar_bits@,
                0,
            ) by {
                lemma_scalar_forced_mono(
                    be,
                    self@,
                    parts_bits(parts@),
                    scalars@[jj],
                    parts@[jj].scalar_bits@,
                    0,
                );
            }
        }
        Ok(MsmEndoResult {
            msm_result: MsmResult { sum, scalars },
            actual_scalars,
        })
    }
}
} // verus!
