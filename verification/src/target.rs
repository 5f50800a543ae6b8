//! The addressable units of the circuit: wires (a slot of a concrete gate)
//! and virtual targets (routing-only placeholders), together with the
//! public-input addressing convention.

use vstd::prelude::*;

verus! {

/// Total number of wire slots per gate.
pub const NUM_WIRES: usize = 11;

/// Slots below this bound are routed: they may take part in copy constraints
/// across gates.
pub const NUM_ROUTED_WIRES: usize = 6;

/// The remaining slots are gate-local scratch space.
pub const NUM_ADVICE_WIRES: usize = 11 - 6;

/// Maximum number of gate constants per gate row (prefix included).
pub const NUM_CONSTANTS: usize = 5;

pub const GRID_WIDTH: usize = 65;

/// Degree multiplier used by the downstream constraint layer for sizing.
pub const QUOTIENT_POLYNOMIAL_DEGREE_MULTIPLIER: usize = 7;

/// A routing-only placeholder: not a witness element itself, but it can be
/// copy-constrained to wires and listed as a generator dependency.
#[derive(Copy, Clone, Eq, PartialEq, Hash, Debug, Structural)]
pub struct VirtualTarget {
    pub index: usize,
}

/// A wire in the circuit: one input/output slot of one gate.
#[derive(Copy, Clone, Eq, PartialEq, Hash, Debug, Structural)]
pub struct Wire {
    /// The index of the associated gate.
    pub gate: usize,
    /// The slot within that gate wherein this wire is inserted.
    pub input: usize,
}

/// A routing target.
#[derive(Copy, Clone, Eq, PartialEq, Hash, Debug, Structural)]
pub enum Target {
    VirtualTarget(VirtualTarget),
    Wire(Wire),
}

/// The wire at gate `g`, slot `s`, as a routing target.
pub open spec fn wire_ti(g: int, s: int) -> Target {
    Target::Wire(Wire { gate: g as usize, input: s as usize })
}

/// A staged public input, identified by its position in the staging order.
#[derive(Copy, Clone, Eq, PartialEq, Debug, Structural)]
pub struct PublicInput {
    pub index: usize,
}

impl PublicInput {
    /// The raw wire a public input occupies: public inputs are packed
    /// row-major into every second gate, `NUM_WIRES` to a gate.
    fn original_wire(&self) -> (w: Wire)
        ensures
            w.gate == (self.index / NUM_WIRES) * 2,
            w.input == self.index % NUM_WIRES,
    {
        proof {
            vstd::arithmetic::div_mod::lemma_div_is_ordered(
                self.index as int,
                usize::MAX as int,
                NUM_WIRES as int,
            );
        }
        let gate = self.index / NUM_WIRES * 2;
        let input = self.index % NUM_WIRES;
        Wire { gate, input }
    }

    /// The target through which this public input takes part in routing.
    /// A raw slot outside the routed range (`NUM_ROUTED_WIRES` and above) is
    /// re-exposed on the following gate, shifted down by `NUM_ROUTED_WIRES`.
    pub fn routable_target(&self) -> (t: Target)
        ensures
            ({
                let g = (self.index / NUM_WIRES) * 2;
                let s = self.index % NUM_WIRES;
                if s >= NUM_ROUTED_WIRES {
                    t == wire_ti(g + 1, s - NUM_ROUTED_WIRES as int)
                } else {
                    t == wire_ti(g, s as int)
                }
            }),
    {
        let w = self.original_wire();
        let mut gate = w.gate;
        let mut input = w.input;
        proof {
            vstd::arithmetic::div_mod::lemma_mod_bound(self.index as int, NUM_WIRES as int);
            vstd::arithmetic::div_mod::lemma_div_is_ordered(
                self.index as int,
                usize::MAX as int,
                NUM_WIRES as int,
            );
        }
        if input >= NUM_ROUTED_WIRES {
            gate = gate + 1;
            input = input - NUM_ROUTED_WIRES;
        }
        Target::Wire(Wire { gate, input })
    }
}

/// A pair of targets standing for an elliptic-curve point symbolically
/// within the circuit.
#[derive(Copy, Clone, Eq, PartialEq, Debug, Structural)]
pub struct AffinePointTarget {
    pub x: Target,
    pub y: Target,
}

} // verus!
