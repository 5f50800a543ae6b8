//! Witness containers: a write-once partial assignment from targets to field
//! values, and the finished dense assignment with one value row per gate.

use vstd::prelude::*;

verus! {

use crate::field::{fwf, Field};
use crate::target::{Target, Wire, NUM_WIRES};

/// The mapping described by an association list: later entries shadow
/// earlier ones (the well-formedness invariant rules shadowing out).
pub closed spec fn assoc_map(s: Seq<(Target, Field)>) -> Map<Target, int>
    decreases s.len(),
{
    if s.len() == 0 {
        Map::empty()
    } else {
        assoc_map(s.drop_last()).insert(s.last().0, s.last().1.as_int())
    }
}

/// Keys are pairwise distinct and every stored value is canonical.
pub closed spec fn assoc_wf(s: Seq<(Target, Field)>) -> bool {
    &&& forall|i: int, j: int|
        0 <= i < j < s.len() ==> (#[trigger] s[i]).0 != (#[trigger] s[j]).0
    &&& forall|i: int| 0 <= i < s.len() ==> (#[trigger] s[i]).1.wf()
}

proof fn lemma_assoc_absent(s: Seq<(Target, Field)>, t: Target)
    requires
        forall|i: int| 0 <= i < s.len() ==> (#[trigger] s[i]).0 != t,
    ensures
        !assoc_map(s).contains_key(t),
    decreases s.len(),
{
    if s.len() > 0 {
        lemma_assoc_absent(s.drop_last(), t);
    }
}

proof fn lemma_assoc_lookup(s: Seq<(Target, Field)>, j: int)
    requires
        assoc_wf(s),
        0 <= j < s.len(),
    ensures
        assoc_map(s).contains_key(s[j].0),
        assoc_map(s)[s[j].0] == s[j].1.as_int(),
    decreases s.len(),
{
    if j == s.len() - 1 {
    } else {
        lemma_assoc_lookup(s.drop_last(), j);
    }
}

proof fn lemma_assoc_dom(s: Seq<(Target, Field)>, t: Target)
    requires
        assoc_map(s).contains_key(t),
    ensures
        exists|i: int| 0 <= i < s.len() && (#[trigger] s[i]).0 == t,
    decreases s.len(),
{
    if s.len() > 0 && s.last().0 != t {
        lemma_assoc_dom(s.drop_last(), t);
        let i = choose|i: int| 0 <= i < s.drop_last().len() && (#[trigger] s.drop_last()[i]).0 == t;
        assert(s[i].0 == t);
    }
}

proof fn lemma_assoc_values_wf(s: Seq<(Target, Field)>, t: Target)
    requires
        assoc_wf(s),
        assoc_map(s).contains_key(t),
    ensures
        fwf(assoc_map(s)[t]),
    decreases s.len(),
{
    if s.len() > 0 && s.last().0 != t {
        lemma_assoc_values_wf(s.drop_last(), t);
    }
}

/// Every value of a well-formed partial witness is a canonical field value.
pub open spec fn witness_wf(w: Map<Target, int>) -> bool {
    forall|t: Target| w.contains_key(t) ==> fwf(#[trigger] w[t])
}

/// A write-once partial assignment from targets to field values.
pub struct PartialWitness {
    entries: Vec<(Target, Field)>,
}

impl PartialWitness {
    /// The assignment as a mathematical map.
    pub closed spec fn view(&self) -> Map<Target, int> {
        assoc_map(self.entries@)
    }

    /// Internal consistency: no duplicate targets, canonical values.
    pub closed spec fn wf(&self) -> bool {
        assoc_wf(self.entries@)
    }

    /// The empty assignment.
    pub fn new() -> (r: PartialWitness)
        ensures
            r.wf(),
            r@ == Map::<Target, int>::empty(),
    {
        PartialWitness { entries: Vec::new() }
    }

    /// Whether a target has been assigned.
    pub fn contains_target(&self, target: Target) -> (r: bool)
        requires
            self.wf(),
        ensures
            r == self@.contains_key(target),
    {
        let n = self.entries.len();
        let mut i: usize = 0;
        while i < n
            invariant
                self.wf(),
                n == self.entries@.len(),
                i <= n,
                forall|k: int| 0 <= k < i ==> (#[trigger] self.entries@[k]).0 != target,
            decreases n - i,
        {
            if self.entries[i].0 == target {
                proof {
                    lemma_assoc_lookup(self.entries@, i as int);
                }
                return true;
            }
            i = i + 1;
        }
        proof {
            lemma_assoc_absent(self.entries@, target);
        }
        false
    }

    /// The value assigned to a target. Looking up an unassigned target is a
    /// programming error, ruled out by the precondition.
    pub fn get_target(&self, target: Target) -> (r: Field)
        requires
            self.wf(),
            self@.contains_key(target),
        ensures
            r.wf(),
            r.as_int() == self@[target],
    {
        let n = self.entries.len();
        let mut i: usize = 0;
        proof {
            lemma_assoc_dom(self.entries@, target);
        }
        while i < n
            invariant
                self.wf(),
                self@.contains_key(target),
                n == self.entries@.len(),
                i <= n,
                exists|k: int| i <= k < n && (#[trigger] self.entries@[k]).0 == target,
            decreases n - i,
        {
            if self.entries[i].0 == target {
                proof {
                    lemma_assoc_lookup(self.entries@, i as int);
                }
                return self.entries[i].1;
            }
            i = i + 1;
        }
        proof {
            assert(false);
        }
        Field::zero()
    }

    /// Assign a value to a target. Each target is assigned at most once:
    /// assigning a target twice is a programming error, ruled out by the
    /// precondition.
    pub fn set_target(&mut self, target: Target, value: Field)
        requires
            old(self).wf(),
            value.wf(),
            !old(self)@.contains_key(target),
        ensures
            final(self).wf(),
            final(self)@ == old(self)@.insert(target, value.as_int()),
    {
        proof {
            let s = self.entries@;
            if exists|i: int| 0 <= i < s.len() && (#[trigger] s[i]).0 == target {
                let i = choose|i: int| 0 <= i < s.len() && (#[trigger] s[i]).0 == target;
                lemma_assoc_lookup(s, i);
                assert(false);
            }
            assert(s.push((target, value)).drop_last() =~= s);
        }
        self.entries.push((target, value));
    }

    /// Assign a value to a wire.
    pub fn set_wire(&mut self, wire: Wire, value: Field)
        requires
            old(self).wf(),
            value.wf(),
            !old(self)@.contains_key(Target::Wire(wire)),
        ensures
            final(self).wf(),
            final(self)@ == old(self)@.insert(Target::Wire(wire), value.as_int()),
    {
        self.set_target(Target::Wire(wire), value);
    }

    /// The value assigned to a wire.
    pub fn get_wire(&self, wire: Wire) -> (r: Field)
        requires
            self.wf(),
            self@.contains_key(Target::Wire(wire)),
        ensures
            r.wf(),
            r.as_int() == self@[Target::Wire(wire)],
    {
        self.get_target(Target::Wire(wire))
    }

    /// Every value held is canonical.
    pub proof fn lemma_values_wf(&self)
        requires
            self.wf(),
        ensures
            witness_wf(self@),
    {
        assert forall|t: Target| self@.contains_key(t) implies fwf(self@[t]) by {
            lemma_assoc_values_wf(self.entries@, t);
        }
    }
}

/// The finished dense assignment: one row of `NUM_WIRES` values per gate.
pub struct Witness {
    wire_values: Vec<Vec<Field>>,
}

impl Witness {
    /// The assignment as a sequence of rows of canonical representatives.
    pub closed spec fn view(&self) -> Seq<Seq<int>> {
        self.wire_values@.map(|i: int, row: Vec<Field>| row@.map(|j: int, f: Field| f.as_int()))
    }

    /// All rows are full gate rows.
    pub closed spec fn wf(&self) -> bool {
        &&& forall|i: int|
            0 <= i < self.wire_values@.len() ==> (#[trigger] self.wire_values@[i])@.len()
                == NUM_WIRES as int
        &&& forall|i: int, j: int|
            0 <= i < self.wire_values@.len() && 0 <= j < NUM_WIRES as int ==> (
            #[trigger] self.wire_values@[i]@[j]).wf()
    }

    /// Bundle fully resolved rows into a dense witness.
    pub fn from_rows(rows: Vec<Vec<Field>>) -> (r: Witness)
        requires
            forall|i: int| 0 <= i < rows@.len() ==> (#[trigger] rows@[i])@.len() == NUM_WIRES as int,
            forall|i: int, j: int|
                0 <= i < rows@.len() && 0 <= j < NUM_WIRES as int ==> (
                #[trigger] rows@[i]@[j]).wf(),
        ensures
            r.wf(),
            r@.len() == rows@.len(),
            forall|i: int, j: int|
                0 <= i < rows@.len() && 0 <= j < NUM_WIRES as int ==> r@[i][j] == (
                #[trigger] rows@[i]@[j]).as_int(),
    {
        Witness { wire_values: rows }
    }

    /// Number of gate rows.
    pub fn num_rows(&self) -> (r: usize)
        ensures
            r == self@.len(),
    {
        self.wire_values.len()
    }

    /// The value on one wire.
    pub fn get(&self, gate: usize, input: usize) -> (r: Field)
        requires
            self.wf(),
            gate < self@.len(),
            input < NUM_WIRES,
        ensures
            r.wf(),
            r.as_int() == self@[gate as int][input as int],
    {
        self.wire_values[gate][input]
    }
}

} // verus!
