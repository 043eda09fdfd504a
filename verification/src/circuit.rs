//! Layered circuits with packed wire values, and the claims a prover carries between layers.

use vstd::arithmetic::power2::*;
use vstd::prelude::*;

use crate::engine::FieldEngine;
use crate::poly::copy_vec;

verus! {

/// A gate that adds `coef` times the product of two input wires to an output wire.
pub struct GateMul<F: FieldEngine> {
    pub o_id: usize,
    pub i_ids: [usize; 2],
    pub coef: F::CircuitField,
}

/// A gate that adds `coef` times an input wire to an output wire.
pub struct GateAdd<F: FieldEngine> {
    pub o_id: usize,
    pub i_ids: [usize; 1],
    pub coef: F::CircuitField,
}

/// What is known of the gates of a layer as a whole.
#[derive(Clone, Copy, Debug, PartialEq, Eq)]
pub struct StructureInfo {
    /// The layer has no gate of degree two, so that its second phase is not needed.
    pub skip_sumcheck_phase_two: bool,
}

/// One layer: its gates, and the values on its wires.
pub struct CircuitLayer<F: FieldEngine> {
    pub input_var_num: usize,
    pub output_var_num: usize,
    pub input_vals: Vec<F::SimdCircuitField>,
    pub output_vals: Vec<F::SimdCircuitField>,
    pub mul: Vec<GateMul<F>>,
    pub add: Vec<GateAdd<F>>,
    pub structure_info: StructureInfo,
}

/// The layers of a circuit, the one next to the inputs first.
pub struct Circuit<F: FieldEngine> {
    pub layers: Vec<CircuitLayer<F>>,
}

impl<F: FieldEngine> CircuitLayer<F> {
    /// There is one input value for each point of the input hypercube, and the gates name wires
    /// that exist.
    pub open spec fn wf(self) -> bool {
        let inputs = pow2(self.input_var_num as nat);
        let outputs = pow2(self.output_var_num as nat);
        &&& self.input_vals@.len() == inputs
        &&& forall|k: int|
            0 <= k < self.mul@.len() ==> {
                let g = #[trigger] self.mul@[k];
                g.o_id < outputs && g.i_ids@[0] < inputs && g.i_ids@[1] < inputs
            }
        &&& forall|k: int|
            0 <= k < self.add@.len() ==> {
                let g = #[trigger] self.add@[k];
                g.o_id < outputs && g.i_ids@[0] < inputs
            }
    }

    /// There is one output value for each point of the output hypercube.
    pub open spec fn has_outputs(self) -> bool {
        self.output_vals@.len() == pow2(self.output_var_num as nat)
    }

    /// The layers differ in wire values alone.
    pub open spec fn same_shape(self, other: Self) -> bool {
        &&& self.input_var_num == other.input_var_num
        &&& self.output_var_num == other.output_var_num
        &&& self.structure_info == other.structure_info
    }

    /// Checks that the layer is well formed.
    pub fn is_well_formed(&self) -> (r: bool)
        ensures
            r == self.wf(),
    {
        let inputs: usize = self.input_vals.len();
        if !is_pow2(inputs, self.input_var_num) {
            return false;
        }
        let outputs: Option<u64> = small_pow2(self.output_var_num);
        for k in 0..self.mul.len()
            invariant
                inputs == pow2(self.input_var_num as nat),
                is_small_pow2(outputs, self.output_var_num as nat),
                forall|j: int|
                    0 <= j < k ==> {
                        let g = #[trigger] self.mul@[j];
                        g.o_id < pow2(self.output_var_num as nat) && g.i_ids@[0] < inputs
                            && g.i_ids@[1] < inputs
                    },
        {
            let g = &self.mul[k];
            if !is_below(g.o_id, outputs) || g.i_ids[0] >= inputs || g.i_ids[1] >= inputs {
                return false;
            }
        }
        for k in 0..self.add.len()
            invariant
                inputs == pow2(self.input_var_num as nat),
                is_small_pow2(outputs, self.output_var_num as nat),
                forall|j: int|
                    0 <= j < k ==> {
                        let g = #[trigger] self.add@[j];
                        g.o_id < pow2(self.output_var_num as nat) && g.i_ids@[0] < inputs
                    },
        {
            let g = &self.add[k];
            if !is_below(g.o_id, outputs) || g.i_ids[0] >= inputs {
                return false;
            }
        }
        true
    }
}

/// The power of two with exponent `e`, or nothing where it does not fit in 64 bits.
spec fn is_small_pow2(limit: Option<u64>, e: nat) -> bool {
    match limit {
        Some(p) => p == pow2(e),
        None => pow2(e) > u64::MAX,
    }
}

/// Checks that an index is below a limit, where there is one.
fn is_below(id: usize, limit: Option<u64>) -> (r: bool)
    ensures
        r == (limit is Some ==> id < limit->0),
{
    match limit {
        Some(p) => (id as u64) < p,
        None => true,
    }
}

/// The power of two with exponent `e`, where it fits in 64 bits.
fn small_pow2(e: usize) -> (r: Option<u64>)
    ensures
        is_small_pow2(r, e as nat),
{
    proof {
        lemma2_to64();
        lemma2_to64_rest();
        if e > 64 {
            lemma_pow2_strictly_increases(64, e as nat);
        }
    }
    if e >= 64 {
        return None;
    }
    let mut p: u64 = 1;
    for k in 0..e
        invariant
            p == pow2(k as nat),
            e < 64,
    {
        proof {
            lemma_pow2_unfold((k + 1) as nat);
            lemma2_to64_rest();
            if k + 1 < 63 {
                lemma_pow2_strictly_increases((k + 1) as nat, 63);
            }
        }
        p = 2 * p;
    }
    Some(p)
}

/// Checks that `n` is the power of two with exponent `e`.
pub fn is_pow2(n: usize, e: usize) -> (r: bool)
    ensures
        r == (n == pow2(e as nat)),
{
    match small_pow2(e) {
        Some(p) => n as u64 == p,
        None => false,
    }
}

/// Checks that `n` is at least the power of two with exponent `e`.
pub fn is_at_least_pow2(n: usize, e: usize) -> (r: bool)
    ensures
        r == (pow2(e as nat) <= n),
{
    match small_pow2(e) {
        Some(p) => p <= n as u64,
        None => false,
    }
}

impl<F: FieldEngine> Circuit<F> {
    /// The circuit has layers, they are well formed, each takes the outputs of the one before,
    /// and the last one's outputs are there.
    pub open spec fn wf(self) -> bool {
        let layers = self.layers@;
        &&& layers.len() >= 1
        &&& forall|j: int| 0 <= j < layers.len() ==> (#[trigger] layers[j]).wf()
        &&& forall|j: int|
            0 < j < layers.len() ==> (#[trigger] layers[j]).input_var_num == layers[j
                - 1].output_var_num
        &&& layers.last().has_outputs()
    }

    /// Checks that the circuit is well formed.
    pub fn is_well_formed(&self) -> (r: bool)
        ensures
            r == self.wf(),
    {
        let n: usize = self.layers.len();
        if n == 0 {
            return false;
        }
        for k in 0..n
            invariant
                n == self.layers@.len(),
                forall|j: int| 0 <= j < k ==> (#[trigger] self.layers@[j]).wf(),
                forall|j: int|
                    0 < j < k ==> (#[trigger] self.layers@[j]).input_var_num == self.layers@[j
                        - 1].output_var_num,
        {
            if !self.layers[k].is_well_formed() {
                return false;
            }
            if k > 0 && self.layers[k].input_var_num != self.layers[k - 1].output_var_num {
                return false;
            }
        }
        let last = &self.layers[n - 1];
        is_pow2(last.output_vals.len(), last.output_var_num)
    }
}

// ---------------------------------------------------------------------------
// Claims
// ---------------------------------------------------------------------------

/// A point at which the values of a layer are claimed, split by kind of variable.
pub struct ExpanderSingleVarChallenge<F: FieldEngine> {
    pub rz: Vec<F::ChallengeField>,
    pub r_simd: Vec<F::ChallengeField>,
    pub r_mpi: Vec<F::ChallengeField>,
}

/// One or two points at which the values of a layer are claimed; they differ in the wire
/// variables alone.
pub struct ExpanderDualVarChallenge<F: FieldEngine> {
    pub rz_0: Vec<F::ChallengeField>,
    pub rz_1: Option<Vec<F::ChallengeField>>,
    pub r_simd: Vec<F::ChallengeField>,
    pub r_mpi: Vec<F::ChallengeField>,
}

/// The mathematical form of a dual challenge.
#[verifier::ext_equal]
pub struct ChallengeView<E> {
    pub rz_0: Seq<E>,
    pub rz_1: Option<Seq<E>>,
    pub r_simd: Seq<E>,
    pub r_mpi: Seq<E>,
}

impl<F: FieldEngine> View for ExpanderDualVarChallenge<F> {
    type V = ChallengeView<F::ChallengeField>;

    open spec fn view(&self) -> ChallengeView<F::ChallengeField> {
        ChallengeView {
            rz_0: self.rz_0@,
            rz_1: match self.rz_1 {
                Some(rz) => Some(rz@),
                None => None,
            },
            r_simd: self.r_simd@,
            r_mpi: self.r_mpi@,
        }
    }
}

impl<F: FieldEngine> ExpanderDualVarChallenge<F> {
    pub fn new(
        rz_0: Vec<F::ChallengeField>,
        rz_1: Option<Vec<F::ChallengeField>>,
        r_simd: Vec<F::ChallengeField>,
        r_mpi: Vec<F::ChallengeField>,
    ) -> (r: Self)
        ensures
            r.rz_0 == rz_0,
            r.rz_1 == rz_1,
            r.r_simd == r_simd,
            r.r_mpi == r_mpi,
    {
        ExpanderDualVarChallenge { rz_0, rz_1, r_simd, r_mpi }
    }

    /// The claim at one point.
    pub fn from_single(single: ExpanderSingleVarChallenge<F>) -> (r: Self)
        ensures
            r@ == (ChallengeView {
                rz_0: single.rz@,
                rz_1: None,
                r_simd: single.r_simd@,
                r_mpi: single.r_mpi@,
            }),
    {
        ExpanderDualVarChallenge {
            rz_0: single.rz,
            rz_1: None,
            r_simd: single.r_simd,
            r_mpi: single.r_mpi,
        }
    }

    /// The first of the points.
    pub fn challenge_x(&self) -> (r: ExpanderSingleVarChallenge<F>)
        ensures
            r.rz@ == self.rz_0@,
            r.r_simd@ == self.r_simd@,
            r.r_mpi@ == self.r_mpi@,
    {
        ExpanderSingleVarChallenge {
            rz: copy_vec(&self.rz_0),
            r_simd: copy_vec(&self.r_simd),
            r_mpi: copy_vec(&self.r_mpi),
        }
    }

    /// An equal challenge.
    pub fn duplicate(&self) -> (r: Self)
        ensures
            r@ == self@,
    {
        ExpanderDualVarChallenge {
            rz_0: copy_vec(&self.rz_0),
            rz_1: match &self.rz_1 {
                Some(rz) => Some(copy_vec(rz)),
                None => None,
            },
            r_simd: copy_vec(&self.r_simd),
            r_mpi: copy_vec(&self.r_mpi),
        }
    }
}

} // verus!
