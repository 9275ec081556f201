//! The bulletproof arithmetization: an R1CS gadget over the Curve25519 scalar
//! field, built as a record of multiplication gates and linear constraints
//! that a bulletproofs prover or verifier then receives in the same order.
//!
//! The record never holds a witness, so the prover's and the verifier's
//! constraint graphs are one and the same.
use crate::stark::is_pow2;
use crate::field::{dalek_add, dalek_modulus, dalek_mul, dalek_neg, DalekScalarBytes};
use crate::permutation::{
    fadd, fcube, fmul, fsub, lemma_fsub_zero, lemma_state_in_field, mimc_spec, state_after,
};
use vstd::arithmetic::div_mod::{
    lemma_add_mod_noop, lemma_mod_bound, lemma_mul_mod_noop_left, lemma_small_mod,
    lemma_sub_mod_noop,
};
use vstd::prelude::*;

verus! {

/// A variable of the constraint system.
#[derive(Clone, Copy, Debug, PartialEq, Eq)]
pub enum Variable {
    /// An input fixed by a Pedersen commitment.
    Committed(usize),
    /// The left input of a multiplication gate.
    MultiplierLeft(usize),
    /// The right input of a multiplication gate.
    MultiplierRight(usize),
    /// The output of a multiplication gate.
    MultiplierOutput(usize),
    /// The constant one.
    One,
}

/// A sum of variables, each with a scalar coefficient.
#[derive(Debug)]
pub struct LinearCombination {
    pub terms: Vec<(Variable, DalekScalarBytes)>,
}

/// Every coefficient is a canonical scalar.
pub open spec fn terms_wf(terms: Seq<(Variable, DalekScalarBytes)>) -> bool {
    forall|i: int| 0 <= i < terms.len() ==> (#[trigger] terms[i]).1.wf()
}

impl LinearCombination {
    /// The combination `1 * v`.
    pub fn from_variable(v: Variable) -> (r: LinearCombination)
        ensures
            r.terms@ == seq![(v, one_scalar())],
            terms_wf(r.terms@),
    {
        let one = DalekScalarBytes::one();
        let mut terms: Vec<(Variable, DalekScalarBytes)> = Vec::new();
        terms.push((v, one));
        assert(terms@ =~= seq![(v, one_scalar())]);
        LinearCombination { terms }
    }

    /// A copy of the combination.
    pub fn duplicate(&self) -> (r: LinearCombination)
        ensures
            r.terms@ == self.terms@,
    {
        let mut terms: Vec<(Variable, DalekScalarBytes)> = Vec::new();
        let mut i: usize = 0;
        while i < self.terms.len()
            invariant
                i <= self.terms@.len(),
                terms@ == self.terms@.take(i as int),
            decreases self.terms@.len() - i,
        {
            terms.push(self.terms[i]);
            i = i + 1;
            assert(terms@ =~= self.terms@.take(i as int));
        }
        assert(self.terms@.take(i as int) =~= self.terms@);
        LinearCombination { terms }
    }

    /// The sum of the two combinations: the terms of `self`, then those of `other`.
    pub fn append(self, other: LinearCombination) -> (r: LinearCombination)
        ensures
            r.terms@ == self.terms@ + other.terms@,
    {
        let mut terms = self.terms;
        let mut i: usize = 0;
        while i < other.terms.len()
            invariant
                i <= other.terms@.len(),
                terms@ == self.terms@ + other.terms@.take(i as int),
            decreases other.terms@.len() - i,
        {
            terms.push(other.terms[i]);
            i = i + 1;
            assert(terms@ =~= self.terms@ + other.terms@.take(i as int));
        }
        assert(other.terms@.take(i as int) =~= other.terms@);
        LinearCombination { terms }
    }
}

/// The scalar one.
pub open spec fn one_scalar() -> DalekScalarBytes {
    DalekScalarBytes { bytes: crate::field::ONE_BYTES }
}

/// The error of the R1CS backend.
#[derive(Clone, Copy, Debug, PartialEq, Eq)]
pub enum R1CSError {
    /// The generators cannot hold the padded number of multiplication gates.
    InvalidGeneratorsLength,
}

/// A variable allocated from a commitment, with the prover's value for it
/// (none on the verifier's side).
#[derive(Clone, Copy, Debug)]
pub struct AllocatedScalar {
    pub variable: Variable,
    pub assignment: Option<DalekScalarBytes>,
}

/// A variable that stands for a quantity, with the prover's value for it.
#[derive(Clone, Copy, Debug)]
pub struct AllocatedQuantity {
    pub variable: Variable,
    pub assignment: Option<u64>,
}

/// The constraint system as built so far: the multiplication gates, each with
/// the combinations that feed its left and right input, and the combinations
/// constrained to zero.
#[derive(Debug)]
pub struct ConstraintSystem {
    pub multipliers: Vec<(LinearCombination, LinearCombination)>,
    pub constraints: Vec<LinearCombination>,
}

/// A gate as the two term lists of its inputs.
pub open spec fn gate_view(m: (LinearCombination, LinearCombination)) -> (
    Seq<(Variable, DalekScalarBytes)>,
    Seq<(Variable, DalekScalarBytes)>,
) {
    (m.0.terms@, m.1.terms@)
}

impl ConstraintSystem {
    /// An empty system.
    pub fn new() -> (r: ConstraintSystem)
        ensures
            r.multipliers@.len() == 0,
            r.constraints@.len() == 0,
    {
        ConstraintSystem { multipliers: Vec::new(), constraints: Vec::new() }
    }

    /// The gates, as term lists.
    pub open spec fn gates(&self) -> Seq<
        (Seq<(Variable, DalekScalarBytes)>, Seq<(Variable, DalekScalarBytes)>),
    > {
        self.multipliers@.map_values(|m: (LinearCombination, LinearCombination)| gate_view(m))
    }

    /// The constraints, as term lists.
    pub open spec fn zero_constraints(&self) -> Seq<Seq<(Variable, DalekScalarBytes)>> {
        self.constraints@.map_values(|c: LinearCombination| c.terms@)
    }

    /// Adds a gate fed by `left` and `right`; returns its left input, right
    /// input and output variables.
    pub fn multiply(&mut self, left: LinearCombination, right: LinearCombination) -> (r: (
        Variable,
        Variable,
        Variable,
    ))
        requires
            old(self).multipliers@.len() < usize::MAX,
        ensures
            final(self).gates() == old(self).gates().push((left.terms@, right.terms@)),
            final(self).zero_constraints() == old(self).zero_constraints(),
            r == (
                Variable::MultiplierLeft(old(self).multipliers@.len() as usize),
                Variable::MultiplierRight(old(self).multipliers@.len() as usize),
                Variable::MultiplierOutput(old(self).multipliers@.len() as usize),
            ),
    {
        let i = self.multipliers.len();
        let ghost left_terms = left.terms@;
        let ghost right_terms = right.terms@;
        self.multipliers.push((left, right));
        assert(self.gates() =~= old(self).gates().push((left_terms, right_terms)));
        (Variable::MultiplierLeft(i), Variable::MultiplierRight(i), Variable::MultiplierOutput(i))
    }

    /// Constrains `lc` to be zero.
    pub fn constrain(&mut self, lc: LinearCombination)
        ensures
            final(self).gates() == old(self).gates(),
            final(self).zero_constraints() == old(self).zero_constraints().push(lc.terms@),
    {
        let ghost terms = lc.terms@;
        self.constraints.push(lc);
        assert(self.zero_constraints() =~= old(self).zero_constraints().push(terms));
    }
}

// ---------------------------------------------------------------------------
// what an assignment of the variables satisfies

/// Values for the committed inputs and for the inputs and output of each gate.
pub struct Assignment {
    pub committed: Seq<int>,
    pub left: Seq<int>,
    pub right: Seq<int>,
    pub out: Seq<int>,
}

/// The prime of the Curve25519 scalar field.
pub open spec fn modulus() -> int {
    dalek_modulus()
}

/// The value of a variable under an assignment.
pub open spec fn var_value(w: Assignment, v: Variable) -> int {
    match v {
        Variable::Committed(i) => w.committed[i as int],
        Variable::MultiplierLeft(i) => w.left[i as int],
        Variable::MultiplierRight(i) => w.right[i as int],
        Variable::MultiplierOutput(i) => w.out[i as int],
        Variable::One => 1,
    }
}

/// The value of a combination under an assignment, as an integer (not reduced).
pub open spec fn lc_value(w: Assignment, terms: Seq<(Variable, DalekScalarBytes)>) -> int
    decreases terms.len(),
{
    if terms.len() == 0 {
        0
    } else {
        lc_value(w, terms.drop_last()) + terms.last().1.value() * var_value(w, terms.last().0)
    }
}

/// The value of a combination in the field.
pub open spec fn lc_eval(w: Assignment, terms: Seq<(Variable, DalekScalarBytes)>) -> int {
    lc_value(w, terms) % modulus()
}

/// Each gate's inputs are the values of the combinations that feed them, and
/// its output is their product.
pub open spec fn gates_hold(
    gates: Seq<(Seq<(Variable, DalekScalarBytes)>, Seq<(Variable, DalekScalarBytes)>)>,
    w: Assignment,
) -> bool {
    forall|i: int|
        0 <= i < gates.len() ==> {
            &&& w.left[i] == lc_eval(w, (#[trigger] gates[i]).0)
            &&& w.right[i] == lc_eval(w, gates[i].1)
            &&& w.out[i] == fmul(modulus(), w.left[i], w.right[i])
        }
}

/// Every constraint evaluates to zero.
pub open spec fn constraints_hold(cs: Seq<Seq<(Variable, DalekScalarBytes)>>, w: Assignment) -> bool {
    forall|k: int| 0 <= k < cs.len() ==> lc_eval(w, #[trigger] cs[k]) == 0
}

/// The value of a concatenation is the sum of the values.
pub proof fn lemma_lc_value_append(
    w: Assignment,
    a: Seq<(Variable, DalekScalarBytes)>,
    b: Seq<(Variable, DalekScalarBytes)>,
)
    ensures
        lc_value(w, a + b) == lc_value(w, a) + lc_value(w, b),
    decreases b.len(),
{
    if b.len() > 0 {
        assert((a + b).drop_last() =~= a + b.drop_last());
        lemma_lc_value_append(w, a, b.drop_last());
    } else {
        assert(a + b =~= a);
    }
}

/// The value of `1 * v` is the value of `v`.
proof fn lemma_lc_value_unit(w: Assignment, v: Variable)
    ensures
        lc_value(w, seq![(v, one_scalar())]) == var_value(w, v),
{
    crate::field::lemma_one_bytes();
    let s = seq![(v, one_scalar())];
    assert(s.drop_last() =~= Seq::<(Variable, DalekScalarBytes)>::empty());
    assert(lc_value(w, Seq::<(Variable, DalekScalarBytes)>::empty()) == 0);
    assert(s.last() == (v, one_scalar()));
    assert(one_scalar().value() == 1);
    let k = s.last().1.value();
    let x = var_value(w, v);
    assert(k * x == x) by (nonlinear_arith)
        requires
            k == 1,
    ;
    assert(lc_value(w, s) == lc_value(w, s.drop_last()) + k * x);
}

/// The value of `lc + c * 1` is the value of `lc` plus `c`.
proof fn lemma_lc_value_plus_constant(
    w: Assignment,
    a: Seq<(Variable, DalekScalarBytes)>,
    c: DalekScalarBytes,
)
    ensures
        lc_value(w, a + seq![(Variable::One, c)]) == lc_value(w, a) + c.value(),
{
    lemma_lc_value_append(w, a, seq![(Variable::One, c)]);
    assert(seq![(Variable::One, c)].drop_last() =~= Seq::<(Variable, DalekScalarBytes)>::empty());
    assert(lc_value(w, Seq::<(Variable, DalekScalarBytes)>::empty()) == 0);
}

// ---------------------------------------------------------------------------
// the prover's assignment

/// A gate of index `i` may read `v`: a committed input below `nc`, the
/// constant, or a wire of an earlier gate.
pub open spec fn var_before(v: Variable, nc: nat, i: nat) -> bool {
    match v {
        Variable::Committed(k) => k < nc,
        Variable::MultiplierLeft(k) => k < i,
        Variable::MultiplierRight(k) => k < i,
        Variable::MultiplierOutput(k) => k < i,
        Variable::One => true,
    }
}

/// Every variable of the terms may be read by a gate of index `i`.
pub open spec fn terms_before(t: Seq<(Variable, DalekScalarBytes)>, nc: nat, i: nat) -> bool {
    forall|j: int| 0 <= j < t.len() ==> var_before(#[trigger] t[j].0, nc, i)
}

/// Each gate reads only committed inputs below `nc`, the constant and the
/// wires of earlier gates.
pub open spec fn gates_ordered(
    gates: Seq<(Seq<(Variable, DalekScalarBytes)>, Seq<(Variable, DalekScalarBytes)>)>,
    nc: nat,
) -> bool {
    forall|i: int|
        0 <= i < gates.len() ==> terms_before((#[trigger] gates[i]).0, nc, i as nat)
            && terms_before(gates[i].1, nc, i as nat)
}

/// The assignment of the first `k` gates that a prover makes from the
/// committed values: each gate's inputs are the values of the combinations
/// that feed it, and its output is their product.
pub open spec fn honest(
    gates: Seq<(Seq<(Variable, DalekScalarBytes)>, Seq<(Variable, DalekScalarBytes)>)>,
    committed: Seq<int>,
    k: nat,
) -> Assignment
    decreases k,
{
    if k == 0 {
        Assignment { committed, left: seq![], right: seq![], out: seq![] }
    } else {
        let w = honest(gates, committed, (k - 1) as nat);
        let a = lc_eval(w, gates[k - 1].0);
        let b = lc_eval(w, gates[k - 1].1);
        Assignment {
            committed,
            left: w.left.push(a),
            right: w.right.push(b),
            out: w.out.push(fmul(modulus(), a, b)),
        }
    }
}

/// The prover's assignment of `k` gates has `k` wires of each kind, and keeps
/// the wires of fewer gates.
proof fn lemma_honest_prefix(
    gates: Seq<(Seq<(Variable, DalekScalarBytes)>, Seq<(Variable, DalekScalarBytes)>)>,
    committed: Seq<int>,
    i: nat,
    k: nat,
)
    requires
        i <= k,
    ensures
        honest(gates, committed, k).committed == committed,
        honest(gates, committed, k).left.len() == k,
        honest(gates, committed, k).right.len() == k,
        honest(gates, committed, k).out.len() == k,
        forall|j: int|
            0 <= j < i ==> honest(gates, committed, k).left[j] == honest(gates, committed, i).left[j]
                && honest(gates, committed, k).right[j] == honest(gates, committed, i).right[j]
                && honest(gates, committed, k).out[j] == honest(gates, committed, i).out[j],
    decreases k,
{
    if k > 0 {
        if i < k {
            lemma_honest_prefix(gates, committed, i, (k - 1) as nat);
        } else {
            lemma_honest_prefix(gates, committed, (k - 1) as nat, (k - 1) as nat);
        }
    }
}

/// Two assignments that agree on the committed inputs and on the wires of the
/// first `i` gates give one value to terms that a gate of index `i` may read.
proof fn lemma_terms_agree(
    w1: Assignment,
    w2: Assignment,
    t: Seq<(Variable, DalekScalarBytes)>,
    nc: nat,
    i: nat,
)
    requires
        terms_before(t, nc, i),
        forall|j: int| 0 <= j < nc ==> w1.committed[j] == w2.committed[j],
        forall|j: int|
            0 <= j < i ==> w1.left[j] == w2.left[j] && w1.right[j] == w2.right[j] && w1.out[j]
                == w2.out[j],
    ensures
        lc_value(w1, t) == lc_value(w2, t),
    decreases t.len(),
{
    if t.len() > 0 {
        let d = t.drop_last();
        assert(terms_before(d, nc, i)) by {
            assert forall|j: int| 0 <= j < d.len() implies var_before(#[trigger] d[j].0, nc, i) by {
                assert(d[j] == t[j]);
            }
        }
        lemma_terms_agree(w1, w2, d, nc, i);
        assert(var_before(t[t.len() - 1].0, nc, i));
    }
}

/// Terms that a gate may read, a later gate may read too; so may it read a
/// concatenation of such terms.
proof fn lemma_terms_before_grow(
    a: Seq<(Variable, DalekScalarBytes)>,
    b: Seq<(Variable, DalekScalarBytes)>,
    nc: nat,
    i: nat,
    i2: nat,
)
    requires
        terms_before(a, nc, i),
        terms_before(b, nc, i),
        i <= i2,
    ensures
        terms_before(a, nc, i2),
        terms_before(a + b, nc, i2),
{
    assert forall|j: int| 0 <= j < a.len() implies var_before(#[trigger] a[j].0, nc, i2) by {
        assert(var_before(a[j].0, nc, i));
    }
    assert forall|j: int| 0 <= j < (a + b).len() implies var_before(#[trigger] (a + b)[j].0, nc, i2) by {
        if j < a.len() {
            assert((a + b)[j] == a[j]);
            assert(var_before(a[j].0, nc, i));
        } else {
            assert((a + b)[j] == b[j - a.len()]);
            assert(var_before(b[j - a.len()].0, nc, i));
        }
    }
}

/// Completeness of a gate system: when each gate reads only the committed
/// inputs and earlier wires, the prover's assignment satisfies every gate.
pub proof fn lemma_honest_satisfies(
    gates: Seq<(Seq<(Variable, DalekScalarBytes)>, Seq<(Variable, DalekScalarBytes)>)>,
    committed: Seq<int>,
)
    requires
        gates_ordered(gates, committed.len()),
    ensures
        gates_hold(gates, honest(gates, committed, gates.len())),
{
    let n = gates.len();
    let w = honest(gates, committed, n);
    assert forall|i: int| 0 <= i < n implies {
        &&& w.left[i] == lc_eval(w, (#[trigger] gates[i]).0)
        &&& w.right[i] == lc_eval(w, gates[i].1)
        &&& w.out[i] == fmul(modulus(), w.left[i], w.right[i])
    } by {
        let wi = honest(gates, committed, i as nat);
        let wk = honest(gates, committed, (i + 1) as nat);
        lemma_honest_prefix(gates, committed, (i + 1) as nat, n);
        lemma_honest_prefix(gates, committed, i as nat, n);
        lemma_honest_prefix(gates, committed, i as nat, i as nat);
        assert(wk.left[i] == lc_eval(wi, gates[i].0));
        lemma_terms_agree(w, wi, gates[i].0, committed.len(), i as nat);
        lemma_terms_agree(w, wi, gates[i].1, committed.len(), i as nat);
    }
}

// ---------------------------------------------------------------------------
// the gadget

/// The MiMC image of `(xl, xr)` under the first `mimc_rounds` constants, in the
/// Curve25519 scalar field.
pub fn mimc(
    xl: &DalekScalarBytes,
    xr: &DalekScalarBytes,
    mimc_rounds: usize,
    constants: &[DalekScalarBytes],
) -> (r: DalekScalarBytes)
    requires
        xl.wf(),
        xr.wf(),
        mimc_rounds <= constants@.len(),
        all_wf(constants@),
    ensures
        r.wf(),
        r.value() == mimc_spec(modulus(), xl.value(), xr.value(), values(constants@.take(mimc_rounds as int))),
{
    let ghost cs = values(constants@.take(mimc_rounds as int));
    let mut l = *xl;
    let mut r = *xr;
    let mut i: usize = 0;
    while i < mimc_rounds
        invariant
            i <= mimc_rounds,
            mimc_rounds <= constants@.len(),
            all_wf(constants@),
            cs == values(constants@.take(mimc_rounds as int)),
            xl.wf(),
            xr.wf(),
            l.wf(),
            r.wf(),
            (l.value(), r.value()) == state_after(modulus(), xl.value(), xr.value(), cs, i as nat),
        decreases mimc_rounds - i,
    {
        let tmp1 = dalek_add(&l, &constants[i]);
        let sq = dalek_mul(&tmp1, &tmp1);
        let cube = dalek_mul(&sq, &tmp1);
        let tmp2 = dalek_add(&cube, &r);
        proof {
            let x = tmp1.value();
            lemma_mul_mod_noop_left(x * x, x, modulus());
            assert(cube.value() == fcube(modulus(), x));
            assert(cs[i as int] == constants@[i as int].value());
        }
        r = l;
        l = tmp2;
        i = i + 1;
    }
    l
}

/// The integers that the scalars stand for.
pub open spec fn values(s: Seq<DalekScalarBytes>) -> Seq<int> {
    s.map_values(|c: DalekScalarBytes| c.value())
}

/// Every scalar is canonical.
pub open spec fn all_wf(s: Seq<DalekScalarBytes>) -> bool {
    forall|i: int| 0 <= i < s.len() ==> (#[trigger] s[i]).wf()
}

/// The state reached in the field from the values of `left` and `right`.
pub open spec fn gadget_state(
    w: Assignment,
    left: Seq<(Variable, DalekScalarBytes)>,
    right: Seq<(Variable, DalekScalarBytes)>,
    cs: Seq<int>,
    k: nat,
) -> (int, int) {
    state_after(modulus(), lc_eval(w, left), lc_eval(w, right), cs, k)
}

/// The combination `1 * v`.
pub open spec fn unit(v: Variable) -> Seq<(Variable, DalekScalarBytes)> {
    seq![(v, one_scalar())]
}

/// The combinations that hold `xl` and `xr` after `j` rounds of the gadget,
/// started from `left` and `right` on a system of `n0` gates.
pub open spec fn hash_lcs(
    left: Seq<(Variable, DalekScalarBytes)>,
    right: Seq<(Variable, DalekScalarBytes)>,
    n0: nat,
    j: nat,
) -> (Seq<(Variable, DalekScalarBytes)>, Seq<(Variable, DalekScalarBytes)>)
    decreases j,
{
    if j == 0 {
        (left, right)
    } else {
        let prev = hash_lcs(left, right, n0, (j - 1) as nat);
        let g = n0 + 2 * (j - 1);
        (unit(Variable::MultiplierOutput((g + 1) as usize)) + prev.1, prev.0)
    }
}

/// The gates that `j` rounds of the gadget add: for round `i`, with `l` the
/// combination that holds `xl`, the square gate `(l + c_i) * (l + c_i)`, then
/// the cube gate that multiplies the square by the square gate's left input.
pub open spec fn hash_gates(
    left: Seq<(Variable, DalekScalarBytes)>,
    right: Seq<(Variable, DalekScalarBytes)>,
    constants: Seq<DalekScalarBytes>,
    n0: nat,
    j: nat,
) -> Seq<(Seq<(Variable, DalekScalarBytes)>, Seq<(Variable, DalekScalarBytes)>)>
    decreases j,
{
    if j == 0 {
        seq![]
    } else {
        let l = hash_lcs(left, right, n0, (j - 1) as nat).0;
        let g = n0 + 2 * (j - 1);
        let lpc = l + seq![(Variable::One, constants[j - 1])];
        hash_gates(left, right, constants, n0, (j - 1) as nat) + seq![
            (lpc, lpc),
            (
                unit(Variable::MultiplierOutput(g as usize)),
                unit(Variable::MultiplierLeft(g as usize)),
            ),
        ]
    }
}

/// Adds the gates of `mimc_rounds` MiMC rounds to the system, starting from
/// the combinations `left` and `right`, two gates a round (a square, then a
/// cube); returns the combination that holds the image. Under any assignment
/// that satisfies the gates, it evaluates to the MiMC image of the values of
/// `left` and `right`.
pub fn mimc_hash_2(
    cs: &mut ConstraintSystem,
    left: LinearCombination,
    right: LinearCombination,
    mimc_rounds: usize,
    mimc_constants: &[DalekScalarBytes],
) -> (r: Result<LinearCombination, R1CSError>)
    requires
        mimc_rounds <= mimc_constants@.len(),
        all_wf(mimc_constants@),
        old(cs).multipliers@.len() + 2 * mimc_rounds < usize::MAX,
    ensures
        r is Ok,
        final(cs).zero_constraints() == old(cs).zero_constraints(),
        final(cs).gates() == old(cs).gates() + hash_gates(
            left.terms@,
            right.terms@,
            mimc_constants@,
            old(cs).gates().len(),
            mimc_rounds as nat,
        ),
        r->Ok_0.terms@ == hash_lcs(
            left.terms@,
            right.terms@,
            old(cs).gates().len(),
            mimc_rounds as nat,
        ).0,
        final(cs).gates().len() == old(cs).gates().len() + 2 * mimc_rounds,
        forall|i: int| 0 <= i < old(cs).gates().len() ==> final(cs).gates()[i] == old(cs).gates()[i],
        forall|w: Assignment|
            #![trigger gates_hold(final(cs).gates(), w)]
            gates_hold(final(cs).gates(), w) ==> lc_eval(w, r->Ok_0.terms@) == gadget_state(
                w,
                left.terms@,
                right.terms@,
                values(mimc_constants@.take(mimc_rounds as int)),
                mimc_rounds as nat,
            ).0,
        forall|nc: nat|
            #![trigger gates_ordered(final(cs).gates(), nc)]
            gates_ordered(old(cs).gates(), nc) && terms_before(
                left.terms@,
                nc,
                old(cs).gates().len(),
            ) && terms_before(right.terms@, nc, old(cs).gates().len()) ==> gates_ordered(
                final(cs).gates(),
                nc,
            ) && terms_before(r->Ok_0.terms@, nc, final(cs).gates().len()),
{
    let ghost cs0 = values(mimc_constants@.take(mimc_rounds as int));
    let ghost left0 = left.terms@;
    let ghost right0 = right.terms@;
    let ghost gates0 = cs.gates();
    let mut left_v = left;
    let mut right_v = right;
    let mut j: usize = 0;
    while j < mimc_rounds
        invariant
            j <= mimc_rounds,
            mimc_rounds <= mimc_constants@.len(),
            all_wf(mimc_constants@),
            cs0 == values(mimc_constants@.take(mimc_rounds as int)),
            gates0.len() + 2 * mimc_rounds < usize::MAX,
            cs.multipliers@.len() == cs.gates().len(),
            cs.gates().len() == gates0.len() + 2 * j,
            forall|i: int| 0 <= i < gates0.len() ==> cs.gates()[i] == gates0[i],
            cs.zero_constraints() == old(cs).zero_constraints(),
            gates0 == old(cs).gates(),
            cs.gates() == gates0 + hash_gates(left0, right0, mimc_constants@, gates0.len(), j as nat),
            (left_v.terms@, right_v.terms@) == hash_lcs(left0, right0, gates0.len(), j as nat),
            forall|w: Assignment|
                #![trigger gates_hold(cs.gates(), w)]
                gates_hold(cs.gates(), w) ==> (lc_eval(w, left_v.terms@), lc_eval(
                    w,
                    right_v.terms@,
                )) == gadget_state(w, left0, right0, cs0, j as nat),
            forall|nc: nat|
                #![trigger gates_ordered(cs.gates(), nc)]
                gates_ordered(gates0, nc) && terms_before(left0, nc, gates0.len()) && terms_before(
                    right0,
                    nc,
                    gates0.len(),
                ) ==> gates_ordered(cs.gates(), nc) && terms_before(
                    left_v.terms@,
                    nc,
                    cs.gates().len(),
                ) && terms_before(right_v.terms@, nc, cs.gates().len()),
        decreases mimc_rounds - j,
    {
        let ghost gates_before = cs.gates();
        let ghost lt = left_v.terms@;
        let ghost rt = right_v.terms@;
        let c = mimc_constants[j];
        let mut const_terms: Vec<(Variable, DalekScalarBytes)> = Vec::new();
        const_terms.push((Variable::One, c));
        let const_lc = LinearCombination { terms: const_terms };
        let left_plus_const = left_v.duplicate().append(const_lc);
        let ghost lpc = left_plus_const.terms@;
        assert(lpc == lt + seq![(Variable::One, c)]);
        let (l, _, l_sqr) = cs.multiply(left_plus_const.duplicate(), left_plus_const);
        assert(cs.multipliers@.len() == cs.gates().len());
        let (_, _, l_cube) = cs.multiply(
            LinearCombination::from_variable(l_sqr),
            LinearCombination::from_variable(l),
        );
        let tmp = LinearCombination::from_variable(l_cube).append(right_v);
        right_v = left_v;
        left_v = tmp;
        proof {
            let g = gates_before.len() as int;
            assert(cs.gates() =~= gates0 + hash_gates(
                left0,
                right0,
                mimc_constants@,
                gates0.len(),
                (j + 1) as nat,
            ));
            assert forall|w: Assignment|
                #![trigger gates_hold(cs.gates(), w)]
                gates_hold(cs.gates(), w) implies (lc_eval(w, left_v.terms@), lc_eval(
                w,
                right_v.terms@,
            )) == gadget_state(w, left0, right0, cs0, (j + 1) as nat) by {
                let p = modulus();
                assert(gates_hold(gates_before, w)) by {
                    assert forall|i: int| 0 <= i < gates_before.len() implies #[trigger] gates_before[i]
                        == cs.gates()[i] by {}
                    assert forall|i: int| 0 <= i < gates_before.len() implies {
                        &&& w.left[i] == lc_eval(w, (#[trigger] gates_before[i]).0)
                        &&& w.right[i] == lc_eval(w, gates_before[i].1)
                        &&& w.out[i] == fmul(modulus(), w.left[i], w.right[i])
                    } by {
                        assert(gates_before[i] == cs.gates()[i]);
                    }
                }
                let s = gadget_state(w, left0, right0, cs0, j as nat);
                assert((lc_eval(w, lt), lc_eval(w, rt)) == s);
                lemma_mod_bound(lc_value(w, left0), p);
                lemma_mod_bound(lc_value(w, right0), p);
                lemma_state_in_field(p, lc_eval(w, left0), lc_eval(w, right0), cs0, j as nat);
                // the square gate
                let g0 = cs.gates()[g];
                assert(g0 == (lpc, lpc));
                lemma_lc_value_plus_constant(w, lt, c);
                let x = lc_eval(w, lpc);
                assert(cs0[j as int] == c.value());
                lemma_add_mod_noop(lc_value(w, lt), c.value(), p);
                lemma_small_mod(c.value() as nat, p as nat);
                assert(x == fadd(p, s.0, cs0[j as int]));
                assert(w.left[g] == x && w.right[g] == x);
                assert(w.out[g] == fmul(p, x, x));
                // the cube gate
                let g1 = cs.gates()[g + 1];
                assert(g1 == (
                    seq![(Variable::MultiplierOutput(g as usize), one_scalar())],
                    seq![(Variable::MultiplierLeft(g as usize), one_scalar())],
                ));
                lemma_lc_value_unit(w, Variable::MultiplierOutput(g as usize));
                lemma_lc_value_unit(w, Variable::MultiplierLeft(g as usize));
                lemma_mod_bound(x * x, p);
                lemma_small_mod(w.out[g] as nat, p as nat);
                lemma_mod_bound(lc_value(w, lpc), p);
                lemma_small_mod(x as nat, p as nat);
                assert(w.left[g + 1] == fmul(p, x, x));
                assert(w.right[g + 1] == x);
                lemma_mul_mod_noop_left(x * x, x, p);
                assert(w.out[g + 1] == fcube(p, x));
                // the new left combination
                lemma_lc_value_unit(w, Variable::MultiplierOutput((g + 1) as usize));
                lemma_lc_value_append(w, seq![(Variable::MultiplierOutput((g + 1) as usize), one_scalar())], rt);
                lemma_add_mod_noop(w.out[g + 1], lc_value(w, rt), p);
                lemma_mod_bound(x * x * x, p);
                lemma_small_mod(w.out[g + 1] as nat, p as nat);
                assert(lc_eval(w, left_v.terms@) == fadd(p, s.1, fcube(p, x)));
            }
            assert forall|nc: nat|
                #![trigger gates_ordered(cs.gates(), nc)]
                gates_ordered(gates0, nc) && terms_before(left0, nc, gates0.len()) && terms_before(
                    right0,
                    nc,
                    gates0.len(),
                ) implies gates_ordered(cs.gates(), nc) && terms_before(
                left_v.terms@,
                nc,
                cs.gates().len(),
            ) && terms_before(right_v.terms@, nc, cs.gates().len()) by {
                let gs = cs.gates();
                assert(gates_ordered(gates_before, nc));
                let c_terms = seq![(Variable::One, c)];
                assert(terms_before(c_terms, nc, g as nat));
                lemma_terms_before_grow(lt, c_terms, nc, g as nat, g as nat);
                lemma_terms_before_grow(lt, rt, nc, g as nat, (g + 2) as nat);
                lemma_terms_before_grow(rt, lt, nc, g as nat, (g + 2) as nat);
                let unit_out = seq![(Variable::MultiplierOutput((g + 1) as usize), one_scalar())];
                assert(terms_before(unit_out, nc, (g + 2) as nat));
                lemma_terms_before_grow(unit_out, rt, nc, (g + 2) as nat, (g + 2) as nat);
                assert(terms_before(gs[g + 1].0, nc, (g + 1) as nat));
                assert(terms_before(gs[g + 1].1, nc, (g + 1) as nat));
                assert forall|i: int| 0 <= i < gs.len() implies terms_before(
                    (#[trigger] gs[i]).0,
                    nc,
                    i as nat,
                ) && terms_before(gs[i].1, nc, i as nat) by {
                    if i < g {
                        assert(gs[i] == gates_before[i]);
                    }
                }
            }
        }
        j = j + 1;
    }
    Ok(left_v)
}

/// The canonical scalar that stands for `-s`.
pub open spec fn neg_scalar(s: DalekScalarBytes) -> DalekScalarBytes {
    choose|n: DalekScalarBytes| n.wf() && n.value() == fsub(modulus(), 0, s.value())
}

/// Constrains `lc` to equal the scalar `scalar`: adds the constraint
/// `lc - scalar == 0`.
pub fn constrain_lc_with_scalar(
    cs: &mut ConstraintSystem,
    lc: LinearCombination,
    scalar: &DalekScalarBytes,
)
    requires
        scalar.wf(),
    ensures
        final(cs).gates() == old(cs).gates(),
        final(cs).zero_constraints() == old(cs).zero_constraints().push(
            lc.terms@ + seq![(Variable::One, neg_scalar(*scalar))],
        ),
        final(cs).zero_constraints().len() == old(cs).zero_constraints().len() + 1,
        final(cs).zero_constraints().drop_last() == old(cs).zero_constraints(),
        forall|w: Assignment|
            #[trigger] lc_eval(w, final(cs).zero_constraints().last()) == fsub(
                modulus(),
                lc_value(w, lc.terms@),
                scalar.value(),
            ),
{
    let ghost lt = lc.terms@;
    let neg = dalek_neg(scalar);
    let mut terms: Vec<(Variable, DalekScalarBytes)> = Vec::new();
    terms.push((Variable::One, neg));
    assert(terms@ =~= seq![(Variable::One, neg)]);
    proof {
        let n = neg_scalar(*scalar);
        assert(neg.wf() && neg.value() == fsub(modulus(), 0, scalar.value()));
        neg.lemma_determined(n);
    }
    cs.constrain(lc.append(LinearCombination { terms }));
    assert(cs.zero_constraints().drop_last() =~= old(cs).zero_constraints());
    assert forall|w: Assignment|
        #[trigger] lc_eval(w, cs.zero_constraints().last()) == fsub(
            modulus(),
            lc_value(w, lt),
            scalar.value(),
        ) by {
        let p = modulus();
        let v = lc_value(w, lt);
        lemma_lc_value_plus_constant(w, lt, neg);
        assert(neg.value() == (0 - scalar.value()) % p);
        lemma_add_mod_noop(v, 0 - scalar.value(), p);
        lemma_add_mod_noop(v, neg.value(), p);
        vstd::arithmetic::div_mod::lemma_mod_twice(0 - scalar.value(), p);
    }
}

/// Adds to the system the gates of `mimc_rounds` MiMC rounds on the committed
/// variables of `left` and `right`, and the constraint that the result equals
/// `image`. Under any assignment that satisfies the gates, that constraint
/// holds exactly when `image` is the MiMC image of the two committed values.
pub fn mimc_gadget(
    cs: &mut ConstraintSystem,
    left: AllocatedScalar,
    right: AllocatedScalar,
    mimc_rounds: usize,
    mimc_constants: &[DalekScalarBytes],
    image: &DalekScalarBytes,
) -> (r: Result<(), R1CSError>)
    requires
        mimc_rounds <= mimc_constants@.len(),
        all_wf(mimc_constants@),
        image.wf(),
        old(cs).multipliers@.len() + 2 * mimc_rounds < usize::MAX,
    ensures
        r is Ok,
        final(cs).gates() == old(cs).gates() + hash_gates(
            unit(left.variable),
            unit(right.variable),
            mimc_constants@,
            old(cs).gates().len(),
            mimc_rounds as nat,
        ),
        final(cs).zero_constraints() == old(cs).zero_constraints().push(
            hash_lcs(
                unit(left.variable),
                unit(right.variable),
                old(cs).gates().len(),
                mimc_rounds as nat,
            ).0 + seq![(Variable::One, neg_scalar(*image))],
        ),
        final(cs).gates().len() == old(cs).gates().len() + 2 * mimc_rounds,
        forall|i: int| 0 <= i < old(cs).gates().len() ==> final(cs).gates()[i] == old(cs).gates()[i],
        final(cs).zero_constraints().drop_last() == old(cs).zero_constraints(),
        final(cs).zero_constraints().len() == old(cs).zero_constraints().len() + 1,
        forall|w: Assignment|
            #![trigger gates_hold(final(cs).gates(), w)]
            gates_hold(final(cs).gates(), w) ==> (lc_eval(w, final(cs).zero_constraints().last())
                == 0 <==> image.value() == mimc_spec(
                modulus(),
                var_value(w, left.variable) % modulus(),
                var_value(w, right.variable) % modulus(),
                values(mimc_constants@.take(mimc_rounds as int)),
            )),
        forall|nc: nat|
            #![trigger gates_ordered(final(cs).gates(), nc)]
            gates_ordered(old(cs).gates(), nc) && var_before(
                left.variable,
                nc,
                old(cs).gates().len(),
            ) && var_before(right.variable, nc, old(cs).gates().len()) ==> gates_ordered(
                final(cs).gates(),
                nc,
            ),
{
    let left_lc = LinearCombination::from_variable(left.variable);
    let right_lc = LinearCombination::from_variable(right.variable);
    let ghost lt = left_lc.terms@;
    let ghost rt = right_lc.terms@;
    let res_v = mimc_hash_2(cs, left_lc, right_lc, mimc_rounds, mimc_constants);
    let res = match res_v {
        Ok(v) => v,
        Err(e) => {
            return Err(e);
        },
    };
    let ghost gates = cs.gates();
    let ghost res_terms = res.terms@;
    assert forall|nc: nat|
        #![trigger gates_ordered(gates, nc)]
        gates_ordered(old(cs).gates(), nc) && var_before(left.variable, nc, old(cs).gates().len())
            && var_before(right.variable, nc, old(cs).gates().len()) implies gates_ordered(
        gates,
        nc,
    ) by {
        assert(terms_before(lt, nc, old(cs).gates().len()));
        assert(terms_before(rt, nc, old(cs).gates().len()));
    }
    constrain_lc_with_scalar(cs, res, image);
    proof {
        let cs0 = values(mimc_constants@.take(mimc_rounds as int));
        assert forall|w: Assignment|
            #![trigger gates_hold(cs.gates(), w)]
            gates_hold(cs.gates(), w) implies (lc_eval(w, cs.zero_constraints().last()) == 0
                <==> image.value() == mimc_spec(
                modulus(),
                var_value(w, left.variable) % modulus(),
                var_value(w, right.variable) % modulus(),
                cs0,
            )) by {
            let p = modulus();
            assert(gates_hold(gates, w));
            lemma_lc_value_unit(w, left.variable);
            lemma_lc_value_unit(w, right.variable);
            let xl = var_value(w, left.variable) % p;
            let xr = var_value(w, right.variable) % p;
            lemma_mod_bound(var_value(w, left.variable), p);
            lemma_mod_bound(var_value(w, right.variable), p);
            lemma_state_in_field(p, xl, xr, cs0, cs0.len());
            let m = mimc_spec(p, xl, xr, cs0);
            assert(lc_eval(w, res_terms) == m);
            lemma_sub_mod_noop(lc_value(w, res_terms), image.value(), p);
            lemma_small_mod(image.value() as nat, p as nat);
            lemma_fsub_zero(p, m, image.value());
        }
    }
    Ok(())
}


// ---------------------------------------------------------------------------
// generators

/// `m` is the number of gates that `n` gates are padded to: the smallest
/// power of two that is at least `n`.
pub open spec fn pads_to(n: nat, m: nat) -> bool {
    &&& is_pow2(m)
    &&& m >= n
    &&& (m == 1 || m / 2 < n)
}

/// Of two powers of two, the smaller is at most half the larger.
proof fn lemma_pow2_gap(a: nat, b: nat)
    requires
        is_pow2(a),
        is_pow2(b),
        a < b,
    ensures
        2 * a <= b,
    decreases b,
{
    if a != 1 {
        lemma_pow2_gap(a / 2, b / 2);
    }
}

/// The padded number of gates is unique.
pub proof fn lemma_pads_to_unique(n: nat, m1: nat, m2: nat)
    requires
        pads_to(n, m1),
        pads_to(n, m2),
    ensures
        m1 == m2,
{
    if m1 < m2 {
        lemma_pow2_gap(m1, m2);
    } else if m2 < m1 {
        lemma_pow2_gap(m2, m1);
    }
}

/// The number of gates that `n_multipliers` gates are padded to.
pub fn padded_length(n_multipliers: usize) -> (r: usize)
    requires
        n_multipliers <= 0x4000_0000,
    ensures
        pads_to(n_multipliers as nat, r as nat),
{
    let mut m: usize = 1;
    while m < n_multipliers
        invariant
            is_pow2(m as nat),
            1 <= m,
            m == 1 || m / 2 < n_multipliers,
            n_multipliers <= 0x4000_0000,
        decreases 2 * n_multipliers - m,
    {
        assert(is_pow2(2 * m as nat)) by {
            assert((2 * m as nat) / 2 == m as nat);
        }
        m = m * 2;
    }
    m
}

/// The number of generators set up for `mimc_rounds` rounds: `(mimc_rounds + 1) * 2`.
pub fn gens_capacity(mimc_rounds: usize) -> (r: usize)
    requires
        mimc_rounds < 0x4000_0000,
    ensures
        r == (mimc_rounds + 1) * 2,
{
    (mimc_rounds + 1) * 2
}

/// Whether `gens_capacity` generators can prove a system of `n_multipliers`
/// gates: they must cover the padded number of gates. This is the test that
/// bulletproofs' prover makes when it proves; making it here refuses a
/// generator set that is too small at setup, before any proof is attempted.
pub fn check_generators(gens_capacity: usize, n_multipliers: usize) -> (r: Result<(), R1CSError>)
    requires
        n_multipliers <= 0x4000_0000,
    ensures
        r is Err <==> (forall|m: nat| #[trigger] pads_to(n_multipliers as nat, m) ==> gens_capacity < m),
        r is Err ==> r == Err::<(), R1CSError>(R1CSError::InvalidGeneratorsLength),
{
    let m = padded_length(n_multipliers);
    proof {
        assert forall|m2: nat| #[trigger] pads_to(n_multipliers as nat, m2) implies m2 == m by {
            lemma_pads_to_unique(n_multipliers as nat, m as nat, m2);
        }
    }
    if gens_capacity < m {
        Err(R1CSError::InvalidGeneratorsLength)
    } else {
        Ok(())
    }
}

/// For `R` rounds with `R + 1` a power of two and `R >= 3`, the gadget's
/// `2 * R` gates are padded to `(R + 1) * 2`: fewer generators than that are
/// refused.
pub proof fn lemma_generators_for_rounds(rounds: nat, gens_capacity: nat)
    requires
        rounds >= 3,
        is_pow2(rounds + 1),
    ensures
        pads_to(2 * rounds, (rounds + 1) * 2),
        (forall|m: nat| #[trigger] pads_to(2 * rounds, m) ==> gens_capacity < m) <==> gens_capacity < (
        rounds + 1) * 2,
{
    let m = (rounds + 1) * 2;
    assert(is_pow2(m)) by {
        assert(m / 2 == rounds + 1);
        assert(m % 2 == 0);
    }
    assert(pads_to(2 * rounds, m));
    assert forall|m2: nat| #[trigger] pads_to(2 * rounds, m2) implies m2 == m by {
        lemma_pads_to_unique(2 * rounds, m, m2);
    }
}

} // verus!
