//! The Groth16 arithmetization: a fixed-shape rank-1 circuit over the
//! BLS12-381 scalar field, built as a record of allocations and constraints
//! that bellman's parameter generation and prover then receive in order.
//!
//! Each round allocates the square `(xl + c)^2` and the next `xl`, and
//! enforces `square = (xl + c) * (xl + c)` and `square * (xl + c) = new_xl - xr`;
//! the last round's `xl`, the image, is the one public input.
use crate::field::{bls_add, bls_modulus, bls_mul, bls_neg, bls_square, BlsScalar, ONE_BYTES};
use crate::permutation::{fadd, fcube, fmul, fsub, lemma_state_in_field, mimc_spec, state_after};
use vstd::arithmetic::div_mod::{
    lemma_add_mod_noop, lemma_mod_bound, lemma_mod_multiples_vanish, lemma_mul_mod_noop_left,
    lemma_small_mod,
};
use vstd::prelude::*;

verus! {

/// A variable of the circuit: a public input (the first is the constant one)
/// or a private one.
#[derive(Clone, Copy, Debug, PartialEq, Eq)]
pub enum Variable {
    Input(usize),
    Aux(usize),
}

/// A sum of variables, each with a scalar coefficient.
#[derive(Debug)]
pub struct LinearCombination {
    pub terms: Vec<(Variable, BlsScalar)>,
}

/// Why a circuit could not be synthesized.
#[derive(Clone, Copy, Debug, PartialEq, Eq)]
pub enum SynthesisError {
    /// A value that the prover needs was not given.
    AssignmentMissing,
    /// The number of round constants is not the circuit's number of rounds.
    ShapeMismatch,
}

/// The circuit as synthesized so far: the values given to the public and
/// private variables (the first public one is the constant one), and the
/// constraints `a * b = c`. When `proving`, every allocated variable must have
/// a value.
#[derive(Debug)]
pub struct ConstraintSystem {
    pub proving: bool,
    pub inputs: Vec<Option<BlsScalar>>,
    pub aux: Vec<Option<BlsScalar>>,
    pub constraints: Vec<(LinearCombination, LinearCombination, LinearCombination)>,
}

/// A constraint as three term lists.
pub type Terms = Seq<(Variable, BlsScalar)>;

/// A constraint as the term lists of `a`, `b` and `c`.
pub open spec fn constraint_view(k: (LinearCombination, LinearCombination, LinearCombination)) -> (
    Terms,
    Terms,
    Terms,
) {
    (k.0.terms@, k.1.terms@, k.2.terms@)
}

/// The scalar one.
pub open spec fn one_scalar() -> BlsScalar {
    BlsScalar { bytes: ONE_BYTES }
}

impl ConstraintSystem {
    /// An empty circuit, with the constant one as its first public input.
    pub fn new(proving: bool) -> (r: ConstraintSystem)
        ensures
            r.proving == proving,
            r.inputs@ == seq![Some(one_scalar())],
            r.wf(),
            r.aux@.len() == 0,
            r.constraints@.len() == 0,
    {
        let mut inputs: Vec<Option<BlsScalar>> = Vec::new();
        inputs.push(Some(BlsScalar::one()));
        assert(inputs@ =~= seq![Some(one_scalar())]);
        ConstraintSystem { proving, inputs, aux: Vec::new(), constraints: Vec::new() }
    }

    /// The first public input is the constant one.
    pub open spec fn wf(&self) -> bool {
        self.inputs@.len() >= 1 && self.inputs@[0] == Some(one_scalar())
    }

    /// The constraints, as term lists.
    pub open spec fn view_constraints(&self) -> Seq<(Terms, Terms, Terms)> {
        self.constraints@.map_values(
            |k: (LinearCombination, LinearCombination, LinearCombination)| constraint_view(k),
        )
    }

    /// The variable that stands for the constant one.
    pub fn one() -> (r: Variable)
        ensures
            r == Variable::Input(0),
    {
        Variable::Input(0)
    }

    /// Allocates a private variable with `value`; a prover must give one.
    pub fn alloc_aux(&mut self, value: Option<BlsScalar>) -> (r: Result<Variable, SynthesisError>)
        requires
            old(self).aux@.len() < usize::MAX,
        ensures
            final(self).proving == old(self).proving,
            final(self).inputs@ == old(self).inputs@,
            final(self).view_constraints() == old(self).view_constraints(),
            r is Err <==> old(self).proving && value is None,
            r is Err ==> r == Err::<Variable, SynthesisError>(SynthesisError::AssignmentMissing)
                && final(self).aux@ == old(self).aux@,
            r is Ok ==> r->Ok_0 == Variable::Aux(old(self).aux@.len() as usize) && final(self).aux@ == old(self).aux@.push(value),
    {
        if self.proving && value.is_none() {
            return Err(SynthesisError::AssignmentMissing);
        }
        let i = self.aux.len();
        self.aux.push(value);
        assert(self.view_constraints() =~= old(self).view_constraints());
        Ok(Variable::Aux(i))
    }

    /// Allocates a public input with `value`; a prover must give one.
    pub fn alloc_input(&mut self, value: Option<BlsScalar>) -> (r: Result<Variable, SynthesisError>)
        requires
            old(self).inputs@.len() < usize::MAX,
        ensures
            final(self).proving == old(self).proving,
            final(self).aux@ == old(self).aux@,
            final(self).view_constraints() == old(self).view_constraints(),
            r is Err <==> old(self).proving && value is None,
            r is Err ==> r == Err::<Variable, SynthesisError>(SynthesisError::AssignmentMissing)
                && final(self).inputs@ == old(self).inputs@,
            r is Ok ==> r->Ok_0 == Variable::Input(old(self).inputs@.len() as usize) && final(self).inputs@ == old(self).inputs@.push(value),
    {
        if self.proving && value.is_none() {
            return Err(SynthesisError::AssignmentMissing);
        }
        let i = self.inputs.len();
        self.inputs.push(value);
        assert(self.view_constraints() =~= old(self).view_constraints());
        Ok(Variable::Input(i))
    }

    /// Adds the constraint `a * b = c`.
    pub fn enforce(&mut self, a: LinearCombination, b: LinearCombination, c: LinearCombination)
        ensures
            final(self).proving == old(self).proving,
            final(self).inputs@ == old(self).inputs@,
            final(self).aux@ == old(self).aux@,
            final(self).view_constraints() == old(self).view_constraints().push(
                (a.terms@, b.terms@, c.terms@),
            ),
    {
        let ghost k = (a.terms@, b.terms@, c.terms@);
        self.constraints.push((a, b, c));
        assert(self.view_constraints() =~= old(self).view_constraints().push(k));
    }
}

// ---------------------------------------------------------------------------
// what an assignment of the variables satisfies

/// Values of the public and private variables.
pub struct Assignment {
    pub inputs: Seq<int>,
    pub aux: Seq<int>,
}

/// The order of the BLS12-381 scalar field.
pub open spec fn modulus() -> int {
    bls_modulus()
}

/// The value of a variable under an assignment.
pub open spec fn var_value(w: Assignment, v: Variable) -> int {
    match v {
        Variable::Input(i) => w.inputs[i as int],
        Variable::Aux(i) => w.aux[i as int],
    }
}

/// The value of a combination under an assignment, as an integer (not reduced).
pub open spec fn lc_value(w: Assignment, terms: Terms) -> int
    decreases terms.len(),
{
    if terms.len() == 0 {
        0
    } else {
        lc_value(w, terms.drop_last()) + terms.last().1.value() * var_value(w, terms.last().0)
    }
}

/// The value of a combination in the field.
pub open spec fn lc_eval(w: Assignment, terms: Terms) -> int {
    lc_value(w, terms) % modulus()
}

/// The constraint `a * b = c` holds in the field.
pub open spec fn constraint_holds(w: Assignment, k: (Terms, Terms, Terms)) -> bool {
    fmul(modulus(), lc_eval(w, k.0), lc_eval(w, k.1)) == lc_eval(w, k.2)
}

/// Every constraint from index `from` on holds.
pub open spec fn constraints_hold_from(ks: Seq<(Terms, Terms, Terms)>, from: int, w: Assignment) -> bool {
    forall|i: int| from <= i < ks.len() ==> constraint_holds(w, #[trigger] ks[i])
}

/// The value of a variable in the field.
pub open spec fn var_eval(w: Assignment, v: Variable) -> int {
    var_value(w, v) % modulus()
}

/// The value of `1 * v`.
proof fn lemma_unit(w: Assignment, v: Variable)
    ensures
        lc_value(w, seq![(v, one_scalar())]) == var_value(w, v),
{
    crate::field::lemma_one_bytes();
    let s = seq![(v, one_scalar())];
    assert(s.drop_last() =~= Seq::<(Variable, BlsScalar)>::empty());
    assert(lc_value(w, Seq::<(Variable, BlsScalar)>::empty()) == 0);
    let k = s.last().1.value();
    let x = var_value(w, v);
    assert(k * x == x) by (nonlinear_arith)
        requires
            k == 1,
    ;
    assert(lc_value(w, s) == lc_value(w, s.drop_last()) + k * x);
}

/// The value of a combination of two terms.
proof fn lemma_pair(w: Assignment, v1: Variable, k1: BlsScalar, v2: Variable, k2: BlsScalar)
    ensures
        lc_value(w, seq![(v1, k1), (v2, k2)]) == k1.value() * var_value(w, v1) + k2.value()
            * var_value(w, v2),
{
    let s = seq![(v1, k1), (v2, k2)];
    assert(s.drop_last() =~= seq![(v1, k1)]);
    assert(seq![(v1, k1)].drop_last() =~= Seq::<(Variable, BlsScalar)>::empty());
    assert(lc_value(w, Seq::<(Variable, BlsScalar)>::empty()) == 0);
    assert(lc_value(w, seq![(v1, k1)]) == k1.value() * var_value(w, v1));
}

/// `1 * v + c * one`: the combination `v + c`.
fn plus_constant(v: Variable, c: BlsScalar) -> (r: LinearCombination)
    ensures
        r.terms@ == seq![(v, one_scalar()), (cs_one(), c)],
{
    let mut terms: Vec<(Variable, BlsScalar)> = Vec::new();
    terms.push((v, BlsScalar::one()));
    terms.push((ConstraintSystem::one(), c));
    assert(terms@ =~= seq![(v, one_scalar()), (cs_one(), c)]);
    LinearCombination { terms }
}

/// The combination `1 * v`.
fn single(v: Variable) -> (r: LinearCombination)
    ensures
        r.terms@ == seq![(v, one_scalar())],
{
    let mut terms: Vec<(Variable, BlsScalar)> = Vec::new();
    terms.push((v, BlsScalar::one()));
    assert(terms@ =~= seq![(v, one_scalar())]);
    LinearCombination { terms }
}

/// The variable of the constant one.
pub open spec fn cs_one() -> Variable {
    Variable::Input(0)
}

// ---------------------------------------------------------------------------
// the circuit

/// The circuit that proves knowledge of a MiMC preimage `(xl, xr)` of a public
/// image. The prover gives the preimage; parameter generation gives none.
#[derive(Debug)]
pub struct MiMCCircuit {
    pub xl: Option<BlsScalar>,
    pub xr: Option<BlsScalar>,
    pub constants: Vec<BlsScalar>,
}

/// Every scalar is canonical.
pub open spec fn all_wf(s: Seq<BlsScalar>) -> bool {
    forall|i: int| 0 <= i < s.len() ==> (#[trigger] s[i]).wf()
}

/// The integers that the scalars stand for.
pub open spec fn values(s: Seq<BlsScalar>) -> Seq<int> {
    s.map_values(|c: BlsScalar| c.value())
}

/// An assignment in which the first public input is one.
pub open spec fn one_is_one(w: Assignment) -> bool {
    w.inputs[0] == 1
}


/// The MiMC image of `(xl, xr)` under `constants`, in the BLS12-381 scalar field.
pub fn mimc(xl: BlsScalar, xr: BlsScalar, constants: &[BlsScalar]) -> (r: BlsScalar)
    requires
        xl.wf(),
        xr.wf(),
        all_wf(constants@),
    ensures
        r.wf(),
        r.value() == mimc_spec(modulus(), xl.value(), xr.value(), values(constants@)),
{
    let ghost cs = values(constants@);
    let mut l = xl;
    let mut r = xr;
    let mut i: usize = 0;
    while i < constants.len()
        invariant
            i <= constants@.len(),
            all_wf(constants@),
            cs == values(constants@),
            xl.wf(),
            xr.wf(),
            l.wf(),
            r.wf(),
            (l.value(), r.value()) == state_after(modulus(), xl.value(), xr.value(), cs, i as nat),
        decreases constants@.len() - i,
    {
        let tmp1 = bls_add(&l, &constants[i]);
        let tmp2 = bls_add(&crate::field::bls_cube(&tmp1), &r);
        assert(cs[i as int] == constants@[i as int].value());
        r = l;
        l = tmp2;
        i = i + 1;
    }
    l
}

/// The step of one round, for an assignment that satisfies its two
/// constraints: the new `xl` is `xr + (xl + c)^3` in the field.
proof fn lemma_round_constraints(
    w: Assignment,
    xl: Variable,
    xr: Variable,
    tmp: Variable,
    new_xl: Variable,
    c: BlsScalar,
    neg_one: BlsScalar,
)
    requires
        one_is_one(w),
        c.wf(),
        neg_one.value() == fsub(modulus(), 0, 1),
        constraint_holds(
            w,
            (
                seq![(xl, one_scalar()), (cs_one(), c)],
                seq![(xl, one_scalar()), (cs_one(), c)],
                seq![(tmp, one_scalar())],
            ),
        ),
        constraint_holds(
            w,
            (
                seq![(tmp, one_scalar())],
                seq![(xl, one_scalar()), (cs_one(), c)],
                seq![(new_xl, one_scalar()), (xr, neg_one)],
            ),
        ),
    ensures
        var_eval(w, new_xl) == fadd(
            modulus(),
            var_eval(w, xr),
            fcube(modulus(), fadd(modulus(), var_eval(w, xl), c.value())),
        ),
{
    let p = modulus();
    crate::field::lemma_one_bytes();
    let one = one_scalar();
    assert(one.value() == 1);
    let vl = var_value(w, xl);
    let vr = var_value(w, xr);
    let vt = var_value(w, tmp);
    let vn = var_value(w, new_xl);
    let cv = c.value();
    // the combination xl + c
    lemma_pair(w, xl, one, cs_one(), c);
    assert(var_value(w, cs_one()) == 1);
    assert(one.value() * vl == vl) by (nonlinear_arith)
        requires
            one.value() == 1,
    ;
    assert(cv * var_value(w, cs_one()) == cv) by (nonlinear_arith)
        requires
            var_value(w, cs_one()) == 1,
    ;
    let a = seq![(xl, one), (cs_one(), c)];
    assert(lc_value(w, a) == vl + cv);
    lemma_add_mod_noop(vl, cv, p);
    lemma_small_mod(cv as nat, p as nat);
    let x = fadd(p, var_eval(w, xl), cv);
    assert(lc_eval(w, a) == x);
    // the square
    lemma_unit(w, tmp);
    let t = vt % p;
    assert(t == fmul(p, x, x));
    // the cube
    lemma_mul_mod_noop_left(x * x, x, p);
    assert(fmul(p, t, x) == fcube(p, x));
    // the combination new_xl - xr
    lemma_pair(w, new_xl, one, xr, neg_one);
    assert(one.value() * vn == vn) by (nonlinear_arith)
        requires
            one.value() == 1,
    ;
    let nv = neg_one.value();
    assert(nv == p - 1) by {
        vstd::arithmetic::div_mod::lemma_mod_add_multiples_vanish(-1, p);
        lemma_small_mod((p - 1) as nat, p as nat);
    }
    assert(nv * vr == p * vr - vr) by (nonlinear_arith)
        requires
            nv == p - 1,
    ;
    let d = seq![(new_xl, one), (xr, neg_one)];
    assert(lc_value(w, d) == p * vr + (vn - vr));
    lemma_mod_multiples_vanish(vr, vn - vr, p);
    assert((vn - vr) % p == fcube(p, x));
    lemma_add_mod_noop(vn - vr, vr, p);
    lemma_mod_bound(x * x * x, p);
    lemma_small_mod(fcube(p, x) as nat, p as nat);
    lemma_add_mod_noop(fcube(p, x), vr, p);
}

// ---------------------------------------------------------------------------
// the values a prover records

/// The value recorded for a variable (zero where none was given).
pub open spec fn opt_value(o: Option<BlsScalar>) -> int {
    match o {
        Some(v) => v.value(),
        None => 0,
    }
}

/// The assignment made of the recorded values.
pub open spec fn recorded(cs: ConstraintSystem) -> Assignment {
    Assignment {
        inputs: cs.inputs@.map_values(|o: Option<BlsScalar>| opt_value(o)),
        aux: cs.aux@.map_values(|o: Option<BlsScalar>| opt_value(o)),
    }
}

/// The variable is among the first `ni` public and `na` private ones.
pub open spec fn var_in(v: Variable, ni: nat, na: nat) -> bool {
    match v {
        Variable::Input(i) => i < ni,
        Variable::Aux(i) => i < na,
    }
}

/// Every variable of the terms is among the first `ni` public and `na` private ones.
pub open spec fn terms_in(t: Terms, ni: nat, na: nat) -> bool {
    forall|i: int| 0 <= i < t.len() ==> var_in(#[trigger] t[i].0, ni, na)
}

/// Every variable of the constraint is among the first `ni` public and `na` private ones.
pub open spec fn constraint_in(k: (Terms, Terms, Terms), ni: nat, na: nat) -> bool {
    terms_in(k.0, ni, na) && terms_in(k.1, ni, na) && terms_in(k.2, ni, na)
}

/// Two assignments that agree on the first `ni` public and `na` private
/// variables give one value to terms over those variables.
proof fn lemma_agree(w1: Assignment, w2: Assignment, t: Terms, ni: nat, na: nat)
    requires
        terms_in(t, ni, na),
        forall|i: int| 0 <= i < ni ==> w1.inputs[i] == w2.inputs[i],
        forall|i: int| 0 <= i < na ==> w1.aux[i] == w2.aux[i],
    ensures
        lc_value(w1, t) == lc_value(w2, t),
    decreases t.len(),
{
    if t.len() > 0 {
        let d = t.drop_last();
        assert(terms_in(d, ni, na)) by {
            assert forall|i: int| 0 <= i < d.len() implies var_in(#[trigger] d[i].0, ni, na) by {
                assert(d[i] == t[i]);
            }
        }
        lemma_agree(w1, w2, d, ni, na);
        assert(var_in(t[t.len() - 1].0, ni, na));
    }
}

/// The honest values of one round satisfy its two constraints.
proof fn lemma_round_complete(
    w: Assignment,
    xl: Variable,
    xr: Variable,
    tmp: Variable,
    new_xl: Variable,
    c: BlsScalar,
    neg_one: BlsScalar,
)
    requires
        one_is_one(w),
        c.wf(),
        neg_one.value() == fsub(modulus(), 0, 1),
        0 <= var_value(w, xl) < modulus(),
        0 <= var_value(w, xr) < modulus(),
        var_value(w, tmp) == fmul(
            modulus(),
            fadd(modulus(), var_value(w, xl), c.value()),
            fadd(modulus(), var_value(w, xl), c.value()),
        ),
        var_value(w, new_xl) == fadd(
            modulus(),
            fmul(modulus(), fadd(modulus(), var_value(w, xl), c.value()), var_value(w, tmp)),
            var_value(w, xr),
        ),
    ensures
        constraint_holds(
            w,
            (
                seq![(xl, one_scalar()), (cs_one(), c)],
                seq![(xl, one_scalar()), (cs_one(), c)],
                seq![(tmp, one_scalar())],
            ),
        ),
        constraint_holds(
            w,
            (
                seq![(tmp, one_scalar())],
                seq![(xl, one_scalar()), (cs_one(), c)],
                seq![(new_xl, one_scalar()), (xr, neg_one)],
            ),
        ),
{
    let p = modulus();
    crate::field::lemma_one_bytes();
    let one = one_scalar();
    let vl = var_value(w, xl);
    let vr = var_value(w, xr);
    let vt = var_value(w, tmp);
    let vn = var_value(w, new_xl);
    let cv = c.value();
    lemma_pair(w, xl, one, cs_one(), c);
    assert(one.value() * vl == vl) by (nonlinear_arith)
        requires
            one.value() == 1,
    ;
    assert(cv * var_value(w, cs_one()) == cv) by (nonlinear_arith)
        requires
            var_value(w, cs_one()) == 1,
    ;
    let a = seq![(xl, one), (cs_one(), c)];
    assert(lc_value(w, a) == vl + cv);
    let x = fadd(p, vl, cv);
    assert(lc_eval(w, a) == x);
    lemma_mod_bound(vl + cv, p);
    // the square
    lemma_unit(w, tmp);
    lemma_mod_bound(x * x, p);
    lemma_small_mod(vt as nat, p as nat);
    assert(lc_eval(w, seq![(tmp, one)]) == vt);
    // new_xl - xr
    lemma_pair(w, new_xl, one, xr, neg_one);
    assert(one.value() * vn == vn) by (nonlinear_arith)
        requires
            one.value() == 1,
    ;
    let nv = neg_one.value();
    assert(nv == p - 1) by {
        vstd::arithmetic::div_mod::lemma_mod_add_multiples_vanish(-1, p);
        lemma_small_mod((p - 1) as nat, p as nat);
    }
    assert(nv * vr == p * vr - vr) by (nonlinear_arith)
        requires
            nv == p - 1,
    ;
    let d = seq![(new_xl, one), (xr, neg_one)];
    assert(lc_value(w, d) == p * vr + (vn - vr));
    lemma_mod_multiples_vanish(vr, vn - vr, p);
    let m = fmul(p, x, vt);
    lemma_mod_bound(x * vt, p);
    vstd::arithmetic::div_mod::lemma_sub_mod_noop(m + vr, vr, p);
    lemma_small_mod(vr as nat, p as nat);
    lemma_small_mod(m as nat, p as nat);
    assert((vn - vr) % p == m);
    vstd::arithmetic::mul::lemma_mul_is_commutative(x, vt);
}

// ---------------------------------------------------------------------------
// the circuit's shape

/// The canonical scalar that stands for `-1`.
pub open spec fn neg_one_scalar() -> BlsScalar {
    choose|n: BlsScalar| n.wf() && n.value() == fsub(modulus(), 0, 1)
}

/// `1 * v + c * one`.
pub open spec fn plus_constant_terms(v: Variable, c: BlsScalar) -> Terms {
    seq![(v, one_scalar()), (cs_one(), c)]
}

/// The variable that round `i` of `rounds` allocates for the new `xl`, on a
/// circuit that started with `i0` public and `a0` private variables: the
/// public image in the last round, a private variable before.
pub open spec fn new_xl_var(i0: nat, a0: nat, rounds: nat, i: nat) -> Variable {
    if i + 1 == rounds {
        Variable::Input(i0 as usize)
    } else {
        Variable::Aux((a0 + 3 + 2 * i) as usize)
    }
}

/// The variable that holds `xl` when round `i` starts.
pub open spec fn xl_var(i0: nat, a0: nat, rounds: nat, i: nat) -> Variable {
    if i == 0 {
        Variable::Aux(a0 as usize)
    } else {
        new_xl_var(i0, a0, rounds, (i - 1) as nat)
    }
}

/// The variable that holds `xr` when round `i` starts.
pub open spec fn xr_var(i0: nat, a0: nat, rounds: nat, i: nat) -> Variable {
    if i == 0 {
        Variable::Aux((a0 + 1) as usize)
    } else {
        xl_var(i0, a0, rounds, (i - 1) as nat)
    }
}

/// The two constraints of round `i`: `(xl + c) * (xl + c) = tmp` and
/// `tmp * (xl + c) = new_xl - xr`.
pub open spec fn round_constraints(
    constants: Seq<BlsScalar>,
    i0: nat,
    a0: nat,
    rounds: nat,
    i: nat,
) -> Seq<(Terms, Terms, Terms)> {
    let xl = xl_var(i0, a0, rounds, i);
    let xr = xr_var(i0, a0, rounds, i);
    let tmp = Variable::Aux((a0 + 2 + 2 * i) as usize);
    let lc = plus_constant_terms(xl, constants[i as int]);
    seq![
        (lc, lc, seq![(tmp, one_scalar())]),
        (
            seq![(tmp, one_scalar())],
            lc,
            seq![(new_xl_var(i0, a0, rounds, i), one_scalar()), (xr, neg_one_scalar())],
        ),
    ]
}

/// The constraints of the first `k` rounds. They depend on the constants and
/// the starting variable counts only, not on the preimage: parameter
/// generation and proving synthesize the same circuit.
pub open spec fn circuit_constraints(
    constants: Seq<BlsScalar>,
    i0: nat,
    a0: nat,
    rounds: nat,
    k: nat,
) -> Seq<(Terms, Terms, Terms)>
    decreases k,
{
    if k == 0 {
        seq![]
    } else {
        circuit_constraints(constants, i0, a0, rounds, (k - 1) as nat) + round_constraints(
            constants,
            i0,
            a0,
            rounds,
            (k - 1) as nat,
        )
    }
}

impl MiMCCircuit {
    /// Synthesizes the circuit for `rounds` rounds into `cs`: the preimage as two
    /// private variables, then each round's square and new `xl` with their two
    /// constraints; the last new `xl`, the image, is a public input. The
    /// constants must number `rounds`, and a prover must give the preimage.
    /// Under any assignment that satisfies the new constraints, the image is the
    /// MiMC image of the preimage.
    pub fn synthesize(&self, rounds: usize, cs: &mut ConstraintSystem) -> (r: Result<
        (),
        SynthesisError,
    >)
        requires
            all_wf(self.constants@),
            self.xl is Some ==> self.xl->Some_0.wf(),
            self.xr is Some ==> self.xr->Some_0.wf(),
            old(cs).wf(),
            old(cs).inputs@.len() + 1 < usize::MAX,
            old(cs).aux@.len() + 2 + 2 * rounds < usize::MAX,
        ensures
            final(cs).proving == old(cs).proving,
            final(cs).wf(),
            r is Ok && old(cs).proving ==> constraints_hold_from(
                final(cs).view_constraints(),
                old(cs).view_constraints().len() as int,
                recorded(*final(cs)),
            ),
            r is Ok && old(cs).proving && rounds > 0 ==> var_eval(
                recorded(*final(cs)),
                Variable::Input(old(cs).inputs@.len() as usize),
            ) == mimc_spec(
                modulus(),
                self.xl->Some_0.value(),
                self.xr->Some_0.value(),
                values(self.constants@),
            ),
            r == Err::<(), SynthesisError>(SynthesisError::ShapeMismatch) <==> self.constants@.len()
                != rounds,
            r == Err::<(), SynthesisError>(SynthesisError::ShapeMismatch) ==> *final(cs) == *old(
                cs,
            ),
            r is Ok ==> final(cs).view_constraints() == old(cs).view_constraints()
                + circuit_constraints(
                self.constants@,
                old(cs).inputs@.len(),
                old(cs).aux@.len(),
                rounds as nat,
                rounds as nat,
            ),
            r is Ok && rounds > 0 ==> final(cs).aux@.len() == old(cs).aux@.len() + 2 * rounds + 1,
            r == Err::<(), SynthesisError>(SynthesisError::AssignmentMissing) <==> (
            self.constants@.len() == rounds && old(cs).proving && (self.xl is None
                || self.xr is None)),
            r is Ok ==> final(cs).view_constraints().len() == old(cs).view_constraints().len() + 2
                * rounds,
            r is Ok ==> forall|i: int|
                0 <= i < old(cs).view_constraints().len() ==> final(cs).view_constraints()[i]
                    == old(cs).view_constraints()[i],
            r is Ok && rounds > 0 ==> final(cs).inputs@.len() == old(cs).inputs@.len() + 1,
            r is Ok && rounds > 0 ==> forall|w: Assignment|
                #![trigger constraints_hold_from(final(cs).view_constraints(), old(cs).view_constraints().len() as int, w)]
                one_is_one(w) && constraints_hold_from(
                    final(cs).view_constraints(),
                    old(cs).view_constraints().len() as int,
                    w,
                ) ==> var_eval(w, Variable::Input(old(cs).inputs@.len() as usize)) == mimc_spec(
                    modulus(),
                    var_eval(w, Variable::Aux(old(cs).aux@.len() as usize)),
                    var_eval(w, Variable::Aux((old(cs).aux@.len() + 1) as usize)),
                    values(self.constants@),
                ),
    {
        if self.constants.len() != rounds {
            return Err(SynthesisError::ShapeMismatch);
        }
        let ghost i0 = cs.inputs@.len();
        let ghost a0 = cs.aux@.len();
        let ghost k0 = cs.view_constraints().len();
        let ghost vals = values(self.constants@);
        let ghost old_ks = cs.view_constraints();
        let mut xl_value = self.xl;
        let mut xl = match cs.alloc_aux(xl_value) {
            Ok(v) => v,
            Err(e) => {
                return Err(e);
            },
        };
        let mut xr_value = self.xr;
        let mut xr = match cs.alloc_aux(xr_value) {
            Ok(v) => v,
            Err(e) => {
                return Err(e);
            },
        };
        let neg_one = bls_neg(&BlsScalar::one());
        proof {
            neg_one.lemma_determined(neg_one_scalar());
            assert(cs.view_constraints() =~= old_ks + circuit_constraints(
                self.constants@,
                i0,
                a0,
                rounds as nat,
                0,
            ));
            if cs.proving {
                lemma_small_mod(xl_value->Some_0.value() as nat, modulus() as nat);
                lemma_small_mod(xr_value->Some_0.value() as nat, modulus() as nat);
            }
        }
        let mut i: usize = 0;
        while i < rounds
            invariant
                i <= rounds,
                rounds == self.constants@.len(),
                all_wf(self.constants@),
                vals == values(self.constants@),
                neg_one.value() == fsub(modulus(), 0, 1),
                neg_one.wf(),
                xl_value is Some ==> xl_value->Some_0.wf(),
                xr_value is Some ==> xr_value->Some_0.wf(),
                cs.proving ==> xl_value is Some && xr_value is Some,
                cs.proving == old(cs).proving,
                cs.inputs@.len() == if i == rounds && i > 0 { i0 + 1 } else { i0 },
                i0 == old(cs).inputs@.len(),
                i0 + 1 < usize::MAX,
                a0 == old(cs).aux@.len(),
                cs.aux@.len() <= a0 + 2 + 2 * i,
                cs.aux@.len() + (if i == rounds && i > 0 { 1int } else { 0int }) == a0 + 2 + 2 * i,
                cs.view_constraints() == old_ks + circuit_constraints(
                    self.constants@,
                    i0,
                    a0,
                    rounds as nat,
                    i as nat,
                ),
                xl == xl_var(i0, a0, rounds as nat, i as nat),
                xr == xr_var(i0, a0, rounds as nat, i as nat),
                neg_one == neg_one_scalar(),
                a0 + 2 + 2 * rounds < usize::MAX,
                k0 == old(cs).view_constraints().len(),
                old_ks == old(cs).view_constraints(),
                cs.view_constraints().len() == k0 + 2 * i,
                forall|j: int| 0 <= j < k0 ==> cs.view_constraints()[j] == old_ks[j],
                i == rounds && i > 0 ==> xl == Variable::Input(i0 as usize),
                cs.wf(),
                var_in(xl, cs.inputs@.len(), cs.aux@.len()),
                var_in(xr, cs.inputs@.len(), cs.aux@.len()),
                forall|j: int|
                    k0 <= j < cs.view_constraints().len() ==> constraint_in(
                        #[trigger] cs.view_constraints()[j],
                        cs.inputs@.len(),
                        cs.aux@.len(),
                    ),
                cs.proving ==> var_value(recorded(*cs), xl) == xl_value->Some_0.value()
                    && var_value(recorded(*cs), xr) == xr_value->Some_0.value(),
                cs.proving ==> constraints_hold_from(cs.view_constraints(), k0 as int, recorded(*cs)),
                cs.proving ==> var_eval(recorded(*cs), Variable::Aux(a0 as usize)) == self.xl->Some_0.value()
                    && var_eval(recorded(*cs), Variable::Aux((a0 + 1) as usize)) == self.xr->Some_0.value(),
                a0 + 1 < cs.aux@.len(),
                forall|w: Assignment|
                    #![trigger constraints_hold_from(cs.view_constraints(), k0 as int, w)]
                    one_is_one(w) && constraints_hold_from(cs.view_constraints(), k0 as int, w) ==> (
                    var_eval(w, xl),
                    var_eval(w, xr),
                ) == state_after(
                    modulus(),
                    var_eval(w, Variable::Aux(a0 as usize)),
                    var_eval(w, Variable::Aux((a0 + 1) as usize)),
                    vals,
                    i as nat,
                ),
            decreases rounds - i,
        {
            let ghost ks_before = cs.view_constraints();
            let ghost cs_before = *cs;
            let c = self.constants[i];
            let tmp_value = match xl_value {
                Some(e) => Some(bls_square(&bls_add(&e, &c))),
                None => None,
            };
            let tmp = match cs.alloc_aux(tmp_value) {
                Ok(v) => v,
                Err(e) => {
                    return Err(e);
                },
            };
            cs.enforce(plus_constant(xl, c), plus_constant(xl, c), single(tmp));
            let new_xl_value = match (xl_value, tmp_value, xr_value) {
                (Some(e), Some(t), Some(r)) => Some(bls_add(&bls_mul(&bls_add(&e, &c), &t), &r)),
                _ => None,
            };
            let new_xl = if i == rounds - 1 {
                match cs.alloc_input(new_xl_value) {
                    Ok(v) => v,
                    Err(e) => {
                        return Err(e);
                    },
                }
            } else {
                match cs.alloc_aux(new_xl_value) {
                    Ok(v) => v,
                    Err(e) => {
                        return Err(e);
                    },
                }
            };
            let mut d_terms: Vec<(Variable, BlsScalar)> = Vec::new();
            d_terms.push((new_xl, BlsScalar::one()));
            d_terms.push((xr, neg_one));
            assert(d_terms@ =~= seq![(new_xl, one_scalar()), (xr, neg_one)]);
            cs.enforce(single(tmp), plus_constant(xl, c), LinearCombination { terms: d_terms });
            proof {
                let ks = cs.view_constraints();
                let kk = ks_before.len() as int;
                assert(ks =~= old_ks + circuit_constraints(
                    self.constants@,
                    i0,
                    a0,
                    rounds as nat,
                    (i + 1) as nat,
                ));
                assert forall|w: Assignment|
                    #![trigger constraints_hold_from(ks, k0 as int, w)]
                    one_is_one(w) && constraints_hold_from(ks, k0 as int, w) implies (
                    var_eval(w, new_xl),
                    var_eval(w, xl),
                ) == state_after(
                    modulus(),
                    var_eval(w, Variable::Aux(a0 as usize)),
                    var_eval(w, Variable::Aux((a0 + 1) as usize)),
                    vals,
                    (i + 1) as nat,
                ) by {
                    assert(constraints_hold_from(ks_before, k0 as int, w)) by {
                        assert forall|j: int| k0 <= j < ks_before.len() implies constraint_holds(
                            w,
                            #[trigger] ks_before[j],
                        ) by {
                            assert(ks[j] == ks_before[j]);
                        }
                    }
                    assert(constraint_holds(w, ks[kk]));
                    assert(constraint_holds(w, ks[kk + 1]));
                    assert(vals[i as int] == c.value());
                    lemma_round_constraints(w, xl, xr, tmp, new_xl, c, neg_one);
                }
                let ni = cs_before.inputs@.len();
                let na = cs_before.aux@.len();
                let after = *cs;
                assert(forall|j: int| 0 <= j < ni ==> after.inputs@[j] == cs_before.inputs@[j]);
                assert(forall|j: int| 0 <= j < na ==> after.aux@[j] == cs_before.aux@[j]);
                let w0 = recorded(cs_before);
                let w1 = recorded(after);
                assert(forall|j: int| 0 <= j < ni ==> w1.inputs[j] == w0.inputs[j]);
                assert(forall|j: int| 0 <= j < na ==> w1.aux[j] == w0.aux[j]);
                assert(tmp == Variable::Aux(na as usize));
                assert(var_in(new_xl, after.inputs@.len(), after.aux@.len()));
                assert forall|j: int| k0 <= j < ks.len() implies constraint_in(
                    #[trigger] ks[j],
                    after.inputs@.len(),
                    after.aux@.len(),
                ) by {
                    if j < kk {
                        assert(constraint_in(ks_before[j], ni, na));
                        assert(ks[j] == ks_before[j]);
                    }
                }
                if cs.proving {
                    assert forall|j: int| k0 <= j < ks.len() implies constraint_holds(
                        w1,
                        #[trigger] ks[j],
                    ) by {
                        if j < kk {
                            let k = ks_before[j];
                            assert(ks[j] == k);
                            assert(constraint_in(k, ni, na));
                            assert(constraint_holds(w0, k));
                            lemma_agree(w1, w0, k.0, ni, na);
                            lemma_agree(w1, w0, k.1, ni, na);
                            lemma_agree(w1, w0, k.2, ni, na);
                        } else {
                            crate::field::lemma_one_bytes();
                            assert(w1.inputs[0] == 1);
                            lemma_agree(w1, w0, seq![(xl, one_scalar())], ni, na);
                            lemma_agree(w1, w0, seq![(xr, one_scalar())], ni, na);
                            assert(var_value(w1, xl) == var_value(w0, xl)) by {
                                match xl {
                                    Variable::Input(q) => {
                                        assert(w1.inputs[q as int] == w0.inputs[q as int]);
                                    },
                                    Variable::Aux(q) => {
                                        assert(w1.aux[q as int] == w0.aux[q as int]);
                                    },
                                }
                            }
                            assert(var_value(w1, xr) == var_value(w0, xr)) by {
                                match xr {
                                    Variable::Input(q) => {
                                        assert(w1.inputs[q as int] == w0.inputs[q as int]);
                                    },
                                    Variable::Aux(q) => {
                                        assert(w1.aux[q as int] == w0.aux[q as int]);
                                    },
                                }
                            }
                            assert(var_value(w1, tmp) == tmp_value->Some_0.value());
                            assert(var_value(w1, new_xl) == new_xl_value->Some_0.value());
                            lemma_round_complete(w1, xl, xr, tmp, new_xl, c, neg_one);
                        }
                    }
                }
            }
            xr = xl;
            xr_value = xl_value;
            xl = new_xl;
            xl_value = new_xl_value;
            i = i + 1;
        }
        Ok(())
    }
}

} // verus!
