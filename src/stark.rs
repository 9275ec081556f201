//! The STARK arithmetization: an execution trace of three columns (`xl`, `xr`
//! and the round constant) and the AIR that checks it, over winterfell's
//! 128-bit field.
use crate::field::{f128_add, f128_cube, f128_sub, F128_MODULUS};
use crate::permutation::{
    fadd, fcube, fsub, lemma_fsub_zero, lemma_state_in_field, mimc_spec, round, state_after,
};
use vstd::prelude::*;
use winterfell::{FieldExtension, ProofOptions};

verus! {

/// Number of columns of the execution trace.
pub const TRACE_WIDTH: usize = 3;

/// Smallest trace length that the STARK backend accepts.
pub const MIN_TRACE_LENGTH: usize = 8;

/// The field's prime, as a mathematical integer.
pub open spec fn modulus() -> int {
    F128_MODULUS as int
}

/// The constants, as mathematical integers.
pub open spec fn ints(s: Seq<u128>) -> Seq<int> {
    s.map_values(|c: u128| c as int)
}

/// Every value is a field element.
pub open spec fn all_in_field(s: Seq<u128>) -> bool {
    forall|i: int| 0 <= i < s.len() ==> s[i] < F128_MODULUS
}

/// `n` is a power of two.
pub open spec fn is_pow2(n: nat) -> bool
    decreases n,
{
    if n == 1 {
        true
    } else if n == 0 || n % 2 == 1 {
        false
    } else {
        is_pow2(n / 2)
    }
}

/// Whether `n` is a power of two, by halving.
pub fn is_power_of_two(n: usize) -> (r: bool)
    ensures
        r == is_pow2(n as nat),
{
    let mut m: usize = n;
    while m > 1 && m % 2 == 0
        invariant
            is_pow2(m as nat) == is_pow2(n as nat),
        decreases m,
    {
        m = m / 2;
    }
    m == 1
}

// ---------------------------------------------------------------------------
// proof-system parameters

/// winterfell's proof parameters, carried through unopened.
#[verifier::external_type_specification]
#[verifier::external_body]
pub struct ExProofOptions(ProofOptions);

/// The field in which the proof's randomness is drawn: the base field itself, or
/// its quadratic or cubic extension.
#[derive(Clone, Copy, Debug, PartialEq, Eq)]
pub enum Extension {
    Base,
    Quadratic,
    Cubic,
}

/// Why a set of proof parameters is out of its legal range.
#[derive(Clone, Copy, Debug, PartialEq, Eq)]
pub enum OptionsError {
    /// The number of queries is 0 or above 255.
    NumQueries,
    /// The blow-up factor is not a power of two between 2 and 128.
    BlowupFactor,
    /// The grinding factor is above 32.
    GrindingFactor,
    /// The FRI folding factor is not 2, 4, 8 or 16.
    FriFoldingFactor,
    /// The FRI remainder degree bound is above 255 or not a power of two minus one.
    FriRemainderMaxDegree,
}

/// The legal number of queries: 1 to 255.
pub open spec fn queries_ok(num_queries: usize) -> bool {
    0 < num_queries <= 255
}

/// The legal blow-up factor: a power of two from 2 to 128.
pub open spec fn blowup_ok(blowup_factor: usize) -> bool {
    2 <= blowup_factor <= 128 && is_pow2(blowup_factor as nat)
}

/// The legal grinding factor: at most 32.
pub open spec fn grinding_ok(grinding_factor: u32) -> bool {
    grinding_factor <= 32
}

/// The legal FRI folding factor: 2, 4, 8 or 16.
pub open spec fn folding_ok(fri_folding_factor: usize) -> bool {
    fri_folding_factor == 2 || fri_folding_factor == 4 || fri_folding_factor == 8
        || fri_folding_factor == 16
}

/// The legal FRI remainder degree bound: a power of two minus one, at most 255.
pub open spec fn remainder_ok(fri_remainder_max_degree: usize) -> bool {
    fri_remainder_max_degree <= 255 && is_pow2(fri_remainder_max_degree as nat + 1)
}

/// The six proof parameters, as plain values.
#[derive(Clone, Copy, Debug, PartialEq, Eq)]
pub struct ProofParams {
    pub num_queries: usize,
    pub blowup_factor: usize,
    pub grinding_factor: u32,
    pub field_extension: Extension,
    pub fri_folding_factor: usize,
    pub fri_remainder_max_degree: usize,
}

impl ProofParams {
    /// Every parameter is in its legal range.
    pub open spec fn legal(&self) -> bool {
        &&& queries_ok(self.num_queries)
        &&& blowup_ok(self.blowup_factor)
        &&& grinding_ok(self.grinding_factor)
        &&& folding_ok(self.fri_folding_factor)
        &&& remainder_ok(self.fri_remainder_max_degree)
    }
}

/// Relies on `winterfell::ProofOptions::new`, which panics outside the legal ranges.
#[verifier::external_body]
fn to_proof_options(p: &ProofParams) -> (r: ProofOptions)
    requires
        p.legal(),
{
    let extension = match p.field_extension {
        Extension::Base => FieldExtension::None,
        Extension::Quadratic => FieldExtension::Quadratic,
        Extension::Cubic => FieldExtension::Cubic,
    };
    ProofOptions::new(
        p.num_queries,
        p.blowup_factor,
        p.grinding_factor,
        extension,
        p.fri_folding_factor,
        p.fri_remainder_max_degree,
    )
}

/// Collects the proof parameters, or names the first one (in argument order)
/// that is out of its legal range.
pub fn proof_options(
    num_queries: usize,
    blowup_factor: usize,
    grinding_factor: u32,
    field_extension: Extension,
    fri_folding_factor: usize,
    fri_remainder_max_degree: usize,
) -> (r: Result<ProofParams, OptionsError>)
    ensures
        r is Ok ==> r->Ok_0 == (ProofParams {
            num_queries,
            blowup_factor,
            grinding_factor,
            field_extension,
            fri_folding_factor,
            fri_remainder_max_degree,
        }),
        r is Ok <==> queries_ok(num_queries) && blowup_ok(blowup_factor) && grinding_ok(
            grinding_factor,
        ) && folding_ok(fri_folding_factor) && remainder_ok(fri_remainder_max_degree),
        r == Err::<ProofParams, OptionsError>(OptionsError::NumQueries) <==> !queries_ok(
            num_queries,
        ),
        r == Err::<ProofParams, OptionsError>(OptionsError::BlowupFactor) <==> queries_ok(
            num_queries,
        ) && !blowup_ok(blowup_factor),
        r == Err::<ProofParams, OptionsError>(OptionsError::GrindingFactor) <==> queries_ok(
            num_queries,
        ) && blowup_ok(blowup_factor) && !grinding_ok(grinding_factor),
        r == Err::<ProofParams, OptionsError>(OptionsError::FriFoldingFactor) <==> queries_ok(
            num_queries,
        ) && blowup_ok(blowup_factor) && grinding_ok(grinding_factor) && !folding_ok(
            fri_folding_factor,
        ),
        r == Err::<ProofParams, OptionsError>(OptionsError::FriRemainderMaxDegree) <==> queries_ok(
            num_queries,
        ) && blowup_ok(blowup_factor) && grinding_ok(grinding_factor) && folding_ok(
            fri_folding_factor,
        ) && !remainder_ok(fri_remainder_max_degree),
{
    if num_queries == 0 || num_queries > 255 {
        return Err(OptionsError::NumQueries);
    }
    if blowup_factor < 2 || blowup_factor > 128 || !is_power_of_two(blowup_factor) {
        return Err(OptionsError::BlowupFactor);
    }
    if grinding_factor > 32 {
        return Err(OptionsError::GrindingFactor);
    }
    if !(fri_folding_factor == 2 || fri_folding_factor == 4 || fri_folding_factor == 8
        || fri_folding_factor == 16) {
        return Err(OptionsError::FriFoldingFactor);
    }
    if fri_remainder_max_degree > 255 || !is_power_of_two(fri_remainder_max_degree + 1) {
        return Err(OptionsError::FriRemainderMaxDegree);
    }
    Ok(
        ProofParams {
            num_queries,
            blowup_factor,
            grinding_factor,
            field_extension,
            fri_folding_factor,
            fri_remainder_max_degree,
        },
    )
}

// ---------------------------------------------------------------------------
// the permutation and the residual of a transition

/// `a - b`, zero only where `a == b`.
pub fn are_equal(a: u128, b: u128) -> (r: u128)
    requires
        a < F128_MODULUS,
        b < F128_MODULUS,
    ensures
        r as int == fsub(modulus(), a as int, b as int),
        r == 0 <==> a == b,
{
    proof {
        lemma_fsub_zero(modulus(), a as int, b as int);
    }
    f128_sub(a, b)
}

/// The MiMC image of `(xl, xr)` under `round_constants`, in winterfell's field.
pub fn mimc(xl: u128, xr: u128, round_constants: &[u128]) -> (r: u128)
    requires
        xl < F128_MODULUS,
        xr < F128_MODULUS,
        all_in_field(round_constants@),
    ensures
        r as int == mimc_spec(modulus(), xl as int, xr as int, ints(round_constants@)),
        r < F128_MODULUS,
{
    let ghost cs = ints(round_constants@);
    let mut l: u128 = xl;
    let mut r: u128 = xr;
    let mut i: usize = 0;
    while i < round_constants.len()
        invariant
            i <= round_constants.len(),
            cs == ints(round_constants@),
            all_in_field(round_constants@),
            xl < F128_MODULUS,
            xr < F128_MODULUS,
            (l as int, r as int) == state_after(modulus(), xl as int, xr as int, cs, i as nat),
        decreases round_constants.len() - i,
    {
        proof {
            lemma_state_in_field(modulus(), xl as int, xr as int, cs, i as nat);
        }
        let next_l = f128_add(r, f128_cube(f128_add(l, round_constants[i])));
        r = l;
        l = next_l;
        i = i + 1;
    }
    proof {
        lemma_state_in_field(modulus(), xl as int, xr as int, cs, i as nat);
    }
    l
}

// ---------------------------------------------------------------------------
// the execution trace

/// Why a trace of the requested length cannot be built.
#[derive(Clone, Copy, Debug, PartialEq, Eq)]
pub enum TraceError {
    /// The trace would have fewer than eight rows.
    TooShort,
    /// The number of rows would not be a power of two.
    LengthNotPowerOfTwo,
}

/// An execution trace in three columns: `xl`, `xr` and the round constant
/// that the next step consumes.
#[derive(Debug)]
pub struct ExecutionTrace {
    pub xl: Vec<u128>,
    pub xr: Vec<u128>,
    pub ci: Vec<u128>,
}

impl ExecutionTrace {
    /// Number of rows.
    pub open spec fn rows(&self) -> nat {
        self.xl@.len()
    }

    /// The three columns have one length, at least one row, and hold field elements.
    pub open spec fn wf(&self) -> bool {
        &&& self.rows() >= 1
        &&& self.xr@.len() == self.rows()
        &&& self.ci@.len() == self.rows()
        &&& all_in_field(self.xl@)
        &&& all_in_field(self.xr@)
        &&& all_in_field(self.ci@)
    }

    /// Number of rows.
    pub fn length(&self) -> (r: usize)
        ensures
            r == self.rows(),
    {
        self.xl.len()
    }

    /// The value in `column` (0: `xl`, 1: `xr`, 2: the round constant) at `step`.
    pub fn get(&self, column: usize, step: usize) -> (r: u128)
        requires
            self.wf(),
            column < TRACE_WIDTH,
            step < self.rows(),
        ensures
            r == column_of(self, column)[step as int],
    {
        if column == 0 {
            self.xl[step]
        } else if column == 1 {
            self.xr[step]
        } else {
            self.ci[step]
        }
    }
}

/// A column of the trace by its index.
pub open spec fn column_of(t: &ExecutionTrace, column: usize) -> Seq<u128> {
    if column == 0 {
        t.xl@
    } else if column == 1 {
        t.xr@
    } else {
        t.ci@
    }
}

/// The trace is the run of the permutation on `(xl, xr)` under `cs`: row `i`
/// holds the state after `i` rounds and the constant of round `i` (zero in the
/// last row, which no round consumes).
pub open spec fn trace_follows(t: ExecutionTrace, xl: u128, xr: u128, cs: Seq<u128>) -> bool {
    &&& t.wf()
    &&& t.rows() == cs.len() + 1
    &&& forall|i: int|
        0 <= i < t.rows() ==> (#[trigger] t.xl@[i] as int, t.xr@[i] as int) == state_after(
            modulus(),
            xl as int,
            xr as int,
            ints(cs),
            i as nat,
        )
    &&& forall|i: int| 0 <= i < cs.len() ==> #[trigger] t.ci@[i] == cs[i]
    &&& t.ci@[cs.len() as int] == 0
}

/// The proving side of the STARK backend: its parameters and the trace builder.
pub struct MiMCProver {
    pub params: ProofParams,
    pub options: ProofOptions,
}

impl MiMCProver {
    /// A prover that proves under the legal parameters `params`; it holds them
    /// both as plain values and as winterfell's options.
    pub fn new(params: ProofParams) -> (r: MiMCProver)
        requires
            params.legal(),
        ensures
            r.params == params,
    {
        MiMCProver { params, options: to_proof_options(&params) }
    }

    /// The proof parameters, as winterfell's options.
    pub fn options(&self) -> (r: &ProofOptions)
        ensures
            *r == self.options,
    {
        &self.options
    }

    /// Fills the trace of the permutation of `(xl, xr)` under `round_constants`:
    /// one row per state, `round_constants.len() + 1` in all. That number of rows
    /// must be a power of two and at least eight; otherwise no trace is built.
    pub fn build_trace(&self, xl: u128, xr: u128, round_constants: &[u128]) -> (r: Result<
        ExecutionTrace,
        TraceError,
    >)
        requires
            xl < F128_MODULUS,
            xr < F128_MODULUS,
            all_in_field(round_constants@),
            round_constants@.len() < usize::MAX,
        ensures
            r == Err::<ExecutionTrace, TraceError>(TraceError::TooShort) <==> round_constants@.len()
                + 1 < MIN_TRACE_LENGTH,
            r == Err::<ExecutionTrace, TraceError>(TraceError::LengthNotPowerOfTwo) <==> (
            round_constants@.len() + 1 >= MIN_TRACE_LENGTH && !is_pow2(
                (round_constants@.len() + 1) as nat,
            )),
            r is Ok ==> trace_follows(r->Ok_0, xl, xr, round_constants@),
    {
        let n = round_constants.len();
        if n + 1 < MIN_TRACE_LENGTH {
            return Err(TraceError::TooShort);
        }
        if !is_power_of_two(n + 1) {
            return Err(TraceError::LengthNotPowerOfTwo);
        }
        let ghost cs = round_constants@;
        let mut xl_col: Vec<u128> = Vec::new();
        let mut xr_col: Vec<u128> = Vec::new();
        let mut ci_col: Vec<u128> = Vec::new();
        xl_col.push(xl);
        xr_col.push(xr);
        ci_col.push(round_constants[0]);
        let mut l: u128 = xl;
        let mut r: u128 = xr;
        let mut i: usize = 0;
        while i < n
            invariant
                n == cs.len(),
                cs == round_constants@,
                n >= 7,
                i <= n,
                all_in_field(cs),
                xl < F128_MODULUS,
                xr < F128_MODULUS,
                xl_col@.len() == i + 1,
                xr_col@.len() == i + 1,
                ci_col@.len() == i + 1,
                l == xl_col@[i as int],
                r == xr_col@[i as int],
                forall|j: int|
                    0 <= j <= i ==> (#[trigger] xl_col@[j] as int, xr_col@[j] as int)
                        == state_after(modulus(), xl as int, xr as int, ints(cs), j as nat),
                forall|j: int| 0 <= j <= i && j < n ==> #[trigger] ci_col@[j] == cs[j],
                i == n ==> ci_col@[i as int] == 0,
            decreases n - i,
        {
            proof {
                lemma_state_in_field(modulus(), xl as int, xr as int, ints(cs), i as nat);
            }
            let next_l = f128_add(r, f128_cube(f128_add(l, round_constants[i])));
            let next_c: u128 = if i + 1 < n {
                round_constants[i + 1]
            } else {
                0
            };
            r = l;
            l = next_l;
            xl_col.push(l);
            xr_col.push(r);
            ci_col.push(next_c);
            i = i + 1;
        }
        let t = ExecutionTrace { xl: xl_col, xr: xr_col, ci: ci_col };
        proof {
            assert forall|j: int| 0 <= j < t.rows() implies t.xl@[j] < F128_MODULUS && t.xr@[j]
                < F128_MODULUS by {
                lemma_state_in_field(modulus(), xl as int, xr as int, ints(cs), j as nat);
                assert((t.xl@[j] as int, t.xr@[j] as int) == state_after(
                    modulus(),
                    xl as int,
                    xr as int,
                    ints(cs),
                    j as nat,
                ));
            }
        }
        Ok(t)
    }

    /// The public inputs that the trace proves: its first `xl` and `xr`, its last
    /// `xl` as the image, and the round constants of every row but the last.
    pub fn get_pub_inputs(&self, trace: &ExecutionTrace) -> (r: PublicInputs)
        requires
            trace.wf(),
        ensures
            proves_inputs(*trace, r),
    {
        let last_step = trace.length() - 1;
        let mut round_constants: Vec<u128> = Vec::new();
        let mut i: usize = 0;
        while i < last_step
            invariant
                trace.wf(),
                last_step == trace.rows() - 1,
                i <= last_step,
                round_constants@ == trace.ci@.take(i as int),
            decreases last_step - i,
        {
            round_constants.push(trace.get(2, i));
            i = i + 1;
            assert(round_constants@ =~= trace.ci@.take(i as int));
        }
        PublicInputs {
            xl: trace.get(0, 0),
            xr: trace.get(1, 0),
            result: trace.get(0, last_step),
            round_constants,
        }
    }
}


/// The public inputs of the STARK statement.
#[derive(Debug)]
pub struct PublicInputs {
    pub xl: u128,
    pub xr: u128,
    pub result: u128,
    pub round_constants: Vec<u128>,
}

/// `p` holds the public inputs that the trace proves.
pub open spec fn proves_inputs(t: ExecutionTrace, p: PublicInputs) -> bool {
    &&& p.xl == t.xl@[0]
    &&& p.xr == t.xr@[0]
    &&& p.result == t.xl@[t.rows() - 1]
    &&& p.round_constants@ == t.ci@.take(t.rows() - 1)
}

impl PublicInputs {
    /// The public inputs as a list of field elements: `xl`, `xr`, the image, then
    /// the round constants in order.
    pub fn to_elements(&self) -> (r: Vec<u128>)
        ensures
            r@ == seq![self.xl, self.xr, self.result] + self.round_constants@,
    {
        let mut r: Vec<u128> = Vec::new();
        r.push(self.xl);
        r.push(self.xr);
        r.push(self.result);
        let mut i: usize = 0;
        while i < self.round_constants.len()
            invariant
                i <= self.round_constants@.len(),
                r@ == seq![self.xl, self.xr, self.result] + self.round_constants@.take(i as int),
            decreases self.round_constants@.len() - i,
        {
            r.push(self.round_constants[i]);
            i = i + 1;
            assert(r@ =~= seq![self.xl, self.xr, self.result] + self.round_constants@.take(
                i as int,
            ));
        }
        assert(self.round_constants@.take(i as int) =~= self.round_constants@);
        r
    }
}

// ---------------------------------------------------------------------------
// the AIR

/// A boundary assertion: the trace holds `value` in `column` at `step`.
#[derive(Clone, Copy, Debug, PartialEq, Eq)]
pub struct Assertion {
    pub column: usize,
    pub step: usize,
    pub value: u128,
}

/// The algebraic intermediate representation of the permutation for one
/// statement: the trace length and the values that the boundary pins.
#[derive(Clone, Copy, Debug, PartialEq, Eq)]
pub struct MiMCAir {
    pub trace_length: usize,
    pub xl: u128,
    pub xr: u128,
    pub result: u128,
}

/// The two transition residuals from row `cur` to row `next`, each a triple
/// `(xl, xr, round constant)`: `next_xl - (xr + (xl + c)^3)` and `next_xr - xl`.
pub open spec fn residuals(cur: (int, int, int), next: (int, int, int)) -> (int, int) {
    (
        fsub(
            modulus(),
            next.0,
            fadd(modulus(), cur.1, fcube(modulus(), fadd(modulus(), cur.0, cur.2))),
        ),
        fsub(modulus(), next.1, cur.0),
    )
}

/// Row `i` of the trace.
pub open spec fn row(t: ExecutionTrace, i: int) -> (int, int, int) {
    (t.xl@[i] as int, t.xr@[i] as int, t.ci@[i] as int)
}

/// Every transition of the trace has zero residuals.
pub open spec fn transitions_hold(t: ExecutionTrace) -> bool {
    forall|i: int|
        0 <= i < t.rows() - 1 ==> #[trigger] residuals(row(t, i), row(t, i + 1)) == (0int, 0int)
}

/// The AIR accepts the trace: its length, every transition and the three
/// boundary assertions hold.
pub open spec fn air_accepts(air: MiMCAir, t: ExecutionTrace) -> bool {
    &&& t.rows() == air.trace_length
    &&& transitions_hold(t)
    &&& t.xl@[0] == air.xl
    &&& t.xr@[0] == air.xr
    &&& t.xl@[t.rows() - 1] == air.result
}

/// The boundary assertions of an AIR: `xl` and `xr` in the first row, the
/// image as `xl` in the last.
pub open spec fn assertions_of(air: MiMCAir) -> Seq<Assertion> {
    seq![
        Assertion { column: 0, step: 0, value: air.xl },
        Assertion { column: 1, step: 0, value: air.xr },
        Assertion { column: 0, step: (air.trace_length - 1) as usize, value: air.result },
    ]
}

impl MiMCAir {
    /// The AIR of a trace of `trace_width` columns and `trace_length` rows that
    /// proves `pub_inputs`.
    pub fn new(trace_width: usize, trace_length: usize, pub_inputs: &PublicInputs) -> (r: MiMCAir)
        requires
            trace_width == TRACE_WIDTH,
        ensures
            r == (MiMCAir {
                trace_length,
                xl: pub_inputs.xl,
                xr: pub_inputs.xr,
                result: pub_inputs.result,
            }),
    {
        MiMCAir { trace_length, xl: pub_inputs.xl, xr: pub_inputs.xr, result: pub_inputs.result }
    }

    /// The degree of each transition constraint: three for the cubing one and
    /// one for the copy; they do not depend on the number of rounds.
    pub fn transition_degrees(&self) -> (r: Vec<usize>)
        ensures
            r@ == seq![3usize, 1usize],
    {
        let mut r: Vec<usize> = Vec::new();
        r.push(3);
        r.push(1);
        assert(r@ =~= seq![3usize, 1usize]);
        r
    }

    /// The number of boundary assertions.
    pub fn num_assertions(&self) -> (r: usize)
        ensures
            r == 3,
    {
        3
    }

    /// The residuals of the transition from `current` to `next` (each a row of
    /// three field elements): zero exactly where `next` is one round of `current`.
    pub fn evaluate_transition(&self, current: &[u128], next: &[u128]) -> (r: [u128; 2])
        requires
            current@.len() == TRACE_WIDTH,
            next@.len() == TRACE_WIDTH,
            all_in_field(current@),
            all_in_field(next@),
        ensures
            (r[0] as int, r[1] as int) == residuals(
                (current@[0] as int, current@[1] as int, current@[2] as int),
                (next@[0] as int, next@[1] as int, next@[2] as int),
            ),
    {
        let current_xl = current[0];
        let current_xr = current[1];
        let current_ci = current[2];
        let next_xl = next[0];
        let next_xr = next[1];
        let expected_xl = f128_add(current_xr, f128_cube(f128_add(current_xl, current_ci)));
        let expected_xr = current_xl;
        [are_equal(next_xl, expected_xl), are_equal(next_xr, expected_xr)]
    }

    /// The boundary assertions: `xl` and `xr` in the first row, the image as
    /// `xl` in the last.
    pub fn get_assertions(&self) -> (r: Vec<Assertion>)
        requires
            self.trace_length >= 1,
        ensures
            r@ == assertions_of(*self),
    {
        let last_step = self.trace_length - 1;
        let mut r: Vec<Assertion> = Vec::new();
        r.push(Assertion { column: 0, step: 0, value: self.xl });
        r.push(Assertion { column: 1, step: 0, value: self.xr });
        r.push(Assertion { column: 0, step: last_step, value: self.result });
        assert(r@ =~= seq![
            Assertion { column: 0, step: 0, value: self.xl },
            Assertion { column: 1, step: 0, value: self.xr },
            Assertion { column: 0, step: last_step, value: self.result },
        ]);
        r
    }
}

// ---------------------------------------------------------------------------
// laws

/// A step with zero residuals between field elements is one MiMC round.
proof fn lemma_zero_residuals_are_a_round(cur: (int, int, int), next: (int, int, int))
    requires
        0 <= cur.0 < modulus(),
        0 <= next.0 < modulus(),
        0 <= next.1 < modulus(),
    ensures
        residuals(cur, next) == (0int, 0int) <==> (next.0, next.1) == round(
            modulus(),
            (cur.0, cur.1),
            cur.2,
        ),
{
    let e = fadd(modulus(), cur.1, fcube(modulus(), fadd(modulus(), cur.0, cur.2)));
    vstd::arithmetic::div_mod::lemma_mod_bound(
        cur.1 + fcube(modulus(), fadd(modulus(), cur.0, cur.2)),
        modulus(),
    );
    lemma_fsub_zero(modulus(), next.0, e);
    lemma_fsub_zero(modulus(), next.1, cur.0);
}

/// In a trace whose transitions hold and whose constant column starts with
/// `cs`, row `k` holds the state after `k` rounds from the first row.
proof fn lemma_rows_are_states(t: ExecutionTrace, cs: Seq<u128>, k: nat)
    requires
        t.wf(),
        transitions_hold(t),
        k < t.rows(),
        k <= cs.len(),
        forall|i: int| 0 <= i < k ==> t.ci@[i] == cs[i],
    ensures
        (t.xl@[k as int] as int, t.xr@[k as int] as int) == state_after(
            modulus(),
            t.xl@[0] as int,
            t.xr@[0] as int,
            ints(cs),
            k,
        ),
    decreases k,
{
    if k > 0 {
        let j = k - 1;
        lemma_rows_are_states(t, cs, j as nat);
        assert(residuals(row(t, j), row(t, j + 1)) == (0int, 0int));
        lemma_zero_residuals_are_a_round(row(t, j), row(t, j + 1));
    }
}

/// Soundness of the AIR: a trace that it accepts, whose constant column starts
/// with the round constants, proves the true image of its preimage.
pub proof fn lemma_air_sound(air: MiMCAir, t: ExecutionTrace, cs: Seq<u128>)
    requires
        t.wf(),
        air_accepts(air, t),
        cs.len() + 1 == t.rows(),
        forall|i: int| 0 <= i < cs.len() ==> t.ci@[i] == cs[i],
    ensures
        air.result as int == mimc_spec(modulus(), air.xl as int, air.xr as int, ints(cs)),
{
    lemma_rows_are_states(t, cs, cs.len());
}

/// The public inputs that a built trace proves carry its preimage, its round
/// constants and the true image; and the AIR of a statement on that preimage
/// accepts the trace exactly when the statement's image is the true one.
pub proof fn lemma_trace_proves_image(
    t: ExecutionTrace,
    xl: u128,
    xr: u128,
    cs: Seq<u128>,
    inputs: PublicInputs,
    trace_length: usize,
    result: u128,
)
    requires
        trace_follows(t, xl, xr, cs),
        proves_inputs(t, inputs),
        xl < F128_MODULUS,
        xr < F128_MODULUS,
        trace_length == t.rows(),
    ensures
        inputs.xl == xl,
        inputs.xr == xr,
        inputs.round_constants@ == cs,
        inputs.result as int == mimc_spec(modulus(), xl as int, xr as int, ints(cs)),
        air_accepts(MiMCAir { trace_length, xl, xr, result }, t) <==> result as int == mimc_spec(
            modulus(),
            xl as int,
            xr as int,
            ints(cs),
        ),
{
    let p = modulus();
    assert(t.ci@.take(t.rows() - 1) =~= cs);
    assert((t.xl@[0] as int, t.xr@[0] as int) == state_after(p, xl as int, xr as int, ints(cs), 0));
    assert forall|i: int| 0 <= i < t.rows() - 1 implies #[trigger] residuals(
        row(t, i),
        row(t, i + 1),
    ) == (0int, 0int) by {
        assert((t.xl@[i] as int, t.xr@[i] as int) == state_after(
            p,
            xl as int,
            xr as int,
            ints(cs),
            i as nat,
        ));
        assert((t.xl@[i + 1] as int, t.xr@[i + 1] as int) == state_after(
            p,
            xl as int,
            xr as int,
            ints(cs),
            (i + 1) as nat,
        ));
        assert(t.ci@[i] == cs[i]);
        lemma_zero_residuals_are_a_round(row(t, i), row(t, i + 1));
    }
    let n = cs.len() as int;
    assert((t.xl@[n] as int, t.xr@[n] as int) == state_after(
        p,
        xl as int,
        xr as int,
        ints(cs),
        n as nat,
    ));
}


/// The AIR built from the public inputs of a built trace asserts the
/// preimage in the first row and the true image in the last.
pub proof fn lemma_boundary_asserts_image(
    t: ExecutionTrace,
    xl: u128,
    xr: u128,
    cs: Seq<u128>,
    inputs: PublicInputs,
    air: MiMCAir,
)
    requires
        trace_follows(t, xl, xr, cs),
        proves_inputs(t, inputs),
        xl < F128_MODULUS,
        xr < F128_MODULUS,
        air == (MiMCAir {
            trace_length: air.trace_length,
            xl: inputs.xl,
            xr: inputs.xr,
            result: inputs.result,
        }),
        air.trace_length == t.rows(),
    ensures
        assertions_of(air)[0] == (Assertion { column: 0, step: 0, value: xl }),
        assertions_of(air)[1] == (Assertion { column: 1, step: 0, value: xr }),
        assertions_of(air)[2].column == 0,
        assertions_of(air)[2].step == cs.len(),
        assertions_of(air)[2].value as int == mimc_spec(modulus(), xl as int, xr as int, ints(cs)),
{
    lemma_trace_proves_image(t, xl, xr, cs, inputs, air.trace_length, inputs.result);
}

} // verus!
