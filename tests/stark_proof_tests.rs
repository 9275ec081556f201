use nizkp_benchmark::stark::{
    mimc, proof_options, ExecutionTrace, Extension, MiMCProver, PublicInputs, TRACE_WIDTH,
};
use nizkp_benchmark::RANDOMNESS_SEED;
use rand::{rngs::StdRng, RngCore, SeedableRng};
use winterfell::{
    crypto::{hashers::Blake3_256, DefaultRandomCoin},
    math::{fields::f128::BaseElement, FieldElement, StarkField, ToElements},
    matrix::ColMatrix,
    AcceptableOptions, Air, AirContext, Assertion, AuxTraceRandElements,
    ConstraintCompositionCoefficients, DefaultConstraintEvaluator, DefaultTraceLde,
    EvaluationFrame, ProofOptions, Prover, StarkDomain, Trace, TraceInfo, TracePolyTable,
    TraceTable, TransitionConstraintDegree,
};

type Hasher = Blake3_256<BaseElement>;

struct Inputs(PublicInputs);

impl ToElements<BaseElement> for Inputs {
    fn to_elements(&self) -> Vec<BaseElement> {
        self.0.to_elements().into_iter().map(BaseElement::new).collect()
    }
}

struct TestAir {
    context: AirContext<BaseElement>,
    air: nizkp_benchmark::stark::MiMCAir,
}

impl Air for TestAir {
    type BaseField = BaseElement;
    type PublicInputs = Inputs;

    fn new(trace_info: TraceInfo, pub_inputs: Inputs, options: ProofOptions) -> Self {
        let air = nizkp_benchmark::stark::MiMCAir::new(TRACE_WIDTH, trace_info.length(), &pub_inputs.0);
        let degrees = air.transition_degrees().into_iter().map(TransitionConstraintDegree::new).collect();
        TestAir { context: AirContext::new(trace_info, degrees, air.num_assertions(), options), air }
    }

    fn evaluate_transition<E: FieldElement + From<BaseElement>>(
        &self,
        frame: &EvaluationFrame<E>,
        _periodic_values: &[E],
        result: &mut [E],
    ) {
        let current = frame.current();
        let next = frame.next();
        result[0] += next[0] - (current[1] + (current[0] + current[2]).cube());
        result[1] += next[1] - current[0];
    }

    fn get_assertions(&self) -> Vec<Assertion<BaseElement>> {
        self.air
            .get_assertions()
            .into_iter()
            .map(|a| Assertion::single(a.column, a.step, BaseElement::new(a.value)))
            .collect()
    }

    fn context(&self) -> &AirContext<BaseElement> {
        &self.context
    }
}

struct TestProver(MiMCProver);

impl Prover for TestProver {
    type BaseField = BaseElement;
    type Air = TestAir;
    type Trace = TraceTable<BaseElement>;
    type HashFn = Hasher;
    type RandomCoin = DefaultRandomCoin<Hasher>;
    type TraceLde<E: FieldElement<BaseField = BaseElement>> = DefaultTraceLde<E, Hasher>;
    type ConstraintEvaluator<'a, E: FieldElement<BaseField = BaseElement>> =
        DefaultConstraintEvaluator<'a, TestAir, E>;

    fn get_pub_inputs(&self, trace: &Self::Trace) -> Inputs {
        let column = |c: usize| (0..trace.length()).map(|i| trace.get(c, i).as_int()).collect();
        let t = ExecutionTrace { xl: column(0), xr: column(1), ci: column(2) };
        Inputs(self.0.get_pub_inputs(&t))
    }

    fn options(&self) -> &ProofOptions {
        self.0.options()
    }

    fn new_trace_lde<E: FieldElement<BaseField = BaseElement>>(
        &self,
        trace_info: &TraceInfo,
        main_trace: &ColMatrix<BaseElement>,
        domain: &StarkDomain<BaseElement>,
    ) -> (Self::TraceLde<E>, TracePolyTable<E>) {
        DefaultTraceLde::new(trace_info, main_trace, domain)
    }

    fn new_evaluator<'a, E: FieldElement<BaseField = BaseElement>>(
        &self,
        air: &'a TestAir,
        aux_rand_elements: AuxTraceRandElements<E>,
        composition_coefficients: ConstraintCompositionCoefficients<E>,
    ) -> Self::ConstraintEvaluator<'a, E> {
        DefaultConstraintEvaluator::new(air, aux_rand_elements, composition_coefficients)
    }
}

fn verify_with(rounds: usize, image_shift: u128, flip_constant: Option<usize>) -> bool {
    let params = proof_options(42, 8, 16, Extension::Base, 8, 31).unwrap();
    let prover = TestProver(MiMCProver::new(params));
    let acceptable = AcceptableOptions::OptionSet(vec![prover.0.options().clone()]);
    let mut rng = StdRng::from_seed(RANDOMNESS_SEED);
    let constants: Vec<u128> = (0..rounds).map(|_| rng.next_u64() as u128).collect();
    let xl = rng.next_u64() as u128;
    let xr = rng.next_u64() as u128;
    let image = mimc(xl, xr, &constants);

    let trace = prover.0.build_trace(xl, xr, &constants).unwrap();
    let column = |c: &Vec<u128>| c.iter().copied().map(BaseElement::new).collect::<Vec<_>>();
    let table = TraceTable::init(vec![column(&trace.xl), column(&trace.xr), column(&trace.ci)]);
    let proof = prover.prove(table).unwrap();

    let mut round_constants = constants;
    if let Some(i) = flip_constant {
        round_constants[i] ^= 1;
    }
    let inputs = Inputs(PublicInputs { xl, xr, result: image + image_shift, round_constants });
    winterfell::verify::<TestAir, Hasher, DefaultRandomCoin<Hasher>>(proof, inputs, &acceptable).is_ok()
}

#[test]
fn stark_real_proof_round_trip() {
    assert!(verify_with(7, 0, None));
    assert!(!verify_with(7, 1, None));
}

#[test]
fn stark_real_proof_full_rounds() {
    assert!(verify_with(255, 0, None));
    assert!(!verify_with(255, 0, Some(130)));
}
