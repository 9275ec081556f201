use nizkp_benchmark::field::F128_MODULUS;
use nizkp_benchmark::stark::{
    are_equal, is_power_of_two, mimc, proof_options, Extension, MiMCAir, MiMCProver,
    OptionsError, TraceError, MIN_TRACE_LENGTH, TRACE_WIDTH,
};
use rand::{rngs::StdRng, RngCore, SeedableRng};
use winterfell::math::fields::f128::BaseElement;
use winterfell::math::{FieldElement, StarkField};

fn default_prover() -> MiMCProver {
    MiMCProver::new(proof_options(42, 8, 16, Extension::Base, 8, 31).unwrap())
}

fn seeded_instance(rounds: usize) -> (Vec<u128>, u128, u128) {
    let mut rng = StdRng::from_seed(nizkp_benchmark::RANDOMNESS_SEED);
    let constants: Vec<u128> = (0..rounds).map(|_| rng.next_u64() as u128).collect();
    let xl = rng.next_u64() as u128;
    let xr = rng.next_u64() as u128;
    (constants, xl, xr)
}

fn reference_mimc(xl: u128, xr: u128, constants: &[u128]) -> u128 {
    let mut l = BaseElement::new(xl);
    let mut r = BaseElement::new(xr);
    for c in constants {
        let next = r + (l + BaseElement::new(*c)).cube();
        r = l;
        l = next;
    }
    l.as_int()
}

#[test]
fn stark_mimc_matches_field_arithmetic() {
    let (constants, xl, xr) = seeded_instance(255);
    assert_eq!(mimc(xl, xr, &constants), reference_mimc(xl, xr, &constants));
}

#[test]
fn stark_mimc_small_values() {
    // one round: xr + (xl + c)^3 = 5 + (2 + 1)^3 = 32
    assert_eq!(mimc(2, 5, &[1]), 32);
    // no rounds: the image is xl
    assert_eq!(mimc(9, 4, &[]), 9);
    // two rounds: (2, 5) -> (32, 2) -> (2 + (32 + 0)^3, 32)
    assert_eq!(mimc(2, 5, &[1, 0]), 2 + 32 * 32 * 32);
}

#[test]
fn stark_mimc_wraps_modulo_the_prime() {
    let top = F128_MODULUS - 1;
    // (p - 1 + 2)^3 = 1 in the field
    assert_eq!(mimc(top, 0, &[2]), 1);
}

#[test]
fn stark_are_equal_is_difference() {
    assert_eq!(are_equal(7, 7), 0);
    assert_eq!(are_equal(7, 5), 2);
    assert_eq!(are_equal(5, 7), F128_MODULUS - 2);
}

#[test]
fn stark_trace_follows_rounds() {
    let (constants, xl, xr) = seeded_instance(255);
    let trace = default_prover().build_trace(xl, xr, &constants).unwrap();
    assert_eq!(trace.length(), 256);
    assert_eq!(trace.get(0, 0), xl);
    assert_eq!(trace.get(1, 0), xr);
    assert_eq!(trace.get(2, 0), constants[0]);
    assert_eq!(trace.get(2, 254), constants[254]);
    assert_eq!(trace.get(2, 255), 0);
    assert_eq!(trace.get(0, 255), mimc(xl, xr, &constants));
    assert_eq!(trace.get(1, 1), xl);
}

#[test]
fn stark_trace_rejects_six_rounds() {
    let (constants, xl, xr) = seeded_instance(6);
    let r = default_prover().build_trace(xl, xr, &constants);
    assert!(matches!(r, Err(TraceError::TooShort)));
}

#[test]
fn stark_trace_rejects_length_not_power_of_two() {
    let (constants, xl, xr) = seeded_instance(9);
    let r = default_prover().build_trace(xl, xr, &constants);
    assert!(matches!(r, Err(TraceError::LengthNotPowerOfTwo)));
    let (constants, xl, xr) = seeded_instance(8);
    let r = default_prover().build_trace(xl, xr, &constants);
    assert!(matches!(r, Err(TraceError::LengthNotPowerOfTwo)));
}

#[test]
fn stark_trace_accepts_smallest_shape() {
    let (constants, xl, xr) = seeded_instance(MIN_TRACE_LENGTH - 1);
    let trace = default_prover().build_trace(xl, xr, &constants).unwrap();
    assert_eq!(trace.length(), 8);
}

#[test]
fn stark_public_inputs_and_air() {
    let (constants, xl, xr) = seeded_instance(15);
    let prover = default_prover();
    let trace = prover.build_trace(xl, xr, &constants).unwrap();
    let inputs = prover.get_pub_inputs(&trace);
    assert_eq!(inputs.xl, xl);
    assert_eq!(inputs.xr, xr);
    assert_eq!(inputs.result, mimc(xl, xr, &constants));
    assert_eq!(inputs.round_constants, constants);
    let elements = inputs.to_elements();
    assert_eq!(elements.len(), 3 + 15);
    assert_eq!(elements[2], inputs.result);
    assert_eq!(elements[3], constants[0]);

    let air = MiMCAir::new(TRACE_WIDTH, trace.length(), &inputs);
    assert_eq!(air.transition_degrees(), vec![3, 1]);
    assert_eq!(air.num_assertions(), 3);
    let assertions = air.get_assertions();
    assert_eq!(assertions.len(), 3);
    assert_eq!((assertions[2].column, assertions[2].step, assertions[2].value), (0, 15, inputs.result));
    for step in 0..trace.length() - 1 {
        let cur = [trace.get(0, step), trace.get(1, step), trace.get(2, step)];
        let next = [trace.get(0, step + 1), trace.get(1, step + 1), trace.get(2, step + 1)];
        assert_eq!(air.evaluate_transition(&cur, &next), [0, 0]);
    }
    // a wrong next row leaves a residual
    let cur = [trace.get(0, 3), trace.get(1, 3), trace.get(2, 3)];
    let next = [trace.get(0, 4) ^ 1, trace.get(1, 4), trace.get(2, 4)];
    assert_ne!(air.evaluate_transition(&cur, &next)[0], 0);
}

#[test]
fn stark_same_seed_same_instance() {
    let a = seeded_instance(255);
    let b = seeded_instance(255);
    assert_eq!(a, b);
    assert_eq!(mimc(a.1, a.2, &a.0), mimc(b.1, b.2, &b.0));
}

#[test]
fn stark_options_ranges() {
    let params = proof_options(42, 8, 16, Extension::Quadratic, 8, 31).unwrap();
    assert_eq!(params.num_queries, 42);
    assert_eq!(params.blowup_factor, 8);
    assert_eq!(params.grinding_factor, 16);
    assert_eq!(params.field_extension, Extension::Quadratic);
    assert_eq!(params.fri_folding_factor, 8);
    assert_eq!(params.fri_remainder_max_degree, 31);
    let prover = MiMCProver::new(params);
    assert_eq!(prover.params, params);
    assert_eq!(prover.options().num_queries(), 42);
    assert_eq!(prover.options().blowup_factor(), 8);
    assert_eq!(proof_options(0, 8, 16, Extension::Base, 8, 31).err(), Some(OptionsError::NumQueries));
    assert_eq!(proof_options(256, 8, 16, Extension::Base, 8, 31).err(), Some(OptionsError::NumQueries));
    assert_eq!(proof_options(42, 6, 16, Extension::Base, 8, 31).err(), Some(OptionsError::BlowupFactor));
    assert_eq!(proof_options(42, 256, 16, Extension::Base, 8, 31).err(), Some(OptionsError::BlowupFactor));
    assert_eq!(proof_options(42, 8, 33, Extension::Base, 8, 31).err(), Some(OptionsError::GrindingFactor));
    assert_eq!(proof_options(42, 8, 16, Extension::Base, 32, 31).err(), Some(OptionsError::FriFoldingFactor));
    assert_eq!(proof_options(42, 8, 16, Extension::Base, 8, 30).err(), Some(OptionsError::FriRemainderMaxDegree));
    assert_eq!(proof_options(42, 8, 16, Extension::Base, 8, 511).err(), Some(OptionsError::FriRemainderMaxDegree));
}

#[test]
fn stark_power_of_two() {
    assert!(is_power_of_two(1));
    assert!(is_power_of_two(256));
    assert!(!is_power_of_two(0));
    assert!(!is_power_of_two(7));
}
