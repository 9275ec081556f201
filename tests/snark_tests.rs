use bls12_381::Scalar;
use ff::Field;
use nizkp_benchmark::field::BlsScalar;
use nizkp_benchmark::snark::{
    mimc, ConstraintSystem, LinearCombination, MiMCCircuit, SynthesisError, Variable,
};
use bellman::groth16::{
    create_random_proof, generate_random_parameters, prepare_verifying_key, verify_proof,
};
use bellman::Index;
use nizkp_benchmark::RANDOMNESS_SEED;
use rand::{rngs::StdRng, SeedableRng};

fn bytes(s: &Scalar) -> BlsScalar {
    BlsScalar { bytes: s.to_bytes() }
}

fn scalar(s: &BlsScalar) -> Scalar {
    Scalar::from_bytes(&s.bytes).unwrap()
}

fn seeded_instance(rounds: usize) -> (Vec<BlsScalar>, BlsScalar, BlsScalar) {
    let mut rng = StdRng::from_seed(RANDOMNESS_SEED);
    let constants = (0..rounds).map(|_| bytes(&Scalar::random(&mut rng))).collect();
    let xl = bytes(&Scalar::random(&mut rng));
    let xr = bytes(&Scalar::random(&mut rng));
    (constants, xl, xr)
}

fn reference_mimc(xl: Scalar, xr: Scalar, constants: &[BlsScalar]) -> Scalar {
    let (mut l, mut r) = (xl, xr);
    for c in constants {
        let t = l + scalar(c);
        let next = t * t * t + r;
        r = l;
        l = next;
    }
    l
}

fn value(cs: &ConstraintSystem, v: &Variable) -> Scalar {
    match v {
        Variable::Input(i) => scalar(cs.inputs[*i].as_ref().unwrap()),
        Variable::Aux(i) => scalar(cs.aux[*i].as_ref().unwrap()),
    }
}

fn eval(cs: &ConstraintSystem, lc: &LinearCombination) -> Scalar {
    lc.terms.iter().fold(Scalar::ZERO, |acc, (v, c)| acc + scalar(c) * value(cs, v))
}

fn satisfied(cs: &ConstraintSystem) -> Vec<bool> {
    cs.constraints.iter().map(|(a, b, c)| eval(cs, a) * eval(cs, b) == eval(cs, c)).collect()
}

#[test]
fn snark_mimc_matches_field_arithmetic() {
    let (constants, xl, xr) = seeded_instance(255);
    let image = mimc(xl, xr, &constants);
    assert_eq!(scalar(&image), reference_mimc(scalar(&xl), scalar(&xr), &constants));
}

#[test]
fn snark_mimc_small_values() {
    let s = |n: u64| bytes(&Scalar::from(n));
    assert_eq!(mimc(s(2), s(5), &[s(1)]), s(32));
    assert_eq!(mimc(s(2), s(5), &[]), s(2));
    assert_eq!(mimc(s(2), s(5), &[s(1), s(0)]), s(2 + 32 * 32 * 32));
}

#[test]
fn snark_circuit_proves_true_image() {
    let (constants, xl, xr) = seeded_instance(255);
    let image = mimc(xl, xr, &constants);
    let circuit = MiMCCircuit { xl: Some(xl), xr: Some(xr), constants };
    let mut cs = ConstraintSystem::new(true);
    assert_eq!(circuit.synthesize(255, &mut cs), Ok(()));
    assert_eq!(cs.inputs.len(), 2);
    assert_eq!(cs.aux.len(), 2 + 2 * 255 - 1);
    assert_eq!(cs.constraints.len(), 2 * 255);
    assert_eq!(cs.inputs[1], Some(image));
    assert!(satisfied(&cs).iter().all(|ok| *ok));
}

#[test]
fn snark_circuit_rejects_perturbed_image() {
    let (constants, xl, xr) = seeded_instance(15);
    let circuit = MiMCCircuit { xl: Some(xl), xr: Some(xr), constants };
    let mut cs = ConstraintSystem::new(true);
    circuit.synthesize(15, &mut cs).unwrap();
    let image = cs.inputs[1].unwrap();
    cs.inputs[1] = Some(bytes(&(scalar(&image) + Scalar::ONE)));
    let ok = satisfied(&cs);
    assert!(!ok[ok.len() - 1]);
}

#[test]
fn snark_circuit_rejects_tampered_constant() {
    let (constants, xl, xr) = seeded_instance(255);
    let prover = MiMCCircuit { xl: Some(xl), xr: Some(xr), constants: constants.clone() };
    let mut assigned = ConstraintSystem::new(true);
    prover.synthesize(255, &mut assigned).unwrap();
    let mut tampered = constants;
    tampered[130].bytes[0] ^= 1;
    let verifier = MiMCCircuit { xl: None, xr: None, constants: tampered };
    let mut shape = ConstraintSystem::new(false);
    verifier.synthesize(255, &mut shape).unwrap();
    // the prover's values under the verifier's constraints
    shape.inputs = assigned.inputs.clone();
    shape.aux = assigned.aux.clone();
    assert!(satisfied(&shape).iter().any(|ok| !*ok));
}

#[test]
fn snark_setup_needs_no_witness() {
    let (constants, _, _) = seeded_instance(7);
    let circuit = MiMCCircuit { xl: None, xr: None, constants };
    let mut cs = ConstraintSystem::new(false);
    assert_eq!(circuit.synthesize(7, &mut cs), Ok(()));
    assert_eq!(cs.constraints.len(), 14);
    assert_eq!(cs.inputs.len(), 2);
}

#[test]
fn snark_missing_assignment() {
    let (constants, xl, _) = seeded_instance(7);
    let circuit = MiMCCircuit { xl: Some(xl), xr: None, constants };
    let mut cs = ConstraintSystem::new(true);
    assert_eq!(circuit.synthesize(7, &mut cs), Err(SynthesisError::AssignmentMissing));
}

#[test]
fn snark_shape_mismatch() {
    let (constants, xl, xr) = seeded_instance(7);
    let circuit = MiMCCircuit { xl: Some(xl), xr: Some(xr), constants };
    let mut cs = ConstraintSystem::new(true);
    assert_eq!(circuit.synthesize(8, &mut cs), Err(SynthesisError::ShapeMismatch));
    assert_eq!(cs.constraints.len(), 0);
}

struct Replay<'a> {
    record: &'a ConstraintSystem,
}

impl<'a> bellman::Circuit<Scalar> for Replay<'a> {
    fn synthesize<CS: bellman::ConstraintSystem<Scalar>>(
        self,
        cs: &mut CS,
    ) -> Result<(), bellman::SynthesisError> {
        let to_var = |v: &Variable| match v {
            Variable::Input(i) => bellman::Variable::new_unchecked(Index::Input(*i)),
            Variable::Aux(i) => bellman::Variable::new_unchecked(Index::Aux(*i)),
        };
        let to_lc = |lc: &LinearCombination| {
            lc.terms
                .iter()
                .fold(bellman::LinearCombination::zero(), |acc, (v, c)| acc + (scalar(c), to_var(v)))
        };
        for value in &self.record.aux {
            let value = value.as_ref().map(scalar);
            cs.alloc(|| "aux", || value.ok_or(bellman::SynthesisError::AssignmentMissing))?;
        }
        for value in self.record.inputs.iter().skip(1) {
            let value = value.as_ref().map(scalar);
            cs.alloc_input(|| "input", || value.ok_or(bellman::SynthesisError::AssignmentMissing))?;
        }
        for (a, b, c) in &self.record.constraints {
            cs.enforce(|| "constraint", |_| to_lc(a), |_| to_lc(b), |_| to_lc(c));
        }
        Ok(())
    }
}

#[test]
fn snark_real_proof_round_trip() {
    let (constants, xl, xr) = seeded_instance(7);
    let mut rng = StdRng::from_seed([9u8; 32]);
    let setup = MiMCCircuit { xl: None, xr: None, constants: constants.clone() };
    let mut shape = ConstraintSystem::new(false);
    setup.synthesize(7, &mut shape).unwrap();
    let params =
        generate_random_parameters::<bls12_381::Bls12, _, _>(Replay { record: &shape }, &mut rng)
            .unwrap();
    let pvk = prepare_verifying_key(&params.vk);

    let witness = MiMCCircuit { xl: Some(xl), xr: Some(xr), constants: constants.clone() };
    let mut assigned = ConstraintSystem::new(true);
    witness.synthesize(7, &mut assigned).unwrap();
    let proof = create_random_proof(Replay { record: &assigned }, &params, &mut rng).unwrap();

    let image = scalar(&mimc(xl, xr, &constants));
    assert!(verify_proof(&pvk, &proof, &[image]).is_ok());
    assert!(verify_proof(&pvk, &proof, &[image + Scalar::ONE]).is_err());
}

#[test]
fn snark_same_seed_same_instance() {
    let a = seeded_instance(255);
    let b = seeded_instance(255);
    assert_eq!(a, b);
    assert_eq!(mimc(a.1, a.2, &a.0), mimc(b.1, b.2, &b.0));
}

#[test]
fn snark_setup_and_proving_share_constraints() {
    let (constants, xl, xr) = seeded_instance(15);
    let setup = MiMCCircuit { xl: None, xr: None, constants: constants.clone() };
    let witness = MiMCCircuit { xl: Some(xl), xr: Some(xr), constants };
    let mut a = ConstraintSystem::new(false);
    let mut b = ConstraintSystem::new(true);
    setup.synthesize(15, &mut a).unwrap();
    witness.synthesize(15, &mut b).unwrap();
    assert_eq!(format!("{:?}", a.constraints), format!("{:?}", b.constraints));
    assert_eq!(a.aux.len(), 2 * 15 + 1);
    assert_eq!(b.aux.len(), 2 * 15 + 1);
}

#[test]
fn snark_shape_mismatch_leaves_system_unchanged() {
    let (constants, xl, xr) = seeded_instance(7);
    let circuit = MiMCCircuit { xl: Some(xl), xr: Some(xr), constants };
    let mut cs = ConstraintSystem::new(true);
    assert_eq!(circuit.synthesize(6, &mut cs), Err(SynthesisError::ShapeMismatch));
    assert_eq!(cs.inputs.len(), 1);
    assert_eq!(cs.aux.len(), 0);
    assert_eq!(cs.constraints.len(), 0);
}
