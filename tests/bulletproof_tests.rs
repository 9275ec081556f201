use curve25519_dalek_ng::scalar::Scalar;
use nizkp_benchmark::bulletproof::{
    check_generators, gens_capacity, mimc, mimc_gadget, padded_length, AllocatedScalar,
    ConstraintSystem, LinearCombination, R1CSError, Variable,
};
use nizkp_benchmark::field::DalekScalarBytes;
use bulletproofs::r1cs::{Prover, Verifier};
use bulletproofs::{BulletproofGens, PedersenGens};
use merlin::Transcript;
use nizkp_benchmark::RANDOMNESS_SEED;
use rand::{rngs::StdRng, SeedableRng};

fn bytes(s: &Scalar) -> DalekScalarBytes {
    DalekScalarBytes { bytes: s.to_bytes() }
}

fn scalar(s: &DalekScalarBytes) -> Scalar {
    Scalar::from_canonical_bytes(s.bytes).unwrap()
}

fn seeded_instance(rounds: usize) -> (Vec<DalekScalarBytes>, DalekScalarBytes, DalekScalarBytes) {
    let mut rng = StdRng::from_seed(RANDOMNESS_SEED);
    let constants = (0..rounds).map(|_| bytes(&Scalar::random(&mut rng))).collect();
    let xl = bytes(&Scalar::random(&mut rng));
    let xr = bytes(&Scalar::random(&mut rng));
    (constants, xl, xr)
}

fn reference_mimc(xl: Scalar, xr: Scalar, constants: &[DalekScalarBytes]) -> Scalar {
    let (mut l, mut r) = (xl, xr);
    for c in constants {
        let t = l + scalar(c);
        let next = t * t * t + r;
        r = l;
        l = next;
    }
    l
}

struct Witness {
    committed: Vec<Scalar>,
    left: Vec<Scalar>,
    right: Vec<Scalar>,
    out: Vec<Scalar>,
}

fn value(w: &Witness, v: &Variable) -> Scalar {
    match v {
        Variable::Committed(i) => w.committed[*i],
        Variable::MultiplierLeft(i) => w.left[*i],
        Variable::MultiplierRight(i) => w.right[*i],
        Variable::MultiplierOutput(i) => w.out[*i],
        Variable::One => Scalar::one(),
    }
}

fn eval(w: &Witness, lc: &LinearCombination) -> Scalar {
    lc.terms.iter().fold(Scalar::zero(), |acc, (v, c)| acc + scalar(c) * value(w, v))
}

/// Assigns the gates as a prover does: each input is the value of its combination.
fn honest_witness(cs: &ConstraintSystem, committed: Vec<Scalar>) -> Witness {
    let mut w = Witness { committed, left: vec![], right: vec![], out: vec![] };
    for (l, r) in &cs.multipliers {
        let a = eval(&w, l);
        let b = eval(&w, r);
        w.left.push(a);
        w.right.push(b);
        w.out.push(a * b);
    }
    w
}

fn gates_hold(cs: &ConstraintSystem, w: &Witness) -> bool {
    cs.multipliers.iter().enumerate().all(|(i, (l, r))| {
        w.left[i] == eval(w, l) && w.right[i] == eval(w, r) && w.out[i] == w.left[i] * w.right[i]
    })
}

fn record(rounds: usize, constants: &[DalekScalarBytes], image: &DalekScalarBytes) -> ConstraintSystem {
    let mut cs = ConstraintSystem::new();
    let left = AllocatedScalar { variable: Variable::Committed(0), assignment: None };
    let right = AllocatedScalar { variable: Variable::Committed(1), assignment: None };
    assert_eq!(mimc_gadget(&mut cs, left, right, rounds, constants, image), Ok(()));
    cs
}

#[test]
fn bulletproof_mimc_matches_field_arithmetic() {
    let (constants, xl, xr) = seeded_instance(255);
    let image = mimc(&xl, &xr, 255, &constants);
    assert_eq!(scalar(&image), reference_mimc(scalar(&xl), scalar(&xr), &constants));
    // fewer rounds use a prefix of the constants
    let short = mimc(&xl, &xr, 3, &constants);
    assert_eq!(scalar(&short), reference_mimc(scalar(&xl), scalar(&xr), &constants[..3]));
}

#[test]
fn bulletproof_mimc_small_values() {
    let s = |n: u64| bytes(&Scalar::from(n));
    // (2, 5) with constant 1: 5 + 3^3 = 32
    assert_eq!(mimc(&s(2), &s(5), 1, &[s(1)]), s(32));
    assert_eq!(mimc(&s(2), &s(5), 0, &[s(1)]), s(2));
    // xl = -1, c = 1: (xl + c)^3 = 0
    let minus_one = bytes(&(-Scalar::one()));
    assert_eq!(mimc(&minus_one, &s(7), 1, &[s(1)]), s(7));
}

#[test]
fn bulletproof_gadget_accepts_true_image() {
    let (constants, xl, xr) = seeded_instance(255);
    let image = mimc(&xl, &xr, 255, &constants);
    let cs = record(255, &constants, &image);
    assert_eq!(cs.multipliers.len(), 2 * 255);
    assert_eq!(cs.constraints.len(), 1);
    let w = honest_witness(&cs, vec![scalar(&xl), scalar(&xr)]);
    assert!(gates_hold(&cs, &w));
    assert_eq!(eval(&w, &cs.constraints[0]), Scalar::zero());
}

#[test]
fn bulletproof_gadget_rejects_perturbed_image() {
    let (constants, xl, xr) = seeded_instance(255);
    let image = scalar(&mimc(&xl, &xr, 255, &constants)) + Scalar::one();
    let cs = record(255, &constants, &bytes(&image));
    let w = honest_witness(&cs, vec![scalar(&xl), scalar(&xr)]);
    assert_ne!(eval(&w, &cs.constraints[0]), Scalar::zero());
}

#[test]
fn bulletproof_gadget_rejects_tampered_constant() {
    let (constants, xl, xr) = seeded_instance(255);
    let image = mimc(&xl, &xr, 255, &constants);
    let prover_side = record(255, &constants, &image);
    let w = honest_witness(&prover_side, vec![scalar(&xl), scalar(&xr)]);
    let mut tampered = constants.clone();
    tampered[130].bytes[0] ^= 1;
    let verifier_side = record(255, &tampered, &image);
    let satisfied = gates_hold(&verifier_side, &w)
        && eval(&w, &verifier_side.constraints[0]) == Scalar::zero();
    assert!(!satisfied);
}

#[test]
fn bulletproof_gadget_is_witness_free() {
    let (constants, xl, xr) = seeded_instance(7);
    let image = mimc(&xl, &xr, 7, &constants);
    let mut a = ConstraintSystem::new();
    let mut b = ConstraintSystem::new();
    let with = |v: usize, x: &DalekScalarBytes| AllocatedScalar { variable: Variable::Committed(v), assignment: Some(*x) };
    let without = |v: usize| AllocatedScalar { variable: Variable::Committed(v), assignment: None };
    mimc_gadget(&mut a, with(0, &xl), with(1, &xr), 7, &constants, &image).unwrap();
    mimc_gadget(&mut b, without(0), without(1), 7, &constants, &image).unwrap();
    assert_eq!(format!("{:?}", a), format!("{:?}", b));
}

#[test]
fn bulletproof_generator_capacity() {
    assert_eq!(gens_capacity(255), 512);
    assert_eq!(padded_length(510), 512);
    assert_eq!(padded_length(512), 512);
    assert_eq!(padded_length(513), 1024);
    assert_eq!(padded_length(1), 1);
    assert_eq!(check_generators(512, 510), Ok(()));
    assert_eq!(check_generators(511, 510), Err(R1CSError::InvalidGeneratorsLength));
    assert_eq!(check_generators(gens_capacity(7), 14), Ok(()));
    assert_eq!(check_generators(gens_capacity(7) - 1, 14), Err(R1CSError::InvalidGeneratorsLength));
}

fn replay<CS: bulletproofs::r1cs::ConstraintSystem>(cs: &mut CS, record: &ConstraintSystem) {
    let to_var = |v: &Variable| match v {
        Variable::Committed(i) => bulletproofs::r1cs::Variable::Committed(*i),
        Variable::MultiplierLeft(i) => bulletproofs::r1cs::Variable::MultiplierLeft(*i),
        Variable::MultiplierRight(i) => bulletproofs::r1cs::Variable::MultiplierRight(*i),
        Variable::MultiplierOutput(i) => bulletproofs::r1cs::Variable::MultiplierOutput(*i),
        Variable::One => bulletproofs::r1cs::Variable::One(),
    };
    let to_lc = |lc: &LinearCombination| -> bulletproofs::r1cs::LinearCombination {
        lc.terms.iter().map(|(v, c)| (to_var(v), scalar(c))).collect()
    };
    for (l, r) in &record.multipliers {
        cs.multiply(to_lc(l), to_lc(r));
    }
    for c in &record.constraints {
        cs.constrain(to_lc(c));
    }
}

fn prove_and_verify(rounds: usize, prover_image: &DalekScalarBytes, verifier_image: &DalekScalarBytes) -> bool {
    let (constants, xl, xr) = seeded_instance(rounds);
    let mut rng = StdRng::from_seed([7u8; 32]);
    let pc_gens = PedersenGens::default();
    let bp_gens = BulletproofGens::new(gens_capacity(rounds), 1);

    let mut transcript = Transcript::new(b"MiMC");
    let mut prover = Prover::new(&pc_gens, &mut transcript);
    let (com_l, _) = prover.commit(scalar(&xl), Scalar::random(&mut rng));
    let (com_r, _) = prover.commit(scalar(&xr), Scalar::random(&mut rng));
    replay(&mut prover, &record(rounds, &constants, prover_image));
    let proof = prover.prove(&bp_gens).unwrap();

    let mut transcript = Transcript::new(b"MiMC");
    let mut verifier = Verifier::new(&mut transcript);
    verifier.commit(com_l);
    verifier.commit(com_r);
    replay(&mut verifier, &record(rounds, &constants, verifier_image));
    verifier.verify(&proof, &pc_gens, &bp_gens).is_ok()
}

#[test]
fn bulletproof_real_proof_round_trip() {
    let (constants, xl, xr) = seeded_instance(7);
    let image = mimc(&xl, &xr, 7, &constants);
    assert!(prove_and_verify(7, &image, &image));
    let wrong = bytes(&(scalar(&image) + Scalar::one()));
    assert!(!prove_and_verify(7, &image, &wrong));
}

#[test]
fn bulletproof_same_seed_same_instance() {
    let a = seeded_instance(255);
    let b = seeded_instance(255);
    assert_eq!(a, b);
    assert_eq!(mimc(&a.1, &a.2, 255, &a.0), mimc(&b.1, &b.2, 255, &b.0));
}
