use curve25519_dalek::scalar::Scalar;
use merlin::Transcript;
use perm_proof::enums::{Entry, MatCheckError, MatorVec, PermError, VarVecs};
use perm_proof::field::Fe;
use perm_proof::inspector::{ConstraintSystem, Inspector, InspectorConstraintSystem, Variable};
use perm_proof::circuit::create_constraints;
use perm_proof::perm_proof::PermProof;
use perm_proof::witness::create_var_vecs;
use rand::seq::SliceRandom;
use rand::Rng;

fn fes(xs: &[u64]) -> Vec<Fe> {
    xs.iter().map(|x| Fe::from_u64(*x)).collect()
}

fn bind_length(transcript: &mut Transcript, k: usize) {
    transcript.append_message(b"dom-sep", b"PermProof");
    transcript.append_message(b"k", Scalar::from(k as u64).as_bytes());
}

fn random_fe() -> Fe {
    let mut rng = rand::thread_rng();
    Fe { bytes: Scalar::random(&mut rng).to_bytes() }
}

#[test]
fn perm_basic_test() {
    let k: usize = 4;
    let c = Fe::from_u64(3);
    let (proof, mut spaces) = {
        let inputs = fes(&[1, 2, 4, 0]);
        let outputs = fes(&[1, 0, 2, 4]);
        let mut prover_transcript = Transcript::new(b"PermProofTest");
        bind_length(&mut prover_transcript, k);
        PermProof::prove(&inputs, &outputs, &c).expect("error during proving")
    };
    let mut verifier_transcript = Transcript::new(b"PermProofTest");
    bind_length(&mut verifier_transcript, k);
    assert!(proof.verify(k, k, &c, &mut spaces).is_ok());
}

fn test_helper(k: usize) {
    let mut rng = rand::thread_rng();
    let challenge_scalar = random_fe();
    let (min, max) = (0u64, 5u64);
    let input: Vec<Fe> = (0..k).map(|_| Fe::from_u64(rng.gen_range(min, max))).collect();
    let mut output = input.clone();
    output.shuffle(&mut rand::thread_rng());
    let (proof, mut spaces) = PermProof::prove(&input, &output, &challenge_scalar).unwrap();
    assert!(proof.verify(k, k, &challenge_scalar, &mut spaces).is_ok());
}

#[test]
fn perm_test_1() {
    test_helper(52 as usize);
}

#[test]
fn completeness_for_several_lengths() {
    for k in 1..10 {
        test_helper(k);
    }
}

#[test]
fn soundness_example_fails_to_prove() {
    let inputs = fes(&[1, 2, 4, 0]);
    let outputs = fes(&[1, 0, 2, 5]);
    let c = random_fe();
    let r = PermProof::prove(&inputs, &outputs, &c);
    assert!(matches!(r, Err(PermError::ConstraintMismatch(_))));
}

#[test]
fn soundness_example_fails_to_verify_when_forced() {
    let c = random_fe();
    let (proof, mut bin) = PermProof::prove(&fes(&[1, 2, 4, 0]), &fes(&[1, 0, 2, 4]), &c).unwrap();
    // Claim the output [1, 0, 2, 5] while keeping the honest gate values.
    let mut v = fes(&[1, 2, 4, 0]);
    v.extend(fes(&[1, 0, 2, 5]));
    v.push(c);
    bin.add(Entry::V, MatorVec::Vector(v)).unwrap();
    let r = proof.verify(4, 4, &c, &mut bin);
    assert!(matches!(r, Err(PermError::ConstraintMismatch(_))));
}

#[test]
fn products_that_agree_by_chance_are_accepted() {
    // At challenge 0 both products are 6, though [1, 6] is no permutation
    // of [2, 3]: the argument is sound only for a random challenge.
    let c = Fe::zero();
    let (proof, mut bin) = PermProof::prove(&fes(&[2, 3]), &fes(&[1, 6]), &c).unwrap();
    assert!(proof.verify(2, 2, &c, &mut bin).is_ok());
    let r = PermProof::prove(&fes(&[2, 3]), &fes(&[1, 6]), &Fe::from_u64(1));
    assert!(matches!(r, Err(PermError::ConstraintMismatch(_))));
}

#[test]
fn end_to_end_example() {
    let c = random_fe();
    let (proof, mut bin) = PermProof::prove(&fes(&[1, 2, 4, 0]), &fes(&[1, 0, 2, 4]), &c).unwrap();
    assert_eq!(proof.k, 4);
    // The weights are inserted by the verifier.
    assert_eq!(bin.verify(), Err(PermError::MissingEntry));
    assert!(proof.verify(4, 4, &c, &mut bin).is_ok());
    assert!(bin.verify().is_ok());
}

#[test]
fn corrupted_output_gate_fails_weight_check() {
    let c = Fe::from_u64(3);
    let (proof, mut bin) = PermProof::prove(&fes(&[1, 2, 4, 0]), &fes(&[1, 0, 2, 4]), &c).unwrap();
    assert!(proof.verify(4, 4, &c, &mut bin).is_ok());
    let mut a_o = match bin.index(Entry::AO).unwrap() {
        MatorVec::Vector(v) => v,
        MatorVec::Matrix(_) => panic!("aO is a vector"),
    };
    a_o[0] = a_o[0].add(&Fe::one());
    bin.add(Entry::AO, MatorVec::Vector(a_o)).unwrap();
    assert!(matches!(bin.verify(), Err(PermError::ConstraintMismatch(_))));
    assert!(matches!(proof.verify(4, 4, &c, &mut bin), Err(PermError::ConstraintMismatch(_))));
}

#[test]
fn length_mismatch_is_invalid_input() {
    let c = Fe::from_u64(3);
    let r = PermProof::prove(&fes(&[1, 2]), &fes(&[2, 1, 3]), &c);
    assert!(matches!(r, Err(PermError::InvalidInput)));
    let r = PermProof::prove(&fes(&[]), &fes(&[]), &c);
    assert!(matches!(r, Err(PermError::InvalidInput)));

    let (proof, mut bin) = PermProof::prove(&fes(&[1, 2]), &fes(&[2, 1]), &c).unwrap();
    assert!(matches!(proof.verify(2, 3, &c, &mut bin), Err(PermError::InvalidInput)));
    assert!(matches!(proof.verify(3, 3, &c, &mut bin), Err(PermError::InvalidInput)));
    assert!(matches!(proof.verify(0, 0, &c, &mut bin), Err(PermError::InvalidInput)));
    assert!(proof.verify(2, 2, &c, &mut bin).is_ok());
}

#[test]
fn create_constraints_rejects_mismatch_before_any_gate() {
    let mut cs = Inspector::new();
    let x = vec![cs.commit(), cs.commit()];
    let x_ = vec![cs.commit()];
    let r = create_constraints(&mut cs, x, x_, &Fe::from_u64(3));
    assert_eq!(r, Err(PermError::InvalidInput));
    assert_eq!(cs.num_gates, 0);
    assert_eq!(cs.cons.len(), 0);
}

fn gates_for(k: usize) -> usize {
    let mut cs = Inspector::new();
    let x: Vec<Variable> = (0..k).map(|_| cs.commit()).collect();
    let x_: Vec<Variable> = (0..k).map(|_| cs.commit()).collect();
    create_constraints(&mut cs, x, x_, &Fe::from_u64(9)).unwrap();
    cs.num_gates
}

#[test]
fn gate_count() {
    assert_eq!(gates_for(1), 0);
    assert_eq!(gates_for(2), 4);
    assert_eq!(gates_for(4), 8);
    assert_eq!(gates_for(52), 104);
}

#[test]
fn multiply_returns_fresh_gate_wires() {
    let mut cs = Inspector::new();
    let v = cs.commit();
    let (l, r, o) = cs.multiply(
        perm_proof::inspector::LinearCombination::from_var(v),
        perm_proof::inspector::LinearCombination::from_var(v),
    );
    assert_eq!(l, Variable::MultiplierLeft(0));
    assert_eq!(r, Variable::MultiplierRight(0));
    assert_eq!(o, Variable::MultiplierOutput(0));
    assert_eq!(cs.num_gates, 1);
    assert_eq!(cs.cons.len(), 2);
}

#[test]
fn degenerate_case() {
    let c = random_fe();
    let (proof, mut bin) = PermProof::prove(&fes(&[7]), &fes(&[7]), &c).unwrap();
    assert!(proof.verify(1, 1, &c, &mut bin).is_ok());

    let r = PermProof::prove(&fes(&[7]), &fes(&[8]), &c);
    assert!(matches!(r, Err(PermError::ConstraintMismatch(MatCheckError { row: 0 }))));

    let mut v = fes(&[7, 8]);
    v.push(c);
    bin.add(Entry::V, MatorVec::Vector(v)).unwrap();
    assert!(matches!(proof.verify(1, 1, &c, &mut bin), Err(PermError::ConstraintMismatch(_))));
}


#[test]
fn single_element_weights() {
    let mut cs = Inspector::new();
    let x = vec![cs.commit()];
    let x_ = vec![cs.commit()];
    create_constraints(&mut cs, x, x_, &Fe::from_u64(5)).unwrap();
    let (w_l, w_r, w_o, w_v, c) = cs.get_weights();
    assert_eq!(w_l.len(), 1);
    assert_eq!(w_l[0].len(), 0);
    assert_eq!(w_r[0].len(), 0);
    assert_eq!(w_o[0].len(), 0);
    // x_0' - x_0 = 0 moves to the right-hand side as wV = [1, -1].
    assert!(w_v[0][0].equals(&Fe::one()));
    assert!(w_v[0][1].equals(&Fe::one().neg()));
    assert!(c[0].equals(&Fe::zero()));
}

#[test]
fn witness_for_two_elements() {
    let x = fes(&[2, 5]);
    let x_ = fes(&[5, 2]);
    let c = Fe::from_u64(1);
    let (a_l, a_r, a_o) = create_var_vecs(&x, &x_, &c);
    assert_eq!(a_l.len(), 4);
    // (2 - 1) * (5 - 1) = 4 and (5 - 1) * (2 - 1) = 4.
    assert!(a_l[0].equals(&Fe::from_u64(1)));
    assert!(a_r[0].equals(&Fe::from_u64(4)));
    assert!(a_o[0].equals(&Fe::from_u64(4)));
    assert!(a_l[1].equals(&Fe::from_u64(4)));
    assert!(a_r[1].equals(&Fe::from_u64(1)));
    assert!(a_o[1].equals(&Fe::from_u64(4)));
    assert!(a_l[2].equals(&Fe::from_u64(4)));
    assert!(a_r[2].equals(&Fe::one().neg()));
    assert!(a_o[2].equals(&Fe::from_u64(4).neg()));
    assert!(a_l[3].equals(&Fe::zero()));
    assert!(a_r[3].equals(&Fe::one()));
    assert!(a_o[3].equals(&Fe::zero()));
}

#[test]
fn witness_for_one_element_is_empty() {
    let (a_l, a_r, a_o) = create_var_vecs(&fes(&[7]), &fes(&[8]), &Fe::from_u64(2));
    assert!(a_l.is_empty() && a_r.is_empty() && a_o.is_empty());
}

#[test]
fn witness_last_gate_nonzero_for_non_permutation() {
    let x = fes(&[1, 2, 4, 0]);
    let x_ = fes(&[1, 0, 2, 5]);
    let c = Fe::from_u64(3);
    let (_, _, a_o) = create_var_vecs(&x, &x_, &c);
    // (1-3)(2-3)(4-3)(0-3) = -6 and (1-3)(0-3)(2-3)(5-3) = -12; difference 6.
    assert!(a_o[7].equals(&Fe::from_u64(6)));
}

#[test]
fn bin_lookup_and_insert() {
    let mut bin = VarVecs::new(&[fes(&[1]), fes(&[2])], &[vec![fes(&[3])]]);
    assert!(matches!(bin.index(Entry::AL), Ok(MatorVec::Vector(v)) if v.len() == 1 && v[0].equals(&Fe::from_u64(1))));
    assert!(matches!(bin.index(Entry::AR), Ok(MatorVec::Vector(_))));
    assert!(matches!(bin.index(Entry::AO), Err(PermError::MissingEntry)));
    assert!(matches!(bin.index(Entry::WL), Ok(MatorVec::Matrix(m)) if m[0][0].equals(&Fe::from_u64(3))));
    assert!(matches!(bin.index(Entry::WR), Err(PermError::MissingEntry)));
    bin.add(Entry::AL, MatorVec::Vector(fes(&[9, 9]))).unwrap();
    assert!(matches!(bin.index(Entry::AL), Ok(MatorVec::Vector(v)) if v.len() == 2));
    // A matrix under a vector's name is refused and not stored.
    assert_eq!(
        bin.add(Entry::AO, MatorVec::Matrix(vec![fes(&[1])])),
        Err(PermError::DimensionMismatch)
    );
    assert_eq!(bin.add(Entry::WO, MatorVec::Vector(fes(&[1]))), Err(PermError::DimensionMismatch));
    assert!(matches!(bin.index(Entry::WO), Err(PermError::MissingEntry)));
    assert!(matches!(bin.index(Entry::AO), Err(PermError::MissingEntry)));
    assert!(Entry::WV.is_matrix());
    assert!(!Entry::C.is_matrix());
}

#[test]
fn bin_check_errors() {
    let bin = VarVecs::new(&[fes(&[1]), fes(&[1]), fes(&[1]), fes(&[0])], &[]);
    assert_eq!(bin.verify(), Err(PermError::MissingEntry));

    // 1*aL + 1*aR - 1*aO = 0*v + c: 2 + 3 - 5 = 0.
    let good = VarVecs::new(
        &[fes(&[2]), fes(&[3]), fes(&[5]), fes(&[0]), fes(&[4])],
        &[vec![fes(&[1])], vec![fes(&[1])], vec![fes(&[1])], vec![fes(&[0])]],
    );
    assert_eq!(good.verify(), Ok(()));

    let bad = VarVecs::new(
        &[fes(&[2]), fes(&[3]), fes(&[6]), fes(&[0]), fes(&[4])],
        &[vec![fes(&[1])], vec![fes(&[1])], vec![fes(&[1])], vec![fes(&[0])]],
    );
    assert_eq!(
        bad.verify(),
        Err(PermError::ConstraintMismatch(MatCheckError { row: 0 }))
    );

    let misshapen = VarVecs::new(
        &[fes(&[2, 1]), fes(&[3]), fes(&[5]), fes(&[0]), fes(&[4])],
        &[vec![fes(&[1])], vec![fes(&[1])], vec![fes(&[1])], vec![fes(&[0])]],
    );
    assert_eq!(misshapen.verify(), Err(PermError::DimensionMismatch));
}

#[test]
fn every_corrupted_output_fails_weight_check() {
    let c = random_fe();
    let (_, bin) = PermProof::prove(&fes(&[3, 1, 4, 1, 5]), &fes(&[5, 1, 1, 4, 3]), &c).unwrap();
    let a_o = match bin.index(Entry::AO).unwrap() {
        MatorVec::Vector(v) => v,
        MatorVec::Matrix(_) => panic!("aO is a vector"),
    };
    assert_eq!(a_o.len(), 10);
    for j in 0..a_o.len() {
        let (proof, mut bad) =
            PermProof::prove(&fes(&[3, 1, 4, 1, 5]), &fes(&[5, 1, 1, 4, 3]), &c).unwrap();
        assert!(proof.verify(5, 5, &c, &mut bad).is_ok());
        let mut corrupted = a_o.clone();
        corrupted[j] = corrupted[j].add(&Fe::from_u64(7));
        bad.add(Entry::AO, MatorVec::Vector(corrupted)).unwrap();
        assert!(matches!(bad.verify(), Err(PermError::ConstraintMismatch(_))));
    }
}

#[test]
fn challenge_is_a_pseudo_value_with_zero_weights() {
    let c = Fe::from_u64(11);
    let (proof, mut bin) = PermProof::prove(&fes(&[1, 2, 3]), &fes(&[3, 1, 2]), &c).unwrap();
    let v = match bin.index(Entry::V).unwrap() {
        MatorVec::Vector(v) => v,
        MatorVec::Matrix(_) => panic!("v is a vector"),
    };
    assert_eq!(v.len(), 7);
    assert!(v[6].equals(&c));
    assert!(matches!(bin.index(Entry::WV), Err(PermError::MissingEntry)));
    assert!(matches!(bin.index(Entry::C), Err(PermError::MissingEntry)));
    assert!(proof.verify(3, 3, &c, &mut bin).is_ok());
    let w_v = match bin.index(Entry::WV).unwrap() {
        MatorVec::Matrix(m) => m,
        MatorVec::Vector(_) => panic!("wV is a matrix"),
    };
    assert_eq!(w_v.len(), 13);
    for row in &w_v {
        assert_eq!(row.len(), 7);
        assert!(row[6].equals(&Fe::zero()));
    }
}
