use perm_proof::enums::{PermError, VarVecs};
use perm_proof::field::Fe;
use perm_proof::util::{
    exp_iter, format_scalar, give_n, hadamard_V, inner_product, lm_mult, mv_mult,
    print_scalar_mat, print_scalar_vec, scalar_exp, scalar_exp_u, vm_mult,
};

fn fes(xs: &[u64]) -> Vec<Fe> {
    xs.iter().map(|x| Fe::from_u64(*x)).collect()
}

fn same(a: &[Fe], b: &[u64]) -> bool {
    a.len() == b.len() && a.iter().zip(b.iter()).all(|(x, y)| x.equals(&Fe::from_u64(*y)))
}

#[test]
fn field_arithmetic_wraps_at_group_order() {
    let zero = Fe::zero();
    let one = Fe::one();
    assert!(zero.sub(&one).equals(&one.neg()));
    assert!(one.neg().add(&one).equals(&zero));
    assert!(Fe::from_u64(6).equals(&Fe::from_u64(2).mul(&Fe::from_u64(3))));
    assert!(!Fe::from_u64(6).equals(&Fe::from_u64(7)));
    assert!(Fe::from_u64(10).sub(&Fe::from_u64(4)).equals(&Fe::from_u64(6)));
    // Two encodings of one residue are equal elements: the group order
    // minus one, plus six, encodes the group order plus five.
    let mut wide = one.neg();
    wide.bytes[0] += 6;
    assert!(wide.equals(&Fe::from_u64(5)));
    assert!(wide.add(&Fe::zero()).bytes == Fe::from_u64(5).bytes);
}

#[test]
fn inner_product_values() {
    let r = inner_product(&fes(&[1, 2, 3]), &fes(&[4, 5, 6])).unwrap();
    assert!(r.equals(&Fe::from_u64(32)));
    assert!(inner_product(&fes(&[]), &fes(&[])).unwrap().equals(&Fe::zero()));
    assert_eq!(
        inner_product(&fes(&[1, 2]), &fes(&[1])).err(),
        Some(PermError::DimensionMismatch)
    );
}

#[test]
fn matrix_vector_product() {
    let m = vec![fes(&[1, 2]), fes(&[3, 4]), fes(&[0, 0])];
    let r = mv_mult(&m, &fes(&[5, 6])).unwrap();
    assert!(same(&r, &[17, 39, 0]));
    assert_eq!(mv_mult(&m, &fes(&[5])).err(), Some(PermError::DimensionMismatch));
    let ragged = vec![fes(&[1, 2]), fes(&[3])];
    assert_eq!(mv_mult(&ragged, &fes(&[5, 6])).err(), Some(PermError::DimensionMismatch));
    assert!(mv_mult(&vec![], &fes(&[1])).unwrap().is_empty());
}

#[test]
fn vector_matrix_product() {
    let m = vec![fes(&[1, 2, 3]), fes(&[4, 5, 6])];
    let r = vm_mult(&fes(&[1, 10]), &m).unwrap();
    assert!(same(&r, &[41, 52, 63]));
    let r = lm_mult(&fes(&[1, 10]), &m).unwrap();
    assert!(same(&r, &[41, 52, 63]));
    assert_eq!(vm_mult(&fes(&[1]), &m).err(), Some(PermError::DimensionMismatch));
    let ragged = vec![fes(&[1, 2, 3]), fes(&[4])];
    assert_eq!(vm_mult(&fes(&[1, 1]), &ragged).err(), Some(PermError::DimensionMismatch));
}

#[test]
fn hadamard_product() {
    let r = hadamard_V(&fes(&[1, 2, 3]), &fes(&[4, 5, 6])).unwrap();
    assert!(same(&r, &[4, 10, 18]));
    assert_eq!(hadamard_V(&fes(&[1]), &fes(&[])).err(), Some(PermError::DimensionMismatch));
}

#[test]
fn powers_and_counts() {
    assert!(scalar_exp_u(&Fe::from_u64(3), 4).equals(&Fe::from_u64(81)));
    assert!(scalar_exp_u(&Fe::from_u64(3), 0).equals(&Fe::one()));
    assert!(scalar_exp(&Fe::from_u64(2), 10).equals(&Fe::from_u64(1024)));
    assert!(scalar_exp(&Fe::from_u64(2), -3).equals(&Fe::one()));
    assert!(give_n(7).equals(&Fe::from_u64(7)));
    assert!(give_n(-2).equals(&Fe::zero()));
}

#[test]
fn power_sequence_terms() {
    let mut it = exp_iter(&Fe::from_u64(2));
    let terms: Vec<Fe> = (0..6).map(|_| it.next().unwrap()).collect();
    assert!(same(&terms, &[2, 2, 4, 8, 32, 256]));
}

#[test]
fn scalar_text() {
    assert_eq!(format_scalar(&Fe::from_u64(5)), "5");
    assert_eq!(
        format_scalar(&Fe::one().neg()),
        "7237005577332262213973186563042994240857116359379907606001950938285454250988"
    );
    assert_eq!(print_scalar_vec(&fes(&[5, 0])), "[5, 0, ]");
    assert_eq!(print_scalar_vec(&vec![Fe::one().neg(), Fe::from_u64(12)]), "[-1, 12, ]");
    assert_eq!(print_scalar_vec(&vec![]), "[]");
    assert_eq!(print_scalar_mat(&vec![fes(&[1]), fes(&[2, 3])]), "[[1, ],\n[2, 3, ],\n]");
}

#[test]
fn bin_text() {
    let bin = VarVecs::new(&[fes(&[1]), fes(&[])], &[vec![fes(&[4])]]);
    assert_eq!(bin.print(), "aL: [1, ]\naR: []\nwL:\n[[4, ],\n]\n");
}
