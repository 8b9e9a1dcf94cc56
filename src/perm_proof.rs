//! Proving and checking that one sequence is a permutation of another:
//! the witness and the flattened circuit are gathered in a bin and the
//! weight identity is checked on it.
use crate::circuit::{
    create_constraints, input_wires, is_perm_circuit, is_perm_witness,
    lemma_challenge_column_unused, lemma_circuit_on_witness, lemma_output_is_read, output_wires, products_agree, reader_row, vanishes,
};
use crate::enums::{copy_vec, Entry, MatorVec, PermError, VarVecs};
use crate::field::{lemma_modl, lemma_modl_eq_iff, lemma_view_reduced, modl, Fe};
use crate::inspector::{
    coeff_of, evaluate, flattens, lemma_evaluate_output_update, ConstraintSystem, Inspector,
    InspectorConstraintSystem, Variable,
};
use crate::witness::{
    create_var_vecs, is_permutation, lemma_chains_agree_on_permutation, lemma_single_permutation,
};
use vstd::prelude::*;

verus! {

/// The circuit for sequences of length `k`: `2k + 1` committed wires, the
/// first `k` for the input, the next `k` for the output and the last for
/// the challenge, which no constraint weighs.
fn build_circuit(k: usize, c: &Fe) -> (r: Inspector)
    requires
        k >= 1,
        4 * k <= usize::MAX,
    ensures
        r.num_committed == 2 * k + 1,
        r.num_gates == gate_count(k as nat),
        is_perm_circuit(r.constraints(), k as nat, c@),
{
    let mut cs = Inspector::new();
    let mut x: Vec<Variable> = Vec::new();
    let mut x_: Vec<Variable> = Vec::new();
    let mut i: usize = 0;
    while i < k
        invariant
            i <= k,
            4 * k <= usize::MAX,
            x@ == input_wires(i as nat),
            cs.num_committed == i,
            cs.num_gates == 0,
            cs.cons@.len() == 0,
        decreases k - i,
    {
        x.push(cs.commit());
        i = i + 1;
        assert(x@ =~= input_wires(i as nat));
    }
    let mut j: usize = 0;
    while j < k
        invariant
            j <= k,
            4 * k <= usize::MAX,
            x@ == input_wires(k as nat),
            x_@ =~= Seq::new(j as nat, |q: int| Variable::Committed((k + q) as usize)),
            cs.num_committed == k + j,
            cs.num_gates == 0,
            cs.cons@.len() == 0,
        decreases k - j,
    {
        x_.push(cs.commit());
        j = j + 1;
        assert(x_@ =~= Seq::new(j as nat, |q: int| Variable::Committed((k + q) as usize)));
    }
    assert(x_@ =~= output_wires(k as nat));
    assert(cs.constraints().len() == 0);
    let _ = create_constraints(&mut cs, x, x_, c);
    let _ = cs.commit();
    cs
}

/// Gates of the permutation circuit for `k` elements.
pub open spec fn gate_count(k: nat) -> nat {
    if k == 1 {
        0
    } else {
        2 * k
    }
}

/// The bin holds a witness of the permutation circuit for `input`,
/// `output` and the challenge `c`.
pub open spec fn bin_witness(bin: VarVecs, input: Seq<Fe>, output: Seq<Fe>, c: int) -> bool {
    &&& bin.a_l is Some && bin.a_r is Some && bin.a_o is Some && bin.v is Some
    &&& is_perm_witness(input, output, c, bin.a_l->0@, bin.a_r->0@, bin.a_o->0@, bin.v->0@)
}

/// The bin's weights and constants are those of the permutation circuit
/// for `k` elements and challenge `c`.
pub open spec fn bin_circuit_weights(bin: VarVecs, k: nat, c: int) -> bool {
    &&& bin.w_l is Some && bin.w_r is Some && bin.w_o is Some && bin.w_v is Some && bin.c is Some
    &&& exists|cons: Seq<Seq<(Variable, Fe)>>|
        is_perm_circuit(cons, k, c) && #[trigger] flattens(
            cons,
            gate_count(k),
            2 * k + 1,
            (bin.w_l->0, bin.w_r->0, bin.w_o->0, bin.w_v->0, bin.c->0),
        )
}

/// For a bin that holds the permutation circuit's weights and a witness,
/// the weight check's identity holds on every row exactly when the two
/// sequences' products agree at the challenge (when the elements agree, for
/// one element).
pub proof fn lemma_weight_check(bin: VarVecs, input: Seq<Fe>, output: Seq<Fe>, c: int)
    requires
        bin_witness(bin, input, output, c),
        bin_circuit_weights(bin, input.len(), c),
    ensures
        bin.complete(),
        bin.shapes_fit(),
        (forall|i: int| 0 <= i < bin.c->0@.len() ==> #[trigger] bin.holds_at(i)) <==> products_agree(
            input,
            output,
            c,
        ),
{
    let k = input.len();
    let cons = choose|cons: Seq<Seq<(Variable, Fe)>>|
        is_perm_circuit(cons, k, c) && #[trigger] flattens(
            cons,
            gate_count(k),
            2 * k + 1,
            (bin.w_l->0, bin.w_r->0, bin.w_o->0, bin.w_v->0, bin.c->0),
        );
    let a_l = bin.a_l->0@;
    let a_r = bin.a_r->0@;
    let a_o = bin.a_o->0@;
    let v = bin.v->0@;
    let m = cons.len();
    assert(a_l.len() == gate_count(k) && a_r.len() == gate_count(k) && a_o.len() == gate_count(k));
    assert(v.len() == 2 * k + 1);
    lemma_circuit_on_witness(cons, input, output, c, a_l, a_r, a_o, v);
    assert forall|i: int| 0 <= i < m implies #[trigger] bin.holds_at(i) == vanishes(cons[i], a_l, a_r, a_o, v) && {
        &&& bin.w_l->0@[i]@.len() == a_l.len()
        &&& bin.w_r->0@[i]@.len() == a_r.len()
        &&& bin.w_o->0@[i]@.len() == a_o.len()
        &&& bin.w_v->0@[i]@.len() == v.len()
    } by {
        crate::inspector::lemma_row_holds_iff_constraint_vanishes(
            cons[i],
            bin.w_l->0@[i]@,
            bin.w_r->0@[i]@,
            bin.w_o->0@[i]@,
            bin.w_v->0@[i]@,
            bin.c->0@[i],
            a_l,
            a_r,
            a_o,
            v,
        );
    }
    assert(bin.shapes_fit()) by {
        assert forall|i: int| 0 <= i < m implies (#[trigger] bin.w_l->0@[i])@.len() == a_l.len() by {
            assert(bin.holds_at(i) == vanishes(cons[i], a_l, a_r, a_o, v));
        }
        assert forall|i: int| 0 <= i < m implies (#[trigger] bin.w_r->0@[i])@.len() == a_r.len() by {
            assert(bin.holds_at(i) == vanishes(cons[i], a_l, a_r, a_o, v));
        }
        assert forall|i: int| 0 <= i < m implies (#[trigger] bin.w_o->0@[i])@.len() == a_o.len() by {
            assert(bin.holds_at(i) == vanishes(cons[i], a_l, a_r, a_o, v));
        }
        assert forall|i: int| 0 <= i < m implies (#[trigger] bin.w_v->0@[i])@.len() == v.len() by {
            assert(bin.holds_at(i) == vanishes(cons[i], a_l, a_r, a_o, v));
        }
    }
    if products_agree(input, output, c) {
        assert forall|i: int| 0 <= i < bin.c->0@.len() implies #[trigger] bin.holds_at(i) by {
            assert(bin.holds_at(i) == vanishes(cons[i], a_l, a_r, a_o, v));
        }
    } else {
        assert(bin.holds_at(m - 1) == vanishes(cons[m - 1], a_l, a_r, a_o, v));
    }
}

/// Completeness: when `output` is a permutation of `input`, a bin that
/// holds their witness and the permutation circuit's weights passes the
/// weight check, whatever the challenge.
pub proof fn lemma_completeness(bin: VarVecs, input: Seq<Fe>, output: Seq<Fe>, c: int)
    requires
        bin_witness(bin, input, output, c),
        bin_circuit_weights(bin, input.len(), c),
        is_permutation(input, output),
    ensures
        forall|r: Result<(), PermError>| #[trigger] bin.check_outcome(r) ==> r is Ok,
{
    lemma_weight_check(bin, input, output, c);
    lemma_permutation_agrees(input, output, c);
}

/// A bin that differs from an accepted one in a single gate output, whose
/// value it changes, fails the weight check with `ConstraintMismatch`.
pub proof fn lemma_corrupted_output_fails(
    bin: VarVecs,
    bad: VarVecs,
    input: Seq<Fe>,
    output: Seq<Fe>,
    c: int,
    j: int,
)
    requires
        bin_witness(bin, input, output, c),
        bin_circuit_weights(bin, input.len(), c),
        products_agree(input, output, c),
        bad.a_l == bin.a_l && bad.a_r == bin.a_r && bad.v == bin.v && bad.c == bin.c,
        bad.w_l == bin.w_l && bad.w_r == bin.w_r && bad.w_o == bin.w_o && bad.w_v == bin.w_v,
        bad.a_o is Some,
        bad.a_o->0@.len() == bin.a_o->0@.len(),
        0 <= j < bin.a_o->0@.len(),
        forall|i: int| 0 <= i < bin.a_o->0@.len() && i != j ==> bad.a_o->0@[i] == bin.a_o->0@[i],
        bad.a_o->0@[j]@ != bin.a_o->0@[j]@,
    ensures
        forall|r: Result<(), PermError>| #[trigger] bad.check_outcome(r) ==> r is Err
            && r->Err_0 is ConstraintMismatch,
{
    let k = input.len();
    let cons = choose|cons: Seq<Seq<(Variable, Fe)>>|
        is_perm_circuit(cons, k, c) && #[trigger] flattens(
            cons,
            gate_count(k),
            2 * k + 1,
            (bin.w_l->0, bin.w_r->0, bin.w_o->0, bin.w_v->0, bin.c->0),
        );
    lemma_weight_check(bin, input, output, c);
    let a_l = bin.a_l->0@;
    let a_r = bin.a_r->0@;
    let a_o = bin.a_o->0@;
    let v = bin.v->0@;
    let y = bad.a_o->0@[j];
    let a_o2 = bad.a_o->0@;
    assert(a_o2 =~= a_o.update(j, y));
    assert(k >= 2) by {
        if k == 1 {
            assert(a_o.len() == 0);
        }
    }
    lemma_circuit_on_witness(cons, input, output, c, a_l, a_r, a_o, v);
    lemma_output_is_read(cons, k, c, j);
    let i = reader_row(k as int, j);
    let f = |w: Variable| coeff_of(cons[i], w);
    assert(vanishes(cons[i], a_l, a_r, a_o, v));
    lemma_evaluate_output_update(f, a_l, a_r, a_o, v, j, y);
    let e0 = evaluate(f, a_l, a_r, a_o, v);
    let cf = f(Variable::MultiplierOutput(j as usize));
    let d = y@ - a_o[j]@;
    lemma_modl(e0, cf * d);
    lemma_modl(cf, d);
    lemma_modl(1, 0);
    lemma_modl(d, 0);
    lemma_view_reduced(y);
    lemma_view_reduced(a_o[j]);
    lemma_modl_eq_iff(y@, a_o[j]@);
    assert(modl(e0 + cf * d) == modl(d));
    assert(!vanishes(cons[i], a_l, a_r, a_o2, v));
    crate::inspector::lemma_row_holds_iff_constraint_vanishes(
        cons[i],
        bin.w_l->0@[i]@,
        bin.w_r->0@[i]@,
        bin.w_o->0@[i]@,
        bin.w_v->0@[i]@,
        bin.c->0@[i],
        a_l,
        a_r,
        a_o2,
        v,
    );
    assert(!bad.holds_at(i));
    assert(bad.complete());
    assert(bad.shapes_fit());
}

/// A permutation passes the circuit's final test at every challenge.
pub proof fn lemma_permutation_agrees(input: Seq<Fe>, output: Seq<Fe>, c: int)
    requires
        input.len() >= 1,
        is_permutation(input, output),
    ensures
        products_agree(input, output, c),
{
    if input.len() == 1 {
        lemma_single_permutation(input, output);
    } else {
        lemma_chains_agree_on_permutation(input, output, c);
    }
}

/// `a` followed by `b`.
fn concat(a: &[Fe], b: &[Fe]) -> (r: Vec<Fe>)
    requires
        a@.len() + b@.len() <= usize::MAX,
    ensures
        r@ == a@ + b@,
{
    let mut r: Vec<Fe> = Vec::new();
    let mut i: usize = 0;
    while i < a.len()
        invariant
            i <= a@.len(),
            r@ == a@.subrange(0, i as int),
        decreases a@.len() - i,
    {
        r.push(a[i]);
        i = i + 1;
    }
    let mut j: usize = 0;
    while j < b.len()
        invariant
            j <= b@.len(),
            a@.len() + b@.len() <= usize::MAX,
            r@ == a@ + b@.subrange(0, j as int),
        decreases b@.len() - j,
    {
        r.push(b[j]);
        j = j + 1;
    }
    assert(b@.subrange(0, b@.len() as int) =~= b@);
    r
}

/// The public outcome of proving that two sequences are permutations of
/// one another: their common length. The succinct proof itself is produced
/// by a proof backend from the same circuit.
pub struct PermProof {
    pub k: usize,
}

impl PermProof {
    /// Builds the witness of the permutation circuit for `input`, `output`
    /// and the challenge `chall`, and checks it against the flattened
    /// circuit before anything is handed on. Returns the bin of gate
    /// assignments and committed values (`input`, then `output`, then the
    /// challenge as a pseudo-value); the weights are left for `verify` to
    /// insert. Fails with `InvalidInput` when the lengths differ or are
    /// zero, and with `ConstraintMismatch` when the witness does not satisfy
    /// the circuit.
    pub fn prove(input: &[Fe], output: &[Fe], chall: &Fe) -> (r: Result<(PermProof, VarVecs), PermError>)
        requires
            4 * input@.len() <= usize::MAX,
        ensures
            (input@.len() != output@.len() || input@.len() == 0) <==> r == Err::<
                (PermProof, VarVecs),
                PermError,
            >(PermError::InvalidInput),
            input@.len() == output@.len() && input@.len() >= 1 ==> (r is Ok <==> products_agree(
                input@,
                output@,
                chall@,
            )),
            input@.len() == output@.len() && input@.len() >= 1 && is_permutation(input@, output@)
                ==> r is Ok,
            r is Err ==> r == Err::<(PermProof, VarVecs), PermError>(PermError::InvalidInput)
                || r->Err_0 is ConstraintMismatch,
            r is Ok ==> {
                let (p, bin) = r->Ok_0;
                &&& p.k == input@.len()
                &&& bin_witness(bin, input@, output@, chall@)
                &&& bin.v->0@ == input@ + output@ + seq![*chall]
                &&& bin.c is None && bin.w_l is None && bin.w_r is None
                &&& bin.w_o is None && bin.w_v is None
            },
    {
        if input.len() != output.len() || input.len() == 0 {
            return Err(PermError::InvalidInput);
        }
        let k = input.len();
        let (a_l, a_r, a_o) = create_var_vecs(input, output, chall);
        let mut v = concat(input, output);
        v.push(*chall);
        proof {
            assert(v@ =~= input@ + output@ + seq![*chall]);
        }
        let cs = build_circuit(k, chall);
        let (w_l, w_r, w_o, w_v, c) = cs.get_weights();
        let check = VarVecs {
            a_l: Some(copy_vec(&a_l)),
            a_r: Some(copy_vec(&a_r)),
            a_o: Some(copy_vec(&a_o)),
            c: Some(c),
            v: Some(copy_vec(&v)),
            w_l: Some(w_l),
            w_r: Some(w_r),
            w_o: Some(w_o),
            w_v: Some(w_v),
        };
        proof {
            assert forall|i: int| 0 <= i < input@.len() implies v@[i] == #[trigger] input@[i] by {
                assert(v@[i] == (input@ + output@)[i]);
            }
            assert forall|i: int| 0 <= i < output@.len() implies v@[input@.len() + i] == #[trigger] output@[i] by {
                assert(v@[input@.len() + i] == (input@ + output@)[input@.len() + i]);
            }
            assert(bin_witness(check, input@, output@, chall@));
            assert(flattens(
                cs.constraints(),
                gate_count(k as nat),
                (2 * k + 1) as nat,
                (check.w_l->0, check.w_r->0, check.w_o->0, check.w_v->0, check.c->0),
            ));
            assert(bin_circuit_weights(check, input@.len(), chall@));
            lemma_weight_check(check, input@, output@, chall@);
            if is_permutation(input@, output@) {
                lemma_permutation_agrees(input@, output@, chall@);
            }
        }
        let checked = check.verify();
        let bin = VarVecs {
            a_l: Some(a_l),
            a_r: Some(a_r),
            a_o: Some(a_o),
            c: None,
            v: Some(v),
            w_l: None,
            w_r: None,
            w_o: None,
            w_v: None,
        };
        match checked {
            Ok(()) => Ok((PermProof { k }, bin)),
            Err(e) => Err(e),
        }
    }

    /// Rebuilds the circuit for `input_len` committed inputs and as many
    /// outputs, stores its weights and constants in `vec_bin` (replacing
    /// any there), and checks the bin's identity. Fails with `InvalidInput`,
    /// leaving the bin as it was, when the counts differ from each other or
    /// from the proof's length, or are zero.
    pub fn verify(
        &self,
        input_len: usize,
        output_len: usize,
        chall: &Fe,
        vec_bin: &mut VarVecs,
    ) -> (r: Result<(), PermError>)
        requires
            4 * self.k <= usize::MAX,
        ensures
            (input_len != output_len || input_len == 0 || input_len != self.k) <==> r == Err::<
                (),
                PermError,
            >(PermError::InvalidInput),
            r == Err::<(), PermError>(PermError::InvalidInput) ==> *final(vec_bin) == *old(vec_bin),
            r != Err::<(), PermError>(PermError::InvalidInput) ==> {
                &&& final(vec_bin).entry(Entry::AL) == old(vec_bin).entry(Entry::AL)
                &&& final(vec_bin).entry(Entry::AR) == old(vec_bin).entry(Entry::AR)
                &&& final(vec_bin).entry(Entry::AO) == old(vec_bin).entry(Entry::AO)
                &&& final(vec_bin).entry(Entry::V) == old(vec_bin).entry(Entry::V)
                &&& final(vec_bin).w_l is Some && final(vec_bin).w_r is Some
                &&& final(vec_bin).w_o is Some && final(vec_bin).w_v is Some
                &&& bin_circuit_weights(*final(vec_bin), self.k as nat, chall@)
                &&& forall|i: int|
                    0 <= i < final(vec_bin).c->0@.len() ==> {
                        &&& (#[trigger] final(vec_bin).w_v->0@[i])@.len() == 2 * self.k + 1
                        &&& final(vec_bin).w_v->0@[i]@[2 * self.k as int]@ == 0
                    }
                &&& forall|input: Seq<Fe>, output: Seq<Fe>|
                    #[trigger] bin_witness(*old(vec_bin), input, output, chall@) ==> bin_witness(
                        *final(vec_bin),
                        input,
                        output,
                        chall@,
                    )
                &&& final(vec_bin).check_outcome(r)
                &&& forall|input: Seq<Fe>, output: Seq<Fe>|
                    #[trigger] bin_witness(*old(vec_bin), input, output, chall@) && input.len()
                        == self.k ==> (r is Ok <==> products_agree(input, output, chall@))
                &&& forall|input: Seq<Fe>, output: Seq<Fe>|
                    #[trigger] bin_witness(*old(vec_bin), input, output, chall@) && input.len()
                        == self.k && is_permutation(input, output) ==> r is Ok
            },
    {
        if input_len != output_len || input_len == 0 || input_len != self.k {
            return Err(PermError::InvalidInput);
        }
        let cs = build_circuit(self.k, chall);
        let (w_l, w_r, w_o, w_v, c) = cs.get_weights();
        let ghost weights = (w_l, w_r, w_o, w_v, c);
        let _ = vec_bin.add(Entry::WL, MatorVec::Matrix(w_l));
        let _ = vec_bin.add(Entry::WR, MatorVec::Matrix(w_r));
        let _ = vec_bin.add(Entry::WO, MatorVec::Matrix(w_o));
        let _ = vec_bin.add(Entry::C, MatorVec::Vector(c));
        let _ = vec_bin.add(Entry::WV, MatorVec::Matrix(w_v));
        proof {
            assert(vec_bin.w_l == Some(weights.0));
            assert(flattens(
                cs.constraints(),
                gate_count(self.k as nat),
                (2 * self.k + 1) as nat,
                (vec_bin.w_l->0, vec_bin.w_r->0, vec_bin.w_o->0, vec_bin.w_v->0, vec_bin.c->0),
            ));
            let kk = self.k as nat;
            assert forall|i: int| 0 <= i < vec_bin.c->0@.len() implies {
                &&& (#[trigger] vec_bin.w_v->0@[i])@.len() == 2 * self.k + 1
                &&& vec_bin.w_v->0@[i]@[2 * self.k as int]@ == 0
            } by {
                let con = cs.constraints()[i];
                assert(crate::inspector::row_flattens(
                    con,
                    gate_count(kk),
                    2 * kk + 1,
                    vec_bin.w_l->0@[i]@,
                    vec_bin.w_r->0@[i]@,
                    vec_bin.w_o->0@[i]@,
                    vec_bin.w_v->0@[i]@,
                    vec_bin.c->0@[i],
                ));
                lemma_challenge_column_unused(cs.constraints(), kk, chall@, i);
                let q = coeff_of(con, Variable::Committed((2 * kk) as usize));
                lemma_modl_eq_iff(0, q);
                lemma_modl(0, 0);
            }
        }
        let r = vec_bin.verify();
        proof {
            assert forall|input: Seq<Fe>, output: Seq<Fe>|
                #[trigger] bin_witness(*old(vec_bin), input, output, chall@) && input.len()
                    == self.k implies (r is Ok <==> products_agree(input, output, chall@)) && (
            is_permutation(input, output) ==> r is Ok) by {
                assert(bin_witness(*vec_bin, input, output, chall@));
                lemma_weight_check(*vec_bin, input, output, chall@);
                if is_permutation(input, output) {
                    lemma_permutation_agrees(input, output, chall@);
                }
            }
        }
        r
    }
}

} // verus!
