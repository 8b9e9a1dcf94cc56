//! The permutation gadget over a constraint system, the exact form of the
//! constraints it adds, and their value on the witness.
use crate::enums::PermError;
use crate::field::{lemma_modl, modl, Fe};
use crate::inspector::{
    coeff_of, evaluate, ind, lc_form, lemma_evaluate_congruent, lemma_evaluate_three,
    lemma_gate_input_form, wire_value, ConstraintSystem, LinearCombination, Variable,
};
use crate::witness::{
    chain, lemma_chain_reduced, lemma_final_gate_zero_iff_products_agree, shifted,
    witness_layout,
};
use vstd::prelude::*;

verus! {

/// The wires of `k` committed inputs: the first `k` committed values.
pub open spec fn input_wires(k: nat) -> Seq<Variable> {
    Seq::new(k, |i: int| Variable::Committed(i as usize))
}

/// The wires of `k` committed outputs: the committed values after the inputs.
pub open spec fn output_wires(k: nat) -> Seq<Variable> {
    Seq::new(k, |i: int| Variable::Committed((k + i) as usize))
}

/// `cons` is the permutation circuit for `k` elements and challenge `c`,
/// built from an empty system with the inputs committed before the outputs.
pub open spec fn is_perm_circuit(cons: Seq<Seq<(Variable, Fe)>>, k: nat, c: int) -> bool {
    if k == 1 {
        &&& cons.len() == 1
        &&& lc_form(
            cons[0],
            |w: Variable| ind(w, Variable::Committed(1)) - ind(w, Variable::Committed(0)),
        )
    } else {
        &&& k >= 2
        &&& cons.len() == 4 * k + 1
        &&& forall|t: int|
            0 <= t < 2 * k ==> #[trigger] circuit_gate(
                cons,
                input_wires(k),
                output_wires(k),
                c,
                0,
                0,
                t,
            )
        &&& lc_form(
            cons[4 * k as int],
            |w: Variable| ind(w, Variable::MultiplierOutput((2 * k - 1) as usize)),
        )
    }
}

/// The witness of the permutation circuit for `input`, `output` and `c`:
/// no gates for one element, else the layout of `create_var_vecs`; the
/// committed values are the inputs followed by the outputs.
pub open spec fn is_perm_witness(
    input: Seq<Fe>,
    output: Seq<Fe>,
    c: int,
    a_l: Seq<Fe>,
    a_r: Seq<Fe>,
    a_o: Seq<Fe>,
    v: Seq<Fe>,
) -> bool {
    &&& input.len() == output.len()
    &&& input.len() >= 1
    &&& 4 * input.len() <= usize::MAX
    &&& v.len() == 2 * input.len() + 1
    &&& forall|i: int| 0 <= i < input.len() ==> v[i] == #[trigger] input[i]
    &&& forall|i: int| 0 <= i < output.len() ==> v[input.len() + i] == #[trigger] output[i]
    &&& v[2 * input.len() as int]@ == c
    &&& input.len() == 1 ==> a_l.len() == 0 && a_r.len() == 0 && a_o.len() == 0
    &&& input.len() >= 2 ==> witness_layout(input, output, c, a_l, a_r, a_o)
}

/// What the permutation circuit asks of the two sequences at `c`: equal
/// elements for one element, else equal products `prod (x_i - c)`.
pub open spec fn products_agree(input: Seq<Fe>, output: Seq<Fe>, c: int) -> bool {
    if input.len() == 1 {
        input[0]@ == output[0]@
    } else {
        chain(input, c, (input.len() - 1) as nat) == chain(output, c, (input.len() - 1) as nat)
    }
}

proof fn lemma_row_value(
    con: Seq<(Variable, Fe)>,
    f: spec_fn(Variable) -> int,
    a_l: Seq<Fe>,
    a_r: Seq<Fe>,
    a_o: Seq<Fe>,
    v: Seq<Fe>,
    u1: Variable,
    b1: int,
    u2: Variable,
    b2: int,
    u3: Variable,
    b3: int,
)
    requires
        lc_form(con, f),
        a_l.len() <= usize::MAX && a_r.len() <= usize::MAX && a_o.len() <= usize::MAX && v.len() <= usize::MAX,
        forall|w: Variable| #[trigger] f(w) == b1 * ind(w, u1) + b2 * ind(w, u2) + b3 * ind(w, u3),
    ensures
        modl(evaluate(|w: Variable| coeff_of(con, w), a_l, a_r, a_o, v)) == modl(
            b1 * wire_value(u1, a_l, a_r, a_o, v) + b2 * wire_value(u2, a_l, a_r, a_o, v) + b3
                * wire_value(u3, a_l, a_r, a_o, v),
        ),
{
    let g = |w: Variable| b1 * ind(w, u1) + b2 * ind(w, u2) + b3 * ind(w, u3);
    assert forall|w: Variable| #![trigger coeff_of(con, w)] modl(coeff_of(con, w)) == modl(g(w)) by {
        assert(modl(coeff_of(con, w)) == modl(f(w)));
    }
    lemma_evaluate_congruent(|w: Variable| coeff_of(con, w), g, a_l, a_r, a_o, v);
    lemma_evaluate_three(g, a_l, a_r, a_o, v, u1, b1, u2, b2, u3, b3);
}

/// The circuit and its witness for `k >= 2` elements.
pub open spec fn circuit_setting(
    cons: Seq<Seq<(Variable, Fe)>>,
    input: Seq<Fe>,
    output: Seq<Fe>,
    c: int,
    a_l: Seq<Fe>,
    a_r: Seq<Fe>,
    a_o: Seq<Fe>,
    v: Seq<Fe>,
) -> bool {
    &&& input.len() >= 2
    &&& is_perm_circuit(cons, input.len(), c)
    &&& is_perm_witness(input, output, c, a_l, a_r, a_o, v)
}

/// Constraint `con` evaluates to zero on the witness.
pub open spec fn vanishes(con: Seq<(Variable, Fe)>, a_l: Seq<Fe>, a_r: Seq<Fe>, a_o: Seq<Fe>, v: Seq<Fe>) -> bool {
    modl(evaluate(|w: Variable| coeff_of(con, w), a_l, a_r, a_o, v)) == 0
}

proof fn lemma_shift_row(
    con: Seq<(Variable, Fe)>,
    f: spec_fn(Variable) -> int,
    a_l: Seq<Fe>,
    a_r: Seq<Fe>,
    a_o: Seq<Fe>,
    v: Seq<Fe>,
    u: Variable,
    c: int,
    gate: Variable,
    e: Fe,
)
    requires
        lc_form(con, f),
        a_l.len() <= usize::MAX && a_r.len() <= usize::MAX && a_o.len() <= usize::MAX && v.len() <= usize::MAX,
        forall|w: Variable| #[trigger] f(w) == ind(w, u) - c * ind(w, Variable::One) - ind(w, gate),
        wire_value(gate, a_l, a_r, a_o, v) == modl(wire_value(u, a_l, a_r, a_o, v) - c),
    ensures
        vanishes(con, a_l, a_r, a_o, v),
{
    let one = Variable::One;
    assert forall|w: Variable| #[trigger] f(w) == 1 * ind(w, u) + (-c) * ind(w, one) + (-1) * ind(w, gate) by {
        assert(c * ind(w, one) == -((-c) * ind(w, one))) by (nonlinear_arith);
    }
    lemma_row_value(con, f, a_l, a_r, a_o, v, u, 1, one, -c, gate, -1);
    let x = wire_value(u, a_l, a_r, a_o, v) - c;
    lemma_modl(x, 0);
    crate::field::lemma_modl_eq_iff(x, modl(x));
}

proof fn lemma_copy_row(
    con: Seq<(Variable, Fe)>,
    f: spec_fn(Variable) -> int,
    a_l: Seq<Fe>,
    a_r: Seq<Fe>,
    a_o: Seq<Fe>,
    v: Seq<Fe>,
    u: Variable,
    gate: Variable,
)
    requires
        lc_form(con, f),
        a_l.len() <= usize::MAX && a_r.len() <= usize::MAX && a_o.len() <= usize::MAX && v.len() <= usize::MAX,
        forall|w: Variable| #[trigger] f(w) == ind(w, u) - ind(w, gate),
        wire_value(gate, a_l, a_r, a_o, v) == wire_value(u, a_l, a_r, a_o, v),
    ensures
        vanishes(con, a_l, a_r, a_o, v),
{
    lemma_row_value(con, f, a_l, a_r, a_o, v, u, 1, gate, -1, Variable::One, 0);
    lemma_modl(0, 0);
}

#[verifier::spinoff_prover]
#[verifier::rlimit(60)]
proof fn lemma_left_row(
    cons: Seq<Seq<(Variable, Fe)>>,
    input: Seq<Fe>,
    output: Seq<Fe>,
    c: int,
    a_l: Seq<Fe>,
    a_r: Seq<Fe>,
    a_o: Seq<Fe>,
    v: Seq<Fe>,
    t: int,
)
    requires
        circuit_setting(cons, input, output, c, a_l, a_r, a_o, v),
        0 <= t < 2 * input.len() - 1,
    ensures
        vanishes(cons[2 * t], a_l, a_r, a_o, v),
{
    let k = input.len();
    let ki = k as int;
    let off = ki - 1;
    let x = input_wires(k);
    let x_ = output_wires(k);
    let ml = Variable::MultiplierLeft(t as usize);
    assert(circuit_gate(cons, x, x_, c, 0, 0, t));
    let f = |w: Variable| left_input(x, x_, c, 0, t, w) - ind(w, ml);
    assert(lc_form(cons[2 * t], f));
    assert(a_l[0]@ == chain(input, c, 0));
    if t == 0 {
        assert(v[0] == input[0]);
        lemma_shift_row(cons[2 * t], f, a_l, a_r, a_o, v, x[0], c, ml, a_l[0]);
    } else if t < off {
        assert(a_l[t - 1]@ == chain(input, c, (t - 1) as nat));
        assert(a_l[t]@ == chain(input, c, t as nat));
        lemma_copy_row(cons[2 * t], f, a_l, a_r, a_o, v, Variable::MultiplierOutput((t - 1) as usize), ml);
    } else if t == off {
        assert(v[ki] == output[0]);
        lemma_shift_row(cons[2 * t], f, a_l, a_r, a_o, v, x_[0], c, ml, a_l[t]);
    } else if t < 2 * ki - 2 {
        let q = t - off;
        assert(a_l[q - 1]@ == chain(input, c, (q - 1) as nat));
        assert(a_l[q]@ == chain(input, c, q as nat));
        assert(a_o[(q - 1) + off]@ == chain(output, c, q as nat));
        assert(a_l[q + off]@ == chain(output, c, q as nat));
        lemma_copy_row(cons[2 * t], f, a_l, a_r, a_o, v, Variable::MultiplierOutput((t - 1) as usize), ml);
    } else {
        assert(a_l[ki - 2]@ == chain(input, c, (ki - 2) as nat));
        assert(a_o[(ki - 2) + off]@ == chain(output, c, (ki - 1) as nat));
        lemma_copy_row(cons[2 * t], f, a_l, a_r, a_o, v, Variable::MultiplierOutput((2 * ki - 3) as usize), ml);
    }
}

#[verifier::spinoff_prover]
#[verifier::rlimit(60)]
proof fn lemma_sum_row(
    cons: Seq<Seq<(Variable, Fe)>>,
    input: Seq<Fe>,
    output: Seq<Fe>,
    c: int,
    a_l: Seq<Fe>,
    a_r: Seq<Fe>,
    a_o: Seq<Fe>,
    v: Seq<Fe>,
)
    requires
        circuit_setting(cons, input, output, c, a_l, a_r, a_o, v),
    ensures
        vanishes(cons[2 * (2 * input.len() - 1)], a_l, a_r, a_o, v),
{
    let k = input.len();
    let ki = k as int;
    let t = 2 * ki - 1;
    let x = input_wires(k);
    let x_ = output_wires(k);
    let ml = Variable::MultiplierLeft(t as usize);
    assert(circuit_gate(cons, x, x_, c, 0, 0, t));
    let f = |w: Variable| left_input(x, x_, c, 0, t, w) - ind(w, ml);
    assert(lc_form(cons[2 * t], f));
    let m1 = Variable::MultiplierOutput((ki - 2) as usize);
    let m2 = Variable::MultiplierOutput((2 * ki - 2) as usize);
    lemma_row_value(cons[2 * t], f, a_l, a_r, a_o, v, m1, 1, m2, 1, ml, -1);
    let p = chain(input, c, (ki - 1) as nat);
    let q = chain(output, c, (ki - 1) as nat);
    assert(a_l[ki - 2]@ == chain(input, c, (ki - 2) as nat));
    assert(a_o[ki - 2]@ == p);
    lemma_modl(q, -1);
    lemma_modl(-1, 0);
    lemma_chain_reduced(output, c, (ki - 1) as nat);
    lemma_chain_reduced(input, c, (ki - 1) as nat);
    assert(a_o[2 * ki - 2]@ == modl(-q));
    assert(a_l[t]@ == modl(p - q));
    lemma_modl(p, -q);
    lemma_modl(p + modl(-q), -modl(p - q));
    lemma_modl(p - q, 0);
    lemma_modl(p - q - (p - q), 0);
    crate::field::lemma_modl_eq_iff(p + modl(-q), modl(p - q));
}

#[verifier::spinoff_prover]
#[verifier::rlimit(60)]
proof fn lemma_right_row(
    cons: Seq<Seq<(Variable, Fe)>>,
    input: Seq<Fe>,
    output: Seq<Fe>,
    c: int,
    a_l: Seq<Fe>,
    a_r: Seq<Fe>,
    a_o: Seq<Fe>,
    v: Seq<Fe>,
    t: int,
)
    requires
        circuit_setting(cons, input, output, c, a_l, a_r, a_o, v),
        0 <= t < 2 * input.len(),
    ensures
        vanishes(cons[2 * t + 1], a_l, a_r, a_o, v),
{
    let k = input.len();
    let ki = k as int;
    let off = ki - 1;
    let x = input_wires(k);
    let x_ = output_wires(k);
    let mr = Variable::MultiplierRight(t as usize);
    let one = Variable::One;
    assert(circuit_gate(cons, x, x_, c, 0, 0, t));
    let f = |w: Variable| right_input(x, x_, c, t, w) - ind(w, mr);
    assert(lc_form(cons[2 * t + 1], f));
    if t < off {
        assert(v[t + 1] == input[t + 1]);
        assert(a_l[t]@ == chain(input, c, t as nat));
        lemma_shift_row(cons[2 * t + 1], f, a_l, a_r, a_o, v, x[t + 1], c, mr, a_r[t]);
    } else if t < 2 * ki - 2 {
        let q = t - off;
        assert(v[ki + q + 1] == output[q + 1]);
        assert(a_l[q]@ == chain(input, c, q as nat));
        assert(a_r[q + off]@ == shifted(output, c, q + 1));
        lemma_shift_row(cons[2 * t + 1], f, a_l, a_r, a_o, v, x_[q + 1], c, mr, a_r[t]);
    } else if t == 2 * ki - 2 {
        lemma_row_value(cons[2 * t + 1], f, a_l, a_r, a_o, v, one, modl(-1), mr, -1, one, 0);
        lemma_modl(-1, 0);
        lemma_modl(0, 0);
    } else {
        lemma_row_value(cons[2 * t + 1], f, a_l, a_r, a_o, v, one, 1, mr, -1, one, 0);
        lemma_modl(0, 0);
    }
}

/// No constraint of the permutation circuit weighs the committed value
/// after the inputs and outputs, where the challenge stands.
pub proof fn lemma_challenge_column_unused(cons: Seq<Seq<(Variable, Fe)>>, k: nat, c: int, i: int)
    requires
        k >= 1,
        4 * k <= usize::MAX,
        is_perm_circuit(cons, k, c),
        0 <= i < cons.len(),
    ensures
        modl(coeff_of(cons[i], Variable::Committed((2 * k) as usize))) == 0,
{
    let ki = k as int;
    let x = input_wires(k);
    let x_ = output_wires(k);
    let w = Variable::Committed((2 * k) as usize);
    lemma_modl(0, 0);
    if k == 1 {
        assert(modl(coeff_of(cons[0], w)) == modl(ind(w, Variable::Committed(1)) - ind(w, Variable::Committed(0))));
    } else if i == 4 * ki {
        assert(modl(coeff_of(cons[i], w)) == modl(ind(w, Variable::MultiplierOutput((2 * k - 1) as usize))));
    } else {
        let t = i / 2;
        assert(0 <= t < 2 * ki);
        assert(circuit_gate(cons, x, x_, c, 0, 0, t));
        if i == 2 * t {
            let f = |u: Variable| left_input(x, x_, c, 0, t, u) - ind(u, Variable::MultiplierLeft(t as usize));
            assert(lc_form(cons[i], f));
            assert(modl(coeff_of(cons[i], w)) == modl(f(w)));
            assert(f(w) == 0);
        } else {
            assert(i == 2 * t + 1);
            let f = |u: Variable| right_input(x, x_, c, t, u) - ind(u, Variable::MultiplierRight(t as usize));
            assert(lc_form(cons[i], f));
            assert(modl(coeff_of(cons[i], w)) == modl(f(w)));
            assert(f(w) == 0);
        }
    }
}

/// The constraint that reads output `j` of the permutation circuit for `k`
/// elements: the left input of the next gate of its chain, of the
/// negation, or of the final sum; the last constraint reads the final gate.
pub open spec fn reader_row(k: int, j: int) -> int {
    if j < k - 2 {
        2 * (j + 1)
    } else if j == k - 2 {
        2 * (2 * k - 1)
    } else if j < 2 * k - 3 {
        2 * (j + 1)
    } else if j == 2 * k - 3 {
        2 * (2 * k - 2)
    } else if j == 2 * k - 2 {
        2 * (2 * k - 1)
    } else {
        4 * k
    }
}

/// Every gate output is read, with weight one, by a constraint.
pub proof fn lemma_output_is_read(cons: Seq<Seq<(Variable, Fe)>>, k: nat, c: int, j: int)
    requires
        k >= 2,
        4 * k <= usize::MAX,
        is_perm_circuit(cons, k, c),
        0 <= j < 2 * k,
    ensures
        0 <= reader_row(k as int, j) < cons.len(),
        modl(coeff_of(cons[reader_row(k as int, j)], Variable::MultiplierOutput(j as usize))) == 1,
{
    let ki = k as int;
    let i = reader_row(ki, j);
    let x = input_wires(k);
    let x_ = output_wires(k);
    let mo = Variable::MultiplierOutput(j as usize);
    lemma_modl(1, 0);
    if j == 2 * ki - 1 {
        assert(modl(coeff_of(cons[i], mo)) == modl(ind(mo, mo)));
    } else {
        let t = if j < ki - 2 || (ki - 2 < j && j < 2 * ki - 3) {
            j + 1
        } else if j == 2 * ki - 3 {
            2 * ki - 2
        } else {
            2 * ki - 1
        };
        assert(i == 2 * t);
        assert(circuit_gate(cons, x, x_, c, 0, 0, t));
        let f = |w: Variable| left_input(x, x_, c, 0, t, w) - ind(w, Variable::MultiplierLeft(t as usize));
        assert(lc_form(cons[i], f));
        assert(modl(coeff_of(cons[i], mo)) == modl(f(mo)));
        if j < ki - 2 {
            assert(left_input(x, x_, c, 0, t, mo) == chain_left(x, c, 0, t, mo));
        } else if ki - 2 < j && j < 2 * ki - 3 {
            assert(left_input(x, x_, c, 0, t, mo) == chain_left(x_, c, (ki - 1) as nat, t - (ki - 1), mo));
        } else if j == 2 * ki - 3 {
            assert(left_input(x, x_, c, 0, t, mo) == ind(mo, Variable::MultiplierOutput((2 * ki - 3) as usize)));
        } else {
            assert(left_input(x, x_, c, 0, t, mo) == ind(mo, Variable::MultiplierOutput((ki - 2) as usize)) + ind(mo, Variable::MultiplierOutput((2 * ki - 2) as usize)));
        }
        assert(f(mo) == 1);
    }
}

/// On the witness, every constraint of the permutation circuit but the
/// last vanishes, and the last evaluates to the final gate's output (to
/// `output[0] - input[0]` for one element), which is zero exactly when the
/// two sequences' products agree at the challenge.
pub proof fn lemma_circuit_on_witness(
    cons: Seq<Seq<(Variable, Fe)>>,
    input: Seq<Fe>,
    output: Seq<Fe>,
    c: int,
    a_l: Seq<Fe>,
    a_r: Seq<Fe>,
    a_o: Seq<Fe>,
    v: Seq<Fe>,
)
    requires
        is_perm_circuit(cons, input.len(), c),
        is_perm_witness(input, output, c, a_l, a_r, a_o, v),
    ensures
        forall|i: int| 0 <= i < cons.len() - 1 ==> vanishes(#[trigger] cons[i], a_l, a_r, a_o, v),
        vanishes(cons[cons.len() - 1], a_l, a_r, a_o, v) <==> products_agree(input, output, c),
{
    let k = input.len();
    let ki = k as int;
    lemma_modl(0, 0);
    if k == 1 {
        lemma_row_value(cons[0], |w: Variable| ind(w, Variable::Committed(1)) - ind(w, Variable::Committed(0)), a_l, a_r, a_o, v, Variable::Committed(1), 1, Variable::Committed(0), -1, Variable::One, 0);
        assert(v[1] == output[0] && v[0] == input[0]);
        crate::field::lemma_modl_eq_iff(output[0]@, input[0]@);
        crate::field::lemma_view_reduced(output[0]);
        crate::field::lemma_view_reduced(input[0]);
        return;
    }
    assert forall|i: int| 0 <= i < cons.len() - 1 implies vanishes(#[trigger] cons[i], a_l, a_r, a_o, v) by {
        let t = i / 2;
        if i == 2 * t {
            if t < 2 * ki - 1 {
                lemma_left_row(cons, input, output, c, a_l, a_r, a_o, v, t);
            } else {
                lemma_sum_row(cons, input, output, c, a_l, a_r, a_o, v);
            }
        } else {
            lemma_right_row(cons, input, output, c, a_l, a_r, a_o, v, t);
        }
    }
    let last = cons[4 * ki];
    lemma_row_value(last, |w: Variable| ind(w, Variable::MultiplierOutput((2 * k - 1) as usize)), a_l, a_r, a_o, v, Variable::MultiplierOutput((2 * k - 1) as usize), 1, Variable::One, 0, Variable::One, 0);
    crate::field::lemma_view_reduced(a_o[2 * ki - 1]);
    lemma_modl(a_o[2 * ki - 1]@, 0);
    lemma_final_gate_zero_iff_products_agree(input, output, c, a_l, a_r, a_o);
}

/// Weight on wire `w` of the left input of gate `t` of a product chain over
/// `x` whose first gate is `g0`: `x[0] - c`, then the previous output.
pub open spec fn chain_left(x: Seq<Variable>, c: int, g0: nat, t: int, w: Variable) -> int {
    if t == 0 {
        ind(w, x[0]) - c * ind(w, Variable::One)
    } else {
        ind(w, Variable::MultiplierOutput((g0 + t - 1) as usize))
    }
}

/// Weight on wire `w` of the right input of gate `t` of a product chain:
/// `x[t + 1] - c`.
pub open spec fn chain_right(x: Seq<Variable>, c: int, t: int, w: Variable) -> int {
    ind(w, x[t + 1]) - c * ind(w, Variable::One)
}

/// Constraints `c0 + 2t` and `c0 + 2t + 1` tie the inputs of gate `g0 + t`
/// to `left` and `right`.
pub open spec fn gate_inputs(
    cons: Seq<Seq<(Variable, Fe)>>,
    c0: nat,
    g0: nat,
    t: int,
    left: spec_fn(Variable) -> int,
    right: spec_fn(Variable) -> int,
) -> bool {
    &&& lc_form(
        cons[c0 + 2 * t],
        |w: Variable| left(w) - ind(w, Variable::MultiplierLeft((g0 + t) as usize)),
    )
    &&& lc_form(
        cons[c0 + 2 * t + 1],
        |w: Variable| right(w) - ind(w, Variable::MultiplierRight((g0 + t) as usize)),
    )
}

pub open spec fn chain_gate(cons: Seq<Seq<(Variable, Fe)>>, x: Seq<Variable>, c: int, c0: nat, g0: nat, t: int) -> bool {
    gate_inputs(
        cons,
        c0,
        g0,
        t,
        |w: Variable| chain_left(x, c, g0, t, w),
        |w: Variable| chain_right(x, c, t, w),
    )
}

/// Weight on wire `w` of the left input of gate `t` of the permutation
/// circuit over `x` and `x_` whose first gate is `g0`: the two product
/// chains, then the second product (to be negated), then the sum of the
/// first product and the negated second.
pub open spec fn left_input(x: Seq<Variable>, x_: Seq<Variable>, c: int, g0: nat, t: int, w: Variable) -> int {
    let k = x.len() as int;
    if t < k - 1 {
        chain_left(x, c, g0, t, w)
    } else if t < 2 * k - 2 {
        chain_left(x_, c, (g0 + k - 1) as nat, t - (k - 1), w)
    } else if t == 2 * k - 2 {
        ind(w, Variable::MultiplierOutput((g0 + 2 * k - 3) as usize))
    } else {
        ind(w, Variable::MultiplierOutput((g0 + k - 2) as usize)) + ind(
            w,
            Variable::MultiplierOutput((g0 + 2 * k - 2) as usize),
        )
    }
}

/// Weight on wire `w` of the right input of gate `t` of the permutation
/// circuit: the chains' factors, then minus one, then one.
pub open spec fn right_input(x: Seq<Variable>, x_: Seq<Variable>, c: int, t: int, w: Variable) -> int {
    let k = x.len() as int;
    if t < k - 1 {
        chain_right(x, c, t, w)
    } else if t < 2 * k - 2 {
        chain_right(x_, c, t - (k - 1), w)
    } else if t == 2 * k - 2 {
        modl(-1) * ind(w, Variable::One)
    } else {
        ind(w, Variable::One)
    }
}

pub open spec fn circuit_gate(
    cons: Seq<Seq<(Variable, Fe)>>,
    x: Seq<Variable>,
    x_: Seq<Variable>,
    c: int,
    c0: nat,
    g0: nat,
    t: int,
) -> bool {
    gate_inputs(
        cons,
        c0,
        g0,
        t,
        |w: Variable| left_input(x, x_, c, g0, t, w),
        |w: Variable| right_input(x, x_, c, t, w),
    )
}

proof fn lemma_lc_form_ext(con: Seq<(Variable, Fe)>, f: spec_fn(Variable) -> int, g: spec_fn(Variable) -> int)
    requires
        lc_form(con, f),
        forall|w: Variable| #[trigger] f(w) == g(w),
    ensures
        lc_form(con, g),
{
    assert forall|w: Variable| #![trigger crate::inspector::coeff_of(con, w)]
        modl(crate::inspector::coeff_of(con, w)) == modl(g(w)) by {
        assert(f(w) == g(w));
    }
}

proof fn lemma_gate_inputs_ext(
    cons: Seq<Seq<(Variable, Fe)>>,
    c0: nat,
    g0: nat,
    t: int,
    l1: spec_fn(Variable) -> int,
    r1: spec_fn(Variable) -> int,
    l2: spec_fn(Variable) -> int,
    r2: spec_fn(Variable) -> int,
)
    requires
        gate_inputs(cons, c0, g0, t, l1, r1),
        forall|w: Variable| #[trigger] l1(w) == l2(w),
        forall|w: Variable| #[trigger] r1(w) == r2(w),
    ensures
        gate_inputs(cons, c0, g0, t, l2, r2),
{
    let a = cons[c0 + 2 * t];
    let b = cons[c0 + 2 * t + 1];
    assert forall|w: Variable| #![trigger crate::inspector::coeff_of(a, w)]
        modl(crate::inspector::coeff_of(a, w)) == modl(
            l2(w) - ind(w, Variable::MultiplierLeft((g0 + t) as usize)),
        ) by {
        assert(l1(w) == l2(w));
    }
    assert forall|w: Variable| #![trigger crate::inspector::coeff_of(b, w)]
        modl(crate::inspector::coeff_of(b, w)) == modl(
            r2(w) - ind(w, Variable::MultiplierRight((g0 + t) as usize)),
        ) by {
        assert(r1(w) == r2(w));
    }
}

/// Constraints below `upto` are the same in `a` and `b`, so a gate whose
/// constraints lie there keeps its form.
proof fn lemma_gate_inputs_kept(
    a: Seq<Seq<(Variable, Fe)>>,
    b: Seq<Seq<(Variable, Fe)>>,
    upto: int,
    c0: nat,
    g0: nat,
    t: int,
    l: spec_fn(Variable) -> int,
    r: spec_fn(Variable) -> int,
)
    requires
        gate_inputs(a, c0, g0, t, l, r),
        0 <= c0 + 2 * t,
        c0 + 2 * t + 1 < upto <= a.len(),
        upto <= b.len(),
        b.subrange(0, upto) == a.subrange(0, upto),
    ensures
        gate_inputs(b, c0, g0, t, l, r),
{
    assert(b[c0 + 2 * t] == b.subrange(0, upto)[c0 + 2 * t]);
    assert(a[c0 + 2 * t] == a.subrange(0, upto)[c0 + 2 * t]);
    assert(b[c0 + 2 * t + 1] == b.subrange(0, upto)[c0 + 2 * t + 1]);
    assert(a[c0 + 2 * t + 1] == a.subrange(0, upto)[c0 + 2 * t + 1]);
}

/// Multiplies out `prod (x_i - c)` with `x.len() - 1` gates and returns
/// the wire of the product.
fn chain_constraints<CS: ConstraintSystem>(cs: &mut CS, x: &Vec<Variable>, c: &Fe) -> (r: Variable)
    requires
        x@.len() >= 2,
        old(cs).multipliers_len() + x@.len() <= usize::MAX,
    ensures
        final(cs).multipliers_len() == old(cs).multipliers_len() + x@.len() - 1,
        final(cs).committed_len() == old(cs).committed_len(),
        final(cs).constraints().len() == old(cs).constraints().len() + 2 * (x@.len() - 1),
        final(cs).constraints().subrange(0, old(cs).constraints().len() as int) == old(
            cs,
        ).constraints(),
        r == Variable::MultiplierOutput((old(cs).multipliers_len() + x@.len() - 2) as usize),
        forall|t: int|
            0 <= t < x@.len() - 1 ==> #[trigger] chain_gate(
                final(cs).constraints(),
                x@,
                c@,
                old(cs).constraints().len(),
                old(cs).multipliers_len(),
                t,
            ),
{
    let ghost c0 = cs.constraints().len();
    let ghost g0 = cs.multipliers_len();
    let ghost cons0 = cs.constraints();
    let l0 = LinearCombination::var_minus(x[0], c);
    let r0 = LinearCombination::var_minus(x[1], c);
    let ghost lt = l0.terms@;
    let ghost rt = r0.terms@;
    let (_, _, first) = cs.multiply(l0, r0);
    proof {
        lemma_gate_input_form(cs.constraints()[c0 as int], lt, Variable::MultiplierLeft(g0 as usize), |w: Variable| chain_left(x@, c@, g0, 0, w));
        lemma_gate_input_form(cs.constraints()[c0 + 1int], rt, Variable::MultiplierRight(g0 as usize), |w: Variable| chain_right(x@, c@, 0, w));
        assert(chain_gate(cs.constraints(), x@, c@, c0, g0, 0));
    }
    let mut out = first;
    let mut i: usize = 2;
    while i < x.len()
        invariant
            2 <= i <= x@.len(),
            cs.multipliers_len() == g0 + i - 1,
            cs.committed_len() == old(cs).committed_len(),
            cs.constraints().len() == c0 + 2 * (i - 1),
            cs.constraints().subrange(0, c0 as int) == cons0,
            c0 == old(cs).constraints().len(),
            g0 == old(cs).multipliers_len(),
            cons0 == old(cs).constraints(),
            g0 + x@.len() <= usize::MAX,
            out == Variable::MultiplierOutput((g0 + i - 2) as usize),
            forall|t: int| 0 <= t < i - 1 ==> #[trigger] chain_gate(cs.constraints(), x@, c@, c0, g0, t),
        decreases x@.len() - i,
    {
        let ghost before = cs.constraints();
        let lc_l = LinearCombination::from_var(out);
        let lc_r = LinearCombination::var_minus(x[i], c);
        let ghost lt = lc_l.terms@;
        let ghost rt = lc_r.terms@;
        let (_, _, o) = cs.multiply(lc_l, lc_r);
        proof {
            let t = (i - 1) as int;
            let after = cs.constraints();
            lemma_gate_input_form(after[before.len() as int], lt, Variable::MultiplierLeft((g0 + t) as usize), |w: Variable| chain_left(x@, c@, g0, t, w));
            lemma_gate_input_form(after[before.len() + 1int], rt, Variable::MultiplierRight((g0 + t) as usize), |w: Variable| chain_right(x@, c@, t, w));
            assert(chain_gate(after, x@, c@, c0, g0, t));
            assert forall|q: int| 0 <= q < t implies #[trigger] chain_gate(after, x@, c@, c0, g0, q) by {
                assert(chain_gate(before, x@, c@, c0, g0, q));
                assert(after[c0 + 2 * q] == before[c0 + 2 * q]);
                assert(after[c0 + 2 * q + 1] == before[c0 + 2 * q + 1]);
            }
            assert(after.subrange(0, c0 as int) =~= cons0);
        }
        out = o;
        i = i + 1;
    }
    out
}

/// Wires the permutation circuit for the committed wires `x` and `x_` with
/// challenge `c`: with one element, `x_[0] - x[0] == 0`; otherwise both
/// products `prod (x_i - c)`, the negation of the second, and a final gate
/// `(p - p_) * 1` whose output is constrained to zero: `2k` gates in all.
/// Fails, before adding anything, when the lengths differ or are zero.
pub fn create_constraints<CS: ConstraintSystem>(
    cs: &mut CS,
    x: Vec<Variable>,
    x_: Vec<Variable>,
    c: &Fe,
) -> (r: Result<(), PermError>)
    requires
        old(cs).multipliers_len() + 2 * x@.len() <= usize::MAX,
    ensures
        (x@.len() != x_@.len() || x@.len() == 0) <==> r == Err::<(), PermError>(
            PermError::InvalidInput,
        ),
        r is Err ==> r == Err::<(), PermError>(PermError::InvalidInput),
        r is Err ==> *final(cs) == *old(cs),
        r is Ok && x@.len() == 1 ==> final(cs).multipliers_len() == old(cs).multipliers_len(),
        r is Ok && x@.len() == 1 ==> final(cs).constraints().len() == old(cs).constraints().len()
            + 1,
        r is Ok && x@.len() == 1 ==> lc_form(
            final(cs).constraints().last(),
            |w: Variable| ind(w, x_@[0]) - ind(w, x@[0]),
        ),
        r is Ok && x@.len() >= 2 ==> forall|t: int|
            0 <= t < 2 * x@.len() ==> #[trigger] circuit_gate(
                final(cs).constraints(),
                x@,
                x_@,
                c@,
                old(cs).constraints().len(),
                old(cs).multipliers_len(),
                t,
            ),
        r is Ok && x@.len() >= 2 ==> lc_form(
            final(cs).constraints()[(old(cs).constraints().len() + 4 * x@.len()) as int],
            |w: Variable|
                ind(
                    w,
                    Variable::MultiplierOutput((old(cs).multipliers_len() + 2 * x@.len() - 1) as usize),
                ),
        ),
        r is Ok && x@.len() >= 2 ==> final(cs).multipliers_len() == old(cs).multipliers_len() + 2
            * x@.len(),
        r is Ok && x@.len() >= 2 ==> final(cs).constraints().len() == old(cs).constraints().len()
            + 4 * x@.len() + 1,
        r is Ok ==> final(cs).committed_len() == old(cs).committed_len(),
        r is Ok ==> final(cs).constraints().subrange(0, old(cs).constraints().len() as int) == old(
            cs,
        ).constraints(),
{
    if x.len() != x_.len() || x.len() == 0 {
        return Err(PermError::InvalidInput);
    }
    let k = x.len();
    if k == 1 {
        cs.constrain(LinearCombination::var_diff(x_[0], x[0]));
        assert(cs.constraints().subrange(0, old(cs).constraints().len() as int) =~= old(cs).constraints());
        return Ok(());
    }
    let ghost c0 = cs.constraints().len();
    let ghost g0 = cs.multipliers_len();
    let ghost kk = k as int;
    let original_out = chain_constraints(cs, &x, c);
    let ghost cons1 = cs.constraints();
    let permd_out = chain_constraints(cs, &x_, c);
    let ghost cons2 = cs.constraints();
    let neg_l = LinearCombination::from_var(permd_out);
    let minus_one = Fe::one().neg();
    let neg_r = LinearCombination::constant(minus_one);
    let ghost (nlt, nrt) = (neg_l.terms@, neg_r.terms@);
    let (_, _, negated) = cs.multiply(neg_l, neg_r);
    let ghost cons3 = cs.constraints();
    let sum_l = LinearCombination::var_sum(original_out, negated);
    let one = Fe::one();
    let sum_r = LinearCombination::constant(one);
    let ghost (slt, srt) = (sum_l.terms@, sum_r.terms@);
    let (_, _, last_out) = cs.multiply(sum_l, sum_r);
    let ghost cons4 = cs.constraints();
    let last = LinearCombination::from_var(last_out);
    let ghost lastt = last.terms@;
    cs.constrain(last);
    proof {
        let fin = cs.constraints();
        let tn = 2 * kk - 2;
        let g_neg = (g0 + tn) as usize;
        let g_sum = (g0 + tn + 1) as usize;
        lemma_gate_input_form(cons3[c0 + 2 * tn], nlt, Variable::MultiplierLeft(g_neg), |w: Variable| ind(w, permd_out));
        lemma_gate_input_form(cons3[c0 + 2 * tn + 1], nrt, Variable::MultiplierRight(g_neg), |w: Variable| minus_one@ * ind(w, Variable::One));
        lemma_gate_input_form(cons4[c0 + 2 * (tn + 1)], slt, Variable::MultiplierLeft(g_sum), |w: Variable| ind(w, original_out) + ind(w, negated));
        lemma_gate_input_form(cons4[c0 + 2 * (tn + 1) + 1], srt, Variable::MultiplierRight(g_sum), |w: Variable| one@ * ind(w, Variable::One));
        assert(gate_inputs(cons3, c0, g0, tn, |w: Variable| ind(w, permd_out), |w: Variable| minus_one@ * ind(w, Variable::One)));
        assert(gate_inputs(cons4, c0, g0, tn + 1, |w: Variable| ind(w, original_out) + ind(w, negated), |w: Variable| one@ * ind(w, Variable::One)));
        assert forall|i: int| 0 <= i < cons2.len() implies fin[i] == cons2[i] && (i < cons1.len() ==> fin[i] == cons1[i]) by {
            assert(fin.subrange(0, cons4.len() as int)[i] == cons4[i]);
            assert(cons4.subrange(0, cons3.len() as int)[i] == cons3[i]);
            assert(cons3.subrange(0, cons2.len() as int)[i] == cons2[i]);
            if i < cons1.len() {
                assert(cons2.subrange(0, cons1.len() as int)[i] == cons1[i]);
            }
        }
        assert forall|i: int| 0 <= i < cons4.len() implies fin[i] == cons4[i] && (i < cons3.len() ==> fin[i] == cons3[i]) by {
            assert(fin.subrange(0, cons4.len() as int)[i] == cons4[i]);
            if i < cons3.len() {
                assert(cons4.subrange(0, cons3.len() as int)[i] == cons3[i]);
            }
        }
        assert(fin.subrange(0, cons1.len() as int) =~= cons1.subrange(0, cons1.len() as int));
        assert(fin.subrange(0, cons2.len() as int) =~= cons2.subrange(0, cons2.len() as int));
        assert(fin.subrange(0, cons3.len() as int) =~= cons3.subrange(0, cons3.len() as int));
        assert(fin.subrange(0, cons4.len() as int) =~= cons4.subrange(0, cons4.len() as int));
        assert forall|t: int| 0 <= t < 2 * kk implies #[trigger] circuit_gate(fin, x@, x_@, c@, c0, g0, t) by {
            let lf = |w: Variable| left_input(x@, x_@, c@, g0, t, w);
            let rf = |w: Variable| right_input(x@, x_@, c@, t, w);
            if t < kk - 1 {
                assert(chain_gate(cons1, x@, c@, c0, g0, t));
                lemma_gate_inputs_kept(cons1, fin, cons1.len() as int, c0, g0, t, |w: Variable| chain_left(x@, c@, g0, t, w), |w: Variable| chain_right(x@, c@, t, w));
                lemma_gate_inputs_ext(fin, c0, g0, t, |w: Variable| chain_left(x@, c@, g0, t, w), |w: Variable| chain_right(x@, c@, t, w), lf, rf);
            } else if t < 2 * kk - 2 {
                let q = t - (kk - 1);
                let c1 = cons1.len();
                let g1 = (g0 + kk - 1) as nat;
                assert(chain_gate(cons2, x_@, c@, c1, g1, q));
                assert(c1 + 2 * q == c0 + 2 * t);
                assert(g1 + q == g0 + t);
                lemma_gate_inputs_kept(cons2, fin, cons2.len() as int, c1, g1, q, |w: Variable| chain_left(x_@, c@, g1, q, w), |w: Variable| chain_right(x_@, c@, q, w));
                assert(gate_inputs(fin, c1, g1, q, |w: Variable| chain_left(x_@, c@, g1, q, w), |w: Variable| chain_right(x_@, c@, q, w)));
                lemma_lc_form_ext(
                    fin[c0 + 2 * t],
                    |w: Variable| chain_left(x_@, c@, g1, q, w) - ind(w, Variable::MultiplierLeft((g1 + q) as usize)),
                    |w: Variable| lf(w) - ind(w, Variable::MultiplierLeft((g0 + t) as usize)),
                );
                lemma_lc_form_ext(
                    fin[c0 + 2 * t + 1],
                    |w: Variable| chain_right(x_@, c@, q, w) - ind(w, Variable::MultiplierRight((g1 + q) as usize)),
                    |w: Variable| rf(w) - ind(w, Variable::MultiplierRight((g0 + t) as usize)),
                );
            } else if t == 2 * kk - 2 {
                lemma_gate_inputs_kept(cons3, fin, cons3.len() as int, c0, g0, t, |w: Variable| ind(w, permd_out), |w: Variable| minus_one@ * ind(w, Variable::One));
                lemma_gate_inputs_ext(fin, c0, g0, t, |w: Variable| ind(w, permd_out), |w: Variable| minus_one@ * ind(w, Variable::One), lf, rf);
            } else {
                lemma_gate_inputs_kept(cons4, fin, cons4.len() as int, c0, g0, t, |w: Variable| ind(w, original_out) + ind(w, negated), |w: Variable| one@ * ind(w, Variable::One));
                lemma_gate_inputs_ext(fin, c0, g0, t, |w: Variable| ind(w, original_out) + ind(w, negated), |w: Variable| one@ * ind(w, Variable::One), lf, rf);
            }
        }
        assert(fin[c0 + 4 * kk] == lastt);
        assert forall|i: int| 0 <= i < c0 implies fin[i] == old(cs).constraints()[i] by {
            assert(cons1.subrange(0, c0 as int)[i] == cons1[i]);
        }
        assert(fin.subrange(0, c0 as int) =~= old(cs).constraints());
    }
    Ok(())
}

} // verus!
