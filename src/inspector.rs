//! Wires, linear combinations and the constraint-system capability that
//! the permutation gadget is written against, with an implementation that
//! records the constraints and flattens them into weight matrices.
use crate::field::{lemma_modl, lemma_modl_eq_iff, lemma_view_reduced, modl, Fe};
use crate::util::dot;
use vstd::prelude::*;

verus! {

/// A wire of a constraint system.
#[derive(Clone, Copy, Debug, PartialEq, Eq, Structural)]
pub enum Variable {
    /// The `i`-th committed value.
    Committed(usize),
    /// The left input of the `i`-th multiplication gate.
    MultiplierLeft(usize),
    /// The right input of the `i`-th multiplication gate.
    MultiplierRight(usize),
    /// The output of the `i`-th multiplication gate.
    MultiplierOutput(usize),
    /// The constant one.
    One,
}

/// A weighted sum of wires; the constant term is the weight of `One`.
pub struct LinearCombination {
    pub terms: Vec<(Variable, Fe)>,
}

/// The total weight of `v` among `terms`.
pub open spec fn coeff_of(terms: Seq<(Variable, Fe)>, v: Variable) -> int
    decreases terms.len(),
{
    if terms.len() == 0 {
        0
    } else {
        coeff_of(terms.drop_last(), v) + if terms.last().0 == v {
            terms.last().1@
        } else {
            0
        }
    }
}

/// One when `w` is `u`, else zero.
pub open spec fn ind(w: Variable, u: Variable) -> int {
    if w == u {
        1
    } else {
        0
    }
}

/// The terms weigh each wire `w` as `f(w)` does, modulo the group order.
pub open spec fn lc_form(terms: Seq<(Variable, Fe)>, f: spec_fn(Variable) -> int) -> bool {
    forall|w: Variable| #![trigger coeff_of(terms, w)] modl(coeff_of(terms, w)) == modl(f(w))
}

proof fn lemma_coeff_one(v: Variable, k: Fe, w: Variable)
    ensures
        coeff_of(seq![(v, k)], w) == if w == v {
            k@
        } else {
            0
        },
{
    let s = seq![(v, k)];
    assert(s.drop_last() =~= Seq::<(Variable, Fe)>::empty());
    assert(coeff_of(Seq::<(Variable, Fe)>::empty(), w) == 0);
    assert(s.last() == (v, k));
}

proof fn lemma_coeff_two(v: Variable, k: Fe, u: Variable, m: Fe, w: Variable)
    ensures
        coeff_of(seq![(v, k), (u, m)], w) == (if w == v {
            k@
        } else {
            0
        }) + (if w == u {
            m@
        } else {
            0
        }),
{
    let s = seq![(v, k), (u, m)];
    assert(s.drop_last() =~= seq![(v, k)]);
    assert(s.last() == (u, m));
    lemma_coeff_one(v, k, w);
}

/// A gate's input constraint `lc - var` weighs wires as `lc` does, less
/// one on `var`.
pub proof fn lemma_gate_input_form(
    con: Seq<(Variable, Fe)>,
    lc: Seq<(Variable, Fe)>,
    var: Variable,
    f: spec_fn(Variable) -> int,
)
    requires
        coeffs_match(con, lc, var),
        lc_form(lc, f),
    ensures
        lc_form(con, |w: Variable| f(w) - ind(w, var)),
{
    assert forall|w: Variable| #![trigger coeff_of(con, w)] modl(coeff_of(con, w)) == modl(
        f(w) - ind(w, var),
    ) by {
        assert(modl(coeff_of(con, w)) == modl(coeff_of(lc, w) - ind(w, var)));
        lemma_modl(coeff_of(lc, w), ind(w, var));
        lemma_modl(f(w), ind(w, var));
        lemma_modl(ind(w, var), 0);
    }
}

impl LinearCombination {
    /// `1 * v`.
    pub fn from_var(v: Variable) -> (r: LinearCombination)
        ensures
            r.terms@.len() == 1,
            r.terms@[0].0 == v,
            r.terms@[0].1@ == 1,
            lc_form(r.terms@, |w: Variable| ind(w, v)),
    {
        let mut terms: Vec<(Variable, Fe)> = Vec::new();
        let one = Fe::one();
        terms.push((v, one));
        proof {
            assert(terms@ =~= seq![(v, one)]);
            assert forall|w: Variable| #![trigger coeff_of(terms@, w)] modl(coeff_of(terms@, w))
                == modl(ind(w, v)) by {
                lemma_coeff_one(v, one, w);
            }
        }
        LinearCombination { terms }
    }

    /// The constant `k`.
    pub fn constant(k: Fe) -> (r: LinearCombination)
        ensures
            r.terms@ == seq![(Variable::One, k)],
            lc_form(r.terms@, |w: Variable| k@ * ind(w, Variable::One)),
    {
        let mut terms: Vec<(Variable, Fe)> = Vec::new();
        terms.push((Variable::One, k));
        proof {
            assert(terms@ =~= seq![(Variable::One, k)]);
            assert forall|w: Variable| #![trigger coeff_of(terms@, w)] modl(coeff_of(terms@, w))
                == modl(k@ * ind(w, Variable::One)) by {
                lemma_coeff_one(Variable::One, k, w);
            }
        }
        LinearCombination { terms }
    }

    /// `v - k`.
    pub fn var_minus(v: Variable, k: &Fe) -> (r: LinearCombination)
        ensures
            r.terms@.len() == 2,
            r.terms@[0].0 == v,
            r.terms@[0].1@ == 1,
            r.terms@[1].0 == Variable::One,
            r.terms@[1].1@ == modl(-k@),
            lc_form(r.terms@, |w: Variable| ind(w, v) - k@ * ind(w, Variable::One)),
    {
        let mut terms: Vec<(Variable, Fe)> = Vec::new();
        let one = Fe::one();
        let nk = k.neg();
        terms.push((v, one));
        terms.push((Variable::One, nk));
        proof {
            assert(terms@ =~= seq![(v, one), (Variable::One, nk)]);
            assert forall|w: Variable| #![trigger coeff_of(terms@, w)] modl(coeff_of(terms@, w))
                == modl(ind(w, v) - k@ * ind(w, Variable::One)) by {
                lemma_coeff_two(v, one, Variable::One, nk, w);
                lemma_modl(ind(w, v), -k@ * ind(w, Variable::One));
                lemma_modl(-k@, 0);
                if w == Variable::One {
                    lemma_modl(ind(w, v), -k@);
                } else {
                    lemma_modl(ind(w, v), 0);
                }
            }
        }
        LinearCombination { terms }
    }

    /// `a - b`, for two wires.
    pub fn var_diff(a: Variable, b: Variable) -> (r: LinearCombination)
        ensures
            r.terms@.len() == 2,
            r.terms@[0].0 == a,
            r.terms@[0].1@ == 1,
            r.terms@[1].0 == b,
            r.terms@[1].1@ == modl(-1),
            lc_form(r.terms@, |w: Variable| ind(w, a) - ind(w, b)),
    {
        let mut terms: Vec<(Variable, Fe)> = Vec::new();
        let one = Fe::one();
        let m = one.neg();
        terms.push((a, one));
        terms.push((b, m));
        proof {
            assert(terms@ =~= seq![(a, one), (b, m)]);
            assert forall|w: Variable| #![trigger coeff_of(terms@, w)] modl(coeff_of(terms@, w))
                == modl(ind(w, a) - ind(w, b)) by {
                lemma_coeff_two(a, one, b, m, w);
                if w == b {
                    lemma_modl(ind(w, a), -1);
                    lemma_modl(-1, 0);
                } else {
                    lemma_modl(ind(w, a), 0);
                }
            }
        }
        LinearCombination { terms }
    }

    /// `a + b`, for two wires.
    pub fn var_sum(a: Variable, b: Variable) -> (r: LinearCombination)
        ensures
            r.terms@.len() == 2,
            r.terms@[0].0 == a,
            r.terms@[0].1@ == 1,
            r.terms@[1].0 == b,
            r.terms@[1].1@ == 1,
            lc_form(r.terms@, |w: Variable| ind(w, a) + ind(w, b)),
    {
        let mut terms: Vec<(Variable, Fe)> = Vec::new();
        let one = Fe::one();
        terms.push((a, one));
        terms.push((b, one));
        proof {
            assert(terms@ =~= seq![(a, one), (b, one)]);
            assert forall|w: Variable| #![trigger coeff_of(terms@, w)] modl(coeff_of(terms@, w))
                == modl(ind(w, a) + ind(w, b)) by {
                lemma_coeff_two(a, one, b, one, w);
            }
        }
        LinearCombination { terms }
    }
}

/// What a constraint system offers to a gadget: multiplication gates and
/// linear constraints over its wires.
pub trait ConstraintSystem {
    /// The number of multiplication gates allocated so far.
    spec fn multipliers_len(&self) -> nat;

    /// The number of committed values.
    spec fn committed_len(&self) -> nat;

    /// The linear constraints registered so far, each required to sum to zero.
    spec fn constraints(&self) -> Seq<Seq<(Variable, Fe)>>;

    /// Allocates a gate with inputs `left` and `right`, constrains its
    /// input wires to them, and returns its (left, right, output) wires.
    fn multiply(&mut self, left: LinearCombination, right: LinearCombination) -> (r: (
        Variable,
        Variable,
        Variable,
    ))
        requires
            old(self).multipliers_len() < usize::MAX,
        ensures
            final(self).multipliers_len() == old(self).multipliers_len() + 1,
            final(self).committed_len() == old(self).committed_len(),
            r == (
                Variable::MultiplierLeft(old(self).multipliers_len() as usize),
                Variable::MultiplierRight(old(self).multipliers_len() as usize),
                Variable::MultiplierOutput(old(self).multipliers_len() as usize),
            ),
            final(self).constraints().len() == old(self).constraints().len() + 2,
            final(self).constraints().subrange(0, old(self).constraints().len() as int) == old(
                self,
            ).constraints(),
            coeffs_match(
                final(self).constraints()[old(self).constraints().len() as int],
                left.terms@,
                r.0,
            ),
            coeffs_match(
                final(self).constraints()[old(self).constraints().len() + 1int],
                right.terms@,
                r.1,
            ),
    ;

    /// Requires `lc` to sum to zero.
    fn constrain(&mut self, lc: LinearCombination)
        ensures
            final(self).multipliers_len() == old(self).multipliers_len(),
            final(self).committed_len() == old(self).committed_len(),
            final(self).constraints() == old(self).constraints().push(lc.terms@),
    ;
}

/// `con` weighs each wire as `lc` does, but for `var`, whose weight is
/// reduced by one: the constraint `lc - var == 0`.
pub open spec fn coeffs_match(con: Seq<(Variable, Fe)>, lc: Seq<(Variable, Fe)>, var: Variable) -> bool {
    forall|v: Variable|
        #![trigger coeff_of(con, v)]
        modl(coeff_of(con, v)) == modl(coeff_of(lc, v) - if v == var {
            1int
        } else {
            0int
        })
}

/// Weight of `v` among `terms`, before and after appending `(w, k)`.
proof fn lemma_coeff_push(terms: Seq<(Variable, Fe)>, w: Variable, k: Fe, v: Variable)
    ensures
        coeff_of(terms.push((w, k)), v) == coeff_of(terms, v) + if w == v {
            k@
        } else {
            0
        },
{
    assert(terms.push((w, k)).drop_last() =~= terms);
}

/// One row of the flattened system: the weight of each gate wire and of
/// each committed value in constraint `con`, and its constant. Outputs,
/// committed values and the constant stand on the other side of the
/// identity `wL*aL + wR*aR - wO*aO = wV*v + c`, so their weights are negated.
pub open spec fn row_flattens(
    con: Seq<(Variable, Fe)>,
    n: nat,
    nv: nat,
    l: Seq<Fe>,
    r: Seq<Fe>,
    o: Seq<Fe>,
    v: Seq<Fe>,
    c: Fe,
) -> bool {
    &&& l.len() == n && r.len() == n && o.len() == n && v.len() == nv
    &&& forall|j: int|
        0 <= j < n ==> (#[trigger] l[j])@ == modl(coeff_of(con, Variable::MultiplierLeft(j as usize)))
    &&& forall|j: int|
        0 <= j < n ==> (#[trigger] r[j])@ == modl(coeff_of(con, Variable::MultiplierRight(j as usize)))
    &&& forall|j: int|
        0 <= j < n ==> (#[trigger] o[j])@ == modl(-coeff_of(con, Variable::MultiplierOutput(j as usize)))
    &&& forall|j: int|
        0 <= j < nv ==> (#[trigger] v[j])@ == modl(-coeff_of(con, Variable::Committed(j as usize)))
    &&& c@ == modl(-coeff_of(con, Variable::One))
}

/// `(wL, wR, wO, wV, c)` is the flattening of `cons` over `n` gates and
/// `nv` committed values.
pub open spec fn flattens(
    cons: Seq<Seq<(Variable, Fe)>>,
    n: nat,
    nv: nat,
    w: (Vec<Vec<Fe>>, Vec<Vec<Fe>>, Vec<Vec<Fe>>, Vec<Vec<Fe>>, Vec<Fe>),
) -> bool {
    let m = cons.len();
    &&& w.0@.len() == m && w.1@.len() == m && w.2@.len() == m && w.3@.len() == m && w.4@.len() == m
    &&& forall|i: int|
        0 <= i < m ==> row_flattens(
            #[trigger] cons[i],
            n,
            nv,
            w.0@[i]@,
            w.1@[i]@,
            w.2@[i]@,
            w.3@[i]@,
            w.4@[i],
        )
}

/// `sum_{j < n} f(j) * a[j]`.
pub open spec fn wsum(f: spec_fn(int) -> int, a: Seq<Fe>, n: nat) -> int
    decreases n,
{
    if n == 0 {
        0
    } else {
        wsum(f, a, (n - 1) as nat) + f(n - 1) * a[n - 1]@
    }
}

/// A constraint with weight `f(w)` on each wire `w`, evaluated at gate
/// values `a_l`, `a_r`, `a_o` and the committed values `v`.
pub open spec fn evaluate(
    f: spec_fn(Variable) -> int,
    a_l: Seq<Fe>,
    a_r: Seq<Fe>,
    a_o: Seq<Fe>,
    v: Seq<Fe>,
) -> int {
    wsum(|j: int| f(Variable::MultiplierLeft(j as usize)), a_l, a_l.len()) + wsum(
        |j: int| f(Variable::MultiplierRight(j as usize)),
        a_r,
        a_r.len(),
    ) + wsum(|j: int| f(Variable::MultiplierOutput(j as usize)), a_o, a_o.len()) + wsum(
        |j: int| f(Variable::Committed(j as usize)),
        v,
        v.len(),
    ) + f(Variable::One)
}

/// `a[j]` when `j` indexes `a`, else zero.
pub open spec fn at(a: Seq<Fe>, j: int) -> int {
    if 0 <= j < a.len() {
        a[j]@
    } else {
        0
    }
}

/// The value of wire `u` at gate values `a_l`, `a_r`, `a_o` and committed
/// values `v`; a wire with no value there counts as zero.
pub open spec fn wire_value(u: Variable, a_l: Seq<Fe>, a_r: Seq<Fe>, a_o: Seq<Fe>, v: Seq<Fe>) -> int {
    match u {
        Variable::MultiplierLeft(j) => at(a_l, j as int),
        Variable::MultiplierRight(j) => at(a_r, j as int),
        Variable::MultiplierOutput(j) => at(a_o, j as int),
        Variable::Committed(j) => at(v, j as int),
        Variable::One => 1,
    }
}

pub open spec fn eq_ind(j: int, i: int) -> int {
    if j == i {
        1
    } else {
        0
    }
}

proof fn lemma_wsum_three(
    h: spec_fn(int) -> int,
    a: Seq<Fe>,
    n: nat,
    j1: int,
    b1: int,
    j2: int,
    b2: int,
    j3: int,
    b3: int,
)
    requires
        n <= a.len(),
        forall|j: int| 0 <= j < n ==> #[trigger] h(j) == b1 * eq_ind(j, j1) + b2 * eq_ind(j, j2) + b3 * eq_ind(j, j3),
    ensures
        wsum(h, a, n) == b1 * at(a.take(n as int), j1) + b2 * at(a.take(n as int), j2) + b3 * at(a.take(n as int), j3),
    decreases n,
{
    if n > 0 {
        let k = (n - 1) as nat;
        lemma_wsum_three(h, a, k, j1, b1, j2, b2, j3, b3);
        let y = a[k as int]@;
        let e1 = eq_ind(k as int, j1);
        let e2 = eq_ind(k as int, j2);
        let e3 = eq_ind(k as int, j3);
        assert(h(k as int) == b1 * e1 + b2 * e2 + b3 * e3);
        vstd::arithmetic::mul::lemma_mul_is_distributive_add_other_way(y, b1 * e1 + b2 * e2, b3 * e3);
        vstd::arithmetic::mul::lemma_mul_is_distributive_add_other_way(y, b1 * e1, b2 * e2);
        vstd::arithmetic::mul::lemma_mul_is_associative(b1, e1, y);
        vstd::arithmetic::mul::lemma_mul_is_associative(b2, e2, y);
        vstd::arithmetic::mul::lemma_mul_is_associative(b3, e3, y);
        assert(at(a.take(n as int), j1) == at(a.take(k as int), j1) + e1 * y);
        assert(at(a.take(n as int), j2) == at(a.take(k as int), j2) + e2 * y);
        assert(at(a.take(n as int), j3) == at(a.take(k as int), j3) + e3 * y);
        assert(b1 * (at(a.take(k as int), j1) + e1 * y) == b1 * at(a.take(k as int), j1) + b1 * (e1 * y)) by (nonlinear_arith);
        assert(b2 * (at(a.take(k as int), j2) + e2 * y) == b2 * at(a.take(k as int), j2) + b2 * (e2 * y)) by (nonlinear_arith);
        assert(b3 * (at(a.take(k as int), j3) + e3 * y) == b3 * at(a.take(k as int), j3) + b3 * (e3 * y)) by (nonlinear_arith);
    }
}

pub open spec fn left_index(u: Variable) -> int {
    match u {
        Variable::MultiplierLeft(j) => j as int,
        _ => -1,
    }
}

pub open spec fn right_index(u: Variable) -> int {
    match u {
        Variable::MultiplierRight(j) => j as int,
        _ => -1,
    }
}

pub open spec fn out_index(u: Variable) -> int {
    match u {
        Variable::MultiplierOutput(j) => j as int,
        _ => -1,
    }
}

pub open spec fn committed_index(u: Variable) -> int {
    match u {
        Variable::Committed(j) => j as int,
        _ => -1,
    }
}

proof fn lemma_value_split(u: Variable, b: int, a_l: Seq<Fe>, a_r: Seq<Fe>, a_o: Seq<Fe>, v: Seq<Fe>)
    ensures
        b * wire_value(u, a_l, a_r, a_o, v) == b * at(a_l, left_index(u)) + b * at(a_r, right_index(u))
            + b * at(a_o, out_index(u)) + b * at(v, committed_index(u)) + b * ind(Variable::One, u),
{
}

/// A constraint that weighs three wires (and nothing else) evaluates to
/// their weighted values.
pub proof fn lemma_evaluate_three(
    f: spec_fn(Variable) -> int,
    a_l: Seq<Fe>,
    a_r: Seq<Fe>,
    a_o: Seq<Fe>,
    v: Seq<Fe>,
    u1: Variable,
    b1: int,
    u2: Variable,
    b2: int,
    u3: Variable,
    b3: int,
)
    requires
        a_l.len() <= usize::MAX && a_r.len() <= usize::MAX && a_o.len() <= usize::MAX && v.len() <= usize::MAX,
        forall|w: Variable| #[trigger] f(w) == b1 * ind(w, u1) + b2 * ind(w, u2) + b3 * ind(w, u3),
    ensures
        evaluate(f, a_l, a_r, a_o, v) == b1 * wire_value(u1, a_l, a_r, a_o, v) + b2 * wire_value(
            u2,
            a_l,
            a_r,
            a_o,
            v,
        ) + b3 * wire_value(u3, a_l, a_r, a_o, v),
{
    let hl = |j: int| f(Variable::MultiplierLeft(j as usize));
    let hr = |j: int| f(Variable::MultiplierRight(j as usize));
    let ho = |j: int| f(Variable::MultiplierOutput(j as usize));
    let hv = |j: int| f(Variable::Committed(j as usize));
    assert forall|j: int| 0 <= j < a_l.len() implies #[trigger] hl(j) == b1 * eq_ind(j, left_index(u1)) + b2 * eq_ind(j, left_index(u2)) + b3 * eq_ind(j, left_index(u3)) by {
        assert(f(Variable::MultiplierLeft(j as usize)) == b1 * ind(Variable::MultiplierLeft(j as usize), u1) + b2 * ind(Variable::MultiplierLeft(j as usize), u2) + b3 * ind(Variable::MultiplierLeft(j as usize), u3));
    }
    assert forall|j: int| 0 <= j < a_r.len() implies #[trigger] hr(j) == b1 * eq_ind(j, right_index(u1)) + b2 * eq_ind(j, right_index(u2)) + b3 * eq_ind(j, right_index(u3)) by {
        assert(f(Variable::MultiplierRight(j as usize)) == b1 * ind(Variable::MultiplierRight(j as usize), u1) + b2 * ind(Variable::MultiplierRight(j as usize), u2) + b3 * ind(Variable::MultiplierRight(j as usize), u3));
    }
    assert forall|j: int| 0 <= j < a_o.len() implies #[trigger] ho(j) == b1 * eq_ind(j, out_index(u1)) + b2 * eq_ind(j, out_index(u2)) + b3 * eq_ind(j, out_index(u3)) by {
        assert(f(Variable::MultiplierOutput(j as usize)) == b1 * ind(Variable::MultiplierOutput(j as usize), u1) + b2 * ind(Variable::MultiplierOutput(j as usize), u2) + b3 * ind(Variable::MultiplierOutput(j as usize), u3));
    }
    assert forall|j: int| 0 <= j < v.len() implies #[trigger] hv(j) == b1 * eq_ind(j, committed_index(u1)) + b2 * eq_ind(j, committed_index(u2)) + b3 * eq_ind(j, committed_index(u3)) by {
        assert(f(Variable::Committed(j as usize)) == b1 * ind(Variable::Committed(j as usize), u1) + b2 * ind(Variable::Committed(j as usize), u2) + b3 * ind(Variable::Committed(j as usize), u3));
    }
    lemma_wsum_three(hl, a_l, a_l.len(), left_index(u1), b1, left_index(u2), b2, left_index(u3), b3);
    lemma_wsum_three(hr, a_r, a_r.len(), right_index(u1), b1, right_index(u2), b2, right_index(u3), b3);
    lemma_wsum_three(ho, a_o, a_o.len(), out_index(u1), b1, out_index(u2), b2, out_index(u3), b3);
    lemma_wsum_three(hv, v, v.len(), committed_index(u1), b1, committed_index(u2), b2, committed_index(u3), b3);
    assert(a_l.take(a_l.len() as int) =~= a_l);
    assert(a_r.take(a_r.len() as int) =~= a_r);
    assert(a_o.take(a_o.len() as int) =~= a_o);
    assert(v.take(v.len() as int) =~= v);
    assert(f(Variable::One) == b1 * ind(Variable::One, u1) + b2 * ind(Variable::One, u2) + b3 * ind(Variable::One, u3));
    lemma_value_split(u1, b1, a_l, a_r, a_o, v);
    lemma_value_split(u2, b2, a_l, a_r, a_o, v);
    lemma_value_split(u3, b3, a_l, a_r, a_o, v);
}

/// Constraints that agree modulo the group order evaluate alike.
pub proof fn lemma_evaluate_congruent(
    f: spec_fn(Variable) -> int,
    g: spec_fn(Variable) -> int,
    a_l: Seq<Fe>,
    a_r: Seq<Fe>,
    a_o: Seq<Fe>,
    v: Seq<Fe>,
)
    requires
        forall|w: Variable| #[trigger] modl(f(w)) == modl(g(w)),
    ensures
        modl(evaluate(f, a_l, a_r, a_o, v)) == modl(evaluate(g, a_l, a_r, a_o, v)),
{
    let fl = |j: int| f(Variable::MultiplierLeft(j as usize));
    let gl = |j: int| g(Variable::MultiplierLeft(j as usize));
    let fr = |j: int| f(Variable::MultiplierRight(j as usize));
    let gr = |j: int| g(Variable::MultiplierRight(j as usize));
    let fo = |j: int| f(Variable::MultiplierOutput(j as usize));
    let go = |j: int| g(Variable::MultiplierOutput(j as usize));
    let fv = |j: int| f(Variable::Committed(j as usize));
    let gv = |j: int| g(Variable::Committed(j as usize));
    lemma_wsum_congruent(fl, gl, a_l, a_l.len());
    lemma_wsum_congruent(fr, gr, a_r, a_r.len());
    lemma_wsum_congruent(fo, go, a_o, a_o.len());
    lemma_wsum_congruent(fv, gv, v, v.len());
    let x1 = wsum(fl, a_l, a_l.len());
    let y1 = wsum(gl, a_l, a_l.len());
    let x2 = wsum(fr, a_r, a_r.len());
    let y2 = wsum(gr, a_r, a_r.len());
    let x3 = wsum(fo, a_o, a_o.len());
    let y3 = wsum(go, a_o, a_o.len());
    let x4 = wsum(fv, v, v.len());
    let y4 = wsum(gv, v, v.len());
    let x5 = f(Variable::One);
    let y5 = g(Variable::One);
    lemma_modl(x1, x2);
    lemma_modl(y1, y2);
    lemma_modl(x1 + x2, x3);
    lemma_modl(y1 + y2, y3);
    lemma_modl(x1 + x2 + x3, x4);
    lemma_modl(y1 + y2 + y3, y4);
    lemma_modl(x1 + x2 + x3 + x4, x5);
    lemma_modl(y1 + y2 + y3 + y4, y5);
}

proof fn lemma_wsum_congruent(f: spec_fn(int) -> int, g: spec_fn(int) -> int, a: Seq<Fe>, n: nat)
    requires
        n <= a.len(),
        forall|j: int| 0 <= j < n ==> #[trigger] modl(f(j)) == modl(g(j)),
    ensures
        modl(wsum(f, a, n)) == modl(wsum(g, a, n)),
    decreases n,
{
    if n > 0 {
        let k = (n - 1) as nat;
        lemma_wsum_congruent(f, g, a, k);
        let y = a[k as int]@;
        assert(modl(f(k as int)) == modl(g(k as int)));
        lemma_modl(f(k as int), y);
        lemma_modl(g(k as int), y);
        lemma_view_reduced(a[k as int]);
        lemma_modl(wsum(f, a, k), f(k as int) * y);
        lemma_modl(wsum(g, a, k), g(k as int) * y);
    }
}

proof fn lemma_wsum_update(h: spec_fn(int) -> int, a: Seq<Fe>, n: nat, j: int, y: Fe)
    requires
        n <= a.len(),
        0 <= j < a.len(),
    ensures
        wsum(h, a.update(j, y), n) == wsum(h, a, n) + if j < n {
            h(j) * (y@ - a[j]@)
        } else {
            0
        },
    decreases n,
{
    if n > 0 {
        let k = (n - 1) as nat;
        lemma_wsum_update(h, a, k, j, y);
        if j == k {
            assert(h(j) * y@ - h(j) * a[j]@ == h(j) * (y@ - a[j]@)) by (nonlinear_arith);
        }
    }
}

/// Changing one gate output changes a constraint's value by that output's
/// weight times the change.
pub proof fn lemma_evaluate_output_update(
    f: spec_fn(Variable) -> int,
    a_l: Seq<Fe>,
    a_r: Seq<Fe>,
    a_o: Seq<Fe>,
    v: Seq<Fe>,
    j: int,
    y: Fe,
)
    requires
        0 <= j < a_o.len(),
    ensures
        evaluate(f, a_l, a_r, a_o.update(j, y), v) == evaluate(f, a_l, a_r, a_o, v) + f(
            Variable::MultiplierOutput(j as usize),
        ) * (y@ - a_o[j]@),
{
    lemma_wsum_update(|i: int| f(Variable::MultiplierOutput(i as usize)), a_o, a_o.len(), j, y);
}

/// A dot product with reduced weights agrees with the weighted sum of the
/// unreduced ones, and its negation with the sum of their negations.
proof fn lemma_dot_wsum(l: Seq<Fe>, f: spec_fn(int) -> int, a: Seq<Fe>, n: nat, neg: bool)
    requires
        n <= l.len(),
        n <= a.len(),
        forall|j: int| 0 <= j < n ==> (#[trigger] l[j])@ == modl(if neg { -f(j) } else { f(j) }),
    ensures
        modl(dot(l, a, n)) == modl(if neg { -wsum(f, a, n) } else { wsum(f, a, n) }),
    decreases n,
{
    if n == 0 {
    } else {
        let k = (n - 1) as nat;
        lemma_dot_wsum(l, f, a, k, neg);
        let sf = if neg { -f(k as int) } else { f(k as int) };
        let prev = if neg { -wsum(f, a, k) } else { wsum(f, a, k) };
        let x = a[k as int]@;
        lemma_view_reduced(a[k as int]);
        lemma_modl(sf, x);
        lemma_modl(dot(l, a, k), l[k as int]@ * x);
        lemma_modl(prev, sf * x);
        lemma_modl(l[k as int]@ * x, 0);
        assert(modl(l[k as int]@ * x) == modl(sf * x));
        if neg {
            assert(-wsum(f, a, n) == prev + sf * x) by (nonlinear_arith)
                requires
                    wsum(f, a, n) == wsum(f, a, k) + f(k as int) * x,
                    prev == -wsum(f, a, k),
                    sf == -f(k as int),
            ;
        }
    }
}

/// Each row of the flattened system holds exactly when its constraint
/// evaluates to zero: the weight-matrix identity says no more and no less
/// than the constraints themselves.
pub proof fn lemma_row_holds_iff_constraint_vanishes(
    con: Seq<(Variable, Fe)>,
    l: Seq<Fe>,
    r: Seq<Fe>,
    o: Seq<Fe>,
    vrow: Seq<Fe>,
    c: Fe,
    a_l: Seq<Fe>,
    a_r: Seq<Fe>,
    a_o: Seq<Fe>,
    v: Seq<Fe>,
)
    requires
        row_flattens(con, a_l.len(), v.len(), l, r, o, vrow, c),
        a_r.len() == a_l.len(),
        a_o.len() == a_l.len(),
    ensures
        (modl(dot(l, a_l, a_l.len()) + dot(r, a_r, a_r.len()) - dot(o, a_o, a_o.len())) == modl(
            dot(vrow, v, v.len()) + c@,
        )) <==> modl(evaluate(|w: Variable| coeff_of(con, w), a_l, a_r, a_o, v)) == 0,
{
    let f = |w: Variable| coeff_of(con, w);
    let fl = |j: int| f(Variable::MultiplierLeft(j as usize));
    let fr = |j: int| f(Variable::MultiplierRight(j as usize));
    let fo = |j: int| f(Variable::MultiplierOutput(j as usize));
    let fv = |j: int| f(Variable::Committed(j as usize));
    let n = a_l.len();
    lemma_dot_wsum(l, fl, a_l, n, false);
    lemma_dot_wsum(r, fr, a_r, n, false);
    lemma_dot_wsum(o, fo, a_o, n, true);
    lemma_dot_wsum(vrow, fv, v, v.len(), true);
    let dl = dot(l, a_l, n);
    let dr = dot(r, a_r, n);
    let d_o = dot(o, a_o, n);
    let dv = dot(vrow, v, v.len());
    let wl = wsum(fl, a_l, n);
    let wr = wsum(fr, a_r, n);
    let wo = wsum(fo, a_o, n);
    let wv = wsum(fv, v, v.len());
    let one = f(Variable::One);
    lemma_modl(dl, dr);
    lemma_modl(wl, wr);
    lemma_modl(dl + dr, d_o);
    lemma_modl(wl + wr, -wo);
    lemma_modl(dv, c@);
    lemma_modl(-wv, -one);
    lemma_view_reduced(c);
    lemma_modl(-one, 0);
    assert(modl(dl + dr - d_o) == modl(wl + wr + wo));
    assert(modl(dv + c@) == modl(-wv - one));
    lemma_modl_eq_iff(wl + wr + wo, -wv - one);
    assert(evaluate(f, a_l, a_r, a_o, v) == wl + wr + wo + wv + one);
    assert(wl + wr + wo - (-wv - one) == wl + wr + wo + wv + one);
}

/// A constraint system whose constraints can be read back as the weight
/// matrices of the flattened system.
pub trait InspectorConstraintSystem: ConstraintSystem {
    /// `(wL, wR, wO, wV, c)`: one row per constraint, one column per gate
    /// (per committed value for `wV`).
    fn get_weights(&self) -> (r: (Vec<Vec<Fe>>, Vec<Vec<Fe>>, Vec<Vec<Fe>>, Vec<Vec<Fe>>, Vec<Fe>))
        requires
            self.multipliers_len() <= usize::MAX,
            self.committed_len() <= usize::MAX,
        ensures
            flattens(self.constraints(), self.multipliers_len(), self.committed_len(), r),
    ;
}

/// `n` zeros.
fn zeros(n: usize) -> (r: Vec<Fe>)
    ensures
        r@.len() == n,
        forall|j: int| 0 <= j < n ==> (#[trigger] r@[j])@ == 0,
{
    let mut r: Vec<Fe> = Vec::new();
    let mut i: usize = 0;
    while i < n
        invariant
            i <= n,
            r@.len() == i,
            forall|j: int| 0 <= j < i ==> (#[trigger] r@[j])@ == 0,
        decreases n - i,
    {
        r.push(Fe::zero());
        i = i + 1;
    }
    r
}

/// Flattens one constraint over `n` gates and `nv` committed values.
fn flatten_row(terms: &Vec<(Variable, Fe)>, n: usize, nv: usize) -> (r: (
    Vec<Fe>,
    Vec<Fe>,
    Vec<Fe>,
    Vec<Fe>,
    Fe,
))
    ensures
        row_flattens(terms@, n as nat, nv as nat, r.0@, r.1@, r.2@, r.3@, r.4),
{
    let mut l = zeros(n);
    let mut rr = zeros(n);
    let mut o = zeros(n);
    let mut v = zeros(nv);
    let mut c = Fe::zero();
    let mut t: usize = 0;
    proof {
        lemma_modl(0, 0);
    }
    while t < terms.len()
        invariant
            t <= terms@.len(),
            row_flattens(terms@.take(t as int), n as nat, nv as nat, l@, rr@, o@, v@, c),
        decreases terms@.len() - t,
    {
        let (var, k) = terms[t];
        let ghost pre = terms@.take(t as int);
        assert(terms@.take(t + 1) =~= pre.push((var, k)));
        proof {
            lemma_view_reduced(k);
        }
        match var {
            Variable::MultiplierLeft(j) => {
                if j < n {
                    let e = l[j].add(&k);
                    l.set(j, e);
                }
            },
            Variable::MultiplierRight(j) => {
                if j < n {
                    let e = rr[j].add(&k);
                    rr.set(j, e);
                }
            },
            Variable::MultiplierOutput(j) => {
                if j < n {
                    let e = o[j].sub(&k);
                    o.set(j, e);
                }
            },
            Variable::Committed(j) => {
                if j < nv {
                    let e = v[j].sub(&k);
                    v.set(j, e);
                }
            },
            Variable::One => {
                c = c.sub(&k);
            },
        }
        proof {
            let post = terms@.take(t + 1);
            assert forall|w: Variable| #![trigger coeff_of(post, w)]
                modl(coeff_of(post, w)) == (if w == var {
                    modl(modl(coeff_of(pre, w)) + k@)
                } else {
                    modl(coeff_of(pre, w))
                }) && modl(-coeff_of(post, w)) == (if w == var {
                    modl(modl(-coeff_of(pre, w)) - k@)
                } else {
                    modl(-coeff_of(pre, w))
                }) by {
                lemma_coeff_push(pre, var, k, w);
                let d = if w == var {
                    k@
                } else {
                    0
                };
                lemma_modl(coeff_of(pre, w), d);
                lemma_modl(-coeff_of(pre, w), d);
                lemma_modl(d, 0);
            }
        }
        t = t + 1;
    }
    assert(terms@.take(terms@.len() as int) =~= terms@);
    (l, rr, o, v, c)
}

/// A constraint system that records every constraint, so that the
/// flattened weight matrices can be read back.
pub struct Inspector {
    pub num_committed: usize,
    pub num_gates: usize,
    pub cons: Vec<LinearCombination>,
}

pub open spec fn lc_seq(cons: Seq<LinearCombination>) -> Seq<Seq<(Variable, Fe)>> {
    cons.map_values(|lc: LinearCombination| lc.terms@)
}

impl Inspector {
    /// An empty system: no committed values, gates or constraints.
    pub fn new() -> (r: Inspector)
        ensures
            r.num_committed == 0,
            r.num_gates == 0,
            r.cons@.len() == 0,
    {
        Inspector { num_committed: 0, num_gates: 0, cons: Vec::new() }
    }

    /// Allocates the wire of the next committed value.
    pub fn commit(&mut self) -> (r: Variable)
        requires
            old(self).num_committed < usize::MAX,
        ensures
            r == Variable::Committed(old(self).num_committed),
            final(self).num_committed == old(self).num_committed + 1,
            final(self).num_gates == old(self).num_gates,
            final(self).cons@ == old(self).cons@,
    {
        let v = Variable::Committed(self.num_committed);
        self.num_committed = self.num_committed + 1;
        v
    }
}

impl ConstraintSystem for Inspector {
    open spec fn multipliers_len(&self) -> nat {
        self.num_gates as nat
    }

    open spec fn committed_len(&self) -> nat {
        self.num_committed as nat
    }

    open spec fn constraints(&self) -> Seq<Seq<(Variable, Fe)>> {
        lc_seq(self.cons@)
    }

    fn multiply(&mut self, left: LinearCombination, right: LinearCombination) -> (r: (
        Variable,
        Variable,
        Variable,
    )) {
        let n = self.num_gates;
        let l = Variable::MultiplierLeft(n);
        let rr = Variable::MultiplierRight(n);
        let o = Variable::MultiplierOutput(n);
        let minus_one = Fe::one().neg();
        let ghost lt = left.terms@;
        let ghost rt = right.terms@;
        let mut left = left;
        let mut right = right;
        left.terms.push((l, minus_one));
        right.terms.push((rr, minus_one));
        proof {
            lemma_modl(-1, 0);
            assert forall|v: Variable| #![trigger coeff_of(left.terms@, v)]
                modl(coeff_of(left.terms@, v)) == modl(coeff_of(lt, v) - if v == l {
                    1int
                } else {
                    0int
                }) by {
                lemma_coeff_push(lt, l, minus_one, v);
                lemma_modl(coeff_of(lt, v), -1);
                lemma_modl(coeff_of(lt, v), modl(-1));
                lemma_modl(coeff_of(lt, v), 0);
            }
            assert forall|v: Variable| #![trigger coeff_of(right.terms@, v)]
                modl(coeff_of(right.terms@, v)) == modl(coeff_of(rt, v) - if v == rr {
                    1int
                } else {
                    0int
                }) by {
                lemma_coeff_push(rt, rr, minus_one, v);
                lemma_modl(coeff_of(rt, v), -1);
                lemma_modl(coeff_of(rt, v), modl(-1));
                lemma_modl(coeff_of(rt, v), 0);
            }
        }
        let ghost old_cons = self.cons@;
        self.cons.push(left);
        self.cons.push(right);
        self.num_gates = n + 1;
        proof {
            assert(lc_seq(self.cons@).subrange(0, old_cons.len() as int) =~= lc_seq(old_cons));
        }
        (l, rr, o)
    }

    fn constrain(&mut self, lc: LinearCombination) {
        let ghost old_cons = self.cons@;
        let ghost t = lc.terms@;
        self.cons.push(lc);
        proof {
            assert(lc_seq(self.cons@) =~= lc_seq(old_cons).push(t));
        }
    }
}

impl InspectorConstraintSystem for Inspector {
    fn get_weights(&self) -> (r: (Vec<Vec<Fe>>, Vec<Vec<Fe>>, Vec<Vec<Fe>>, Vec<Vec<Fe>>, Vec<Fe>)) {
        let mut w_l: Vec<Vec<Fe>> = Vec::new();
        let mut w_r: Vec<Vec<Fe>> = Vec::new();
        let mut w_o: Vec<Vec<Fe>> = Vec::new();
        let mut w_v: Vec<Vec<Fe>> = Vec::new();
        let mut c: Vec<Fe> = Vec::new();
        let mut i: usize = 0;
        while i < self.cons.len()
            invariant
                i <= self.cons@.len(),
                flattens(
                    lc_seq(self.cons@).take(i as int),
                    self.num_gates as nat,
                    self.num_committed as nat,
                    (w_l, w_r, w_o, w_v, c),
                ),
            decreases self.cons@.len() - i,
        {
            let row = flatten_row(&self.cons[i].terms, self.num_gates, self.num_committed);
            let ghost pre = lc_seq(self.cons@).take(i as int);
            w_l.push(row.0);
            w_r.push(row.1);
            w_o.push(row.2);
            w_v.push(row.3);
            c.push(row.4);
            proof {
                let post = lc_seq(self.cons@).take(i + 1);
                assert(post =~= pre.push(self.cons@[i as int].terms@));
                assert forall|q: int| 0 <= q < post.len() implies row_flattens(
                    #[trigger] post[q],
                    self.num_gates as nat,
                    self.num_committed as nat,
                    w_l@[q]@,
                    w_r@[q]@,
                    w_o@[q]@,
                    w_v@[q]@,
                    c@[q],
                ) by {
                    if q < i {
                        assert(post[q] == pre[q]);
                    }
                }
            }
            i = i + 1;
        }
        assert(lc_seq(self.cons@).take(self.cons@.len() as int) =~= lc_seq(self.cons@));
        (w_l, w_r, w_o, w_v, c)
    }
}

} // verus!
