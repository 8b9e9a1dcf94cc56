//! The witness of the permutation circuit: two chains of multiplication
//! gates that multiply out `prod (x_i - c)` for both sequences, and the
//! grand-product facts behind it (equal multisets give equal products).
use crate::field::{group_order, lemma_modl, modl, Fe};
use vstd::prelude::*;
use vstd::seq_lib::*;

verus! {

/// `x[i] - c`, reduced.
pub open spec fn shifted(x: Seq<Fe>, c: int, i: int) -> int {
    modl(x[i]@ - c)
}

/// `prod_{j <= i} (x[j] - c)`, reduced: what the chain of multiplication gates outputs after
/// it has taken in `x[0..=i]`.
pub open spec fn chain(x: Seq<Fe>, c: int, i: nat) -> int
    decreases i,
{
    if i == 0 {
        shifted(x, c, 0)
    } else {
        modl(chain(x, c, (i - 1) as nat) * shifted(x, c, i as int))
    }
}

/// The field values of a sequence of elements.
pub open spec fn values(x: Seq<Fe>) -> Seq<int> {
    x.map_values(|f: Fe| f@)
}

/// `prod (s[i] - c)` over the integers.
pub open spec fn shifted_product(s: Seq<int>, c: int) -> int
    decreases s.len(),
{
    if s.len() == 0 {
        1
    } else {
        shifted_product(s.drop_last(), c) * (s.last() - c)
    }
}

/// `x_` holds the same field values as `x`, counted with multiplicity.
pub open spec fn is_permutation(x: Seq<Fe>, x_: Seq<Fe>) -> bool {
    values(x).to_multiset() == values(x_).to_multiset()
}

/// Layout of the witness for `k = x.len() >= 2`: slots `0..k-1`
/// multiply out `x`, slots `k-1..2k-2` multiply out `x_`, slot `2k-2`
/// negates the second product and slot `2k-1` multiplies the difference of
/// the two products by one.
pub open spec fn witness_layout(
    x: Seq<Fe>,
    x_: Seq<Fe>,
    c: int,
    a_l: Seq<Fe>,
    a_r: Seq<Fe>,
    a_o: Seq<Fe>,
) -> bool {
    let k = x.len();
    let off = k - 1;
    &&& a_l.len() == 2 * k && a_r.len() == 2 * k && a_o.len() == 2 * k
    &&& forall|i: int| 0 <= i < 2 * k ==> (#[trigger] a_o[i])@ == modl(a_l[i]@ * a_r[i]@)
    &&& forall|i: int|
        0 <= i < off ==> {
            &&& (#[trigger] a_l[i])@ == chain(x, c, i as nat)
            &&& a_r[i]@ == shifted(x, c, i + 1)
            &&& a_o[i]@ == chain(x, c, (i + 1) as nat)
            &&& a_l[i + off]@ == chain(x_, c, i as nat)
            &&& a_r[i + off]@ == shifted(x_, c, i + 1)
            &&& a_o[i + off]@ == chain(x_, c, (i + 1) as nat)
        }
    &&& a_l[2 * k - 2]@ == chain(x_, c, off as nat)
    &&& a_r[2 * k - 2]@ == modl(-1)
    &&& a_l[2 * k - 1]@ == modl(chain(x, c, off as nat) - chain(x_, c, off as nat))
    &&& a_r[2 * k - 1]@ == 1
}

pub(crate) proof fn lemma_chain_reduced(x: Seq<Fe>, c: int, i: nat)
    ensures
        0 <= chain(x, c, i) < group_order(),
        modl(chain(x, c, i)) == chain(x, c, i),
{
    if i == 0 {
        lemma_modl(x[0]@ - c, 0);
    } else {
        lemma_modl(chain(x, c, (i - 1) as nat) * shifted(x, c, i as int), 0);
    }
}

/// The chain's output is the product of the shifted values, reduced.
pub proof fn lemma_chain_is_product(x: Seq<Fe>, c: int, i: nat)
    requires
        i < x.len(),
    ensures
        chain(x, c, i) == modl(shifted_product(values(x).take((i + 1) as int), c)),
    decreases i,
{
    let s = values(x).take((i + 1) as int);
    assert(s.drop_last() =~= values(x).take(i as int));
    if i == 0 {
        assert(values(x).take(0) =~= Seq::<int>::empty());
        assert(shifted_product(s, c) == x[0]@ - c);
    } else {
        lemma_chain_is_product(x, c, (i - 1) as nat);
        assert(s.last() == x[i as int]@);
        lemma_modl(shifted_product(values(x).take(i as int), c), x[i as int]@ - c);
    }
}

/// Taking out one entry divides its factor out of the product.
proof fn lemma_product_remove(s: Seq<int>, j: int, c: int)
    requires
        0 <= j < s.len(),
    ensures
        shifted_product(s, c) == shifted_product(s.remove(j), c) * (s[j] - c),
    decreases s.len(),
{
    if j == s.len() - 1 {
        assert(s.remove(j) =~= s.drop_last());
    } else {
        let t = s.drop_last();
        lemma_product_remove(t, j, c);
        assert(s.remove(j).drop_last() =~= t.remove(j));
        assert(s.remove(j).last() == s.last());
        let a = shifted_product(t.remove(j), c);
        let u = s[j] - c;
        let w = s.last() - c;
        assert(a * u * w == a * w * u) by (nonlinear_arith);
    }
}

/// Equal multisets have equal shifted products.
pub proof fn lemma_product_of_permutation(s: Seq<int>, t: Seq<int>, c: int)
    requires
        s.to_multiset() == t.to_multiset(),
    ensures
        shifted_product(s, c) == shifted_product(t, c),
    decreases s.len(),
{
    broadcast use group_to_multiset_ensures;

    if s.len() == 0 {
        assert(t.to_multiset().len() == 0);
        assert(t =~= Seq::<int>::empty());
    } else {
        let a = s.last();
        assert(s =~= s.drop_last().push(a));
        assert(s.to_multiset().count(a) > 0);
        assert(t.contains(a));
        let j = choose|j: int| 0 <= j < t.len() && t[j] == a;
        lemma_product_remove(t, j, c);
        assert(s.drop_last().to_multiset() =~= t.remove(j).to_multiset());
        lemma_product_of_permutation(s.drop_last(), t.remove(j), c);
    }
}

/// When `x_` is a permutation of `x`, both chains end on the same value.
pub proof fn lemma_chains_agree_on_permutation(x: Seq<Fe>, x_: Seq<Fe>, c: int)
    requires
        x.len() >= 1,
        is_permutation(x, x_),
    ensures
        x_.len() == x.len(),
        chain(x, c, (x.len() - 1) as nat) == chain(x_, c, (x.len() - 1) as nat),
{
    broadcast use group_to_multiset_ensures;

    assert(values(x).to_multiset().len() == values(x_).to_multiset().len());
    assert(x_.len() == x.len());
    let k = x.len();
    lemma_chain_is_product(x, c, (k - 1) as nat);
    lemma_chain_is_product(x_, c, (k - 1) as nat);
    assert(values(x).take(k as int) =~= values(x));
    assert(values(x_).take(k as int) =~= values(x_));
    lemma_product_of_permutation(values(x), values(x_), c);
}

/// The last gate of the witness outputs zero exactly when the two
/// products `prod (x_i - c)` and `prod (x_'_i - c)` agree modulo the group
/// order: the circuit holds a permutation's output to the grand-product
/// identity at the challenge.
pub proof fn lemma_final_gate_zero_iff_products_agree(
    x: Seq<Fe>,
    x_: Seq<Fe>,
    c: int,
    a_l: Seq<Fe>,
    a_r: Seq<Fe>,
    a_o: Seq<Fe>,
)
    requires
        x.len() >= 2,
        witness_layout(x, x_, c, a_l, a_r, a_o),
    ensures
        a_o[2 * x.len() - 1]@ == 0 <==> chain(x, c, (x.len() - 1) as nat) == chain(
            x_,
            c,
            (x.len() - 1) as nat,
        ),
{
    let k = x.len();
    let p = chain(x, c, (k - 1) as nat);
    let q = chain(x_, c, (k - 1) as nat);
    lemma_chain_reduced(x, c, (k - 1) as nat);
    lemma_chain_reduced(x_, c, (k - 1) as nat);
    lemma_modl(p - q, 1);
    lemma_modl(p - q, 0);
    assert(a_o[2 * k - 1]@ == modl(a_l[2 * k - 1]@ * 1));
    assert(a_o[2 * k - 1]@ == modl(p - q));
    let m = group_order();
    if p == q {
        assert(modl(0) == 0);
    } else {
        assert(-m < p - q < m);
        if p - q > 0 {
            vstd::arithmetic::div_mod::lemma_small_mod((p - q) as nat, m as nat);
        } else {
            vstd::arithmetic::div_mod::lemma_mod_add_multiples_vanish(p - q, m);
            vstd::arithmetic::div_mod::lemma_small_mod((p - q + m) as nat, m as nat);
        }
    }
}

/// Completeness of the witness: when `x_` is a permutation of `x`, every
/// gate of the witness multiplies its inputs and the last gate, which the
/// circuit constrains to zero, outputs zero.
pub proof fn lemma_permutation_closes_circuit(
    x: Seq<Fe>,
    x_: Seq<Fe>,
    c: int,
    a_l: Seq<Fe>,
    a_r: Seq<Fe>,
    a_o: Seq<Fe>,
)
    requires
        x.len() >= 2,
        is_permutation(x, x_),
        witness_layout(x, x_, c, a_l, a_r, a_o),
    ensures
        forall|i: int| 0 <= i < a_o.len() ==> (#[trigger] a_o[i])@ == modl(a_l[i]@ * a_r[i]@),
        a_o[2 * x.len() - 1]@ == 0,
{
    lemma_chains_agree_on_permutation(x, x_, c);
    lemma_final_gate_zero_iff_products_agree(x, x_, c, a_l, a_r, a_o);
}

/// With one element, a permutation is the same element.
pub proof fn lemma_single_permutation(x: Seq<Fe>, x_: Seq<Fe>)
    requires
        x.len() == 1,
        is_permutation(x, x_),
    ensures
        x_.len() == 1,
        x[0]@ == x_[0]@,
{
    broadcast use group_to_multiset_ensures;

    assert(values(x).to_multiset().len() == values(x_).to_multiset().len());
    assert(values(x)[0] == x[0]@);
    assert(values(x).contains(x[0]@));
    assert(values(x).to_multiset().count(x[0]@) > 0);
    assert(values(x_).contains(x[0]@));
    assert(values(x_)[0] == x_[0]@);
}

/// Appends to `a_l`, `a_r`, `a_o` the `x.len() - 1` gates that multiply
/// out `prod (x_i - c)` one factor at a time; returns the last output.
fn append_chain(x: &[Fe], c: &Fe, a_l: &mut Vec<Fe>, a_r: &mut Vec<Fe>, a_o: &mut Vec<Fe>) -> (r: Fe)
    requires
        x@.len() >= 2,
        old(a_l)@.len() == old(a_r)@.len(),
        old(a_r)@.len() == old(a_o)@.len(),
    ensures
        r@ == chain(x@, c@, (x@.len() - 1) as nat),
        final(a_l)@.len() == old(a_l)@.len() + x@.len() - 1,
        final(a_r)@.len() == final(a_l)@.len() && final(a_o)@.len() == final(a_l)@.len(),
        final(a_l)@.subrange(0, old(a_l)@.len() as int) == old(a_l)@,
        final(a_r)@.subrange(0, old(a_l)@.len() as int) == old(a_r)@,
        final(a_o)@.subrange(0, old(a_l)@.len() as int) == old(a_o)@,
        forall|p: int|
            old(a_l)@.len() <= p < final(a_l)@.len() ==> (#[trigger] final(a_l)@[p])@ == chain(
                x@,
                c@,
                (p - old(a_l)@.len()) as nat,
            ),
        forall|p: int|
            old(a_l)@.len() <= p < final(a_l)@.len() ==> (#[trigger] final(a_r)@[p])@ == shifted(
                x@,
                c@,
                p - old(a_l)@.len() + 1,
            ),
        forall|p: int|
            old(a_l)@.len() <= p < final(a_l)@.len() ==> (#[trigger] final(a_o)@[p])@ == chain(
                x@,
                c@,
                (p - old(a_l)@.len() + 1) as nat,
            ),
        forall|p: int|
            old(a_l)@.len() <= p < final(a_l)@.len() ==> (#[trigger] final(a_o)@[p])@ == modl(
                final(a_l)@[p]@ * final(a_r)@[p]@,
            ),
{
    let ghost base = a_l@.len();
    let ghost l0 = a_l@;
    let ghost r0 = a_r@;
    let ghost o0 = a_o@;
    let mut prev = x[0].sub(c);
    let mut i: usize = 0;
    while i < x.len() - 1
        invariant
            x@.len() >= 2,
            i <= x@.len() - 1,
            a_l@.len() == base + i && a_r@.len() == base + i && a_o@.len() == base + i,
            a_l@.subrange(0, base as int) == l0,
            a_r@.subrange(0, base as int) == r0,
            a_o@.subrange(0, base as int) == o0,
            prev@ == chain(x@, c@, i as nat),
            forall|p: int|
                base <= p < base + i ==> (#[trigger] a_l@[p])@ == chain(x@, c@, (p - base) as nat),
            forall|p: int|
                base <= p < base + i ==> (#[trigger] a_r@[p])@ == shifted(x@, c@, p - base + 1),
            forall|p: int|
                base <= p < base + i ==> (#[trigger] a_o@[p])@ == chain(
                    x@,
                    c@,
                    (p - base + 1) as nat,
                ),
            forall|p: int|
                base <= p < base + i ==> (#[trigger] a_o@[p])@ == modl(a_l@[p]@ * a_r@[p]@),
        decreases x@.len() - i,
    {
        let right = x[i + 1].sub(c);
        let out = prev.mul(&right);
        a_l.push(prev);
        a_r.push(right);
        a_o.push(out);
        assert(a_l@.subrange(0, base as int) =~= l0);
        assert(a_r@.subrange(0, base as int) =~= r0);
        assert(a_o@.subrange(0, base as int) =~= o0);
        prev = out;
        i = i + 1;
    }
    prev
}

/// Builds the wire values `(aL, aR, aO)` of the permutation circuit
/// for `x`, `x_` and the challenge `c`. With one element there are no
/// gates (the two elements are compared by a linear constraint alone).
#[verifier::spinoff_prover]
#[verifier::rlimit(50)]
pub fn create_var_vecs(x: &[Fe], x_: &[Fe], c: &Fe) -> (r: (Vec<Fe>, Vec<Fe>, Vec<Fe>))
    requires
        x@.len() == x_@.len(),
        x@.len() >= 1,
        2 * x@.len() <= usize::MAX,
    ensures
        x@.len() == 1 ==> r.0@.len() == 0 && r.1@.len() == 0 && r.2@.len() == 0,
        x@.len() >= 2 ==> witness_layout(x@, x_@, c@, r.0@, r.1@, r.2@),
{
    let k = x.len();
    let mut a_l: Vec<Fe> = Vec::new();
    let mut a_r: Vec<Fe> = Vec::new();
    let mut a_o: Vec<Fe> = Vec::new();
    if k == 1 {
        return (a_l, a_r, a_o);
    }
    let p = append_chain(x, c, &mut a_l, &mut a_r, &mut a_o);
    let ghost l1 = a_l@;
    let ghost r1 = a_r@;
    let ghost o1 = a_o@;
    let p_ = append_chain(x_, c, &mut a_l, &mut a_r, &mut a_o);
    let ghost l2 = a_l@;
    let ghost r2 = a_r@;
    let ghost o2 = a_o@;
    let minus_one = Fe::one().neg();
    let neg = p_.mul(&minus_one);
    a_l.push(p_);
    a_r.push(minus_one);
    a_o.push(neg);
    let diff = p.add(&neg);
    let one = Fe::one();
    let last = diff.mul(&one);
    a_l.push(diff);
    a_r.push(one);
    a_o.push(last);
    proof {
        let off = k - 1;
        lemma_modl(-1, 0);
        lemma_modl(chain(x_@, c@, off as nat), -1);
        vstd::arithmetic::div_mod::lemma_add_mod_noop(
            chain(x@, c@, off as nat),
            -chain(x_@, c@, off as nat),
            group_order(),
        );
        lemma_modl(chain(x@, c@, off as nat), 0);
        lemma_chain_reduced(x@, c@, off as nat);
        lemma_chain_reduced(x_@, c@, off as nat);
        vstd::arithmetic::div_mod::lemma_small_mod(1, group_order() as nat);
        assert(modl(1) == 1);
        assert(neg@ == modl(-chain(x_@, c@, off as nat)));
        assert(diff@ == modl(chain(x@, c@, off as nat) - chain(x_@, c@, off as nat)));
        assert(a_l@[2 * k - 2]@ == chain(x_@, c@, off as nat));
        assert(a_r@[2 * k - 2]@ == modl(-1));
        assert(a_l@[2 * k - 1]@ == modl(chain(x@, c@, off as nat) - chain(x_@, c@, off as nat)));
        assert(a_r@[2 * k - 1]@ == 1);
        assert forall|i: int| 0 <= i < off implies {
            &&& (#[trigger] a_l@[i])@ == chain(x@, c@, i as nat)
            &&& a_r@[i]@ == shifted(x@, c@, i + 1)
            &&& a_o@[i]@ == chain(x@, c@, (i + 1) as nat)
            &&& a_l@[i + off]@ == chain(x_@, c@, i as nat)
            &&& a_r@[i + off]@ == shifted(x_@, c@, i + 1)
            &&& a_o@[i + off]@ == chain(x_@, c@, (i + 1) as nat)
        } by {
            assert(a_l@[i + off] == l2[i + off]);
            assert(a_r@[i + off] == r2[i + off]);
            assert(a_o@[i + off] == o2[i + off]);
            assert(l1[i] == l2.subrange(0, off as int)[i]);
            assert(r1[i] == r2.subrange(0, off as int)[i]);
            assert(o1[i] == o2.subrange(0, off as int)[i]);
            assert(l2.subrange(0, off as int)[i] == l2[i]);
            assert(r2.subrange(0, off as int)[i] == r2[i]);
            assert(o2.subrange(0, off as int)[i] == o2[i]);
            assert(a_l@[i] == l2[i] && a_r@[i] == r2[i] && a_o@[i] == o2[i]);
        }
        assert forall|i: int| 0 <= i < 2 * k implies (#[trigger] a_o@[i])@ == modl(
            a_l@[i]@ * a_r@[i]@,
        ) by {
            if i < off {
                assert(l2.subrange(0, off as int)[i] == l2[i]);
                assert(r2.subrange(0, off as int)[i] == r2[i]);
                assert(o2.subrange(0, off as int)[i] == o2[i]);
                assert(a_l@[i] == l2[i] && a_r@[i] == r2[i] && a_o@[i] == o2[i]);
            } else if i < 2 * off {
                assert(a_l@[i] == l2[i] && a_r@[i] == r2[i] && a_o@[i] == o2[i]);
            }
        }
    }
    (a_l, a_r, a_o)
}

} // verus!
