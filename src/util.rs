//! Linear algebra over field elements: inner products, matrix-vector and
//! vector-matrix products, elementwise products and powers.
use crate::enums::PermError;
use crate::field::{le_bytes32, le_value, lemma_modl, lemma_view_reduced, modl, Fe};
use ethnum::I256;
use vstd::arithmetic::power::pow;
use vstd::prelude::*;
use vstd::string::*;

verus! {

/// Sum of `a[i] * b[i]` over the first `n` positions, as an integer.
pub open spec fn dot(a: Seq<Fe>, b: Seq<Fe>, n: nat) -> int
    decreases n,
{
    if n == 0 {
        0
    } else {
        dot(a, b, (n - 1) as nat) + a[n - 1]@ * b[n - 1]@
    }
}

/// Sum of `a[i] * m[i][j]` over the first `n` rows: column `j` of `a * m`.
pub open spec fn col_dot(a: Seq<Fe>, m: Seq<Vec<Fe>>, j: int, n: nat) -> int
    decreases n,
{
    if n == 0 {
        0
    } else {
        col_dot(a, m, j, (n - 1) as nat) + a[n - 1]@ * m[n - 1]@[j]@
    }
}

/// Every row of `m` has length `n`.
pub open spec fn rows_have_len(m: Seq<Vec<Fe>>, n: nat) -> bool {
    forall|i: int| 0 <= i < m.len() ==> (#[trigger] m[i])@.len() == n
}

/// Inner product of `a` and `b`; fails when their lengths differ.
pub fn inner_product(a: &Vec<Fe>, b: &Vec<Fe>) -> (r: Result<Fe, PermError>)
    ensures
        a@.len() != b@.len() <==> r == Err::<Fe, PermError>(PermError::DimensionMismatch),
        r is Err ==> r == Err::<Fe, PermError>(PermError::DimensionMismatch),
        r is Ok ==> r->Ok_0@ == modl(dot(a@, b@, a@.len())),
{
    if a.len() != b.len() {
        return Err(PermError::DimensionMismatch);
    }
    let mut out = Fe::zero();
    let mut i: usize = 0;
    proof {
        lemma_modl(0, 0);
    }
    while i < a.len()
        invariant
            a@.len() == b@.len(),
            i <= a@.len(),
            out@ == modl(dot(a@, b@, i as nat)),
        decreases a@.len() - i,
    {
        let p = a[i].mul(&b[i]);
        proof {
            lemma_modl(dot(a@, b@, i as nat), 0);
            lemma_modl(dot(a@, b@, i as nat), a@[i as int]@ * b@[i as int]@);
        }
        out = out.add(&p);
        i = i + 1;
    }
    Ok(out)
}

/// Matrix times column vector: entry `i` is the inner product of row `i` of
/// `a` with `b`. Fails when some row's length differs from `b`'s.
pub fn mv_mult(a: &Vec<Vec<Fe>>, b: &Vec<Fe>) -> (r: Result<Vec<Fe>, PermError>)
    ensures
        !rows_have_len(a@, b@.len()) <==> r == Err::<Vec<Fe>, PermError>(
            PermError::DimensionMismatch,
        ),
        r is Err ==> r == Err::<Vec<Fe>, PermError>(PermError::DimensionMismatch),
        r is Ok ==> r->Ok_0@.len() == a@.len() && forall|i: int|
            0 <= i < a@.len() ==> (#[trigger] r->Ok_0@[i])@ == modl(
                dot(a@[i]@, b@, b@.len()),
            ),
{
    let mut k: usize = 0;
    while k < a.len()
        invariant
            k <= a@.len(),
            forall|i: int| 0 <= i < k ==> (#[trigger] a@[i])@.len() == b@.len(),
        decreases a@.len() - k,
    {
        if a[k].len() != b.len() {
            return Err(PermError::DimensionMismatch);
        }
        k = k + 1;
    }
    let mut out: Vec<Fe> = Vec::new();
    let mut i: usize = 0;
    while i < a.len()
        invariant
            i <= a@.len(),
            rows_have_len(a@, b@.len()),
            out@.len() == i,
            forall|j: int| 0 <= j < i ==> (#[trigger] out@[j])@ == modl(dot(a@[j]@, b@, b@.len())),
        decreases a@.len() - i,
    {
        assert(a@[i as int]@.len() == b@.len());
        let p = match inner_product(&a[i], b) {
            Ok(p) => p,
            Err(e) => return Err(e),
        };
        out.push(p);
        i = i + 1;
    }
    Ok(out)
}

/// Row vector times matrix: entry `j` is the sum of `a[i] * b[i][j]` over
/// the rows `i`. Fails unless `b` has one row per entry of `a` and all its
/// rows have one length; that length is the result's.
pub fn vm_mult(a: &Vec<Fe>, b: &Vec<Vec<Fe>>) -> (r: Result<Vec<Fe>, PermError>)
    ensures
        (a@.len() != b@.len() || (b@.len() > 0 && !rows_have_len(b@, b@[0]@.len()))) <==> r
            == Err::<Vec<Fe>, PermError>(PermError::DimensionMismatch),
        r is Err ==> r == Err::<Vec<Fe>, PermError>(PermError::DimensionMismatch),
        r is Ok ==> {
            &&& r->Ok_0@.len() == (if b@.len() == 0 {
                0
            } else {
                b@[0]@.len()
            })
            &&& forall|j: int|
                0 <= j < r->Ok_0@.len() ==> (#[trigger] r->Ok_0@[j])@ == modl(
                    col_dot(a@, b@, j, a@.len()),
                )
        },
{
    if a.len() != b.len() {
        return Err(PermError::DimensionMismatch);
    }
    if b.len() == 0 {
        return Ok(Vec::new());
    }
    let n = b[0].len();
    let mut k: usize = 0;
    while k < b.len()
        invariant
            k <= b@.len(),
            b@.len() > 0,
            n == b@[0]@.len(),
            forall|i: int| 0 <= i < k ==> (#[trigger] b@[i])@.len() == n,
        decreases b@.len() - k,
    {
        if b[k].len() != n {
            return Err(PermError::DimensionMismatch);
        }
        k = k + 1;
    }
    let mut out: Vec<Fe> = Vec::new();
    let mut j: usize = 0;
    while j < n
        invariant
            j <= n,
            a@.len() == b@.len(),
            rows_have_len(b@, n as nat),
            out@.len() == j,
            forall|t: int| 0 <= t < j ==> (#[trigger] out@[t])@ == modl(col_dot(a@, b@, t, a@.len())),
        decreases n - j,
    {
        let mut acc = Fe::zero();
        let mut i: usize = 0;
        proof {
            lemma_modl(0, 0);
        }
        while i < a.len()
            invariant
                i <= a@.len(),
                j < n,
                a@.len() == b@.len(),
                rows_have_len(b@, n as nat),
                acc@ == modl(col_dot(a@, b@, j as int, i as nat)),
            decreases a@.len() - i,
        {
            assert(b@[i as int]@.len() == n);
            let p = a[i].mul(&b[i][j]);
            proof {
                lemma_modl(col_dot(a@, b@, j as int, i as nat), 0);
                lemma_modl(
                    col_dot(a@, b@, j as int, i as nat),
                    a@[i as int]@ * b@[i as int]@[j as int]@,
                );
            }
            acc = acc.add(&p);
            i = i + 1;
        }
        out.push(acc);
        j = j + 1;
    }
    Ok(out)
}

/// `vm_mult` on a slice.
pub fn lm_mult(a: &[Fe], b: &Vec<Vec<Fe>>) -> (r: Result<Vec<Fe>, PermError>)
    ensures
        (a@.len() != b@.len() || (b@.len() > 0 && !rows_have_len(b@, b@[0]@.len()))) <==> r
            == Err::<Vec<Fe>, PermError>(PermError::DimensionMismatch),
        r is Err ==> r == Err::<Vec<Fe>, PermError>(PermError::DimensionMismatch),
        r is Ok ==> {
            &&& r->Ok_0@.len() == (if b@.len() == 0 {
                0
            } else {
                b@[0]@.len()
            })
            &&& forall|j: int|
                0 <= j < r->Ok_0@.len() ==> (#[trigger] r->Ok_0@[j])@ == modl(
                    col_dot(a@, b@, j, a@.len()),
                )
        },
{
    let mut m: Vec<Fe> = Vec::new();
    let mut i: usize = 0;
    while i < a.len()
        invariant
            i <= a@.len(),
            m@ == a@.subrange(0, i as int),
        decreases a@.len() - i,
    {
        m.push(a[i]);
        i = i + 1;
    }
    assert(m@ == a@);
    vm_mult(&m, b)
}

/// Elementwise product; fails when the lengths differ.
pub fn hadamard_V(a: &Vec<Fe>, b: &Vec<Fe>) -> (r: Result<Vec<Fe>, PermError>)
    ensures
        a@.len() != b@.len() <==> r == Err::<Vec<Fe>, PermError>(PermError::DimensionMismatch),
        r is Err ==> r == Err::<Vec<Fe>, PermError>(PermError::DimensionMismatch),
        r is Ok ==> r->Ok_0@.len() == a@.len() && forall|i: int|
            0 <= i < a@.len() ==> (#[trigger] r->Ok_0@[i])@ == modl(a@[i]@ * b@[i]@),
{
    if a.len() != b.len() {
        return Err(PermError::DimensionMismatch);
    }
    let mut out: Vec<Fe> = Vec::new();
    let mut i: usize = 0;
    while i < a.len()
        invariant
            a@.len() == b@.len(),
            i <= a@.len(),
            out@.len() == i,
            forall|j: int| 0 <= j < i ==> (#[trigger] out@[j])@ == modl(a@[j]@ * b@[j]@),
        decreases a@.len() - i,
    {
        out.push(a[i].mul(&b[i]));
        i = i + 1;
    }
    Ok(out)
}

proof fn lemma_pow_step(x: int, i: nat)
    ensures
        modl(modl(pow(x, i)) * modl(x)) == modl(pow(x, i + 1)),
{
    lemma_modl(pow(x, i), x);
    reveal(pow);
    assert(pow(x, i + 1) == x * pow(x, i));
    assert(pow(x, i) * x == x * pow(x, i)) by (nonlinear_arith);
}

/// `x` to the power `pow`.
pub fn scalar_exp_u(x: &Fe, pow: usize) -> (r: Fe)
    ensures
        r@ == modl(vstd::arithmetic::power::pow(x@, pow as nat)),
{
    let mut result = Fe::one();
    let mut i: usize = 0;
    proof {
        lemma_modl(1, 0);
        vstd::arithmetic::power::lemma_pow0(x@);
    }
    while i < pow
        invariant
            i <= pow,
            result@ == modl(vstd::arithmetic::power::pow(x@, i as nat)),
        decreases pow - i,
    {
        proof {
            lemma_pow_step(x@, i as nat);
            lemma_view_reduced(*x);
        }
        result = result.mul(x);
        i = i + 1;
    }
    result
}

/// `x` to the power `pow`; one when `pow` is not positive.
pub fn scalar_exp(x: &Fe, pow: i32) -> (r: Fe)
    ensures
        r@ == modl(vstd::arithmetic::power::pow(x@, if pow > 0 { pow as nat } else { 0 })),
{
    let mut result = Fe::one();
    let mut i: i32 = 0;
    proof {
        lemma_modl(1, 0);
        vstd::arithmetic::power::lemma_pow0(x@);
    }
    while i < pow
        invariant
            0 <= i,
            pow > 0 ==> i <= pow,
            pow <= 0 ==> i == 0,
            result@ == modl(vstd::arithmetic::power::pow(x@, i as nat)),
        decreases pow - i,
    {
        proof {
            lemma_pow_step(x@, i as nat);
            lemma_view_reduced(*x);
        }
        result = result.mul(x);
        i = i + 1;
    }
    result
}

/// The element `n`, built by adding one `n` times; zero when `n` is not
/// positive.
pub fn give_n(n: i64) -> (r: Fe)
    ensures
        r@ == modl(if n > 0 { n as int } else { 0 }),
{
    let mut acc = Fe::zero();
    let one = Fe::one();
    let mut i: i64 = 0;
    proof {
        lemma_modl(0, 0);
    }
    while i < n
        invariant
            0 <= i,
            n > 0 ==> i <= n,
            n <= 0 ==> i == 0,
            acc@ == modl(i as int),
            one@ == 1,
        decreases n - i,
    {
        proof {
            lemma_modl(i as int, 1);
            lemma_modl(1, 0);
        }
        acc = acc.add(&one);
        i = i + 1;
    }
    acc
}

/// The state of the power sequence that `exp_iter` starts: `x` holds the
/// term handed out last (one at first), `next_exp_x` the next one.
pub struct ScalarExp {
    pub x: Fe,
    pub next_exp_x: Fe,
}

/// A power sequence starting from `x`.
pub fn exp_iter(x: &Fe) -> (r: ScalarExp)
    ensures
        r.x@ == 1,
        r.next_exp_x == *x,
{
    ScalarExp { x: Fe::one(), next_exp_x: *x }
}

impl ScalarExp {
    /// Hands out the next term; the term after it is the product of the
    /// one handed out and the one before it.
    pub fn next(&mut self) -> (r: Option<Fe>)
        ensures
            r == Some(old(self).next_exp_x),
            final(self).x == old(self).next_exp_x,
            final(self).next_exp_x@ == modl(old(self).next_exp_x@ * old(self).x@),
    {
        let exp_x = self.next_exp_x;
        self.next_exp_x = self.next_exp_x.mul(&self.x);
        self.x = exp_x;
        Some(exp_x)
    }
}

/// The decimal digit `d`.
pub open spec fn digit_char(d: int) -> char {
    if d == 0 {
        '0'
    } else if d == 1 {
        '1'
    } else if d == 2 {
        '2'
    } else if d == 3 {
        '3'
    } else if d == 4 {
        '4'
    } else if d == 5 {
        '5'
    } else if d == 6 {
        '6'
    } else if d == 7 {
        '7'
    } else if d == 8 {
        '8'
    } else {
        '9'
    }
}

/// The decimal digits of `n`, most significant first, with no leading zero.
pub open spec fn digits(n: nat) -> Seq<char>
    decreases n,
{
    if n < 10 {
        seq![digit_char(n as int)]
    } else {
        digits(n / 10) + seq![digit_char((n % 10) as int)]
    }
}

/// `x` in decimal, with a leading `-` when it is negative.
pub open spec fn decimal_text(x: int) -> Seq<char> {
    if x < 0 {
        seq!['-'] + digits((-x) as nat)
    } else {
        digits(x as nat)
    }
}

/// The signed (two's complement) integer that the 32 bytes `b` encode
/// little-endian.
pub open spec fn i256_value(b: Seq<u8>) -> int {
    if b[31] >= 128 {
        le_value(b) - vstd::arithmetic::power2::pow2(256)
    } else {
        le_value(b) as int
    }
}

/// Relies on `ethnum::I256::from_le_bytes`, which reads the bytes as a
/// little-endian two's-complement integer, and on `I256`'s `Display`, which
/// writes it in decimal with a leading `-` when it is negative.
#[verifier::external_body]
fn i256_text(b: [u8; 32]) -> (r: String)
    ensures
        r@ == decimal_text(i256_value(b@)),
{
    I256::from_le_bytes(b).to_string()
}

/// The decimal text of an element's canonical value.
pub open spec fn decimal(x: int) -> Seq<char> {
    decimal_text(i256_value(le_bytes32(x)))
}

/// An element as text: its value in decimal, or, when that takes more than
/// ten digits, its distance below the group order with a minus sign.
pub open spec fn scalar_text(f: Fe) -> Seq<char> {
    if decimal(f@).len() > 10 {
        seq!['-'] + decimal(modl(-f@))
    } else {
        decimal(f@)
    }
}

/// The entries of `v` up to `n`, each followed by `", "`.
pub open spec fn entries_text(v: Seq<Fe>, n: nat) -> Seq<char>
    decreases n,
{
    if n == 0 {
        Seq::empty()
    } else {
        entries_text(v, (n - 1) as nat) + scalar_text(v[n - 1]) + seq![',', ' ']
    }
}

pub open spec fn vec_text(v: Seq<Fe>) -> Seq<char> {
    seq!['['] + entries_text(v, v.len()) + seq![']']
}

/// The rows of `m` up to `n`, each followed by `",\n"`.
pub open spec fn rows_text(m: Seq<Vec<Fe>>, n: nat) -> Seq<char>
    decreases n,
{
    if n == 0 {
        Seq::empty()
    } else {
        rows_text(m, (n - 1) as nat) + vec_text(m[n - 1]@) + seq![',', '\n']
    }
}

pub open spec fn mat_text(m: Seq<Vec<Fe>>) -> Seq<char> {
    seq!['['] + rows_text(m, m.len()) + seq![']']
}

/// The decimal value of `s`.
pub fn format_scalar(s: &Fe) -> (r: String)
    ensures
        r@ == decimal(s@),
{
    let red = s.reduce();
    i256_text(red.bytes)
}

fn scalar_string(f: &Fe) -> (r: String)
    ensures
        r@ == scalar_text(*f),
{
    let d = format_scalar(f);
    if d.as_str().unicode_len() > 10 {
        let mut t = String::from_str("-");
        let n = format_scalar(&f.neg());
        proof {
            reveal_strlit("-");
        }
        t.append(n.as_str());
        t
    } else {
        d
    }
}

/// `v` as text: `[a, b, ]`, each entry as `scalar_text` gives it.
pub fn print_scalar_vec(v: &Vec<Fe>) -> (r: String)
    ensures
        r@ == vec_text(v@),
{
    let mut result = String::from_str("[");
    proof {
        reveal_strlit("[");
        reveal_strlit(", ");
        reveal_strlit("]");
    }
    let mut i: usize = 0;
    while i < v.len()
        invariant
            i <= v@.len(),
            result@ == seq!['['] + entries_text(v@, i as nat),
        decreases v@.len() - i,
    {
        let t = scalar_string(&v[i]);
        result.append(t.as_str());
        proof {
            reveal_strlit(", ");
        }
        result.append(", ");
        i = i + 1;
        assert(result@ =~= seq!['['] + entries_text(v@, i as nat));
    }
    result.append("]");
    result
}

/// `m` as text: `[` then each row as `print_scalar_vec` gives it followed
/// by a comma and a line break, then `]`.
pub fn print_scalar_mat(m: &Vec<Vec<Fe>>) -> (r: String)
    ensures
        r@ == mat_text(m@),
{
    let mut result = String::from_str("[");
    proof {
        reveal_strlit("[");
        reveal_strlit(",\n");
        reveal_strlit("]");
    }
    let mut i: usize = 0;
    while i < m.len()
        invariant
            i <= m@.len(),
            result@ == seq!['['] + rows_text(m@, i as nat),
        decreases m@.len() - i,
    {
        let t = print_scalar_vec(&m[i]);
        result.append(t.as_str());
        proof {
            reveal_strlit(",\n");
        }
        result.append(",\n");
        i = i + 1;
        assert(result@ =~= seq!['['] + rows_text(m@, i as nat));
    }
    result.append("]");
    result
}

} // verus!
