//! Errors, and the bin of gate assignments and weight matrices that the
//! flattened constraint identity is checked on.
use crate::field::{lemma_modl, lemma_view_reduced, modl, Fe};
use crate::util::{dot, mat_text, mv_mult, print_scalar_mat, print_scalar_vec, rows_have_len, vec_text};
use vstd::prelude::*;
use vstd::string::*;

verus! {

/// The flattened identity `wL*aL + wR*aR - wO*aO = wV*v + c` fails; `row`
/// is the first constraint row on which it does.
#[derive(Clone, Copy, Debug, PartialEq, Eq, Structural)]
pub struct MatCheckError {
    pub row: usize,
}

/// Every failure that the permutation argument and its checker report.
#[derive(Clone, Copy, Debug, PartialEq, Eq, Structural)]
pub enum PermError {
    /// Sequences of different lengths, or an empty sequence.
    InvalidInput,
    /// Vector or matrix shapes that do not fit together.
    DimensionMismatch,
    /// An entry of the bin that the check needs is absent.
    MissingEntry,
    /// The flattened constraint identity does not hold.
    ConstraintMismatch(MatCheckError),
}

/// The names under which the bin keeps its entries. The weight matrices
/// (`WL`, `WR`, `WO`, `WV`) hold matrices; the others hold vectors.
#[derive(Clone, Copy, Debug, PartialEq, Eq, Structural)]
pub enum Entry {
    /// Left inputs of the multiplication gates.
    AL,
    /// Right inputs of the multiplication gates.
    AR,
    /// Outputs of the multiplication gates.
    AO,
    /// Constant term of each constraint.
    C,
    /// Committed values.
    V,
    /// Weights of the left inputs.
    WL,
    /// Weights of the right inputs.
    WR,
    /// Weights of the outputs.
    WO,
    /// Weights of the committed values.
    WV,
}

impl Entry {
    pub open spec fn is_matrix_spec(&self) -> bool {
        match self {
            Entry::WL | Entry::WR | Entry::WO | Entry::WV => true,
            _ => false,
        }
    }

    /// Whether the entry holds a weight matrix.
    #[verifier::when_used_as_spec(is_matrix_spec)]
    pub fn is_matrix(&self) -> (r: bool)
        ensures
            r == self.is_matrix_spec(),
    {
        match self {
            Entry::WL | Entry::WR | Entry::WO | Entry::WV => true,
            _ => false,
        }
    }
}

/// A vector or a matrix of field elements.
pub enum MatorVec {
    Vector(Vec<Fe>),
    Matrix(Vec<Vec<Fe>>),
}

/// The rows of a matrix, each as a sequence.
pub open spec fn mat_view(m: Seq<Vec<Fe>>) -> Seq<Seq<Fe>> {
    m.map_values(|r: Vec<Fe>| r@)
}

pub open spec fn opt_vec_view(o: Option<Vec<Fe>>) -> Option<Seq<Fe>> {
    match o {
        Some(v) => Some(v@),
        None => None,
    }
}

pub open spec fn opt_mat_view(o: Option<Vec<Vec<Fe>>>) -> Option<Seq<Seq<Fe>>> {
    match o {
        Some(m) => Some(mat_view(m@)),
        None => None,
    }
}

/// What a value holds, as sequences.
pub open spec fn mator_vec_view(m: MatorVec) -> Result<Seq<Fe>, Seq<Seq<Fe>>> {
    match m {
        MatorVec::Vector(v) => Ok(v@),
        MatorVec::Matrix(w) => Err(mat_view(w@)),
    }
}

/// A copy of `v`.
pub fn copy_vec(v: &Vec<Fe>) -> (r: Vec<Fe>)
    ensures
        r@ == v@,
{
    let mut r: Vec<Fe> = Vec::new();
    let mut i: usize = 0;
    while i < v.len()
        invariant
            i <= v@.len(),
            r@ == v@.subrange(0, i as int),
        decreases v@.len() - i,
    {
        r.push(v[i]);
        i = i + 1;
    }
    assert(r@ == v@);
    r
}

/// A copy of `m`.
pub fn copy_mat(m: &Vec<Vec<Fe>>) -> (r: Vec<Vec<Fe>>)
    ensures
        mat_view(r@) == mat_view(m@),
{
    let mut r: Vec<Vec<Fe>> = Vec::new();
    let mut i: usize = 0;
    while i < m.len()
        invariant
            i <= m@.len(),
            r@.len() == i,
            forall|j: int| 0 <= j < i ==> (#[trigger] r@[j])@ == m@[j]@,
        decreases m@.len() - i,
    {
        let row = copy_vec(&m[i]);
        r.push(row);
        i = i + 1;
    }
    assert(mat_view(r@) =~= mat_view(m@));
    r
}

/// Wire values of the multiplication gates, `aL`, `aR`, `aO`, the committed values `v`, the
/// constants `c` and the weight matrices `wL`, `wR`, `wO`, `wV` of a
/// flattened rank-1 constraint system; any of them may be absent.
pub struct VarVecs {
    pub a_l: Option<Vec<Fe>>,
    pub a_r: Option<Vec<Fe>>,
    pub a_o: Option<Vec<Fe>>,
    pub c: Option<Vec<Fe>>,
    pub v: Option<Vec<Fe>>,
    pub w_l: Option<Vec<Vec<Fe>>>,
    pub w_r: Option<Vec<Vec<Fe>>>,
    pub w_o: Option<Vec<Vec<Fe>>>,
    pub w_v: Option<Vec<Vec<Fe>>>,
}

/// Row `i` of `wL*aL + wR*aR - wO*aO = wV*v + c` holds modulo the group order.
pub open spec fn row_holds(
    w_l: Seq<Vec<Fe>>,
    w_r: Seq<Vec<Fe>>,
    w_o: Seq<Vec<Fe>>,
    w_v: Seq<Vec<Fe>>,
    a_l: Seq<Fe>,
    a_r: Seq<Fe>,
    a_o: Seq<Fe>,
    v: Seq<Fe>,
    c: Seq<Fe>,
    i: int,
) -> bool {
    modl(dot(w_l[i]@, a_l, a_l.len()) + dot(w_r[i]@, a_r, a_r.len()) - dot(w_o[i]@, a_o, a_o.len()))
        == modl(dot(w_v[i]@, v, v.len()) + c[i]@)
}

/// `name: [..]` and a line break, for a present vector.
#[verifier::opaque]
pub open spec fn vec_line(name: Seq<char>, o: Option<Vec<Fe>>) -> Seq<char> {
    match o {
        Some(v) => name + seq![':', ' '] + vec_text(v@) + seq!['\n'],
        None => Seq::empty(),
    }
}

/// `name:`, a line break, the matrix and a line break, for a present matrix.
#[verifier::opaque]
pub open spec fn mat_lines(name: Seq<char>, o: Option<Vec<Vec<Fe>>>) -> Seq<char> {
    match o {
        Some(m) => name + seq![':', '\n'] + mat_text(m@) + seq!['\n'],
        None => Seq::empty(),
    }
}

fn push_vec_line(res: &mut String, name: &str, o: &Option<Vec<Fe>>)
    ensures
        final(res)@ == old(res)@ + vec_line(name@, *o),
{
    proof {
        reveal(vec_line);
    }
    match o {
        Some(v) => {
            let t = print_scalar_vec(v);
            proof {
                reveal_strlit(": ");
                reveal_strlit("\n");
            }
            res.append(name);
            res.append(": ");
            res.append(t.as_str());
            res.append("\n");
        },
        None => {
            assert(old(res)@ + Seq::<char>::empty() =~= old(res)@);
        },
    }
}

fn push_mat_lines(res: &mut String, name: &str, o: &Option<Vec<Vec<Fe>>>)
    ensures
        final(res)@ == old(res)@ + mat_lines(name@, *o),
{
    proof {
        reveal(mat_lines);
    }
    match o {
        Some(m) => {
            let t = print_scalar_mat(m);
            proof {
                reveal_strlit(":\n");
                reveal_strlit("\n");
            }
            res.append(name);
            res.append(":\n");
            res.append(t.as_str());
            res.append("\n");
        },
        None => {
            assert(old(res)@ + Seq::<char>::empty() =~= old(res)@);
        },
    }
}

impl VarVecs {
    /// The bin as text: each present vector on a line of its own, in the
    /// order `aL, aR, aO, c, v`, then each present matrix, `wL, wR, wO, wV`.
    pub open spec fn print_text(&self) -> Seq<char> {
        vec_line(seq!['a', 'L'], self.a_l) + vec_line(seq!['a', 'R'], self.a_r) + vec_line(
            seq!['a', 'O'],
            self.a_o,
        ) + vec_line(seq!['c'], self.c) + vec_line(seq!['v'], self.v) + mat_lines(
            seq!['w', 'L'],
            self.w_l,
        ) + mat_lines(seq!['w', 'R'], self.w_r) + mat_lines(seq!['w', 'O'], self.w_o) + mat_lines(
            seq!['w', 'V'],
            self.w_v,
        )
    }

    /// Every entry of the bin, as text.
    #[verifier::rlimit(40)]
    pub fn print(&self) -> (r: String)
        ensures
            r@ == self.print_text(),
    {
        let mut res = String::new();
        proof {
            reveal_strlit("aL");
            reveal_strlit("aR");
            reveal_strlit("aO");
            reveal_strlit("c");
            reveal_strlit("v");
            reveal_strlit("wL");
            reveal_strlit("wR");
            reveal_strlit("wO");
            reveal_strlit("wV");
            assert("aL"@ =~= seq!['a', 'L']);
            assert("aR"@ =~= seq!['a', 'R']);
            assert("aO"@ =~= seq!['a', 'O']);
            assert("c"@ =~= seq!['c']);
            assert("v"@ =~= seq!['v']);
            assert("wL"@ =~= seq!['w', 'L']);
            assert("wR"@ =~= seq!['w', 'R']);
            assert("wO"@ =~= seq!['w', 'O']);
            assert("wV"@ =~= seq!['w', 'V']);
            assert(res@ =~= Seq::<char>::empty());
        }
        push_vec_line(&mut res, "aL", &self.a_l);
        assert(res@ =~= vec_line(seq!['a', 'L'], self.a_l));
        push_vec_line(&mut res, "aR", &self.a_r);
        push_vec_line(&mut res, "aO", &self.a_o);
        push_vec_line(&mut res, "c", &self.c);
        push_vec_line(&mut res, "v", &self.v);
        push_mat_lines(&mut res, "wL", &self.w_l);
        push_mat_lines(&mut res, "wR", &self.w_r);
        push_mat_lines(&mut res, "wO", &self.w_o);
        push_mat_lines(&mut res, "wV", &self.w_v);
        res
    }

    /// Every entry is present.
    pub open spec fn complete(&self) -> bool {
        &&& self.a_l is Some
        &&& self.a_r is Some
        &&& self.a_o is Some
        &&& self.c is Some
        &&& self.v is Some
        &&& self.w_l is Some
        &&& self.w_r is Some
        &&& self.w_o is Some
        &&& self.w_v is Some
    }

    /// The entries fit together: one row of each weight matrix and one
    /// constant per constraint, and each weight row as long as the vector it
    /// weighs.
    pub open spec fn shapes_fit(&self) -> bool {
        let m = self.c->0@.len();
        &&& self.w_l->0@.len() == m
        &&& self.w_r->0@.len() == m
        &&& self.w_o->0@.len() == m
        &&& self.w_v->0@.len() == m
        &&& rows_have_len(self.w_l->0@, self.a_l->0@.len())
        &&& rows_have_len(self.w_r->0@, self.a_r->0@.len())
        &&& rows_have_len(self.w_o->0@, self.a_o->0@.len())
        &&& rows_have_len(self.w_v->0@, self.v->0@.len())
    }

    pub open spec fn holds_at(&self, i: int) -> bool {
        row_holds(
            self.w_l->0@,
            self.w_r->0@,
            self.w_o->0@,
            self.w_v->0@,
            self.a_l->0@,
            self.a_r->0@,
            self.a_o->0@,
            self.v->0@,
            self.c->0@,
            i,
        )
    }

    /// What checking the bin yields: `MissingEntry` exactly when an entry
    /// is absent, else `DimensionMismatch` exactly when the shapes do not
    /// fit, else success exactly when every row of the identity holds; a
    /// `ConstraintMismatch` names the first row that fails.
    pub open spec fn check_outcome(&self, r: Result<(), PermError>) -> bool {
        &&& !self.complete() <==> r == Err::<(), PermError>(PermError::MissingEntry)
        &&& self.complete() ==> (!self.shapes_fit() <==> r == Err::<(), PermError>(
            PermError::DimensionMismatch,
        ))
        &&& self.complete() && self.shapes_fit() ==> (r is Ok <==> forall|i: int|
            0 <= i < self.c->0@.len() ==> #[trigger] self.holds_at(i))
        &&& r is Err ==> (r->Err_0 is MissingEntry || r->Err_0 is DimensionMismatch
            || r->Err_0 is ConstraintMismatch)
        &&& r matches Err(PermError::ConstraintMismatch(e)) ==> {
            &&& e.row < self.c->0@.len()
            &&& !self.holds_at(e.row as int)
            &&& forall|i: int| 0 <= i < e.row ==> #[trigger] self.holds_at(i)
        }
    }

    /// The entry stored under `e`: a vector (`Ok`) or a matrix (`Err`).
    pub open spec fn entry(&self, e: Entry) -> Option<Result<Seq<Fe>, Seq<Seq<Fe>>>> {
        let ov = match e {
            Entry::AL => opt_vec_view(self.a_l),
            Entry::AR => opt_vec_view(self.a_r),
            Entry::AO => opt_vec_view(self.a_o),
            Entry::C => opt_vec_view(self.c),
            Entry::V => opt_vec_view(self.v),
            _ => None,
        };
        let om = match e {
            Entry::WL => opt_mat_view(self.w_l),
            Entry::WR => opt_mat_view(self.w_r),
            Entry::WO => opt_mat_view(self.w_o),
            Entry::WV => opt_mat_view(self.w_v),
            _ => None,
        };
        if e.is_matrix_spec() {
            match om {
                Some(m) => Some(Err(m)),
                None => None,
            }
        } else {
            match ov {
                Some(v) => Some(Ok(v)),
                None => None,
            }
        }
    }

    /// A bin that holds `vectors` in the order `aL, aR, aO, c, v` and
    /// `matrices` in the order `wL, wR, wO, wV`; entries past the end of
    /// either list are absent.
    pub fn new(vectors: &[Vec<Fe>], matrices: &[Vec<Vec<Fe>>]) -> (r: VarVecs)
        requires
            vectors@.len() <= 5,
            matrices@.len() <= 4,
        ensures
            r.entry(Entry::AL) == (if vectors@.len() > 0 { Some(Ok::<Seq<Fe>, Seq<Seq<Fe>>>(vectors@[0]@)) } else { None }),
            r.entry(Entry::AR) == (if vectors@.len() > 1 { Some(Ok::<Seq<Fe>, Seq<Seq<Fe>>>(vectors@[1]@)) } else { None }),
            r.entry(Entry::AO) == (if vectors@.len() > 2 { Some(Ok::<Seq<Fe>, Seq<Seq<Fe>>>(vectors@[2]@)) } else { None }),
            r.entry(Entry::C) == (if vectors@.len() > 3 { Some(Ok::<Seq<Fe>, Seq<Seq<Fe>>>(vectors@[3]@)) } else { None }),
            r.entry(Entry::V) == (if vectors@.len() > 4 { Some(Ok::<Seq<Fe>, Seq<Seq<Fe>>>(vectors@[4]@)) } else { None }),
            r.entry(Entry::WL) == (if matrices@.len() > 0 { Some(Err::<Seq<Fe>, Seq<Seq<Fe>>>(mat_view(matrices@[0]@))) } else { None }),
            r.entry(Entry::WR) == (if matrices@.len() > 1 { Some(Err::<Seq<Fe>, Seq<Seq<Fe>>>(mat_view(matrices@[1]@))) } else { None }),
            r.entry(Entry::WO) == (if matrices@.len() > 2 { Some(Err::<Seq<Fe>, Seq<Seq<Fe>>>(mat_view(matrices@[2]@))) } else { None }),
            r.entry(Entry::WV) == (if matrices@.len() > 3 { Some(Err::<Seq<Fe>, Seq<Seq<Fe>>>(mat_view(matrices@[3]@))) } else { None }),
    {
        let mut r = VarVecs {
            a_l: None,
            a_r: None,
            a_o: None,
            c: None,
            v: None,
            w_l: None,
            w_r: None,
            w_o: None,
            w_v: None,
        };
        if vectors.len() > 0 {
            r.a_l = Some(copy_vec(&vectors[0]));
        }
        if vectors.len() > 1 {
            r.a_r = Some(copy_vec(&vectors[1]));
        }
        if vectors.len() > 2 {
            r.a_o = Some(copy_vec(&vectors[2]));
        }
        if vectors.len() > 3 {
            r.c = Some(copy_vec(&vectors[3]));
        }
        if vectors.len() > 4 {
            r.v = Some(copy_vec(&vectors[4]));
        }
        if matrices.len() > 0 {
            r.w_l = Some(copy_mat(&matrices[0]));
        }
        if matrices.len() > 1 {
            r.w_r = Some(copy_mat(&matrices[1]));
        }
        if matrices.len() > 2 {
            r.w_o = Some(copy_mat(&matrices[2]));
        }
        if matrices.len() > 3 {
            r.w_v = Some(copy_mat(&matrices[3]));
        }
        r
    }

    /// The entry stored under `index`; fails when it is absent.
    pub fn index(&self, index: Entry) -> (r: Result<MatorVec, PermError>)
        ensures
            self.entry(index) is None <==> r == Err::<MatorVec, PermError>(PermError::MissingEntry),
            self.entry(index) is Some ==> r is Ok,
            r is Ok ==> self.entry(index) == Some(mator_vec_view(r->Ok_0)),
    {
        let o: Option<&Vec<Fe>> = match index {
            Entry::AL => self.a_l.as_ref(),
            Entry::AR => self.a_r.as_ref(),
            Entry::AO => self.a_o.as_ref(),
            Entry::C => self.c.as_ref(),
            Entry::V => self.v.as_ref(),
            _ => None,
        };
        let om: Option<&Vec<Vec<Fe>>> = match index {
            Entry::WL => self.w_l.as_ref(),
            Entry::WR => self.w_r.as_ref(),
            Entry::WO => self.w_o.as_ref(),
            Entry::WV => self.w_v.as_ref(),
            _ => None,
        };
        if index.is_matrix() {
            match om {
                Some(m) => Ok(MatorVec::Matrix(copy_mat(m))),
                None => Err(PermError::MissingEntry),
            }
        } else {
            match o {
                Some(v) => Ok(MatorVec::Vector(copy_vec(v))),
                None => Err(PermError::MissingEntry),
            }
        }
    }

    /// Stores `val` under `index`, replacing what was there. Fails with
    /// `DimensionMismatch`, leaving the bin as it was, when the value's kind
    /// (vector or matrix) differs from the entry's.
    pub fn add(&mut self, index: Entry, val: MatorVec) -> (r: Result<(), PermError>)
        ensures
            (index.is_matrix() != (val is Matrix)) <==> r == Err::<(), PermError>(
                PermError::DimensionMismatch,
            ),
            r is Err ==> r == Err::<(), PermError>(PermError::DimensionMismatch),
            forall|e: Entry| e != index ==> final(self).entry(e) == old(self).entry(e),
            r is Ok ==> final(self).entry(index) == Some(mator_vec_view(val)),
            r is Err ==> final(self).entry(index) == old(self).entry(index),
            final(self).a_l == (if index == Entry::AL && val is Vector { Some(val->Vector_0) } else { old(self).a_l }),
            final(self).a_r == (if index == Entry::AR && val is Vector { Some(val->Vector_0) } else { old(self).a_r }),
            final(self).a_o == (if index == Entry::AO && val is Vector { Some(val->Vector_0) } else { old(self).a_o }),
            final(self).c == (if index == Entry::C && val is Vector { Some(val->Vector_0) } else { old(self).c }),
            final(self).v == (if index == Entry::V && val is Vector { Some(val->Vector_0) } else { old(self).v }),
            final(self).w_l == (if index == Entry::WL && val is Matrix { Some(val->Matrix_0) } else { old(self).w_l }),
            final(self).w_r == (if index == Entry::WR && val is Matrix { Some(val->Matrix_0) } else { old(self).w_r }),
            final(self).w_o == (if index == Entry::WO && val is Matrix { Some(val->Matrix_0) } else { old(self).w_o }),
            final(self).w_v == (if index == Entry::WV && val is Matrix { Some(val->Matrix_0) } else { old(self).w_v }),
    {
        if index.is_matrix() != matches!(val, MatorVec::Matrix(_)) {
            return Err(PermError::DimensionMismatch);
        }
        match val {
            MatorVec::Vector(v) => {
                match index {
                    Entry::AL => { self.a_l = Some(v); },
                    Entry::AR => { self.a_r = Some(v); },
                    Entry::AO => { self.a_o = Some(v); },
                    Entry::C => { self.c = Some(v); },
                    Entry::V => { self.v = Some(v); },
                    _ => {},
                }
            },
            MatorVec::Matrix(m) => {
                match index {
                    Entry::WL => { self.w_l = Some(m); },
                    Entry::WR => { self.w_r = Some(m); },
                    Entry::WO => { self.w_o = Some(m); },
                    Entry::WV => { self.w_v = Some(m); },
                    _ => {},
                }
            },
        }
        Ok(())
    }

    /// Checks `wL*aL + wR*aR - wO*aO = wV*v + c` row by row, modulo the
    /// group order.
    pub fn verify(&self) -> (r: Result<(), PermError>)
        ensures
            self.check_outcome(r),
    {
        if self.a_l.is_none() || self.a_r.is_none() || self.a_o.is_none() || self.c.is_none()
            || self.v.is_none() || self.w_l.is_none() || self.w_r.is_none() || self.w_o.is_none()
            || self.w_v.is_none() {
            return Err(PermError::MissingEntry);
        }
        let a_l = self.a_l.as_ref().unwrap();
        let a_r = self.a_r.as_ref().unwrap();
        let a_o = self.a_o.as_ref().unwrap();
        let c = self.c.as_ref().unwrap();
        let v = self.v.as_ref().unwrap();
        let w_l = self.w_l.as_ref().unwrap();
        let w_r = self.w_r.as_ref().unwrap();
        let w_o = self.w_o.as_ref().unwrap();
        let w_v = self.w_v.as_ref().unwrap();
        assert(a_l == self.a_l->0 && a_r == self.a_r->0 && a_o == self.a_o->0);
        assert(c == self.c->0 && v == self.v->0 && w_l == self.w_l->0);
        assert(w_r == self.w_r->0 && w_o == self.w_o->0 && w_v == self.w_v->0);
        let m = c.len();
        if w_l.len() != m || w_r.len() != m || w_o.len() != m || w_v.len() != m {
            return Err(PermError::DimensionMismatch);
        }
        let l = match mv_mult(w_l, a_l) {
            Ok(x) => x,
            Err(e) => return Err(e),
        };
        let rr = match mv_mult(w_r, a_r) {
            Ok(x) => x,
            Err(e) => return Err(e),
        };
        let o = match mv_mult(w_o, a_o) {
            Ok(x) => x,
            Err(e) => return Err(e),
        };
        let vv = match mv_mult(w_v, v) {
            Ok(x) => x,
            Err(e) => return Err(e),
        };
        let mut i: usize = 0;
        while i < m
            invariant
                self.complete(),
                self.shapes_fit(),
                m == c@.len(),
                a_l == self.a_l->0,
                a_r == self.a_r->0,
                a_o == self.a_o->0,
                c == self.c->0,
                v == self.v->0,
                w_l == self.w_l->0,
                w_r == self.w_r->0,
                w_o == self.w_o->0,
                w_v == self.w_v->0,
                l@.len() == m && rr@.len() == m && o@.len() == m && vv@.len() == m,
                forall|j: int| 0 <= j < m ==> (#[trigger] l@[j])@ == modl(dot(w_l@[j]@, a_l@, a_l@.len())),
                forall|j: int| 0 <= j < m ==> (#[trigger] rr@[j])@ == modl(dot(w_r@[j]@, a_r@, a_r@.len())),
                forall|j: int| 0 <= j < m ==> (#[trigger] o@[j])@ == modl(dot(w_o@[j]@, a_o@, a_o@.len())),
                forall|j: int| 0 <= j < m ==> (#[trigger] vv@[j])@ == modl(dot(w_v@[j]@, v@, v@.len())),
                i <= m,
                forall|j: int| 0 <= j < i ==> #[trigger] self.holds_at(j),
            decreases m - i,
        {
            let lhs = l[i].add(&rr[i]).sub(&o[i]);
            let rhs = vv[i].add(&c[i]);
            proof {
                let dl = dot(w_l@[i as int]@, a_l@, a_l@.len());
                let dr = dot(w_r@[i as int]@, a_r@, a_r@.len());
                let dO = dot(w_o@[i as int]@, a_o@, a_o@.len());
                let dv = dot(w_v@[i as int]@, v@, v@.len());
                lemma_modl(dl, dr);
                lemma_modl(dl + dr, dO);
                lemma_modl(dv, c@[i as int]@);
                lemma_view_reduced(c@[i as int]);
                assert(lhs@ == modl(dl + dr - dO));
                assert(rhs@ == modl(dv + c@[i as int]@));
                assert(self.holds_at(i as int) == (lhs@ == rhs@));
            }
            if !lhs.equals(&rhs) {
                return Err(PermError::ConstraintMismatch(MatCheckError { row: i }));
            }
            i = i + 1;
        }
        Ok(())
    }
}

} // verus!
