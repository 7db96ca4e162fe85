//! Field values, tuples, the expressions that operators evaluate on tuples,
//! and the comparison and addition of field values.

use vstd::prelude::*;
use vstd::utf8::encode_utf8;

verus! {

/// A field value. `Decimal(n, d)` is the fraction `n / d`.
#[derive(Debug)]
pub enum Field {
    Null,
    Int(i64),
    Str(String),
    Decimal(i64, i64),
}

/// The mathematical value of a field.
pub enum FieldView {
    Null,
    Int(i64),
    Str(Seq<char>),
    Decimal(i64, i64),
}

impl View for Field {
    type V = FieldView;

    open spec fn view(&self) -> FieldView {
        match self {
            Field::Null => FieldView::Null,
            Field::Int(i) => FieldView::Int(*i),
            Field::Str(s) => FieldView::Str(s@),
            Field::Decimal(n, d) => FieldView::Decimal(*n, *d),
        }
    }
}

impl Field {
    /// A field with the same value.
    pub fn copy_field(&self) -> (r: Field)
        ensures
            r@ == self@,
    {
        match self {
            Field::Null => Field::Null,
            Field::Int(i) => Field::Int(*i),
            Field::Str(s) => Field::Str(s.clone()),
            Field::Decimal(n, d) => Field::Decimal(*n, *d),
        }
    }

    /// Whether two fields are written alike (decimals by numerator and denominator).
    pub fn identical(&self, other: &Field) -> (r: bool)
        ensures
            r == (self@ == other@),
    {
        match (self, other) {
            (Field::Null, Field::Null) => true,
            (Field::Int(a), Field::Int(b)) => *a == *b,
            (Field::Str(a), Field::Str(b)) => a.eq(b),
            (Field::Decimal(a, b), Field::Decimal(c, d)) => *a == *c && *b == *d,
            _ => false,
        }
    }
}

/// Greatest common divisor, by Euclid's algorithm.
pub open spec fn gcd(a: nat, b: nat) -> nat
    decreases b,
{
    if b == 0 {
        a
    } else {
        gcd(b, a % b)
    }
}

proof fn lemma_gcd_bounds(a: nat, b: nat)
    requires
        a > 0 || b > 0,
    ensures
        gcd(a, b) > 0,
    decreases b,
{
    if b > 0 {
        lemma_gcd_bounds(b, a % b);
    }
}

/// The canonical form of a field: a decimal with a positive denominator is
/// written in lowest terms; every other field is left as it is. Two decimals
/// with positive denominators have the same canonical form exactly when they
/// have the same value.
pub open spec fn canon(f: FieldView) -> FieldView {
    match f {
        FieldView::Decimal(n, d) => if d > 0 {
            let m: nat = if n < 0 { (-n) as nat } else { n as nat };
            let g = gcd(m, d as nat);
            let q: int = (m / g) as int;
            FieldView::Decimal((if n < 0 { -q } else { q }) as i64, ((d as nat) / g) as i64)
        } else {
            f
        },
        _ => f,
    }
}

fn gcd_u64(a: u64, b: u64) -> (r: u64)
    ensures
        r == gcd(a as nat, b as nat),
    decreases b,
{
    if b == 0 {
        a
    } else {
        gcd_u64(b, a % b)
    }
}

impl Field {
    /// The field in canonical form (see `canon`).
    pub fn canonical(&self) -> (r: Field)
        ensures
            r@ == canon(self@),
    {
        match self {
            Field::Decimal(n, d) => {
                if *d > 0 {
                    let m: u64 = if *n < 0 {
                        (-(*n as i128)) as u64
                    } else {
                        *n as u64
                    };
                    let g = gcd_u64(m, *d as u64);
                    proof {
                        lemma_gcd_bounds(m as nat, *d as nat);
                    }
                    let q = m / g;
                    let e = (*d as u64) / g;
                    assert(q <= m) by (nonlinear_arith)
                        requires
                            q == m / g,
                            g > 0,
                    ;
                    assert(e <= *d as u64) by (nonlinear_arith)
                        requires
                            e == (*d as u64) / g,
                            g > 0,
                    ;
                    let num: i64 = if *n < 0 {
                        (-(q as i128)) as i64
                    } else {
                        q as i64
                    };
                    Field::Decimal(num, e as i64)
                } else {
                    Field::Decimal(*n, *d)
                }
            },
            _ => self.copy_field(),
        }
    }

    /// Whether two fields hold the same value: decimals are compared in lowest terms.
    pub fn same_as(&self, other: &Field) -> (r: bool)
        ensures
            r == (canon(self@) == canon(other@)),
    {
        self.canonical().identical(&other.canonical())
    }
}

/// Kinds of field in their place in the order: null, integer, decimal, string.
pub open spec fn rank(f: FieldView) -> int {
    match f {
        FieldView::Null => 0,
        FieldView::Int(_) => 1,
        FieldView::Decimal(_, _) => 2,
        FieldView::Str(_) => 3,
    }
}

/// Lexicographic order on byte strings.
pub open spec fn bytes_lt(a: Seq<u8>, b: Seq<u8>) -> bool
    decreases a.len(),
{
    if a.len() == 0 {
        b.len() > 0
    } else if b.len() == 0 {
        false
    } else if a[0] != b[0] {
        a[0] < b[0]
    } else {
        bytes_lt(a.drop_first(), b.drop_first())
    }
}

/// The order on fields: first by kind, then integers by value, strings by their
/// UTF-8 bytes, and decimals with positive denominators by value.
pub open spec fn field_lt(a: FieldView, b: FieldView) -> bool {
    if rank(a) != rank(b) {
        rank(a) < rank(b)
    } else {
        match (a, b) {
            (FieldView::Int(x), FieldView::Int(y)) => x < y,
            (FieldView::Str(s), FieldView::Str(t)) => bytes_lt(encode_utf8(s), encode_utf8(t)),
            (FieldView::Decimal(n1, d1), FieldView::Decimal(n2, d2)) => d1 > 0 && d2 > 0 && n1 * d2 < n2 * d1,
            _ => false,
        }
    }
}

pub proof fn lemma_bytes_lt_transitive(a: Seq<u8>, b: Seq<u8>, c: Seq<u8>)
    requires
        bytes_lt(a, b),
        bytes_lt(b, c),
    ensures
        bytes_lt(a, c),
    decreases a.len(),
{
    if a.len() > 0 && b.len() > 0 && c.len() > 0 && a[0] == b[0] && b[0] == c[0] {
        lemma_bytes_lt_transitive(a.drop_first(), b.drop_first(), c.drop_first());
    }
}

pub proof fn lemma_bytes_lt_irreflexive(a: Seq<u8>)
    ensures
        !bytes_lt(a, a),
    decreases a.len(),
{
    if a.len() > 0 {
        lemma_bytes_lt_irreflexive(a.drop_first());
    }
}

/// The order on fields is transitive and irreflexive.
pub proof fn lemma_field_lt_order(a: FieldView, b: FieldView, c: FieldView)
    ensures
        !field_lt(a, a),
        field_lt(a, b) && field_lt(b, c) ==> field_lt(a, c),
{
    if let FieldView::Str(s) = a {
        lemma_bytes_lt_irreflexive(encode_utf8(s));
    }
    if field_lt(a, b) && field_lt(b, c) && rank(a) == rank(b) && rank(b) == rank(c) {
        match (a, b, c) {
            (FieldView::Str(s), FieldView::Str(t), FieldView::Str(u)) => {
                lemma_bytes_lt_transitive(encode_utf8(s), encode_utf8(t), encode_utf8(u));
            },
            (FieldView::Decimal(n1, d1), FieldView::Decimal(n2, d2), FieldView::Decimal(n3, d3)) => {
                let (n1, d1, n2, d2, n3, d3) = (n1 as int, d1 as int, n2 as int, d2 as int, n3 as int, d3 as int);
                assert(n1 * d3 < n3 * d1) by (nonlinear_arith)
                    requires
                        d1 > 0,
                        d2 > 0,
                        d3 > 0,
                        n1 * d2 < n2 * d1,
                        n2 * d3 < n3 * d2,
                {
                    assert(n1 * d2 * d3 < n2 * d1 * d3);
                    assert(n2 * d3 * d1 < n3 * d2 * d1);
                }
            },
            _ => {},
        }
    }
}

proof fn lemma_product_fits(n: int, d: int)
    requires
        i64::MIN <= n <= i64::MAX,
        0 < d <= i64::MAX,
    ensures
        i128::MIN <= n * d <= i128::MAX,
{
    assert(-0x8000_0000_0000_0000 * d <= n * d <= 0x7fff_ffff_ffff_ffff * d) by (nonlinear_arith)
        requires
            -0x8000_0000_0000_0000 <= n <= 0x7fff_ffff_ffff_ffff,
            0 < d,
    ;
    assert(-0x8000_0000_0000_0000 * 0x7fff_ffff_ffff_ffff <= -0x8000_0000_0000_0000 * d) by (nonlinear_arith)
        requires
            0 < d <= 0x7fff_ffff_ffff_ffff,
    ;
    assert(0x7fff_ffff_ffff_ffff * d <= 0x7fff_ffff_ffff_ffff * 0x7fff_ffff_ffff_ffff) by (nonlinear_arith)
        requires
            0 < d <= 0x7fff_ffff_ffff_ffff,
    ;
}

fn bytes_less(a: &[u8], b: &[u8]) -> (r: bool)
    ensures
        r == bytes_lt(a@, b@),
{
    let mut i: usize = 0;
    assert(a@.skip(0) =~= a@);
    assert(b@.skip(0) =~= b@);
    while i < a.len() && i < b.len()
        invariant
            i <= a@.len(),
            i <= b@.len(),
            bytes_lt(a@, b@) == bytes_lt(a@.skip(i as int), b@.skip(i as int)),
        decreases a@.len() - i,
    {
        if a[i] != b[i] {
            return a[i] < b[i];
        }
        proof {
            assert(a@.skip(i as int).drop_first() =~= a@.skip(i + 1));
            assert(b@.skip(i as int).drop_first() =~= b@.skip(i + 1));
        }
        i += 1;
    }
    i < b.len()
}

/// Whether `a` comes before `b` in the order on fields.
pub fn field_less(a: &Field, b: &Field) -> (r: bool)
    ensures
        r == field_lt(a@, b@),
{
    match (a, b) {
        (Field::Int(x), Field::Int(y)) => *x < *y,
        (Field::Str(s), Field::Str(t)) => bytes_less(s.as_str().as_bytes(), t.as_str().as_bytes()),
        (Field::Decimal(n1, d1), Field::Decimal(n2, d2)) => {
            if *d1 > 0 && *d2 > 0 {
                proof {
                    lemma_product_fits(*n1 as int, *d2 as int);
                    lemma_product_fits(*n2 as int, *d1 as int);
                }
                let l = (*n1 as i128) * (*d2 as i128);
                let r = (*n2 as i128) * (*d1 as i128);
                l < r
            } else {
                false
            }
        },
        _ => {
            let ra: u8 = match a {
                Field::Null => 0,
                Field::Int(_) => 1,
                Field::Decimal(_, _) => 2,
                Field::Str(_) => 3,
            };
            let rb: u8 = match b {
                Field::Null => 0,
                Field::Int(_) => 1,
                Field::Decimal(_, _) => 2,
                Field::Str(_) => 3,
            };
            ra < rb
        },
    }
}

/// The comparison in a join predicate.
#[derive(Clone, Copy, Debug, PartialEq, Eq, Structural)]
pub enum BooleanOp {
    Eq,
    Ne,
    Lt,
    Le,
    Gt,
    Ge,
}

pub open spec fn compare_spec(op: BooleanOp, a: FieldView, b: FieldView) -> bool {
    match op {
        BooleanOp::Eq => canon(a) == canon(b),
        BooleanOp::Ne => canon(a) != canon(b),
        BooleanOp::Lt => field_lt(a, b),
        BooleanOp::Le => field_lt(a, b) || canon(a) == canon(b),
        BooleanOp::Gt => field_lt(b, a),
        BooleanOp::Ge => field_lt(b, a) || canon(a) == canon(b),
    }
}

/// Whether `a op b` holds.
pub fn compare_fields(op: BooleanOp, a: &Field, b: &Field) -> (r: bool)
    ensures
        r == compare_spec(op, a@, b@),
{
    match op {
        BooleanOp::Eq => a.same_as(b),
        BooleanOp::Ne => !a.same_as(b),
        BooleanOp::Lt => field_less(a, b),
        BooleanOp::Le => field_less(a, b) || a.same_as(b),
        BooleanOp::Gt => field_less(b, a),
        BooleanOp::Ge => field_less(b, a) || a.same_as(b),
    }
}

/// The sum of two integer fields, when it fits in an `i64`; none otherwise.
pub open spec fn add_spec(a: FieldView, b: FieldView) -> Option<FieldView> {
    match (a, b) {
        (FieldView::Int(x), FieldView::Int(y)) => if i64::MIN <= x + y <= i64::MAX {
            Some(FieldView::Int((x + y) as i64))
        } else {
            None
        },
        _ => None,
    }
}

pub fn add_fields(a: &Field, b: &Field) -> (r: Option<Field>)
    ensures
        r matches Some(f) ==> add_spec(a@, b@) == Some(f@),
        r is None ==> add_spec(a@, b@) is None,
{
    match (a, b) {
        (Field::Int(x), Field::Int(y)) => match x.checked_add(*y) {
            Some(s) => Some(Field::Int(s)),
            None => None,
        },
        _ => None,
    }
}

/// An ordered sequence of fields.
#[derive(Debug)]
pub struct Tuple {
    pub field_vals: Vec<Field>,
}

pub open spec fn fields_view(fs: Seq<Field>) -> Seq<FieldView> {
    fs.map_values(|f: Field| f@)
}

impl View for Tuple {
    type V = Seq<FieldView>;

    open spec fn view(&self) -> Seq<FieldView> {
        fields_view(self.field_vals@)
    }
}

impl Tuple {
    pub fn new(field_vals: Vec<Field>) -> (t: Tuple)
        ensures
            t@ == fields_view(field_vals@),
    {
        Tuple { field_vals }
    }

    pub fn size(&self) -> (r: usize)
        ensures
            r == self@.len(),
    {
        self.field_vals.len()
    }

    pub fn get_field(&self, i: usize) -> (r: Option<&Field>)
        ensures
            r matches Some(f) ==> i < self@.len() && f@ == self@[i as int],
            r is None ==> i >= self@.len(),
    {
        if i < self.field_vals.len() {
            Some(&self.field_vals[i])
        } else {
            None
        }
    }

    /// A tuple with the same fields.
    pub fn copy_tuple(&self) -> (r: Tuple)
        ensures
            r@ == self@,
    {
        let mut out: Vec<Field> = Vec::new();
        let mut i: usize = 0;
        while i < self.field_vals.len()
            invariant
                i <= self.field_vals@.len(),
                out@.len() == i,
                fields_view(out@) == self@.take(i as int),
            decreases self.field_vals@.len() - i,
        {
            let f = self.field_vals[i].copy_field();
            let ghost before = out@;
            out.push(f);
            proof {
                assert(out@ == before.push(f));
                assert(fields_view(out@)[i as int] == f@);
            }
            i += 1;
            assert(fields_view(out@) =~= self@.take(i as int));
        }
        assert(self@.take(i as int) =~= self@);
        Tuple { field_vals: out }
    }

    /// This tuple's fields followed by those of `other`.
    pub fn merge(&self, other: &Tuple) -> (r: Tuple)
        ensures
            r@ == self@ + other@,
    {
        let mut out: Vec<Field> = Vec::new();
        let mut i: usize = 0;
        while i < self.field_vals.len()
            invariant
                i <= self.field_vals@.len(),
                out@.len() == i,
                fields_view(out@) == self@.take(i as int),
            decreases self.field_vals@.len() - i,
        {
            let f = self.field_vals[i].copy_field();
            let ghost before = out@;
            out.push(f);
            proof {
                assert(out@ == before.push(f));
                assert(fields_view(out@)[i as int] == f@);
            }
            i += 1;
            assert(fields_view(out@) =~= self@.take(i as int));
        }
        let mut j: usize = 0;
        while j < other.field_vals.len()
            invariant
                i == self@.len(),
                j <= other.field_vals@.len(),
                out@.len() == i + j,
                fields_view(out@) == self@ + other@.take(j as int),
            decreases other.field_vals@.len() - j,
        {
            let f = other.field_vals[j].copy_field();
            let ghost before = out@;
            out.push(f);
            proof {
                assert(out@ == before.push(f));
                assert(fields_view(out@)[i + j] == f@);
                assert(f@ == other@[j as int]);
                assert forall|k: int| 0 <= k < i + j implies #[trigger] fields_view(out@)[k] == fields_view(before)[k] by {
                    assert(out@[k] == before[k]);
                }
            }
            j += 1;
            assert(fields_view(out@) =~= self@ + other@.take(j as int));
        }
        assert(other@.take(j as int) =~= other@);
        Tuple { field_vals: out }
    }
}

/// An expression over the fields of a tuple.
#[derive(Debug)]
pub enum Expr {
    /// The field at this index; null past the end of the tuple.
    Column(usize),
    Literal(Field),
    /// The sum of two integer values; null when it is undefined.
    Add(Box<Expr>, Box<Expr>),
}

pub open spec fn eval_spec(e: Expr, t: Seq<FieldView>) -> FieldView
    decreases e,
{
    match e {
        Expr::Column(i) => if i < t.len() {
            t[i as int]
        } else {
            FieldView::Null
        },
        Expr::Literal(f) => f@,
        Expr::Add(a, b) => match add_spec(eval_spec(*a, t), eval_spec(*b, t)) {
            Some(v) => v,
            None => FieldView::Null,
        },
    }
}

impl Expr {
    /// The value of this expression on `t`.
    pub fn eval(&self, t: &Tuple) -> (r: Field)
        ensures
            r@ == eval_spec(*self, t@),
        decreases self,
    {
        match self {
            Expr::Column(i) => match t.get_field(*i) {
                Some(f) => f.copy_field(),
                None => Field::Null,
            },
            Expr::Literal(f) => f.copy_field(),
            Expr::Add(a, b) => {
                let x = a.eval(t);
                let y = b.eval(t);
                match add_fields(&x, &y) {
                    Some(v) => v,
                    None => Field::Null,
                }
            },
        }
    }
}

/// Names of the columns of an operator's output.
#[derive(Debug)]
pub struct TableSchema {
    pub columns: Vec<String>,
}

} // verus!
