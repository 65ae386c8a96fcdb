//! Constraint expressions over the cells of a trace row.

use vstd::prelude::*;

verus! {

/// A polynomial expression over the cells of one row and of the rows that its
/// shifts reach.
#[derive(Debug)]
pub enum Expr {
    /// The constant one.
    One,
    /// The binary-polynomial cell of this row in the given column.
    UpBinary(usize),
    /// The integer cell of this row in the given column.
    UpInt(usize),
    /// The binary-polynomial cell that the shift at the given position of the
    /// shift list reaches from this row.
    DownBinary(usize),
    /// A sum.
    Add(Box<Expr>, Box<Expr>),
    /// A difference.
    Sub(Box<Expr>, Box<Expr>),
    /// A product.
    Mul(Box<Expr>, Box<Expr>),
}

/// A demand on the cells that an expression reads.
#[derive(Debug)]
pub enum Constraint {
    /// The expression is the zero polynomial.
    Zero(Expr),
    /// The expression lies in the ideal of `X - 2`: it vanishes at two.
    InBaseTwoIdeal(Expr),
}

/// The cells that the constraints of one row read.
pub ghost struct Row {
    pub up: Seq<u32>,
    pub int: Seq<i64>,
    pub down: Seq<u32>,
}

/// The value at `x` of the polynomial whose coefficients are the bits of `c`.
pub open spec fn bits_at(c: int, x: int) -> int
    decreases c,
{
    if c <= 0 {
        0
    } else {
        c % 2 + x * bits_at(c / 2, x)
    }
}

/// The value at `x` of an expression, on the cells of a row.
pub open spec fn eval(e: Expr, row: Row, x: int) -> int
    decreases e,
{
    match e {
        Expr::One => 1,
        Expr::UpBinary(c) => bits_at(row.up[c as int] as int, x),
        Expr::UpInt(c) => row.int[c as int] as int,
        Expr::DownBinary(k) => bits_at(row.down[k as int] as int, x),
        Expr::Add(a, b) => eval(*a, row, x) + eval(*b, row, x),
        Expr::Sub(a, b) => eval(*a, row, x) - eval(*b, row, x),
        Expr::Mul(a, b) => eval(*a, row, x) * eval(*b, row, x),
    }
}

/// The degree of an expression in the cells that it reads.
pub open spec fn degree(e: Expr) -> nat
    decreases e,
{
    match e {
        Expr::One => 0,
        Expr::UpBinary(_) => 1,
        Expr::UpInt(_) => 1,
        Expr::DownBinary(_) => 1,
        Expr::Add(a, b) => if degree(*a) < degree(*b) {
            degree(*b)
        } else {
            degree(*a)
        },
        Expr::Sub(a, b) => if degree(*a) < degree(*b) {
            degree(*b)
        } else {
            degree(*a)
        },
        Expr::Mul(a, b) => degree(*a) + degree(*b),
    }
}

/// The expression vanishes identically on the cells of a row.
pub open spec fn is_zero(e: Expr, row: Row) -> bool {
    forall|x: int| #[trigger] eval(e, row, x) == 0
}

/// The cells of a row meet a constraint.
pub open spec fn holds(c: Constraint, row: Row) -> bool {
    match c {
        Constraint::Zero(e) => is_zero(e, row),
        Constraint::InBaseTwoIdeal(e) => eval(e, row, 2) == 0,
    }
}

/// The cells of a row meet all constraints.
pub open spec fn all_hold(cs: Seq<Constraint>, row: Row) -> bool {
    forall|i: int| 0 <= i < cs.len() ==> holds(#[trigger] cs[i], row)
}

/// The bits of a number, read in base two, are the number.
pub proof fn lemma_bits_at_two(c: int)
    requires
        c >= 0,
    ensures
        bits_at(c, 2) == c,
    decreases c,
{
    if c > 0 {
        lemma_bits_at_two(c / 2);
    }
}

/// Zero and one are constant polynomials.
pub proof fn lemma_constant_bits(x: int)
    ensures
        bits_at(0, x) == 0,
        bits_at(1, x) == 1,
{
    reveal_with_fuel(bits_at, 2);
    assert(x * 0 == 0);
}

/// The constant one.
pub fn one() -> (e: Expr)
    ensures
        forall|row: Row, x: int| #[trigger] eval(e, row, x) == 1,
        degree(e) == 0,
{
    Expr::One
}

/// The binary-polynomial cell of this row in column `c`.
pub fn up_binary(c: usize) -> (e: Expr)
    ensures
        forall|row: Row, x: int| #[trigger]
            eval(e, row, x) == bits_at(row.up[c as int] as int, x),
        degree(e) == 1,
{
    Expr::UpBinary(c)
}

/// The integer cell of this row in column `c`.
pub fn up_int(c: usize) -> (e: Expr)
    ensures
        forall|row: Row, x: int| #[trigger] eval(e, row, x) == row.int[c as int],
        degree(e) == 1,
{
    Expr::UpInt(c)
}

/// The binary-polynomial cell that shift `k` reaches.
pub fn down_binary(k: usize) -> (e: Expr)
    ensures
        forall|row: Row, x: int| #[trigger]
            eval(e, row, x) == bits_at(row.down[k as int] as int, x),
        degree(e) == 1,
{
    Expr::DownBinary(k)
}

/// `a + b`.
pub fn plus(a: Expr, b: Expr) -> (e: Expr)
    ensures
        forall|row: Row, x: int| #[trigger]
            eval(e, row, x) == eval(a, row, x) + eval(b, row, x),
        degree(e) == if degree(a) < degree(b) {
            degree(b)
        } else {
            degree(a)
        },
{
    Expr::Add(Box::new(a), Box::new(b))
}

/// `a - b`.
pub fn minus(a: Expr, b: Expr) -> (e: Expr)
    ensures
        forall|row: Row, x: int| #[trigger]
            eval(e, row, x) == eval(a, row, x) - eval(b, row, x),
        degree(e) == if degree(a) < degree(b) {
            degree(b)
        } else {
            degree(a)
        },
{
    Expr::Sub(Box::new(a), Box::new(b))
}

/// `a * b`.
pub fn times(a: Expr, b: Expr) -> (e: Expr)
    ensures
        forall|row: Row, x: int| #[trigger]
            eval(e, row, x) == eval(a, row, x) * eval(b, row, x),
        degree(e) == degree(a) + degree(b),
{
    Expr::Mul(Box::new(a), Box::new(b))
}

} // verus!
