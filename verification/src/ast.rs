//! Binary-expression trees, operators, precedence and associativity.

use vstd::prelude::*;

verus! {

/// An expression: an identifier leaf, a numeric leaf holding its literal
/// text verbatim, or a binary operation owning both operands.
#[derive(Debug)]
pub enum Expr {
    Ident(Ident),
    Num(Num),
    Bin(BinExpr),
}

#[derive(Debug)]
pub struct Ident {
    pub name: String,
}

#[derive(Debug)]
pub struct Num {
    pub value: String,
}

#[derive(Debug)]
pub struct BinExpr {
    pub op: BinOp,
    pub left: Box<Expr>,
    pub right: Box<Expr>,
}

/// The mathematical shape of an expression: the same tree with its leaf
/// texts as character sequences.
pub enum SpecExpr {
    Ident { name: Seq<char> },
    Num { value: Seq<char> },
    Bin { op: BinOp, left: Box<SpecExpr>, right: Box<SpecExpr> },
}

impl Expr {
    /// The tree this expression represents.
    pub open spec fn deep(self) -> SpecExpr
        decreases self,
    {
        match self {
            Expr::Ident(i) => SpecExpr::Ident { name: i.name@ },
            Expr::Num(v) => SpecExpr::Num { value: v.value@ },
            Expr::Bin(b) => SpecExpr::Bin {
                op: b.op,
                left: Box::new((*b.left).deep()),
                right: Box::new((*b.right).deep()),
            },
        }
    }
}

impl BinExpr {
    pub fn new(op: BinOp, left: Expr, right: Expr) -> (r: Self)
        ensures
            r.op == op,
            *r.left == left,
            *r.right == right,
    {
        Self { op, left: Box::new(left), right: Box::new(right) }
    }
}

/// A binary operator.
#[derive(Debug, Clone, Copy, PartialEq, Eq, Structural)]
pub enum BinOp {
    Add,
    Sub,
    Mul,
    Div,
    Mod,
}

impl BinOp {
    /// The precedence level of this operator.
    pub open spec fn spec_prec(self) -> Prec {
        match self {
            BinOp::Add | BinOp::Sub => Prec::Add,
            BinOp::Mul | BinOp::Div | BinOp::Mod => Prec::Mul,
        }
    }

    pub fn prec(&self) -> (p: Prec)
        ensures
            p == self.spec_prec(),
    {
        match self {
            BinOp::Add | BinOp::Sub => Prec::Add,
            BinOp::Mul | BinOp::Div | BinOp::Mod => Prec::Mul,
        }
    }

    /// Every operator currently groups left-to-right.
    pub open spec fn spec_assoc(self) -> Assoc {
        Assoc::Left
    }

    pub fn assoc(&self) -> (a: Assoc)
        ensures
            a == self.spec_assoc(),
    {
        match self {
            _ => Assoc::Left,
        }
    }
}

/// A precedence level; `Min` binds loosest, `Max` tightest.
#[derive(Debug, Clone, Copy, PartialEq, Eq, PartialOrd, Ord, Structural)]
pub enum Prec {
    Min,
    Add,
    Mul,
    Max,
}

impl Prec {
    /// The level's place in the order.
    pub open spec fn rank(self) -> int {
        match self {
            Prec::Min => 0,
            Prec::Add => 1,
            Prec::Mul => 2,
            Prec::Max => 3,
        }
    }

    /// The next tighter level, with `Max` its own successor.
    pub open spec fn spec_next(self) -> Prec {
        match self {
            Prec::Min => Prec::Add,
            Prec::Add => Prec::Mul,
            Prec::Mul => Prec::Max,
            Prec::Max => Prec::Max,
        }
    }

    pub fn next(&self) -> (p: Prec)
        ensures
            p == self.spec_next(),
    {
        match self {
            Prec::Min => Prec::Add,
            Prec::Add => Prec::Mul,
            Prec::Mul => Prec::Max,
            Prec::Max => Prec::Max,
        }
    }

    /// Whether this level binds strictly looser than `other`.
    pub fn lt(&self, other: &Prec) -> (r: bool)
        ensures
            r == (self.rank() < other.rank()),
    {
        self.rank_u32() < other.rank_u32()
    }

    fn rank_u32(&self) -> (r: u32)
        ensures
            r == self.rank(),
    {
        match self {
            Prec::Min => 0,
            Prec::Add => 1,
            Prec::Mul => 2,
            Prec::Max => 3,
        }
    }
}

/// Which side a chain of equal-precedence operators groups towards.
#[derive(Debug, Clone, Copy, PartialEq, Eq, PartialOrd, Ord, Structural)]
pub enum Assoc {
    Left,
    Right,
}

} // verus!
