//! The expression tree and its mathematical model.
use vstd::prelude::*;

verus! {

/// Operators that take an ordered list of operands.
#[derive(PartialEq, Eq, Structural, Clone, Copy, Debug)]
pub enum BinaryOp {
    Add,
    Mul,
    Pow,
}

/// Operators that take one operand.
#[derive(PartialEq, Eq, Structural, Clone, Copy, Debug)]
pub enum UnaryOp {
    Fac,
}

/// An operator applied to an ordered, possibly empty, list of operands.
#[derive(PartialEq, Eq, Debug)]
pub struct Binary {
    pub operator: BinaryOp,
    pub operands: Vec<Ast>,
}

/// An operator applied to exactly one operand.
#[derive(PartialEq, Eq, Debug)]
pub struct Unary {
    pub operator: UnaryOp,
    pub operand: Box<Ast>,
}

/// An expression tree.
#[derive(PartialEq, Eq, Debug)]
pub enum Ast {
    Num(u64),
    Var(String),
    Unary(Unary),
    Binary(Binary),
}

/// The mathematical model of an expression tree: names become character
/// sequences and operand lists become sequences.
pub enum Expr {
    Num(u64),
    Var(Seq<char>),
    Unary(UnaryOp, Box<Expr>),
    Nary(BinaryOp, Seq<Expr>),
}

impl Ast {
    pub open spec fn model(self) -> Expr
        decreases self,
    {
        match self {
            Ast::Num(n) => Expr::Num(n),
            Ast::Var(s) => Expr::Var(s@),
            Ast::Unary(u) => Expr::Unary(u.operator, Box::new(u.operand.model())),
            Ast::Binary(b) => Expr::Nary(b.operator, models(b.operands@)),
        }
    }
}

/// The models of a sequence of trees, element by element.
pub open spec fn models(s: Seq<Ast>) -> Seq<Expr>
    decreases s,
{
    if s.len() == 0 {
        Seq::empty()
    } else {
        models(s.subrange(0, s.len() - 1)).push(s[s.len() - 1].model())
    }
}

impl View for Ast {
    type V = Expr;

    open spec fn view(&self) -> Expr {
        self.model()
    }
}

pub proof fn lemma_models(s: Seq<Ast>)
    ensures
        models(s).len() == s.len(),
        forall|i: int| 0 <= i < s.len() ==> #[trigger] models(s)[i] == s[i]@,
    decreases s.len(),
{
    if s.len() > 0 {
        lemma_models(s.subrange(0, s.len() - 1));
    }
}

impl Ast {
    /// Structural equality: same variant, operator, value or name, and
    /// element-wise equal operands in the same order.
    pub fn structural_eq(&self, other: &Ast) -> (r: bool)
        ensures
            r == (self@ == other@),
        decreases self,
    {
        match self {
            Ast::Num(a) => match other {
                Ast::Num(b) => *a == *b,
                _ => false,
            },
            Ast::Var(a) => match other {
                Ast::Var(b) => a.eq(b),
                _ => false,
            },
            Ast::Unary(a) => match other {
                Ast::Unary(b) => a.operator == b.operator && a.operand.structural_eq(&b.operand),
                _ => false,
            },
            Ast::Binary(a) => match other {
                Ast::Binary(b) => {
                    proof {
                        lemma_models(a.operands@);
                        lemma_models(b.operands@);
                    }
                    if a.operator != b.operator || a.operands.len() != b.operands.len() {
                        return false;
                    }
                    let mut i: usize = 0;
                    while i < a.operands.len()
                        invariant
                            *self == Ast::Binary(*a),
                            *other == Ast::Binary(*b),
                            i <= a.operands.len() == b.operands.len(),
                            a.operator == b.operator,
                            models(a.operands@).len() == a.operands.len(),
                            models(b.operands@).len() == b.operands.len(),
                            forall|k: int|
                                0 <= k < a.operands.len() ==> #[trigger] models(a.operands@)[k]
                                    == a.operands@[k]@,
                            forall|k: int|
                                0 <= k < b.operands.len() ==> #[trigger] models(b.operands@)[k]
                                    == b.operands@[k]@,
                            forall|k: int| 0 <= k < i ==> a.operands@[k]@ == b.operands@[k]@,
                        decreases a.operands.len() - i,
                    {
                        proof {
                            assert(decreases_to!(*self => self->Binary_0));
                            assert(decreases_to!(self->Binary_0 => self->Binary_0.operands));
                            assert(decreases_to!(a.operands => a.operands[i as int]));
                            assert(decreases_to!(*self => a.operands[i as int]));
                        }
                        if !a.operands[i].structural_eq(&b.operands[i]) {
                            assert(models(a.operands@)[i as int] != models(b.operands@)[i as int]);
                            return false;
                        }
                        i += 1;
                    }
                    assert(models(a.operands@) =~= models(b.operands@));
                    true
                },
                _ => false,
            },
        }
    }
}

/// The identity value of an operator: what a node of it with no operands stands for.
pub open spec fn identity(op: BinaryOp) -> u64 {
    match op {
        BinaryOp::Add => 0,
        BinaryOp::Mul => 1,
        BinaryOp::Pow => 1,
    }
}

/// The node that an operator and its operands build: with no operands it is
/// the operator's identity value, with one it is that operand itself.
pub open spec fn nary(op: BinaryOp, s: Seq<Expr>) -> Expr {
    if s.len() == 0 {
        Expr::Num(identity(op))
    } else if s.len() == 1 {
        s[0]
    } else {
        Expr::Nary(op, s)
    }
}

pub proof fn lemma_models_push(s: Seq<Ast>, a: Ast)
    ensures
        models(s.push(a)) == models(s).push(a@),
{
    lemma_models(s);
    lemma_models(s.push(a));
    assert(models(s.push(a)) =~= models(s).push(a@));
}

pub proof fn lemma_models_concat(s: Seq<Ast>, t: Seq<Ast>)
    ensures
        models(s + t) == models(s) + models(t),
{
    lemma_models(s);
    lemma_models(t);
    lemma_models(s + t);
    assert(models(s + t) =~= models(s) + models(t));
}

impl Clone for Ast {
    fn clone(&self) -> (r: Self)
        ensures
            r@ == self@,
        decreases self,
    {
        match self {
            Ast::Num(n) => Ast::Num(*n),
            Ast::Var(s) => Ast::Var(s.clone()),
            Ast::Unary(u) => Ast::Unary(
                Unary { operator: u.operator, operand: Box::new((&*u.operand).clone()) },
            ),
            Ast::Binary(b) => {
                let mut v: Vec<Ast> = Vec::new();
                let mut i: usize = 0;
                while i < b.operands.len()
                    invariant
                        *self == Ast::Binary(*b),
                        i <= b.operands.len(),
                        models(v@) == models(b.operands@.subrange(0, i as int)),
                    decreases b.operands.len() - i,
                {
                    proof {
                        assert(decreases_to!(*self => self->Binary_0));
                        assert(decreases_to!(self->Binary_0 => self->Binary_0.operands));
                        assert(decreases_to!(self->Binary_0.operands => b.operands[i as int]));
                    }
                    let c = b.operands[i].clone();
                    proof {
                        lemma_models_push(v@, c);
                        assert(b.operands@.subrange(0, i + 1) =~= b.operands@.subrange(
                            0,
                            i as int,
                        ).push(b.operands@[i as int]));
                        lemma_models_push(b.operands@.subrange(0, i as int), b.operands@[i as int]);
                    }
                    v.push(c);
                    i += 1;
                }
                assert(b.operands@.subrange(0, i as int) =~= b.operands@);
                Ast::Binary(Binary { operator: b.operator, operands: v })
            },
        }
    }
}

impl Binary {
    /// A node of the operator with no operands yet.
    pub fn new(operator: BinaryOp) -> (r: Binary)
        ensures
            r.operator == operator,
            r.operands@.len() == 0,
    {
        Binary { operator, operands: Vec::new() }
    }

    /// The node with one more operand, appended last.
    pub fn with(self, operand: Ast) -> (r: Binary)
        ensures
            r.operator == self.operator,
            r.operands@ == self.operands@.push(operand),
    {
        let mut operands = self.operands;
        operands.push(operand);
        Binary { operator: self.operator, operands }
    }

    /// The tree that the node stands for (see `nary`).
    pub fn build(self) -> (r: Ast)
        ensures
            r@ == nary(self.operator, models(self.operands@)),
    {
        proof {
            lemma_models(self.operands@);
        }
        let mut operands = self.operands;
        if operands.len() == 0 {
            match self.operator {
                BinaryOp::Add => Ast::Num(0),
                BinaryOp::Mul => Ast::Num(1),
                BinaryOp::Pow => Ast::Num(1),
            }
        } else if operands.len() == 1 {
            operands.pop().unwrap()
        } else {
            Ast::Binary(Binary { operator: self.operator, operands })
        }
    }
}

} // verus!
