//! What each rewrite rule does, stated over the model `Expr`.
use vstd::prelude::*;
use crate::ast::{BinaryOp, Expr, UnaryOp, identity, nary};

verus! {

// ---- associative flattening ----

/// What a child contributes when its parent, of operator `op`, is flattened:
/// its own operands if it is a node of the same operator, else itself.
pub open spec fn spliced(op: BinaryOp, c: Expr) -> Seq<Expr> {
    match c {
        Expr::Nary(o, cs) => if o == op {
            cs
        } else {
            seq![c]
        },
        _ => seq![c],
    }
}

/// The children `s` of a node of operator `op`, with each same-operator child
/// spliced in place (one level).
pub open spec fn flatten(op: BinaryOp, s: Seq<Expr>) -> Seq<Expr>
    decreases s.len(),
{
    if s.len() == 0 {
        Seq::empty()
    } else {
        flatten(op, s.drop_last()) + spliced(op, s.last())
    }
}

pub open spec fn de_paren(e: Expr) -> Expr {
    match e {
        Expr::Nary(op, s) => nary(op, flatten(op, s)),
        _ => e,
    }
}

// ---- coefficient extraction ----

/// `i` is the position of the first element of `s` equal to `f`.
pub open spec fn is_first(s: Seq<Expr>, f: Expr, i: int) -> bool {
    &&& 0 <= i < s.len()
    &&& s[i] == f
    &&& forall|j: int| 0 <= j < i ==> s[j] != f
}

/// What is left of `term` once the factor `f` is taken out of it: for an
/// operator node, the node without its first child equal to `f`; for any
/// other term equal to `f`, the literal 1; otherwise nothing.
pub open spec fn coefficient(term: Expr, f: Expr) -> Option<Expr> {
    match term {
        Expr::Nary(op, s) => if exists|i: int| is_first(s, f, i) {
            Some(nary(op, s.remove(choose|i: int| is_first(s, f, i))))
        } else {
            None
        },
        _ => if term == f {
            Some(Expr::Num(1))
        } else {
            None
        },
    }
}

// ---- constant folding ----

pub open spec fn factorial(n: nat) -> nat
    decreases n,
{
    if n == 0 {
        1
    } else {
        n * factorial((n - 1) as nat)
    }
}

/// Largest operand that a factorial is folded for.
pub const FACTORIAL_CEILING: u64 = 10;

pub open spec fn fold_unary(e: Expr) -> Expr {
    match e {
        Expr::Unary(UnaryOp::Fac, c) => match *c {
            Expr::Num(n) => if n <= FACTORIAL_CEILING {
                Expr::Num(factorial(n as nat) as u64)
            } else {
                e
            },
            _ => e,
        },
        _ => e,
    }
}

pub open spec fn power(b: nat, e: nat) -> nat
    decreases e,
{
    if e == 0 {
        1
    } else {
        b * power(b, (e - 1) as nat)
    }
}

/// One step of the literal fold: sum, product, or the literal raised to the
/// power of what was folded so far.
pub open spec fn fold_step(op: BinaryOp, acc: nat, v: nat) -> nat {
    match op {
        BinaryOp::Add => acc + v,
        BinaryOp::Mul => acc * v,
        BinaryOp::Pow => power(v, acc),
    }
}

/// The fold of the literals `lits`, in order, from the operator's identity;
/// `None` where a step leaves the range of `u64`.
pub open spec fn fold_literals(op: BinaryOp, lits: Seq<u64>) -> Option<u64>
    decreases lits.len(),
{
    if lits.len() == 0 {
        Some(identity(op))
    } else {
        match fold_literals(op, lits.drop_last()) {
            None => None,
            Some(acc) => {
                let r = fold_step(op, acc as nat, lits.last() as nat);
                if r <= u64::MAX {
                    Some(r as u64)
                } else {
                    None
                }
            },
        }
    }
}

/// The literal numbers among `s`, in order.
pub open spec fn literals(s: Seq<Expr>) -> Seq<u64>
    decreases s.len(),
{
    if s.len() == 0 {
        Seq::empty()
    } else {
        match s.last() {
            Expr::Num(n) => literals(s.drop_last()).push(n),
            _ => literals(s.drop_last()),
        }
    }
}

/// The elements of `s` that are not literal numbers, in order.
pub open spec fn non_literals(s: Seq<Expr>) -> Seq<Expr>
    decreases s.len(),
{
    if s.len() == 0 {
        Seq::empty()
    } else {
        match s.last() {
            Expr::Num(n) => non_literals(s.drop_last()),
            _ => non_literals(s.drop_last()).push(s.last()),
        }
    }
}

/// An operator node with its literal operands folded into one literal, placed
/// last and left out when it equals the identity. A fold that leaves the
/// range of `u64` leaves the node as it is.
pub open spec fn fold_constants(e: Expr) -> Expr {
    match e {
        Expr::Nary(op, s) => match fold_literals(op, literals(s)) {
            None => e,
            Some(acc) => if acc != identity(op) {
                nary(op, non_literals(s).push(Expr::Num(acc)))
            } else {
                nary(op, non_literals(s))
            },
        },
        _ => e,
    }
}

// ---- like-term combination ----

/// The factors tried for a term: the children of a product, else the term.
pub open spec fn candidates(t: Expr) -> Seq<Expr> {
    match t {
        Expr::Nary(BinaryOp::Mul, fs) => fs,
        _ => seq![t],
    }
}

/// How many terms must yield a coefficient for a factor of `t` to be kept:
/// a product needs a partner besides itself.
pub open spec fn needed(t: Expr) -> nat {
    match t {
        Expr::Nary(BinaryOp::Mul, _) => 2,
        _ => 1,
    }
}

/// The coefficients of `f` in the terms at positions `lo..hi`, in order.
pub open spec fn coefficients(terms: Seq<Expr>, f: Expr, lo: int, hi: int) -> Seq<Expr>
    decreases hi - lo,
{
    if hi <= lo {
        Seq::empty()
    } else {
        let prev = coefficients(terms, f, lo, hi - 1);
        match coefficient(terms[hi - 1], f) {
            Some(c) => prev.push(c),
            None => prev,
        }
    }
}

/// The positions from `lo` on whose term yields a coefficient for `f`.
pub open spec fn matched(terms: Seq<Expr>, f: Expr, lo: int) -> Set<int> {
    Set::new(|j: int| lo <= j < terms.len() && coefficient(terms[j], f) is Some)
}

/// The coefficients gathered for factor `f` of the term at `i`. A product
/// yields its own coefficient by extraction; any other term is the factor
/// itself and yields 1 for its own position. Later terms yield theirs by
/// extraction.
pub open spec fn gathered(terms: Seq<Expr>, i: int, f: Expr) -> Seq<Expr> {
    match terms[i] {
        Expr::Nary(BinaryOp::Mul, _) => coefficients(terms, f, i, terms.len() as int),
        _ => seq![Expr::Num(1)] + coefficients(terms, f, i + 1, terms.len() as int),
    }
}

/// The positions consumed when the term at `i` is combined on factor `f`.
pub open spec fn taken(terms: Seq<Expr>, i: int, f: Expr) -> Set<int> {
    match terms[i] {
        Expr::Nary(BinaryOp::Mul, _) => matched(terms, f, i),
        _ => matched(terms, f, i + 1).insert(i),
    }
}

/// The `k`-th factor of the term at `i` is found in enough terms from `i` on.
pub open spec fn found(terms: Seq<Expr>, i: int, k: int) -> bool {
    let c = candidates(terms[i]);
    &&& 0 <= k < c.len()
    &&& gathered(terms, i, c[k]).len() >= needed(terms[i])
}

/// The `k`-th factor of the term at `i` is the first one found.
pub open spec fn first_found(terms: Seq<Expr>, i: int, k: int) -> bool {
    found(terms, i, k) && forall|m: int| 0 <= m < k ==> !found(terms, i, m)
}

/// The factor that the term at `i` is combined on, if any.
pub open spec fn chosen(terms: Seq<Expr>, i: int) -> Option<Expr> {
    if exists|k: int| first_found(terms, i, k) {
        Some(candidates(terms[i])[choose|k: int| first_found(terms, i, k)])
    } else {
        None
    }
}

/// The term emitted for factor `f` and the coefficients gathered for it.
pub open spec fn combined(f: Expr, cs: Seq<Expr>) -> Expr {
    let c = fold_constants(nary(BinaryOp::Add, cs));
    if c == Expr::Num(1) {
        f
    } else {
        nary(BinaryOp::Mul, seq![c, f])
    }
}

/// The consumed positions and the emitted terms after the first `i` terms.
pub open spec fn combine_upto(terms: Seq<Expr>, i: nat) -> (Set<int>, Seq<Expr>)
    decreases i,
{
    if i == 0 {
        (Set::empty(), Seq::empty())
    } else {
        let (consumed, out) = combine_upto(terms, (i - 1) as nat);
        let p = i - 1;
        if consumed.contains(p) {
            (consumed, out)
        } else {
            match chosen(terms, p) {
                None => (consumed, out),
                Some(f) => (
                    consumed.union(taken(terms, p, f)),
                    out.push(combined(f, gathered(terms, p, f))),
                ),
            }
        }
    }
}

pub open spec fn combine(e: Expr) -> Expr {
    match e {
        Expr::Nary(BinaryOp::Add, s) => nary(BinaryOp::Add, combine_upto(s, s.len()).1),
        _ => e,
    }
}

// ---- the sweep ----

/// One bottom-up sweep: operands of operator nodes first, then the four rules.
pub open spec fn sweep(e: Expr) -> Expr
    decreases e,
{
    let d = match e {
        Expr::Nary(op, s) => nary(op, sweep_all(s)),
        _ => e,
    };
    fold_constants(fold_unary(combine(de_paren(d))))
}

pub open spec fn sweep_all(s: Seq<Expr>) -> Seq<Expr>
    decreases s,
{
    if s.len() == 0 {
        Seq::empty()
    } else {
        sweep_all(s.subrange(0, s.len() - 1)).push(sweep(s[s.len() - 1]))
    }
}

/// Levels of operator nodes that a sweep descends through, counting the node.
pub open spec fn height(e: Expr) -> nat
    decreases e,
{
    match e {
        Expr::Nary(_, s) => 1 + max_height(s),
        _ => 1,
    }
}

pub open spec fn max_height(s: Seq<Expr>) -> nat
    decreases s,
{
    if s.len() == 0 {
        0
    } else {
        let a = max_height(s.subrange(0, s.len() - 1));
        let b = height(s[s.len() - 1]);
        if a >= b {
            a
        } else {
            b
        }
    }
}

} // verus!
