//! The rewrite engine: one bottom-up sweep of the rules over a tree.
use vstd::prelude::*;
use crate::ast::{Ast, Binary, BinaryOp, Expr, UnaryOp, identity, lemma_models, lemma_models_concat, lemma_models_push, models, nary};
use crate::rules::{FACTORIAL_CEILING, height, max_height, sweep, sweep_all, candidates, chosen, coefficient, coefficients, combine, combine_upto, combined, first_found, found, gathered, matched, needed, taken, de_paren, factorial, fold_constants, fold_literals, fold_step, fold_unary, flatten, is_first, literals, non_literals, power};

verus! {

/// The model of an optional tree.
pub open spec fn opt_model(r: Option<Ast>) -> Option<Expr> {
    match r {
        Some(a) => Some(a@),
        None => None,
    }
}

proof fn lemma_factorial_monotone(a: nat, b: nat)
    requires
        a <= b,
    ensures
        factorial(a) <= factorial(b),
    decreases b,
{
    if a < b {
        lemma_factorial_monotone(a, (b - 1) as nat);
        assert(factorial(b) == b * factorial((b - 1) as nat));
        assert(factorial((b - 1) as nat) >= 1) by {
            lemma_factorial_positive((b - 1) as nat);
        }
        assert(b * factorial((b - 1) as nat) >= factorial((b - 1) as nat)) by (nonlinear_arith)
            requires
                b >= 1,
        ;
    }
}

proof fn lemma_factorial_positive(n: nat)
    ensures
        factorial(n) >= 1,
    decreases n,
{
    if n > 0 {
        lemma_factorial_positive((n - 1) as nat);
        assert(n * factorial((n - 1) as nat) >= 1) by (nonlinear_arith)
            requires
                n >= 1,
                factorial((n - 1) as nat) >= 1,
        ;
    }
}

/// `n!` for an operand within the folding ceiling.
fn factorial_of(n: u64) -> (r: u64)
    requires
        n <= FACTORIAL_CEILING,
    ensures
        r == factorial(n as nat),
{
    proof {
        reveal_with_fuel(factorial, 11);
        assert(factorial(10) == 3628800);
    }
    let mut r: u64 = 1;
    let mut k: u64 = 0;
    while k < n
        invariant
            k <= n <= 10,
            r == factorial(k as nat),
            factorial(10) == 3628800,
        decreases n - k,
    {
        proof {
            lemma_factorial_monotone((k + 1) as nat, 10);
            assert(factorial((k + 1) as nat) == (k + 1) * factorial(k as nat));
            let f = factorial(k as nat);
            assert(r * (k + 1) == (k + 1) * f) by (nonlinear_arith)
                requires
                    r == f,
            ;
        }
        r = r * (k + 1);
        k += 1;
    }
    r
}

proof fn lemma_power_one(e: nat)
    ensures
        power(1, e) == 1,
    decreases e,
{
    if e > 0 {
        lemma_power_one((e - 1) as nat);
    }
}

proof fn lemma_power_monotone(b: nat, a: nat, e: nat)
    requires
        b >= 1,
        a <= e,
    ensures
        power(b, a) <= power(b, e),
    decreases e,
{
    if a < e {
        lemma_power_monotone(b, a, (e - 1) as nat);
        lemma_power_positive(b, (e - 1) as nat);
        let p = power(b, (e - 1) as nat);
        assert(b * p >= p) by (nonlinear_arith)
            requires
                b >= 1,
                p >= 1,
        ;
    }
}

proof fn lemma_power_positive(b: nat, e: nat)
    requires
        b >= 1,
    ensures
        power(b, e) >= 1,
    decreases e,
{
    if e > 0 {
        lemma_power_positive(b, (e - 1) as nat);
        let p = power(b, (e - 1) as nat);
        assert(b * p >= 1) by (nonlinear_arith)
            requires
                b >= 1,
                p >= 1,
        ;
    }
}

/// `b` to the power `e`, where it fits in `u64`.
fn checked_power(b: u64, e: u64) -> (r: Option<u64>)
    ensures
        r == (if power(b as nat, e as nat) <= u64::MAX {
            Some(power(b as nat, e as nat) as u64)
        } else {
            None::<u64>
        }),
{
    if b == 0 {
        if e == 0 {
            return Some(1);
        } else {
            assert(power(0, e as nat) == 0 * power(0, (e - 1) as nat));
            return Some(0);
        }
    }
    if b == 1 {
        proof {
            lemma_power_one(e as nat);
        }
        return Some(1);
    }
    let mut r: u64 = 1;
    let mut k: u64 = 0;
    while k < e
        invariant
            k <= e,
            b >= 2,
            r == power(b as nat, k as nat),
        decreases e - k,
    {
        match r.checked_mul(b) {
            Some(x) => {
                proof {
                    let p = power(b as nat, k as nat);
                    assert(power(b as nat, (k + 1) as nat) == b * p);
                    assert(x == b * p) by (nonlinear_arith)
                        requires
                            x == r * b,
                            r == p,
                    ;
                }
                r = x;
                k += 1;
            },
            None => {
                proof {
                    assert(power(b as nat, (k + 1) as nat) == b * power(b as nat, k as nat));
                    lemma_power_monotone(b as nat, (k + 1) as nat, e as nat);
                }
                return None;
            },
        }
    }
    Some(r)
}

/// One step of the literal fold, where it fits in `u64`.
fn checked_step(op: BinaryOp, acc: u64, v: u64) -> (r: Option<u64>)
    ensures
        r == (if fold_step(op, acc as nat, v as nat) <= u64::MAX {
            Some(fold_step(op, acc as nat, v as nat) as u64)
        } else {
            None::<u64>
        }),
{
    match op {
        BinaryOp::Add => acc.checked_add(v),
        BinaryOp::Mul => acc.checked_mul(v),
        BinaryOp::Pow => checked_power(v, acc),
    }
}

/// `f` is the factor that the term at `i` is combined on, `cs` holds the
/// coefficients gathered for it and `ps` the positions that yielded them.
spec fn picked(s: Seq<Expr>, i: int, pick: (Ast, Vec<Ast>, Vec<usize>)) -> bool {
    &&& chosen(s, i) == Some(pick.0@)
    &&& models(pick.1@) == gathered(s, i, pick.0@)
    &&& forall|m: int|
        0 <= m < pick.2.len() ==> #[trigger] taken(s, i, pick.0@).contains(pick.2@[m] as int)
    &&& forall|j: int|
        #[trigger] taken(s, i, pick.0@).contains(j) ==> exists|m: int|
            0 <= m < pick.2.len() && pick.2@[m] == j
}


proof fn lemma_max_height(s: Seq<Expr>)
    ensures
        forall|k: int| 0 <= k < s.len() ==> height(#[trigger] s[k]) <= max_height(s),
    decreases s.len(),
{
    if s.len() > 0 {
        let t = s.subrange(0, s.len() - 1);
        lemma_max_height(t);
        assert forall|k: int| 0 <= k < s.len() implies height(#[trigger] s[k]) <= max_height(s) by {
            if k < s.len() - 1 {
                assert(s[k] == t[k]);
            }
        }
    }
}

proof fn lemma_max_height_attained(s: Seq<Expr>)
    ensures
        max_height(s) == 0 || exists|k: int| 0 <= k < s.len() && height(#[trigger] s[k]) == max_height(s),
    decreases s.len(),
{
    if s.len() > 0 {
        let t = s.subrange(0, s.len() - 1);
        lemma_max_height_attained(t);
        if max_height(t) != 0 && max_height(s) == max_height(t) {
            let k = choose|k: int| 0 <= k < t.len() && height(#[trigger] t[k]) == max_height(t);
            assert(s[k] == t[k]);
        }
    }
}

/// Deepest recursion that a sweep may reach.
pub const DEPTH_LIMIT: usize = 32;

pub struct Simplifier;

impl Simplifier {
    /// Simplifies a tree with one sweep. The tree's operator nodes may be
    /// nested at most `DEPTH_LIMIT` levels deep.
    pub fn run(ast: Ast) -> (r: Ast)
        requires
            height(ast@) <= DEPTH_LIMIT,
        ensures
            r@ == sweep(ast@),
    {
        Self::run_once(ast, 0)
    }

    /// Whether the tree's operator nodes are nested at most `budget` levels
    /// deep, counting the level of its leaves (see `height`).
    pub fn fits_depth(ast: &Ast, budget: usize) -> (r: bool)
        ensures
            r == (height(ast@) <= budget),
        decreases ast,
    {
        match ast {
            Ast::Binary(b) => {
                if budget == 0 {
                    return false;
                }
                let ghost m = models(b.operands@);
                proof {
                    lemma_models(b.operands@);
                    lemma_max_height(m);
                    lemma_max_height_attained(m);
                }
                let mut i: usize = 0;
                while i < b.operands.len()
                    invariant
                        *ast == Ast::Binary(*b),
                        budget >= 1,
                        i <= b.operands.len(),
                        m == models(b.operands@),
                        m.len() == b.operands.len(),
                        forall|k: int| 0 <= k < m.len() ==> #[trigger] m[k] == b.operands@[k]@,
                        forall|k: int| 0 <= k < i ==> height(#[trigger] m[k]) <= budget - 1,
                    decreases b.operands.len() - i,
                {
                    proof {
                        assert(decreases_to!(*ast => ast->Binary_0));
                        assert(decreases_to!(ast->Binary_0 => ast->Binary_0.operands));
                        assert(decreases_to!(ast->Binary_0.operands => b.operands[i as int]));
                    }
                    if !Self::fits_depth(&b.operands[i], budget - 1) {
                        proof {
                            lemma_max_height(m);
                            assert(height(m[i as int]) > budget - 1);
                            assert(ast@ == Expr::Nary(b.operator, m));
                        }
                        return false;
                    }
                    i += 1;
                }
                proof {
                    assert(ast@ == Expr::Nary(b.operator, m));
                    if max_height(m) != 0 {
                        let k = choose|k: int| 0 <= k < m.len() && height(#[trigger] m[k]) == max_height(m);
                        assert(height(m[k]) <= budget - 1);
                    }
                }
                true
            },
            _ => budget >= 1,
        }
    }

    /// Simplifies a tree with one sweep where its nesting is within
    /// `DEPTH_LIMIT`; `None` where the sweep would go deeper.
    pub fn try_run(ast: Ast) -> (r: Option<Ast>)
        ensures
            r is Some <==> height(ast@) <= DEPTH_LIMIT,
            r is Some ==> r->0@ == sweep(ast@),
    {
        if Self::fits_depth(&ast, DEPTH_LIMIT) {
            Some(Self::run(ast))
        } else {
            None
        }
    }

    /// Sweeps each operand of an operator node, rebuilding the node with
    /// the results in order; other trees are returned as they are.
    pub fn recurse(ast: Ast, depth: usize) -> (r: Ast)
        requires
            depth + height(ast@) <= DEPTH_LIMIT,
        ensures
            r@ == (match ast@ {
                Expr::Nary(op, s) => nary(op, sweep_all(s)),
                _ => ast@,
            }),
        decreases DEPTH_LIMIT - depth, 0nat,
    {
        match ast {
            Ast::Binary(b) => {
                let operator = b.operator;
                let mut rest = b.operands;
                let ghost orig = rest@;
                let ghost m = models(orig);
                proof {
                    lemma_models(orig);
                    lemma_max_height(m);
                }
                let mut out: Vec<Ast> = Vec::new();
                let n = rest.len();
                let mut j: usize = 0;
                while j < n
                    invariant
                        n == orig.len(),
                        j <= orig.len(),
                        m == models(orig),
                        m.len() == orig.len(),
                        forall|k: int| 0 <= k < m.len() ==> #[trigger] m[k] == orig[k]@,
                        forall|k: int| 0 <= k < m.len() ==> height(#[trigger] m[k]) <= max_height(m),
                        depth + 1 + max_height(m) <= DEPTH_LIMIT,
                        rest@ == orig.subrange(j as int, orig.len() as int),
                        models(out@) == sweep_all(m.subrange(0, j as int)),
                    decreases n - j,
                {
                    let c = rest.remove(0);
                    proof {
                        assert(orig.subrange(j as int, orig.len() as int).remove(0) =~= orig.subrange(
                            j + 1,
                            orig.len() as int,
                        ));
                        assert(m.subrange(0, j + 1).subrange(0, j as int) =~= m.subrange(0, j as int));
                        assert(c@ == m[j as int]);
                    }
                    let d = Self::run_once(c, depth + 1);
                    proof {
                        lemma_models_push(out@, d);
                    }
                    out.push(d);
                    j += 1;
                }
                assert(m.subrange(0, j as int) =~= m);
                Binary { operator, operands: out }.build()
            },
            other => other,
        }
    }

    /// One sweep at the given recursion depth: operands first, then
    /// flattening, like-term combination and the two constant folds.
    pub fn run_once(ast: Ast, depth: usize) -> (r: Ast)
        requires
            depth + height(ast@) <= DEPTH_LIMIT,
        ensures
            r@ == sweep(ast@),
        decreases DEPTH_LIMIT - depth, 1nat,
    {
        let ast = Self::recurse(ast, depth);
        let ast = Self::de_paren(ast, depth);
        let ast = Self::combine_terms(ast, depth);
        let ast = Self::unary_num_ops(ast, depth);
        Self::binary_num_ops(ast, depth)
    }

    /// Collapses a factorial of a literal within the ceiling into its value.
    pub fn unary_num_ops(ast: Ast, _depth: usize) -> (r: Ast)
        ensures
            r@ == fold_unary(ast@),
    {
        if let Ast::Unary(u) = &ast {
            if let Ast::Num(n) = &*u.operand {
                assert(u.operand@ == Expr::Num(*n));
                if u.operator == UnaryOp::Fac && *n <= FACTORIAL_CEILING {
                    proof {
                        lemma_factorial_monotone(*n as nat, 10);
                        reveal_with_fuel(factorial, 11);
                        assert(factorial(10) == 3628800);
                    }
                    return Ast::Num(factorial_of(*n));
                }
            }
        }
        ast
    }

    /// Folds the literal operands of an operator node into one literal
    /// (see `fold_constants`).
    pub fn binary_num_ops(ast: Ast, _depth: usize) -> (r: Ast)
        ensures
            r@ == fold_constants(ast@),
    {
        match ast {
            Ast::Binary(b) => {
                let operator = b.operator;
                let ghost m = models(b.operands@);
                proof {
                    lemma_models(b.operands@);
                }
                let mut acc: Option<u64> = Some(
                    match operator {
                        BinaryOp::Add => 0,
                        BinaryOp::Mul => 1,
                        BinaryOp::Pow => 1,
                    },
                );
                let mut i: usize = 0;
                while i < b.operands.len()
                    invariant
                        i <= b.operands.len(),
                        m == models(b.operands@),
                        m.len() == b.operands.len(),
                        forall|k: int| 0 <= k < m.len() ==> #[trigger] m[k] == b.operands@[k]@,
                        acc == fold_literals(operator, literals(m.subrange(0, i as int))),
                    decreases b.operands.len() - i,
                {
                    proof {
                        assert(m.subrange(0, i + 1).drop_last() =~= m.subrange(0, i as int));
                    }
                    if let Ast::Num(v) = &b.operands[i] {
                        proof {
                            let l = literals(m.subrange(0, i as int));
                            assert(m[i as int] == Expr::Num(*v));
                            assert(literals(m.subrange(0, i + 1)) == l.push(*v));
                            assert(l.push(*v).drop_last() =~= l);
                        }
                        if let Some(a) = acc {
                            acc = checked_step(operator, a, *v);
                        }
                    }
                    i += 1;
                }
                assert(m.subrange(0, i as int) =~= m);
                match acc {
                    None => Ast::Binary(b),
                    Some(a) => {
                        let mut rest = b.operands;
                        let mut kept: Vec<Ast> = Vec::new();
                        let ghost orig = rest@;
                        let n = rest.len();
                        let mut j: usize = 0;
                        while j < n
                            invariant
                                n == orig.len(),
                                j <= orig.len(),
                                m == models(orig),
                                m.len() == orig.len(),
                                forall|k: int| 0 <= k < m.len() ==> #[trigger] m[k] == orig[k]@,
                                rest@ == orig.subrange(j as int, orig.len() as int),
                                models(kept@) == non_literals(m.subrange(0, j as int)),
                            decreases orig.len() - j,
                        {
                            proof {
                                assert(m.subrange(0, j + 1).drop_last() =~= m.subrange(
                                    0,
                                    j as int,
                                ));
                            }
                            let c = rest.remove(0);
                            proof {
                                assert(orig.subrange(j as int, orig.len() as int).remove(0)
                                    =~= orig.subrange(j + 1, orig.len() as int));
                            }
                            match c {
                                Ast::Num(_) => {},
                                other => {
                                    proof {
                                        lemma_models_push(kept@, other);
                                    }
                                    kept.push(other);
                                },
                            }
                            j += 1;
                        }
                        assert(m.subrange(0, j as int) =~= m);
                        if a != identity_of(operator) {
                            proof {
                                lemma_models_push(kept@, Ast::Num(a));
                            }
                            kept.push(Ast::Num(a));
                        }
                        Binary { operator, operands: kept }.build()
                    },
                }
            },
            other => other,
        }
    }

    /// Takes the factor `looking_for` out of `term` (see `coefficient`).
    pub fn term_factor_coeff(term: &Ast, looking_for: &Ast) -> (r: Option<Ast>)
        ensures
            opt_model(r) == coefficient(term@, looking_for@),
    {
        match term {
            Ast::Binary(b) => {
                let ghost m = models(b.operands@);
                let ghost f = looking_for@;
                proof {
                    lemma_models(b.operands@);
                }
                let mut rest: Vec<Ast> = Vec::new();
                let mut found = false;
                let ghost mut at: int = 0;
                let mut i: usize = 0;
                while i < b.operands.len()
                    invariant
                        i <= b.operands.len(),
                        m == models(b.operands@),
                        f == looking_for@,
                        m.len() == b.operands.len(),
                        forall|k: int| 0 <= k < m.len() ==> #[trigger] m[k] == b.operands@[k]@,
                        !found ==> forall|k: int| 0 <= k < i ==> m[k] != f,
                        !found ==> models(rest@) == m.subrange(0, i as int),
                        found ==> at < i && is_first(m, f, at),
                        found ==> models(rest@) == m.subrange(0, i as int).remove(at),
                    decreases b.operands.len() - i,
                {
                    if !found && b.operands[i].structural_eq(looking_for) {
                        found = true;
                        proof {
                            at = i as int;
                            assert(m.subrange(0, i + 1).remove(at) =~= m.subrange(0, i as int));
                        }
                    } else {
                        let c = b.operands[i].clone();
                        proof {
                            lemma_models_push(rest@, c);
                            if found {
                                assert(m.subrange(0, i + 1).remove(at) =~= m.subrange(
                                    0,
                                    i as int,
                                ).remove(at).push(m[i as int]));
                            } else {
                                assert(m.subrange(0, i + 1) =~= m.subrange(0, i as int).push(
                                    m[i as int],
                                ));
                            }
                        }
                        rest.push(c);
                    }
                    i += 1;
                }
                assert(m.subrange(0, i as int) =~= m);
                if found {
                    proof {
                        let c = choose|k: int| is_first(m, f, k);
                        assert(is_first(m, f, c));
                        assert(c == at);
                    }
                    Some(Binary { operator: b.operator, operands: rest }.build())
                } else {
                    None
                }
            },
            _ => {
                if term.structural_eq(looking_for) {
                    Some(Ast::Num(1))
                } else {
                    None
                }
            },
        }
    }

    /// The coefficients of `f` in the terms from position `lo` on, and the
    /// positions that yielded them.
    fn gather(terms: &Vec<Ast>, f: &Ast, lo: usize) -> (r: (Vec<Ast>, Vec<usize>))
        requires
            lo <= terms.len(),
        ensures
            models(r.0@) == coefficients(models(terms@), f@, lo as int, terms.len() as int),
            forall|m: int|
                0 <= m < r.1.len() ==> #[trigger] matched(models(terms@), f@, lo as int).contains(
                    r.1@[m] as int,
                ),
            forall|j: int|
                #[trigger] matched(models(terms@), f@, lo as int).contains(j) ==> exists|m: int|
                    0 <= m < r.1.len() && r.1@[m] == j,
    {
        let ghost s = models(terms@);
        proof {
            lemma_models(terms@);
        }
        let mut cs: Vec<Ast> = Vec::new();
        let mut ps: Vec<usize> = Vec::new();
        let mut j: usize = lo;
        while j < terms.len()
            invariant
                lo <= j <= terms.len(),
                s == models(terms@),
                s.len() == terms.len(),
                forall|k: int| 0 <= k < s.len() ==> #[trigger] s[k] == terms@[k]@,
                models(cs@) == coefficients(s, f@, lo as int, j as int),
                forall|m: int|
                    0 <= m < ps.len() ==> lo <= #[trigger] ps@[m] < j && coefficient(
                        s[ps@[m] as int],
                        f@,
                    ) is Some,
                forall|k: int|
                    lo <= k < j && coefficient(s[k], f@) is Some ==> exists|m: int|
                        0 <= m < ps.len() && ps@[m] == k,
            decreases terms.len() - j,
        {
            let ghost old_ps = ps@;
            match Self::term_factor_coeff(&terms[j], f) {
                Some(c) => {
                    proof {
                        lemma_models_push(cs@, c);
                    }
                    cs.push(c);
                    ps.push(j);
                    assert(ps@[ps.len() - 1] == j);
                },
                None => {},
            }
            proof {
                assert forall|k: int|
                    lo <= k < j + 1 && coefficient(s[k], f@) is Some implies exists|m: int|
                        0 <= m < ps.len() && ps@[m] == k by {
                    if k == j {
                        assert(ps@[ps.len() - 1] == k);
                    } else {
                        let m0 = choose|m: int| 0 <= m < old_ps.len() && old_ps[m] == k;
                        assert(ps@[m0] == k);
                    }
                }
            }
            j += 1;
        }
        (cs, ps)
    }

    /// Merges the terms of a sum that share a factor into one product of the
    /// factor and the sum of their coefficients (see `combine`). Every term
    /// that is not a product is kept; a product whose factors occur in no
    /// later term is left out of the result.
    pub fn combine_terms(ast: Ast, depth: usize) -> (r: Ast)
        ensures
            r@ == combine(ast@),
    {
        let b = match ast {
            Ast::Binary(b) => b,
            other => {
                return other;
            },
        };
        if b.operator != BinaryOp::Add {
            return Ast::Binary(b);
        }
        let terms = &b.operands;
        let n = terms.len();
        let ghost s = models(terms@);
        proof {
            lemma_models(terms@);
        }
        let mut consumed: Vec<bool> = Vec::new();
        while consumed.len() < n
            invariant
                consumed.len() <= n,
                forall|j: int| 0 <= j < consumed.len() ==> !consumed@[j],
            decreases n - consumed.len(),
        {
            consumed.push(false);
        }
        let mut new_terms: Vec<Ast> = Vec::new();
        let mut i: usize = 0;
        while i < n
            invariant
                i <= n == terms.len() == consumed.len(),
                s == models(terms@),
                s.len() == n,
                forall|k: int| 0 <= k < n ==> #[trigger] s[k] == terms@[k]@,
                forall|j: int|
                    0 <= j < n ==> consumed@[j] == #[trigger] combine_upto(s, i as nat).0.contains(
                        j,
                    ),
                models(new_terms@) == combine_upto(s, i as nat).1,
            decreases n - i,
        {
            if !consumed[i] {
                let t = &terms[i];
                let mut pick: Option<(Ast, Vec<Ast>, Vec<usize>)> = None;
                match t {
                    Ast::Binary(tb) if tb.operator == BinaryOp::Mul => {
                        let ghost fs = models(tb.operands@);
                        proof {
                            lemma_models(tb.operands@);
                            assert(candidates(s[i as int]) == fs);
                            assert(needed(s[i as int]) == 2);
                        }
                        let mut k: usize = 0;
                        while k < tb.operands.len()
                            invariant_except_break
                                pick is None,
                                forall|q: int| 0 <= q < k ==> !found(s, i as int, q),
                            invariant
                                k <= tb.operands.len(),
                                i < n == terms.len(),
                                s == models(terms@),
                                s.len() == n,
                                forall|q: int| 0 <= q < n ==> #[trigger] s[q] == terms@[q]@,
                                fs == models(tb.operands@),
                                fs.len() == tb.operands.len(),
                                forall|q: int| 0 <= q < fs.len() ==> #[trigger] fs[q] == tb.operands@[q]@,
                                candidates(s[i as int]) == fs,
                                needed(s[i as int]) == 2,
                            ensures
                                pick is None ==> forall|q: int|
                                    0 <= q < fs.len() ==> !found(s, i as int, q),
                                pick is Some ==> picked(s, i as int, pick->0),
                            decreases tb.operands.len() - k,
                        {
                            let (cs, ps) = Self::gather(terms, &tb.operands[k], i);
                            proof {
                                lemma_models(cs@);
                            }
                            if cs.len() >= 2 {
                                let f = tb.operands[k].clone();
                                proof {
                                    assert(found(s, i as int, k as int));
                                    assert(first_found(s, i as int, k as int));
                                    let c = choose|q: int| first_found(s, i as int, q);
                                    assert(first_found(s, i as int, c));
                                    assert(c == k);
                                }
                                assert(chosen(s, i as int) == Some(f@));
                                assert(gathered(s, i as int, f@) == coefficients(s, f@, i as int, n as int));
                                assert(taken(s, i as int, f@) == matched(s, f@, i as int));
                                assert(models(cs@) == coefficients(s, f@, i as int, n as int));
                                assert(forall|m: int|
                                    0 <= m < ps.len() ==> #[trigger] matched(s, f@, i as int).contains(
                                        ps@[m] as int,
                                    ));
                                assert(forall|j: int|
                                    #[trigger] matched(s, f@, i as int).contains(j) ==> exists|m: int|
                                        0 <= m < ps.len() && ps@[m] == j);
                                pick = Some((f, cs, ps));
                                assert(picked(s, i as int, pick->0));
                                break;
                            }
                            k += 1;
                        }
                        proof {
                            if pick is None {
                                assert(!exists|q: int| first_found(s, i as int, q));
                            }
                        }
                    },
                    _ => {
                        proof {
                            assert(candidates(s[i as int]) == seq![t@]);
                            assert(needed(s[i as int]) == 1);
                        }
                        let (later, later_ps) = Self::gather(terms, t, i + 1);
                        let mut cs: Vec<Ast> = Vec::new();
                        cs.push(Ast::Num(1));
                        let mut ps: Vec<usize> = Vec::new();
                        ps.push(i);
                        let ghost cs0 = cs@;
                        let ghost ps0 = ps@;
                        let ghost lps = later_ps@;
                        let mut later = later;
                        let mut later_ps = later_ps;
                        proof {
                            lemma_models(cs0);
                            assert(models(cs0) =~= seq![Expr::Num(1)]);
                            lemma_models_concat(cs0, later@);
                        }
                        cs.append(&mut later);
                        ps.append(&mut later_ps);
                        let f = t.clone();
                        proof {
                            let g = gathered(s, i as int, f@);
                            assert(g == seq![Expr::Num(1)] + coefficients(s, f@, i + 1, n as int));
                            assert(models(cs@) == g);
                            assert(found(s, i as int, 0));
                            assert(first_found(s, i as int, 0));
                            let c = choose|q: int| first_found(s, i as int, q);
                            assert(first_found(s, i as int, c));
                            assert(c == 0);
                            assert(chosen(s, i as int) == Some(f@));
                            let tk = taken(s, i as int, f@);
                            assert(tk == matched(s, f@, i + 1).insert(i as int));
                            assert(ps@ == ps0 + lps);
                            assert forall|m: int| 0 <= m < ps.len() implies #[trigger] tk.contains(
                                ps@[m] as int,
                            ) by {
                                if m > 0 {
                                    assert(ps@[m] == lps[m - 1]);
                                    assert(matched(s, f@, i + 1).contains(lps[m - 1] as int));
                                }
                            }
                            assert forall|j: int| #[trigger] tk.contains(j) implies exists|m: int|
                                0 <= m < ps.len() && ps@[m] == j by {
                                if j == i {
                                    assert(ps@[0] == j);
                                } else {
                                    assert(matched(s, f@, i + 1).contains(j));
                                    let m0 = choose|m: int| 0 <= m < lps.len() && lps[m] == j;
                                    assert(ps@[m0 + 1] == j);
                                }
                            }
                        }
                        assert(chosen(s, i as int) == Some(f@));
                        assert(models(cs@) == gathered(s, i as int, f@));
                        assert(forall|m: int|
                            0 <= m < ps.len() ==> #[trigger] taken(s, i as int, f@).contains(
                                ps@[m] as int,
                            ));
                        assert(forall|j: int|
                            #[trigger] taken(s, i as int, f@).contains(j) ==> exists|m: int|
                                0 <= m < ps.len() && ps@[m] == j);
                        let ghost psv = ps@;
                        let ghost csv = cs@;
                        let ghost fv = f@;
                        pick = Some((f, cs, ps));
                        proof {
                            let pk = pick->0;
                            assert(pk.2@ == psv);
                            assert(pk.1@ == csv);
                            assert(pk.0@ == fv);
                        }
                        assert(picked(s, i as int, pick->0));
                    },
                }
                match pick {
                    None => {},
                    Some((f, cs, ps)) => {
                        let ghost before = consumed@;
                        let ghost st = combine_upto(s, i as nat);
                        let ghost gath = gathered(s, i as int, f@);
                        proof {
                            assert(chosen(s, i as int) == Some(f@));
                            assert(forall|q: int|
                                0 <= q < ps.len() ==> #[trigger] taken(s, i as int, f@).contains(
                                    ps@[q] as int,
                                ));
                            assert(!st.0.contains(i as int));
                            assert(combine_upto(s, (i + 1) as nat) == (
                                st.0.union(taken(s, i as int, f@)),
                                st.1.push(combined(f@, gath)),
                            ));
                        }
                        assert forall|q: int| 0 <= q < ps.len() implies #[trigger] ps@[q] < n by {
                            assert(taken(s, i as int, f@).contains(ps@[q] as int));
                        }
                        let ghost mut marked: Set<int> = Set::empty();
                        assert(consumed@ =~= Seq::new(n as nat, |j: int| before[j] || marked.contains(j)));
                        let mut m: usize = 0;
                        while m < ps.len()
                            invariant
                                m <= ps.len(),
                                consumed.len() == n,
                                before.len() == n,
                                forall|q: int| 0 <= q < ps.len() ==> #[trigger] ps@[q] < n,
                                forall|q: int| 0 <= q < m ==> marked.contains(#[trigger] ps@[q] as int),
                                forall|j: int| #[trigger] marked.contains(j) ==> taken(s, i as int, f@).contains(j),
                                forall|q: int|
                                    0 <= q < ps.len() ==> #[trigger] taken(s, i as int, f@).contains(
                                        ps@[q] as int,
                                    ),
                                consumed@ == Seq::new(n as nat, |j: int| before[j] || marked.contains(j)),
                            decreases ps.len() - m,
                        {
                            let ghost prev = consumed@;
                            let ghost pm = marked;
                            let p = ps[m];
                            consumed.set(p, true);
                            proof {
                                marked = marked.insert(p as int);
                                assert(consumed@ == prev.update(p as int, true));
                                assert(consumed@ =~= Seq::new(
                                    n as nat,
                                    |j: int| before[j] || marked.contains(j),
                                ));
                            }
                            m += 1;
                        }
                        proof {
                            assert forall|j: int| 0 <= j < n implies consumed@[j]
                                == #[trigger] combine_upto(s, (i + 1) as nat).0.contains(j) by {
                                assert(before[j] == combine_upto(s, i as nat).0.contains(j));
                                if taken(s, i as int, f@).contains(j) {
                                    let q0 = choose|q: int| 0 <= q < ps.len() && ps@[q] == j;
                                    assert(marked.contains(ps@[q0] as int));
                                }
                            }
                        }
                        let coeff = Self::binary_num_ops(
                            Binary { operator: BinaryOp::Add, operands: cs }.build(),
                            depth,
                        );
                        let is_one = match &coeff {
                            Ast::Num(v) => *v == 1,
                            _ => false,
                        };
                        assert(is_one == (coeff@ == Expr::Num(1)));
                        let ghost cm = coeff@;
                        let term = if is_one {
                            f
                        } else {
                            let node = Binary::new(BinaryOp::Mul).with(coeff).with(f);
                            proof {
                                lemma_models(node.operands@);
                                assert(models(node.operands@) =~= seq![cm, f@]);
                            }
                            node.build()
                        };
                        assert(term@ == combined(f@, gath));
                        proof {
                            lemma_models_push(new_terms@, term);
                        }
                        new_terms.push(term);
                    },
                }
            }
            i += 1;
        }
        Binary { operator: BinaryOp::Add, operands: new_terms }.build()
    }

    /// Splices operands that are nodes of the same operator into their parent
    /// (see `de_paren`).
    pub fn de_paren(ast: Ast, _depth: usize) -> (r: Ast)
        ensures
            r@ == de_paren(ast@),
    {
        match ast {
            Ast::Binary(b) => {
                let operator = b.operator;
                let mut rest = b.operands;
                let ghost orig = rest@;
                let ghost m = models(orig);
                proof {
                    lemma_models(orig);
                }
                let mut out: Vec<Ast> = Vec::new();
                let n = rest.len();
                let mut j: usize = 0;
                while j < n
                    invariant
                        n == orig.len(),
                        j <= orig.len(),
                        m == models(orig),
                        m.len() == orig.len(),
                        forall|k: int| 0 <= k < m.len() ==> #[trigger] m[k] == orig[k]@,
                        rest@ == orig.subrange(j as int, orig.len() as int),
                        models(out@) == flatten(operator, m.subrange(0, j as int)),
                    decreases orig.len() - j,
                {
                    proof {
                        assert(m.subrange(0, j + 1).drop_last() =~= m.subrange(0, j as int));
                    }
                    let c = rest.remove(0);
                    proof {
                        assert(orig.subrange(j as int, orig.len() as int).remove(0) =~= orig.subrange(
                            j + 1,
                            orig.len() as int,
                        ));
                    }
                    match c {
                        Ast::Binary(cb) => {
                            if cb.operator == operator {
                                let mut ops = cb.operands;
                                proof {
                                    lemma_models_concat(out@, ops@);
                                }
                                out.append(&mut ops);
                            } else {
                                let c2 = Ast::Binary(cb);
                                proof {
                                    lemma_models_push(out@, c2);
                                    assert(seq![c2@] =~= seq![m[j as int]]);
                                }
                                out.push(c2);
                            }
                        },
                        other => {
                            proof {
                                lemma_models_push(out@, other);
                            }
                            out.push(other);
                        },
                    }
                    j += 1;
                }
                assert(m.subrange(0, j as int) =~= m);
                Binary { operator, operands: out }.build()
            },
            other => other,
        }
    }
}

/// The identity value of an operator.
fn identity_of(op: BinaryOp) -> (r: u64)
    ensures
        r == identity(op),
{
    match op {
        BinaryOp::Add => 0,
        BinaryOp::Mul => 1,
        BinaryOp::Pow => 1,
    }
}

} // verus!
