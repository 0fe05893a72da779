//! Properties of the rewrite rules, proved over the model.
use vstd::prelude::*;
use crate::ast::{BinaryOp, Expr, UnaryOp, identity, nary};
use crate::rules::{
    FACTORIAL_CEILING, fold_literals, fold_step, literals, non_literals, sweep, sweep_all, power,
    de_paren, flatten, fold_constants, spliced, candidates, chosen, coefficient, coefficients, combine, combine_upto, combined, first_found,
    found, gathered, matched, needed, taken,
};

verus! {

/// Some factor tried for `a` can be taken out of `b`.
pub open spec fn factor_of_in(a: Expr, b: Expr) -> bool {
    exists|m: int| 0 <= m < candidates(a).len() && (#[trigger] coefficient(b, candidates(a)[m])) is Some
}

/// Two terms share a factor when a factor tried for either one can be taken
/// out of the other.
pub open spec fn shares_factor(a: Expr, b: Expr) -> bool {
    factor_of_in(a, b) || factor_of_in(b, a)
}

/// Positions of `s` and of `s` without position `i` correspond.
spec fn shifted(a: Set<int>, b: Set<int>, i: int) -> bool {
    &&& forall|j: int| 0 <= j < i ==> #[trigger] a.contains(j) == b.contains(j)
    &&& forall|j: int| j > i ==> #[trigger] a.contains(j) == b.contains(j - 1)
}

proof fn lemma_first_found_unique(s: Seq<Expr>, k: int, a: int, b: int)
    requires
        first_found(s, k, a),
        first_found(s, k, b),
    ensures
        a == b,
{
    if a < b {
        assert(!found(s, k, a));
    } else if b < a {
        assert(!found(s, k, b));
    }
}

/// Two positions whose factors are found alike choose alike.
proof fn lemma_chosen_alike(s: Seq<Expr>, k: int, t: Seq<Expr>, p: int)
    requires
        0 <= k < s.len(),
        0 <= p < t.len(),
        candidates(s[k]) == candidates(t[p]),
        forall|q: int| found(s, k, q) == found(t, p, q),
    ensures
        chosen(s, k) == chosen(t, p),
{
    assert forall|q: int| first_found(s, k, q) == first_found(t, p, q) by {
        if first_found(s, k, q) {
            assert forall|m: int| 0 <= m < q implies !found(t, p, m) by {
                assert(!found(s, k, m));
            }
        }
        if first_found(t, p, q) {
            assert forall|m: int| 0 <= m < q implies !found(s, k, m) by {
                assert(!found(t, p, m));
            }
        }
    }
    if exists|q: int| first_found(s, k, q) {
        let a = choose|q: int| first_found(s, k, q);
        let b = choose|q: int| first_found(t, p, q);
        assert(first_found(t, p, a));
        assert(first_found(s, k, b));
        lemma_first_found_unique(s, k, a, b);
    }
}

/// Coefficients gathered below a removed position are unaffected by it.
proof fn lemma_coefficients_below(s: Seq<Expr>, i: int, g: Expr, lo: int, hi: int)
    requires
        0 <= i < s.len(),
        0 <= lo <= hi <= i,
    ensures
        coefficients(s, g, lo, hi) == coefficients(s.remove(i), g, lo, hi),
    decreases hi - lo,
{
    if lo < hi {
        lemma_coefficients_below(s, i, g, lo, hi - 1);
        assert(s[hi - 1] == s.remove(i)[hi - 1]);
    }
}

/// Coefficients gathered across a removed position that yields none.
proof fn lemma_coefficients_across(s: Seq<Expr>, i: int, g: Expr, lo: int, hi: int)
    requires
        0 <= i < s.len(),
        0 <= lo <= i < hi <= s.len(),
        coefficient(s[i], g) is None,
    ensures
        coefficients(s, g, lo, hi) == coefficients(s.remove(i), g, lo, hi - 1),
    decreases hi - lo,
{
    if hi == i + 1 {
        lemma_coefficients_below(s, i, g, lo, i);
    } else {
        lemma_coefficients_across(s, i, g, lo, hi - 1);
        assert(s[hi - 1] == s.remove(i)[hi - 2]);
    }
}

/// Coefficients gathered above a removed position shift down by one.
proof fn lemma_coefficients_above(s: Seq<Expr>, i: int, g: Expr, lo: int, hi: int)
    requires
        0 <= i < lo <= hi <= s.len(),
    ensures
        coefficients(s, g, lo, hi) == coefficients(s.remove(i), g, lo - 1, hi - 1),
    decreases hi - lo,
{
    if lo < hi {
        lemma_coefficients_above(s, i, g, lo, hi - 1);
        assert(s[hi - 1] == s.remove(i)[hi - 2]);
    }
}

/// A term whose factors occur in no later term gathers at most its own coefficient.
proof fn lemma_coefficients_alone(s: Seq<Expr>, i: int, g: Expr, hi: int)
    requires
        0 <= i < hi <= s.len(),
        forall|j: int| i < j < s.len() ==> coefficient(#[trigger] s[j], g) is None,
    ensures
        coefficients(s, g, i, hi).len() <= 1,
    decreases hi - i,
{
    if hi > i + 1 {
        lemma_coefficients_alone(s, i, g, hi - 1);
        assert(coefficient(s[hi - 1], g) is None);
    } else {
        assert(coefficients(s, g, i, i).len() == 0);
    }
}

/// Gathering for a term below the orphan is unaffected by it.
proof fn lemma_gathered_below(s: Seq<Expr>, i: int, p: int, g: Expr)
    requires
        0 <= p < i < s.len(),
        coefficient(s[i], g) is None,
    ensures
        gathered(s, p, g) == gathered(s.remove(i), p, g),
{
    assert(s[p] == s.remove(i)[p]);
    lemma_coefficients_across(s, i, g, p, s.len() as int);
    lemma_coefficients_across(s, i, g, p + 1, s.len() as int);
}

/// Gathering for a term above the orphan shifts down by one.
proof fn lemma_gathered_above(s: Seq<Expr>, i: int, p: int, g: Expr)
    requires
        0 <= i < p < s.len(),
    ensures
        gathered(s, p, g) == gathered(s.remove(i), p - 1, g),
{
    assert(s[p] == s.remove(i)[p - 1]);
    lemma_coefficients_above(s, i, g, p, s.len() as int);
    lemma_coefficients_above(s, i, g, p + 1, s.len() as int);
}

/// Before the orphan's position, the sweeps with and without it agree.
proof fn lemma_before_orphan(s: Seq<Expr>, i: int, k: nat)
    requires
        0 <= i < s.len(),
        k <= i,
        forall|j: int|
            0 <= j < s.len() && j != i ==> !factor_of_in(#[trigger] s[j], s[i]),
    ensures
        combine_upto(s, k).1 == combine_upto(s.remove(i), k).1,
        shifted(combine_upto(s, k).0, combine_upto(s.remove(i), k).0, i),
        !combine_upto(s, k).0.contains(i),
    decreases k,
{
    let t = s.remove(i);
    let n = s.len() as int;
    if k > 0 {
        let p = k - 1;
        lemma_before_orphan(s, i, (k - 1) as nat);
        let (sc, so) = combine_upto(s, (k - 1) as nat);
        let (tc, to) = combine_upto(t, (k - 1) as nat);
        assert(s[p] == t[p]);
        assert(sc.contains(p) == tc.contains(p));
        if !sc.contains(p) {
            let c = candidates(s[p]);
            assert forall|q: int| 0 <= q < c.len() implies coefficient(s[i], #[trigger] c[q]) is None by {
                if coefficient(s[i], c[q]) is Some {
                    assert(factor_of_in(s[p], s[i]));
                }
            }
            assert forall|q: int| found(s, p, q) == found(t, p, q) by {
                if 0 <= q < c.len() {
                    lemma_gathered_below(s, i, p, c[q]);
                }
            }
            lemma_chosen_alike(s, p, t, p);
            if chosen(s, p) is Some {
                let q = choose|q: int| first_found(s, p, q);
                let f = c[q];
                assert(coefficient(s[i], f) is None);
                lemma_gathered_below(s, i, p, f);
                assert(taken(s, p, f).contains(i) == false);
                assert forall|j: int| 0 <= j < i implies #[trigger] taken(s, p, f).contains(j)
                    == taken(t, p, f).contains(j) by {
                    assert(s[j] == t[j]);
                }
                assert forall|j: int| j > i implies #[trigger] taken(s, p, f).contains(j)
                    == taken(t, p, f).contains(j - 1) by {
                    if j < n {
                        assert(s[j] == t[j - 1]);
                    }
                }
            }
        }
    }
}

/// From the orphan's position on, the sweep with it runs one position ahead
/// of the sweep without it, with the same output.
proof fn lemma_after_orphan(s: Seq<Expr>, i: int, k: nat)
    requires
        0 <= i <= k < s.len(),
        s[i] matches Expr::Nary(BinaryOp::Mul, _),
        forall|j: int| 0 <= j < s.len() && j != i ==> !shares_factor(s[i], #[trigger] s[j]),
    ensures
        combine_upto(s, k + 1).1 == combine_upto(s.remove(i), k).1,
        shifted(combine_upto(s, k + 1).0, combine_upto(s.remove(i), k).0, i),
    decreases k,
{
    let t = s.remove(i);
    let n = s.len() as int;
    if k == i {
        assert forall|j: int| 0 <= j < s.len() && j != i implies !factor_of_in(#[trigger] s[j], s[i]) by {
            assert(!shares_factor(s[i], s[j]));
        }
        lemma_before_orphan(s, i, i as nat);
        let c = candidates(s[i]);
        assert(needed(s[i]) == 2);
        assert forall|q: int| !found(s, i, q) by {
            if 0 <= q < c.len() {
                assert forall|j: int| i < j < s.len() implies coefficient(#[trigger] s[j], c[q]) is None by {
                    assert(!shares_factor(s[i], s[j]));
                    if coefficient(s[j], c[q]) is Some {
                        assert(factor_of_in(s[i], s[j]));
                    }
                }
                lemma_coefficients_alone(s, i, c[q], n);
                assert(gathered(s, i, c[q]) == coefficients(s, c[q], i, n));
            }
        }
        assert(!exists|q: int| first_found(s, i, q));
    } else {
        lemma_after_orphan(s, i, (k - 1) as nat);
        let p = k as int;
        let (sc, so) = combine_upto(s, k);
        let (tc, to) = combine_upto(t, (k - 1) as nat);
        assert(s[p] == t[p - 1]);
        assert(sc.contains(p) == tc.contains(p - 1));
        if !sc.contains(p) {
            let c = candidates(s[p]);
            assert forall|q: int| found(s, p, q) == found(t, p - 1, q) by {
                if 0 <= q < c.len() {
                    lemma_gathered_above(s, i, p, c[q]);
                }
            }
            lemma_chosen_alike(s, p, t, p - 1);
            if chosen(s, p) is Some {
                let q = choose|q: int| first_found(s, p, q);
                let f = c[q];
                lemma_gathered_above(s, i, p, f);
                assert forall|j: int| j > i implies #[trigger] taken(s, p, f).contains(j)
                    == taken(t, p - 1, f).contains(j - 1) by {
                    if j < n {
                        assert(s[j] == t[j - 1]);
                    }
                }
            }
        }
    }
}

/// A product in a sum that shares no factor with any other term is absent
/// from the result: combining the sum gives what combining the sum without
/// that product gives.
pub proof fn law_orphan_product_dropped(s: Seq<Expr>, i: int)
    requires
        0 <= i < s.len(),
        s[i] matches Expr::Nary(BinaryOp::Mul, _),
        forall|j: int| 0 <= j < s.len() && j != i ==> !shares_factor(s[i], #[trigger] s[j]),
    ensures
        combine(Expr::Nary(BinaryOp::Add, s)) == combine(Expr::Nary(BinaryOp::Add, s.remove(i))),
{
    lemma_after_orphan(s, i, (s.len() - 1) as nat);
}

proof fn lemma_flatten_flat(op: BinaryOp, s: Seq<Expr>)
    requires
        forall|k: int| 0 <= k < s.len() ==> !(#[trigger] s[k] matches Expr::Nary(o, _) && o == op),
    ensures
        flatten(op, s) == s,
    decreases s.len(),
{
    if s.len() > 0 {
        lemma_flatten_flat(op, s.drop_last());
        assert(spliced(op, s.last()) == seq![s.last()]);
        assert(s.drop_last().push(s.last()) =~= s);
        assert(s.drop_last() + seq![s.last()] =~= s);
    }
}

/// Flattening an already flat node, none of whose operands is a node of
/// its own operator, splices nothing in.
pub proof fn law_flat_node_not_flattened(op: BinaryOp, s: Seq<Expr>)
    requires
        forall|k: int| 0 <= k < s.len() ==> !(#[trigger] s[k] matches Expr::Nary(o, _) && o == op),
    ensures
        de_paren(Expr::Nary(op, s)) == nary(op, s),
{
    lemma_flatten_flat(op, s);
}

/// No term of `s` from `lo` on yields a coefficient for an earlier `s[k]`.
proof fn lemma_coefficients_none(s: Seq<Expr>, k: int, lo: int, hi: int)
    requires
        0 <= k < lo <= hi <= s.len(),
        forall|j: int| 0 <= j < s.len() ==> #[trigger] s[j] !is Nary,
        forall|j: int| 0 <= j < s.len() && j != k ==> #[trigger] s[j] != s[k],
    ensures
        coefficients(s, s[k], lo, hi).len() == 0,
    decreases hi - lo,
{
    if hi > lo {
        lemma_coefficients_none(s, k, lo, hi - 1);
        assert(s[hi - 1] != s[k]);
        assert(coefficient(s[hi - 1], s[k]) is None);
    }
}

proof fn lemma_distinct_sum_upto(s: Seq<Expr>, k: nat)
    requires
        k <= s.len(),
        forall|j: int| 0 <= j < s.len() ==> !(#[trigger] s[j] is Nary),
        forall|j: int, l: int| 0 <= j < s.len() && 0 <= l < s.len() && j != l ==> s[j] != s[l],
    ensures
        combine_upto(s, k).1 == s.subrange(0, k as int),
        forall|j: int| #[trigger] combine_upto(s, k).0.contains(j) ==> 0 <= j < k,
    decreases k,
{
    if k > 0 {
        let p = k - 1;
        lemma_distinct_sum_upto(s, (k - 1) as nat);
        let n = s.len() as int;
        assert forall|j: int| 0 <= j < s.len() && j != p implies #[trigger] s[j] != s[p] by {}
        lemma_coefficients_none(s, p, p + 1, n);
        assert(gathered(s, p, s[p]) =~= seq![Expr::Num(1)]);
        assert(candidates(s[p]) == seq![s[p]]);
        assert(found(s, p, 0));
        assert(first_found(s, p, 0));
        let q = choose|q: int| first_found(s, p, q);
        lemma_first_found_unique(s, p, q, 0);
        assert(chosen(s, p) == Some(s[p]));
        assert(fold_constants(nary(BinaryOp::Add, seq![Expr::Num(1)])) == Expr::Num(1));
        assert(combined(s[p], seq![Expr::Num(1)]) == s[p]);
        assert(s.subrange(0, k as int) =~= s.subrange(0, p).push(s[p]));
        assert forall|j: int| #[trigger] taken(s, p, s[p]).contains(j) implies j == p by {
            if j != p && p < j < n {
                assert(s[j] != s[p]);
            }
        }
    }
}

/// A sum of distinct terms none of which is an operator node has nothing
/// left to combine: combining it rebuilds the same sum.
pub proof fn law_distinct_sum_not_combined(s: Seq<Expr>)
    requires
        forall|j: int| 0 <= j < s.len() ==> !(#[trigger] s[j] is Nary),
        forall|j: int, l: int| 0 <= j < s.len() && 0 <= l < s.len() && j != l ==> s[j] != s[l],
    ensures
        combine(Expr::Nary(BinaryOp::Add, s)) == nary(BinaryOp::Add, s),
{
    lemma_distinct_sum_upto(s, s.len());
    assert(s.subrange(0, s.len() as int) =~= s);
}

/// Flattening treats each operand on its own and keeps their order: the
/// flattened operands of two runs of operands are the two flattened runs
/// one after the other.
pub proof fn law_flatten_concat(op: BinaryOp, a: Seq<Expr>, b: Seq<Expr>)
    ensures
        flatten(op, a + b) == flatten(op, a) + flatten(op, b),
    decreases b.len(),
{
    if b.len() == 0 {
        assert(a + b =~= a);
        assert(flatten(op, a) + flatten(op, b) =~= flatten(op, a));
    } else {
        law_flatten_concat(op, a, b.drop_last());
        assert((a + b).drop_last() =~= a + b.drop_last());
        assert((a + b).last() == b.last());
        assert(flatten(op, a) + flatten(op, b.drop_last()) + spliced(op, b.last()) =~= flatten(op, a)
            + (flatten(op, b.drop_last()) + spliced(op, b.last())));
    }
}

/// One operand alone: a node of the parent's operator is replaced by its own
/// operands, any other operand (a node of another operator included) stays a
/// single operand, unchanged.
pub proof fn law_flatten_single(op: BinaryOp, c: Expr)
    ensures
        (c matches Expr::Nary(o, cs) && o == op) ==> flatten(op, seq![c]) == c->Nary_1,
        !(c matches Expr::Nary(o, _) && o == op) ==> flatten(op, seq![c]) == seq![c],
{
    assert(seq![c].drop_last() =~= Seq::<Expr>::empty());
    assert(flatten(op, Seq::<Expr>::empty()) == Seq::<Expr>::empty());
    assert(Seq::<Expr>::empty() + spliced(op, c) =~= spliced(op, c));
}

/// The operands of an operator node of a settled tree: at least two, none a
/// node of the same operator, at most one literal, which stands last and is
/// not the identity; the terms of a sum are distinct and none is an
/// operator node.
pub open spec fn settled_operands(op: BinaryOp, s: Seq<Expr>) -> bool {
    &&& s.len() >= 2
    &&& forall|k: int| 0 <= k < s.len() ==> !(#[trigger] s[k] matches Expr::Nary(o, _) && o == op)
    &&& forall|k: int| 0 <= k < s.len() - 1 ==> #[trigger] s[k] !is Num
    &&& (s.last() matches Expr::Num(v) ==> v != identity(op))
    &&& op == BinaryOp::Add ==> {
        &&& forall|j: int| 0 <= j < s.len() ==> #[trigger] s[j] !is Nary
        &&& forall|j: int, l: int| 0 <= j < s.len() && 0 <= l < s.len() && j != l ==> s[j] != s[l]
    }
}

/// A tree that a sweep has nothing left to do on: every operator node has
/// settled operands and no factorial has a literal operand within the
/// folding ceiling.
pub open spec fn settled(e: Expr) -> bool
    decreases e,
{
    match e {
        Expr::Num(_) => true,
        Expr::Var(_) => true,
        Expr::Unary(UnaryOp::Fac, c) => !(*c matches Expr::Num(n) && n <= FACTORIAL_CEILING),
        Expr::Nary(op, s) => settled_operands(op, s) && all_settled(s),
    }
}

pub open spec fn all_settled(s: Seq<Expr>) -> bool
    decreases s,
{
    if s.len() == 0 {
        true
    } else {
        all_settled(s.subrange(0, s.len() - 1)) && settled(s[s.len() - 1])
    }
}

proof fn lemma_no_literals(s: Seq<Expr>)
    requires
        forall|k: int| 0 <= k < s.len() ==> #[trigger] s[k] !is Num,
    ensures
        literals(s) == Seq::<u64>::empty(),
        non_literals(s) == s,
    decreases s.len(),
{
    if s.len() > 0 {
        lemma_no_literals(s.drop_last());
        assert(s.drop_last().push(s.last()) =~= s);
    }
}

proof fn lemma_fold_settled(op: BinaryOp, s: Seq<Expr>)
    requires
        settled_operands(op, s),
    ensures
        fold_constants(Expr::Nary(op, s)) == Expr::Nary(op, s),
{
    let d = s.drop_last();
    lemma_no_literals(d);
    assert(d.push(s.last()) =~= s);
    match s.last() {
        Expr::Num(v) => {
            assert(literals(s) == seq![v]);
            assert(seq![v].drop_last() =~= Seq::<u64>::empty());
            assert(power(v as nat, 1) == v * power(v as nat, 0));
            assert(fold_literals(op, Seq::<u64>::empty()) == Some(identity(op)));
            assert(fold_step(op, identity(op) as nat, v as nat) == v);
            assert(fold_literals(op, seq![v]) == Some(v));
            assert(non_literals(s) == d);
        },
        _ => {
            lemma_no_literals(s);
        },
    }
}

proof fn lemma_sweep_all_settled(s: Seq<Expr>)
    requires
        all_settled(s),
    ensures
        sweep_all(s) == s,
    decreases s,
{
    if s.len() > 0 {
        lemma_sweep_all_settled(s.subrange(0, s.len() - 1));
        law_settled_tree_unchanged(s[s.len() - 1]);
        assert(s.subrange(0, s.len() - 1).push(s[s.len() - 1]) =~= s);
    }
}

/// A second sweep does nothing more: a settled tree, such as a flat,
/// combined and folded one, comes out of a sweep unchanged.
pub proof fn law_settled_tree_unchanged(e: Expr)
    requires
        settled(e),
    ensures
        sweep(e) == e,
    decreases e,
{
    match e {
        Expr::Nary(op, s) => {
            lemma_sweep_all_settled(s);
            law_flat_node_not_flattened(op, s);
            if op == BinaryOp::Add {
                law_distinct_sum_not_combined(s);
            }
            lemma_fold_settled(op, s);
        },
        _ => {},
    }
}

} // verus!
