use expr_simplify::ast::{Ast, Binary, BinaryOp, Unary, UnaryOp};
use expr_simplify::simplifier::Simplifier;

fn num(n: u64) -> Ast {
    Ast::Num(n)
}

fn var(s: &str) -> Ast {
    Ast::Var(s.to_string())
}

fn fac(a: Ast) -> Ast {
    Ast::Unary(Unary { operator: UnaryOp::Fac, operand: Box::new(a) })
}

fn node(op: BinaryOp, items: Vec<Ast>) -> Ast {
    Ast::Binary(Binary { operator: op, operands: items })
}

#[test]
fn test_de_paren() {
    let ast = Binary::new(BinaryOp::Mul)
        .with(Binary::new(BinaryOp::Mul).with(num(0)).with(num(1)).build())
        .with(Binary::new(BinaryOp::Add).with(var("a")).with(var("b")).build())
        .with(num(3))
        .build();
    let lhs = Simplifier::de_paren(ast, 0);
    let rhs = Binary::new(BinaryOp::Mul)
        .with(num(0))
        .with(num(1))
        .with(Binary::new(BinaryOp::Add).with(var("a")).with(var("b")).build())
        .with(num(3))
        .build();
    assert_eq!(lhs, rhs);
}

#[test]
fn test_combine_terms() {
    // y * x * 2 + x + x * 2 + 3  ==  (y * 2 + 3) * x + 3
    let ast = Binary::new(BinaryOp::Add)
        .with(Binary::new(BinaryOp::Mul).with(var("y")).with(var("x")).with(num(2)).build())
        .with(var("x"))
        .with(Binary::new(BinaryOp::Mul).with(var("x")).with(num(2)).build())
        .with(num(3))
        .build();
    let lhs = Simplifier::combine_terms(ast, 0);
    let rhs = Binary::new(BinaryOp::Add)
        .with(
            Binary::new(BinaryOp::Mul)
                .with(
                    Binary::new(BinaryOp::Add)
                        .with(Binary::new(BinaryOp::Mul).with(var("y")).with(num(2)).build())
                        .with(num(3))
                        .build(),
                )
                .with(var("x"))
                .build(),
        )
        .with(num(3))
        .build();
    assert_eq!(lhs, rhs);
}

#[test]
fn test_term_factor_coeff() {
    let term = Binary::new(BinaryOp::Mul).with(var("x")).with(var("y")).with(num(4)).build();
    let coeff = Simplifier::term_factor_coeff(&term, &var("y"));
    assert_eq!(coeff, Some(Binary::new(BinaryOp::Mul).with(var("x")).with(num(4)).build()));

    let term = Binary::new(BinaryOp::Mul)
        .with(var("x"))
        .with(var("xx"))
        .with(var("y"))
        .with(var("yy"))
        .with(num(4))
        .with(num(0))
        .build();
    let coeff = Simplifier::term_factor_coeff(&term, &var("z"));
    assert_eq!(coeff, None);

    let term = Binary::new(BinaryOp::Mul)
        .with(var("x"))
        .with(var("xx"))
        .with(var("y"))
        .with(var("yy"))
        .with(num(4))
        .with(num(0))
        .build();
    let coeff = Simplifier::term_factor_coeff(&term, &var("xx"));
    assert_eq!(
        coeff,
        Some(
            Binary::new(BinaryOp::Mul)
                .with(var("x"))
                .with(var("y"))
                .with(var("yy"))
                .with(num(4))
                .with(num(0))
                .build()
        )
    );

    let term = Ast::Var("xyz".into());
    let coeff = Simplifier::term_factor_coeff(&term, &var("xyz"));
    assert_eq!(coeff, Some(Ast::Num(1)));
}

#[test]
fn coefficient_takes_only_the_first_match() {
    let term = node(BinaryOp::Mul, vec![var("x"), var("x"), num(3)]);
    let coeff = Simplifier::term_factor_coeff(&term, &var("x"));
    assert_eq!(coeff, Some(node(BinaryOp::Mul, vec![var("x"), num(3)])));
}

#[test]
fn coefficient_of_a_sole_child_is_the_identity() {
    let term = node(BinaryOp::Mul, vec![var("x")]);
    assert_eq!(Simplifier::term_factor_coeff(&term, &var("x")), Some(num(1)));
    let term = node(BinaryOp::Add, vec![var("x")]);
    assert_eq!(Simplifier::term_factor_coeff(&term, &var("x")), Some(num(0)));
}

#[test]
fn coefficient_of_a_single_remaining_child_is_that_child() {
    let term = node(BinaryOp::Mul, vec![var("x"), num(2)]);
    assert_eq!(Simplifier::term_factor_coeff(&term, &var("x")), Some(num(2)));
}

#[test]
fn unary_folding_of_factorial() {
    assert_eq!(Simplifier::unary_num_ops(fac(num(4)), 0), num(24));
    assert_eq!(Simplifier::unary_num_ops(fac(num(0)), 0), num(1));
    assert_eq!(Simplifier::unary_num_ops(fac(num(10)), 0), num(3628800));
    assert_eq!(Simplifier::unary_num_ops(fac(num(11)), 0), fac(num(11)));
    assert_eq!(Simplifier::unary_num_ops(fac(var("n")), 0), fac(var("n")));
}

#[test]
fn power_folds_right_nested() {
    let ast = node(BinaryOp::Pow, vec![num(2), num(3)]);
    assert_eq!(Simplifier::binary_num_ops(ast, 0), num(9));
    let ast = node(BinaryOp::Pow, vec![var("x"), num(2), num(3)]);
    assert_eq!(Simplifier::binary_num_ops(ast, 0), node(BinaryOp::Pow, vec![var("x"), num(9)]));
}

#[test]
fn sum_and_product_fold_last() {
    let ast = node(BinaryOp::Add, vec![num(1), var("a"), num(2), num(3)]);
    assert_eq!(Simplifier::binary_num_ops(ast, 0), node(BinaryOp::Add, vec![var("a"), num(6)]));
    let ast = node(BinaryOp::Mul, vec![num(2), var("a"), var("b"), num(5)]);
    assert_eq!(
        Simplifier::binary_num_ops(ast, 0),
        node(BinaryOp::Mul, vec![var("a"), var("b"), num(10)])
    );
}

#[test]
fn identity_result_is_not_appended() {
    let ast = node(BinaryOp::Add, vec![var("a"), num(0), var("b")]);
    assert_eq!(Simplifier::binary_num_ops(ast, 0), node(BinaryOp::Add, vec![var("a"), var("b")]));
    let ast = node(BinaryOp::Mul, vec![var("a"), num(1)]);
    assert_eq!(Simplifier::binary_num_ops(ast, 0), var("a"));
    let ast = node(BinaryOp::Pow, vec![var("a"), num(1)]);
    assert_eq!(Simplifier::binary_num_ops(ast, 0), var("a"));
    let ast = node(BinaryOp::Mul, vec![]);
    assert_eq!(Simplifier::binary_num_ops(ast, 0), num(1));
}

#[test]
fn overflowing_fold_leaves_node_unchanged() {
    let ast = node(BinaryOp::Mul, vec![num(u64::MAX), var("a"), num(2)]);
    assert_eq!(
        Simplifier::binary_num_ops(ast, 0),
        node(BinaryOp::Mul, vec![num(u64::MAX), var("a"), num(2)])
    );
    let ast = node(BinaryOp::Pow, vec![num(64), num(2)]);
    assert_eq!(Simplifier::binary_num_ops(ast, 0), node(BinaryOp::Pow, vec![num(64), num(2)]));
    let ast = node(BinaryOp::Pow, vec![num(32), num(2)]);
    assert_eq!(Simplifier::binary_num_ops(ast, 0), num(4294967296));
}

#[test]
fn de_paren_keeps_other_shapes() {
    let ast = node(BinaryOp::Add, vec![node(BinaryOp::Add, vec![var("a"), var("b")]), var("c")]);
    assert_eq!(
        Simplifier::de_paren(ast, 0),
        node(BinaryOp::Add, vec![var("a"), var("b"), var("c")])
    );
    assert_eq!(Simplifier::de_paren(var("a"), 0), var("a"));
}

#[test]
fn orphan_product_is_dropped() {
    // x * y shares no factor with z: it vanishes from the sum
    let ast = node(BinaryOp::Add, vec![node(BinaryOp::Mul, vec![var("x"), var("y")]), var("z")]);
    assert_eq!(Simplifier::combine_terms(ast, 0), var("z"));
    let ast = node(
        BinaryOp::Add,
        vec![var("a"), node(BinaryOp::Mul, vec![var("x"), var("y")]), var("b")],
    );
    assert_eq!(Simplifier::combine_terms(ast, 0), node(BinaryOp::Add, vec![var("a"), var("b")]));
}

#[test]
fn lone_product_sum_becomes_zero() {
    let ast = node(BinaryOp::Add, vec![node(BinaryOp::Mul, vec![var("x"), var("y")])]);
    assert_eq!(Simplifier::combine_terms(ast, 0), num(0));
}

#[test]
fn equal_terms_combine() {
    let ast = node(BinaryOp::Add, vec![var("x"), var("x")]);
    assert_eq!(
        Simplifier::combine_terms(ast, 0),
        node(BinaryOp::Mul, vec![num(2), var("x")])
    );
    let ast = node(BinaryOp::Mul, vec![var("x"), var("x")]);
    assert_eq!(
        Simplifier::combine_terms(ast, 0),
        node(BinaryOp::Mul, vec![var("x"), var("x")])
    );
}

#[test]
fn run_folds_and_combines() {
    let ast = node(BinaryOp::Add, vec![var("x"), var("x")]);
    assert_eq!(Simplifier::run(ast), node(BinaryOp::Mul, vec![var("x"), num(2)]));
    let ast = node(BinaryOp::Add, vec![fac(num(3)), num(1)]);
    assert_eq!(Simplifier::run(ast), num(7));
    let ast = node(
        BinaryOp::Add,
        vec![
            node(BinaryOp::Mul, vec![var("a"), var("x")]),
            node(BinaryOp::Mul, vec![var("b"), var("x")]),
        ],
    );
    assert_eq!(
        Simplifier::run(ast),
        node(BinaryOp::Mul, vec![node(BinaryOp::Add, vec![var("a"), var("b")]), var("x")])
    );
}

#[test]
fn run_does_not_enter_unary_operands() {
    let inner = node(BinaryOp::Add, vec![num(1), num(2)]);
    let ast = fac(inner.clone());
    assert_eq!(Simplifier::run(ast), fac(inner));
}

#[test]
fn second_sweep_changes_nothing_on_simplified_trees() {
    let inputs = vec![
        node(BinaryOp::Add, vec![var("a"), var("b"), var("c")]),
        node(BinaryOp::Mul, vec![var("x"), num(2)]),
        node(
            BinaryOp::Add,
            vec![
                node(BinaryOp::Mul, vec![var("a"), var("x")]),
                node(BinaryOp::Mul, vec![var("b"), var("x")]),
            ],
        ),
        node(BinaryOp::Mul, vec![node(BinaryOp::Mul, vec![var("p"), var("q")]), var("r")]),
    ];
    for ast in inputs {
        let once = Simplifier::run(ast);
        let twice = Simplifier::run(once.clone());
        assert_eq!(once, twice);
    }
}

#[test]
fn deepest_allowed_nesting_runs() {
    let mut ast = var("x");
    for _ in 0..31 {
        ast = node(BinaryOp::Add, vec![ast, var("y")]);
    }
    let r = Simplifier::run(ast);
    assert!(matches!(r, Ast::Binary(_)));
}

#[test]
fn structural_equality_is_order_sensitive() {
    let ab = node(BinaryOp::Mul, vec![var("a"), var("b")]);
    let ba = node(BinaryOp::Mul, vec![var("b"), var("a")]);
    assert!(ab.structural_eq(&ab.clone()));
    assert!(!ab.structural_eq(&ba));
    assert!(!var("a").structural_eq(&num(1)));
}

#[test]
fn build_collapses_small_nodes() {
    assert_eq!(Binary::new(BinaryOp::Add).build(), num(0));
    assert_eq!(Binary::new(BinaryOp::Pow).build(), num(1));
    assert_eq!(Binary::new(BinaryOp::Add).with(var("a")).build(), var("a"));
}

#[test]
fn non_product_terms_are_kept() {
    // a power is not a product: it matches itself with coefficient one
    let pow = node(BinaryOp::Pow, vec![var("x"), num(2)]);
    let ast = node(BinaryOp::Add, vec![pow.clone(), var("y")]);
    assert_eq!(Simplifier::combine_terms(ast, 0), node(BinaryOp::Add, vec![pow.clone(), var("y")]));
    let ast = node(BinaryOp::Add, vec![pow.clone(), var("y")]);
    assert_eq!(Simplifier::run(ast), node(BinaryOp::Add, vec![pow.clone(), var("y")]));
    // and combines with a product holding it
    let ast = node(
        BinaryOp::Add,
        vec![pow.clone(), node(BinaryOp::Mul, vec![num(3), pow.clone()])],
    );
    assert_eq!(Simplifier::combine_terms(ast, 0), node(BinaryOp::Mul, vec![num(4), pow.clone()]));
    let ast = node(BinaryOp::Add, vec![fac(var("n")), var("y")]);
    assert_eq!(
        Simplifier::combine_terms(ast, 0),
        node(BinaryOp::Add, vec![fac(var("n")), var("y")])
    );
}

fn nested(levels: usize) -> Ast {
    let mut ast = var("x");
    for _ in 0..levels {
        ast = node(BinaryOp::Add, vec![ast, var("y")]);
    }
    ast
}

#[test]
fn depth_is_checked_before_running() {
    assert!(Simplifier::fits_depth(&nested(31), 32));
    assert!(!Simplifier::fits_depth(&nested(32), 32));
    assert!(Simplifier::fits_depth(&var("x"), 1));
    assert!(!Simplifier::fits_depth(&var("x"), 0));
    assert!(Simplifier::try_run(nested(31)).is_some());
    assert_eq!(Simplifier::try_run(nested(32)), None);
    assert_eq!(
        Simplifier::try_run(node(BinaryOp::Add, vec![var("x"), var("x")])),
        Some(node(BinaryOp::Mul, vec![var("x"), num(2)]))
    );
}
