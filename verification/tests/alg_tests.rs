use boolcalc::alg::evaluate;
use boolcalc::alg::substitute;
use boolcalc::alg::Context;
use boolcalc::alg::Evaluator;
use boolcalc::alg::Expr;
use boolcalc::alg::Op;

#[test]
fn test_or_axiom_1() {
    // x v T = T
    let bt = Box::new(Expr::Lit(true));
    let var = Box::new(Expr::Var('x'));

    assert_eq!(evaluate(Expr::BinOp(Op::Or, bt, var)), Expr::Lit(true));
}

#[test]
fn test_or_axiom_2() {
    // x v F = x
    let bf = Box::new(Expr::Lit(false));
    let var = Box::new(Expr::Var('x'));

    assert_eq!(evaluate(Expr::BinOp(Op::Or, bf, var)), Expr::Var('x'));
}

#[test]
fn test_and_axiom_1() {
    // x ^ F = F
    let bf = Box::new(Expr::Lit(false));
    let var = Box::new(Expr::Var('x'));

    assert_eq!(evaluate(Expr::BinOp(Op::And, bf, var)), Expr::Lit(false));
}

#[test]
fn test_and_axiom_2() {
    // x ^ T = x
    let bt = Box::new(Expr::Lit(true));
    let var = Box::new(Expr::Var('x'));

    assert_eq!(evaluate(Expr::BinOp(Op::And, bt, var)), Expr::Var('x'));
}

#[test]
fn simplify_is_idempotent_on_a_sample_tree() {
    let tree = || {
        Expr::BinOp(
            Op::And,
            Box::new(Expr::BinOp(
                Op::Or,
                Box::new(Expr::Var('x')),
                Box::new(Expr::Lit(false)),
            )),
            Box::new(Expr::Not(Box::new(Expr::Var('y')))),
        )
    };
    let once = evaluate(tree());
    let twice = evaluate(evaluate(tree()));
    assert_eq!(twice, once);
}

#[test]
fn absorption_on_residual_sides() {
    let residual = || Expr::Not(Box::new(Expr::Var('q')));
    let conj = Expr::BinOp(Op::And, Box::new(Expr::Lit(false)), Box::new(residual()));
    assert_eq!(evaluate(conj), Expr::Lit(false));
    let disj = Expr::BinOp(Op::Or, Box::new(Expr::Lit(true)), Box::new(residual()));
    assert_eq!(evaluate(disj), Expr::Lit(true));
}

#[test]
fn identity_on_residual_sides() {
    let residual = || Expr::Not(Box::new(Expr::Var('q')));
    let conj = Expr::BinOp(Op::And, Box::new(Expr::Lit(true)), Box::new(residual()));
    assert_eq!(evaluate(conj), residual());
    let disj = Expr::BinOp(Op::Or, Box::new(Expr::Lit(false)), Box::new(residual()));
    assert_eq!(evaluate(disj), residual());
}

#[test]
fn double_negation_collapses() {
    let twice_true = Expr::Not(Box::new(Expr::Not(Box::new(Expr::Lit(true)))));
    assert_eq!(evaluate(twice_true), Expr::Lit(true));
    let twice_false = Expr::Not(Box::new(Expr::Not(Box::new(Expr::Lit(false)))));
    assert_eq!(evaluate(twice_false), Expr::Lit(false));
}

#[test]
fn render_literal_and_variable() {
    assert_eq!(Expr::Lit(true).render(), "T");
    assert_eq!(Expr::Lit(false).render(), "F");
    assert_eq!(Expr::Var('z').render(), "z");
}

#[test]
fn render_is_fully_parenthesized() {
    // scenario: (¬(F) ^ x)
    let e = Expr::BinOp(
        Op::And,
        Box::new(Expr::Not(Box::new(Expr::Lit(false)))),
        Box::new(Expr::Var('x')),
    );
    assert_eq!(e.render(), "(¬(F) ^ x)");
}

#[test]
fn evaluator_resolves_bound_variable() {
    // F v x under {x: false} reduces to F
    let mut eval = Evaluator::new();
    eval.update_var('x', false);
    let e = Expr::BinOp(Op::Or, Box::new(Expr::Lit(false)), Box::new(Expr::Var('x')));
    assert_eq!(eval.evaluate(e), Expr::Lit(false));
}

#[test]
fn evaluator_keeps_unbound_variable_residual() {
    let mut eval = Evaluator::new();
    eval.update_var('x', true);
    let e = Expr::BinOp(Op::And, Box::new(Expr::Var('x')), Box::new(Expr::Var('y')));
    assert_eq!(eval.evaluate(e), Expr::Var('y'));
}

#[test]
fn update_var_reports_prior_binding() {
    let mut eval = Evaluator::new();
    assert!(!eval.update_var('a', true));
    assert!(eval.update_var('a', false));
    assert!(!eval.update_var('b', false));
    assert_eq!(eval.count_vars(), 2);
}

#[test]
fn get_vars_lists_each_name_once() {
    let mut eval = Evaluator::new();
    eval.update_var('a', true);
    eval.update_var('b', false);
    eval.update_var('a', false);
    let mut names = eval.get_vars();
    names.sort();
    assert_eq!(names, vec!['a', 'b']);
}

#[test]
fn context_get_and_overwrite() {
    let mut ctx = Context::new();
    assert_eq!(ctx.get('k'), None);
    assert_eq!(ctx.insert('k', true), None);
    assert_eq!(ctx.get('k'), Some(true));
    assert_eq!(ctx.insert('k', false), Some(true));
    assert_eq!(ctx.get('k'), Some(false));
    assert_eq!(ctx.len(), 1);
}

#[test]
fn substitute_replaces_only_bound_variables() {
    let mut ctx = Context::new();
    ctx.insert('x', true);
    let e = Expr::BinOp(Op::Or, Box::new(Expr::Var('x')), Box::new(Expr::Var('y')));
    let substituted = substitute(e, &ctx);
    assert_eq!(
        substituted,
        Expr::BinOp(Op::Or, Box::new(Expr::Lit(true)), Box::new(Expr::Var('y')))
    );
}

#[test]
fn full_assignment_reduces_to_a_literal() {
    let mut eval = Evaluator::new();
    eval.update_var('x', true);
    eval.update_var('y', false);
    let e = Expr::BinOp(
        Op::And,
        Box::new(Expr::Var('x')),
        Box::new(Expr::Not(Box::new(Expr::Var('y')))),
    );
    assert_eq!(eval.evaluate(e), Expr::Lit(true));
}

#[test]
fn clone_copies_the_whole_tree() {
    let e = Expr::BinOp(
        Op::And,
        Box::new(Expr::Not(Box::new(Expr::Var('p')))),
        Box::new(Expr::Lit(true)),
    );
    assert_eq!(e.clone(), e);
}
