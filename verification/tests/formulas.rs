use smc::ltl::{get_ltl, SmvModel};
use smc::util::{check_prositional, check_trans, ltl_classify, ltl_next_to_next,
    trans_expr_to_ltl, Expr, Infix, Prefix};

fn next(e: Expr) -> Expr {
    Expr::PrefixExpr(Prefix::Next, Box::new(e))
}

fn ltl_next(e: Expr) -> Expr {
    Expr::PrefixExpr(Prefix::LtlNext, Box::new(e))
}

fn and(l: Expr, r: Expr) -> Expr {
    Expr::InfixExpr(Infix::And, Box::new(l), Box::new(r))
}

#[test]
fn trans_nexts_become_temporal_nexts() {
    let e = and(next(Expr::Ident(0)), Expr::Ident(1));
    let t = trans_expr_to_ltl(&e);
    match t {
        Expr::InfixExpr(Infix::And, l, r) => {
            assert!(matches!(*l, Expr::PrefixExpr(Prefix::LtlNext, _)));
            assert!(matches!(*r, Expr::Ident(1)));
        },
        _ => panic!(),
    }
}

#[test]
fn temporal_nexts_become_trans_nexts_in_place() {
    let mut e = ltl_next(Expr::LitExpr(true));
    ltl_next_to_next(&mut e);
    match e {
        Expr::PrefixExpr(Prefix::Next, inner) => assert!(matches!(*inner, Expr::LitExpr(true))),
        _ => panic!(),
    }
}

#[test]
fn propositional_recognition() {
    let plain = and(Expr::Ident(0), Expr::PrefixExpr(Prefix::Not, Box::new(Expr::Ident(1))));
    assert!(check_prositional(&plain, false));
    let with_next = ltl_next(Expr::Ident(0));
    assert!(check_prositional(&with_next, true));
    assert!(!check_prositional(&with_next, false));
    let nested = ltl_next(ltl_next(Expr::Ident(0)));
    assert!(!check_prositional(&nested, true));
    let temporal = Expr::PrefixExpr(Prefix::LtlGlobally, Box::new(Expr::Ident(0)));
    assert!(!check_prositional(&temporal, true));
}

#[test]
fn transition_constraints_are_extracted() {
    let body = and(Expr::Ident(0), ltl_next(Expr::Ident(1)));
    let g = Expr::PrefixExpr(Prefix::LtlGlobally, Box::new(body));
    let extracted = check_trans(&g).expect("a transition constraint");
    match extracted {
        Expr::InfixExpr(Infix::And, _, r) => {
            assert!(matches!(*r, Expr::PrefixExpr(Prefix::Next, _)));
        },
        _ => panic!(),
    }
    let not_global = ltl_next(Expr::Ident(0));
    assert!(check_trans(&not_global).is_none());
    let not_prop = Expr::PrefixExpr(
        Prefix::LtlGlobally,
        Box::new(Expr::PrefixExpr(Prefix::LtlFinally, Box::new(Expr::Ident(0)))),
    );
    assert!(check_trans(&not_prop).is_none());
}

#[test]
fn conjuncts_are_sorted_into_three_groups() {
    let init_part = Expr::Ident(0);
    let trans_part = Expr::PrefixExpr(
        Prefix::LtlGlobally,
        Box::new(ltl_next(Expr::Ident(1))),
    );
    let ltl_part = Expr::PrefixExpr(
        Prefix::LtlGlobally,
        Box::new(Expr::PrefixExpr(Prefix::LtlFinally, Box::new(Expr::Ident(2)))),
    );
    let formula = and(and(init_part, trans_part), ltl_part);
    let (inits, trans, ltls) = ltl_classify(formula);
    assert_eq!(inits.len(), 1);
    assert!(matches!(inits[0], Expr::Ident(0)));
    assert_eq!(trans.len(), 1);
    assert!(matches!(trans[0], Expr::PrefixExpr(Prefix::Next, _)));
    assert_eq!(ltls.len(), 1);
    assert!(matches!(ltls[0], Expr::PrefixExpr(Prefix::LtlGlobally, _)));
}

#[test]
fn the_negated_property_is_assembled() {
    let model = SmvModel {
        inits: vec![],
        trans: vec![next(Expr::Ident(0))],
        fairness: vec![Expr::Ident(1)],
        ltlspecs: vec![Expr::PrefixExpr(Prefix::LtlGlobally, Box::new(Expr::Ident(2)))],
    };
    let extend = vec![0usize];
    let r = get_ltl(&model, &extend);
    // the shape is Not(Imply(And(G trans, G F fair), spec)), with the
    // transition-style next made temporal
    match r {
        Expr::PrefixExpr(Prefix::Not, inner) => match *inner {
            Expr::InfixExpr(Infix::Imply, left, right) => {
                assert!(matches!(*right, Expr::PrefixExpr(Prefix::LtlGlobally, _)));
                match *left {
                    Expr::InfixExpr(Infix::And, tpart, fpart) => {
                        assert!(matches!(*tpart, Expr::InfixExpr(Infix::And, _, _)));
                        assert!(matches!(*fpart, Expr::InfixExpr(Infix::And, _, _)));
                    },
                    _ => panic!(),
                }
            },
            _ => panic!(),
        },
        _ => panic!(),
    }
}
