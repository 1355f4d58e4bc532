use vstd::prelude::*;

verus! {

use crate::util::{Expr, Prefix, Infix, next_to_ltl, trans_expr_to_ltl};

/// The parts of a system description that the property construction reads:
/// initial-state, transition and fairness constraints and the property list,
/// all as formulas over the symbol table.
pub struct SmvModel {
    pub inits: Vec<Expr>,
    pub trans: Vec<Expr>,
    pub fairness: Vec<Expr>,
    pub ltlspecs: Vec<Expr>,
}

/// The conjunction of `G trans[extend[k]]` over the first `n` chosen
/// transition constraints, folded left onto `true`.
pub open spec fn extend_fold(trans: Seq<Expr>, extend: Seq<usize>, n: int) -> Expr
    decreases n,
{
    if n <= 0 {
        Expr::LitExpr(true)
    } else {
        Expr::InfixExpr(
            Infix::And,
            Box::new(extend_fold(trans, extend, n - 1)),
            Box::new(
                Expr::PrefixExpr(Prefix::LtlGlobally, Box::new(trans[extend[n - 1] as int])),
            ),
        )
    }
}

/// The conjunction of `G F fair` over the first `n` fairness constraints,
/// folded left onto `true`.
pub open spec fn fairness_fold(fairness: Seq<Expr>, n: int) -> Expr
    decreases n,
{
    if n <= 0 {
        Expr::LitExpr(true)
    } else {
        Expr::InfixExpr(
            Infix::And,
            Box::new(fairness_fold(fairness, n - 1)),
            Box::new(
                Expr::PrefixExpr(
                    Prefix::LtlGlobally,
                    Box::new(Expr::PrefixExpr(Prefix::LtlFinally, Box::new(fairness[n - 1]))),
                ),
            ),
        )
    }
}

/// The formula handed to the automaton translator: the negation of "the
/// chosen transition constraints and the fairness assumptions imply the
/// property", with transition-style nexts made temporal.
pub open spec fn property_of(m: SmvModel, extend: Seq<usize>) -> Expr {
    next_to_ltl(
        Expr::PrefixExpr(
            Prefix::Not,
            Box::new(
                Expr::InfixExpr(
                    Infix::Imply,
                    Box::new(
                        Expr::InfixExpr(
                            Infix::And,
                            Box::new(extend_fold(m.trans@, extend, extend.len() as int)),
                            Box::new(fairness_fold(m.fairness@, m.fairness@.len() as int)),
                        ),
                    ),
                    Box::new(m.ltlspecs@[0]),
                ),
            ),
        ),
    )
}

/// Build the negated property to check: the fairness assumptions and the
/// chosen extra transition constraints on the left of the implication, the
/// declared property on the right, the whole thing negated.
pub fn get_ltl(model: &SmvModel, extend_trans: &Vec<usize>) -> (r: Expr)
    requires
        model.ltlspecs@.len() >= 1,
        forall|k: int|
            0 <= k < extend_trans@.len() ==> (#[trigger] extend_trans@[k]) < model.trans@.len(),
    ensures
        r == property_of(*model, extend_trans@),
{
    let mut trans_ltl = Expr::LitExpr(true);
    let mut k: usize = 0;
    while k < extend_trans.len()
        invariant
            0 <= k <= extend_trans@.len(),
            forall|i: int|
                0 <= i < extend_trans@.len() ==> (#[trigger] extend_trans@[i])
                    < model.trans@.len(),
            trans_ltl == extend_fold(model.trans@, extend_trans@, k as int),
        decreases extend_trans@.len() - k,
    {
        let e = extend_trans[k];
        trans_ltl = Expr::InfixExpr(
            Infix::And,
            Box::new(trans_ltl),
            Box::new(Expr::PrefixExpr(Prefix::LtlGlobally, Box::new(model.trans[e].clone()))),
        );
        k += 1;
    }
    let mut fairness = Expr::LitExpr(true);
    let mut k: usize = 0;
    while k < model.fairness.len()
        invariant
            0 <= k <= model.fairness@.len(),
            fairness == fairness_fold(model.fairness@, k as int),
        decreases model.fairness@.len() - k,
    {
        fairness = Expr::InfixExpr(
            Infix::And,
            Box::new(fairness),
            Box::new(
                Expr::PrefixExpr(
                    Prefix::LtlGlobally,
                    Box::new(
                        Expr::PrefixExpr(Prefix::LtlFinally, Box::new(model.fairness[k].clone())),
                    ),
                ),
            ),
        );
        k += 1;
    }
    let ltl = model.ltlspecs[0].clone();
    let ltl = Expr::PrefixExpr(
        Prefix::Not,
        Box::new(
            Expr::InfixExpr(
                Infix::Imply,
                Box::new(Expr::InfixExpr(Infix::And, Box::new(trans_ltl), Box::new(fairness))),
                Box::new(ltl),
            ),
        ),
    );
    trans_expr_to_ltl(&ltl)
}

} // verus!
