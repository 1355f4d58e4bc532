use vstd::prelude::*;

verus! {

/// A prefix operator of the property language.
#[derive(Clone, Copy, Debug, PartialEq, Eq, Structural)]
pub enum Prefix {
    Not,
    Next,
    LtlNext,
    LtlGlobally,
    LtlFinally,
}

/// An infix operator of the property language.
#[derive(Clone, Copy, Debug, PartialEq, Eq, Structural)]
pub enum Infix {
    Iff,
    And,
    Or,
    Imply,
    LtlSince,
    LtlUntil,
    LtlRelease,
}

/// A property formula over a symbol table: identifiers are symbol numbers,
/// the front end maps names onto them.
#[derive(Debug)]
pub enum Expr {
    Ident(u64),
    LitExpr(bool),
    PrefixExpr(Prefix, Box<Expr>),
    InfixExpr(Infix, Box<Expr>, Box<Expr>),
}

impl Clone for Expr {
    fn clone(&self) -> (r: Self)
        ensures
            r == *self,
        decreases *self,
    {
        match self {
            Expr::Ident(i) => Expr::Ident(*i),
            Expr::LitExpr(b) => Expr::LitExpr(*b),
            Expr::PrefixExpr(p, e) => Expr::PrefixExpr(*p, Box::new((**e).clone())),
            Expr::InfixExpr(i, l, rr) => Expr::InfixExpr(
                *i,
                Box::new((**l).clone()),
                Box::new((**rr).clone()),
            ),
        }
    }
}

/// The formula with every transition-style `next` rewritten into the
/// temporal next operator.
pub open spec fn next_to_ltl(e: Expr) -> Expr
    decreases e,
{
    match e {
        Expr::Ident(i) => Expr::Ident(i),
        Expr::LitExpr(b) => Expr::LitExpr(b),
        Expr::PrefixExpr(p, sub) => {
            if p == Prefix::Next {
                Expr::PrefixExpr(Prefix::LtlNext, Box::new(next_to_ltl(*sub)))
            } else {
                Expr::PrefixExpr(p, Box::new(next_to_ltl(*sub)))
            }
        },
        Expr::InfixExpr(i, l, r) => Expr::InfixExpr(
            i,
            Box::new(next_to_ltl(*l)),
            Box::new(next_to_ltl(*r)),
        ),
    }
}

/// The converse rewriting: every temporal next becomes a transition-style
/// next.
pub open spec fn ltl_to_next(e: Expr) -> Expr
    decreases e,
{
    match e {
        Expr::Ident(i) => Expr::Ident(i),
        Expr::LitExpr(b) => Expr::LitExpr(b),
        Expr::PrefixExpr(p, sub) => {
            if p == Prefix::LtlNext {
                Expr::PrefixExpr(Prefix::Next, Box::new(ltl_to_next(*sub)))
            } else {
                Expr::PrefixExpr(p, Box::new(ltl_to_next(*sub)))
            }
        },
        Expr::InfixExpr(i, l, r) => Expr::InfixExpr(
            i,
            Box::new(ltl_to_next(*l)),
            Box::new(ltl_to_next(*r)),
        ),
    }
}

/// A formula is propositional when it uses only identifiers, literals,
/// negation and boolean connectives; with `next` allowed, one leading
/// temporal next above a plain propositional formula is admitted too.
pub open spec fn propositional(e: Expr, next: bool) -> bool
    decreases e,
{
    match e {
        Expr::Ident(_) => true,
        Expr::LitExpr(_) => true,
        Expr::PrefixExpr(p, sub) => match p {
            Prefix::Not => propositional(*sub, next),
            Prefix::LtlNext => next && propositional(*sub, false),
            _ => false,
        },
        Expr::InfixExpr(i, l, r) => match i {
            Infix::Iff => propositional(*l, next) && propositional(*r, next),
            Infix::And => propositional(*l, next) && propositional(*r, next),
            Infix::Or => propositional(*l, next) && propositional(*r, next),
            Infix::Imply => propositional(*l, next) && propositional(*r, next),
            _ => false,
        },
    }
}

/// Rewrite transition-style `next` operators into temporal ones.
pub fn trans_expr_to_ltl_rec(expr: &Expr) -> (r: Expr)
    ensures
        r == next_to_ltl(*expr),
    decreases *expr,
{
    match expr {
        Expr::Ident(i) => Expr::Ident(*i),
        Expr::LitExpr(b) => Expr::LitExpr(*b),
        Expr::PrefixExpr(p, sub) => {
            if *p == Prefix::Next {
                Expr::PrefixExpr(Prefix::LtlNext, Box::new(trans_expr_to_ltl_rec(sub)))
            } else {
                Expr::PrefixExpr(*p, Box::new(trans_expr_to_ltl_rec(sub)))
            }
        },
        Expr::InfixExpr(i, l, r) => Expr::InfixExpr(
            *i,
            Box::new(trans_expr_to_ltl_rec(l)),
            Box::new(trans_expr_to_ltl_rec(r)),
        ),
    }
}

pub fn trans_expr_to_ltl(expr: &Expr) -> (r: Expr)
    ensures
        r == next_to_ltl(*expr),
{
    trans_expr_to_ltl_rec(expr)
}

/// Whether a formula is propositional, with at most one temporal next on
/// top of each propositional part when `next` is allowed.
pub fn check_prositional(expr: &Expr, next: bool) -> (r: bool)
    ensures
        r == propositional(*expr, next),
    decreases *expr,
{
    match expr {
        Expr::Ident(_) => true,
        Expr::LitExpr(_) => true,
        Expr::PrefixExpr(p, sub) => match p {
            Prefix::Not => check_prositional(sub, next),
            Prefix::LtlNext => {
                if next {
                    check_prositional(sub, false)
                } else {
                    false
                }
            },
            _ => false,
        },
        Expr::InfixExpr(i, l, r) => match i {
            Infix::Iff | Infix::And | Infix::Or | Infix::Imply => check_prositional(l, next)
                && check_prositional(r, next),
            _ => false,
        },
    }
}

/// Rewrite temporal next operators back into transition-style ones, in
/// place.
pub fn ltl_next_to_next(expr: &mut Expr)
    ensures
        *final(expr) == ltl_to_next(*old(expr)),
{
    let r = ltl_next_to_next_rec(&*expr);
    *expr = r;
}

fn ltl_next_to_next_rec(expr: &Expr) -> (r: Expr)
    ensures
        r == ltl_to_next(*expr),
    decreases *expr,
{
    match expr {
        Expr::Ident(i) => Expr::Ident(*i),
        Expr::LitExpr(b) => Expr::LitExpr(*b),
        Expr::PrefixExpr(p, sub) => {
            if *p == Prefix::LtlNext {
                Expr::PrefixExpr(Prefix::Next, Box::new(ltl_next_to_next_rec(sub)))
            } else {
                Expr::PrefixExpr(*p, Box::new(ltl_next_to_next_rec(sub)))
            }
        },
        Expr::InfixExpr(i, l, r) => Expr::InfixExpr(
            *i,
            Box::new(ltl_next_to_next_rec(l)),
            Box::new(ltl_next_to_next_rec(r)),
        ),
    }
}

/// What `check_trans` extracts: a globally-quantified propositional formula
/// (with transition-style nexts) becomes a transition constraint.
pub open spec fn trans_of(e: Expr) -> Option<Expr> {
    match e {
        Expr::PrefixExpr(p, sub) => {
            if p == Prefix::LtlGlobally && propositional(*sub, true) {
                Option::Some(ltl_to_next(*sub))
            } else {
                Option::None
            }
        },
        _ => Option::None,
    }
}

/// Recognise a transition constraint: `G` over a propositional formula with
/// at most singly-nested temporal nexts, handed back with plain nexts.
pub fn check_trans(expr: &Expr) -> (r: Option<Expr>)
    ensures
        r == trans_of(*expr),
{
    match expr {
        Expr::PrefixExpr(p, sub) => {
            if *p == Prefix::LtlGlobally {
                if check_prositional(sub, true) {
                    Option::Some(ltl_next_to_next_rec(sub))
                } else {
                    Option::None
                }
            } else {
                Option::None
            }
        },
        _ => Option::None,
    }
}


/// The top-level conjuncts of a formula: an `And` chain split into its
/// parts, in order.
pub open spec fn conjuncts(e: Expr) -> Seq<Expr>
    decreases e,
{
    match e {
        Expr::InfixExpr(i, l, r) => {
            if i == Infix::And {
                conjuncts(*l) + conjuncts(*r)
            } else {
                seq![e]
            }
        },
        _ => seq![e],
    }
}

/// Split a formula into its top-level conjuncts.
pub fn partition_to_ands(e: &Expr) -> (r: Vec<Expr>)
    ensures
        r@ == conjuncts(*e),
    decreases *e,
{
    match e {
        Expr::InfixExpr(i, l, rr) => {
            if *i == Infix::And {
                let mut left = partition_to_ands(l);
                let mut right = partition_to_ands(rr);
                let ghost lv = left@;
                let mut k: usize = 0;
                while k < right.len()
                    invariant
                        0 <= k <= right@.len(),
                        left@ == lv + right@.take(k as int),
                    decreases right@.len() - k,
                {
                    left.push(right[k].clone());
                    proof {
                        assert(left@ =~= lv + right@.take(k + 1));
                    }
                    k += 1;
                }
                proof {
                    assert(right@.take(right@.len() as int) =~= right@);
                }
                left
            } else {
                let mut r: Vec<Expr> = Vec::new();
                r.push(e.clone());
                proof {
                    assert(r@ =~= conjuncts(*e));
                }
                r
            }
        },
        _ => {
            let mut r: Vec<Expr> = Vec::new();
            r.push(e.clone());
            proof {
                assert(r@ =~= conjuncts(*e));
            }
            r
        },
    }
}

/// Of the first `n` conjuncts, those that are plain propositional formulas:
/// they become initial-state constraints.
pub open spec fn inits_of(s: Seq<Expr>, n: int) -> Seq<Expr>
    decreases n,
{
    if n <= 0 {
        Seq::empty()
    } else {
        inits_of(s, n - 1) + (if propositional(s[n - 1], false) {
            seq![s[n - 1]]
        } else {
            Seq::<Expr>::empty()
        })
    }
}

/// Of the first `n` conjuncts, the extracted transition constraints.
pub open spec fn trans_cons_of(s: Seq<Expr>, n: int) -> Seq<Expr>
    decreases n,
{
    if n <= 0 {
        Seq::empty()
    } else {
        trans_cons_of(s, n - 1) + (match trans_of(s[n - 1]) {
            Option::Some(t) => seq![t],
            Option::None => Seq::<Expr>::empty(),
        })
    }
}

/// Of the first `n` conjuncts, those that stay genuinely temporal.
pub open spec fn ltls_of(s: Seq<Expr>, n: int) -> Seq<Expr>
    decreases n,
{
    if n <= 0 {
        Seq::empty()
    } else {
        ltls_of(s, n - 1) + (if !propositional(s[n - 1], false) && trans_of(s[n - 1])
            is None {
            seq![s[n - 1]]
        } else {
            Seq::<Expr>::empty()
        })
    }
}

/// Sort a conjunction's parts into initial-state constraints, transition
/// constraints and residual temporal formulas; every conjunct lands in
/// exactly one of the three.
pub fn ltl_classify(expr: Expr) -> (r: (Vec<Expr>, Vec<Expr>, Vec<Expr>))
    requires
        conjuncts(expr).len() > 1,
    ensures
        r.0@ == inits_of(conjuncts(expr), conjuncts(expr).len() as int),
        r.1@ == trans_cons_of(conjuncts(expr), conjuncts(expr).len() as int),
        r.2@ == ltls_of(conjuncts(expr), conjuncts(expr).len() as int),
{
    let ands = partition_to_ands(&expr);
    let ghost s = ands@;
    let mut inits: Vec<Expr> = Vec::new();
    let mut trans: Vec<Expr> = Vec::new();
    let mut ltls: Vec<Expr> = Vec::new();
    let mut k: usize = 0;
    while k < ands.len()
        invariant
            0 <= k <= s.len(),
            s == ands@,
            inits@ == inits_of(s, k as int),
            trans@ == trans_cons_of(s, k as int),
            ltls@ == ltls_of(s, k as int),
        decreases s.len() - k,
    {
        let element = &ands[k];
        if check_prositional(element, false) {
            inits.push(element.clone());
        } else {
            match check_trans(element) {
                Option::Some(t) => {
                    trans.push(t);
                },
                Option::None => {
                    ltls.push(element.clone());
                },
            }
        }
        proof {
            assert(inits@ =~= inits_of(s, k + 1));
            assert(trans@ =~= trans_cons_of(s, k + 1));
            assert(ltls@ =~= ltls_of(s, k + 1));
        }
        k += 1;
    }
    (inits, trans, ltls)
}

} // verus!
