use vstd::prelude::*;

verus! {

use crate::subst::Subst;
use crate::subst::apply_spec;
use crate::subst::extend_spec;

/// Abstract syntax of the untyped lambda calculus with a `let` binder.
/// Trees are persistent values: nothing ever mutates a subtree in place.
#[derive(Debug)]
pub enum Expr {
    App(Box<Expr>, Box<Expr>),
    Lam(String, Box<Expr>),
    Let(String, Box<Expr>, Box<Expr>),
    Var(String),
}

/// Mathematical model of an expression: the same tree with every
/// identifier abstracted to its character sequence.
pub enum ExprV {
    App(Box<ExprV>, Box<ExprV>),
    Lam(Seq<char>, Box<ExprV>),
    Let(Seq<char>, Box<ExprV>, Box<ExprV>),
    Var(Seq<char>),
}

pub open spec fn expr_view(e: Expr) -> ExprV
    decreases e,
{
    match e {
        Expr::App(e1, e2) => ExprV::App(Box::new(expr_view(*e1)), Box::new(expr_view(*e2))),
        Expr::Lam(x, b) => ExprV::Lam(x@, Box::new(expr_view(*b))),
        Expr::Let(x, a, b) => ExprV::Let(x@, Box::new(expr_view(*a)), Box::new(expr_view(*b))),
        Expr::Var(x) => ExprV::Var(x@),
    }
}

impl View for Expr {
    type V = ExprV;

    open spec fn view(&self) -> ExprV {
        expr_view(*self)
    }
}

impl Expr {
    pub fn app(e1: Expr, e2: Expr) -> (r: Expr)
        ensures
            r@ == ExprV::App(Box::new(e1@), Box::new(e2@)),
    {
        Expr::App(Box::new(e1), Box::new(e2))
    }

    pub fn lam(x: &str, e: Expr) -> (r: Expr)
        ensures
            r@ == ExprV::Lam(x@, Box::new(e@)),
    {
        Expr::Lam(x.to_owned(), Box::new(e))
    }

    pub fn let_(x: &str, e1: Expr, e2: Expr) -> (r: Expr)
        ensures
            r@ == ExprV::Let(x@, Box::new(e1@), Box::new(e2@)),
    {
        Expr::Let(x.to_owned(), Box::new(e1), Box::new(e2))
    }

    pub fn var(x: &str) -> (r: Expr)
        ensures
            r@ == ExprV::Var(x@),
    {
        Expr::Var(x.to_owned())
    }

    pub fn is_var(&self) -> (r: bool)
        ensures
            r == (self@ is Var),
    {
        match self {
            Expr::Var(_) => true,
            _ => false,
        }
    }
}

/// `x` occurs free in `e`: the occurrence is not under an abstraction or
/// `let` that binds the same name.
pub open spec fn free_in(x: Seq<char>, e: ExprV) -> bool
    decreases e,
{
    match e {
        ExprV::App(e1, e2) => free_in(x, *e1) || free_in(x, *e2),
        ExprV::Lam(y, b) => y != x && free_in(x, *b),
        ExprV::Let(y, a, b) => y != x && (free_in(x, *a) || free_in(x, *b)),
        ExprV::Var(y) => y == x,
    }
}

/// Compares two string slices character by character.
pub fn str_eq(a: &str, b: &str) -> (r: bool)
    ensures
        r == (a@ == b@),
{
    let la = a.unicode_len();
    let lb = b.unicode_len();
    if la != lb {
        return false;
    }
    let mut i: usize = 0;
    while i < la
        invariant
            la == a@.len(),
            la == b@.len(),
            0 <= i <= la,
            forall|j: int| 0 <= j < i ==> a@[j] == b@[j],
        decreases la - i,
    {
        if a.get_char(i) != b.get_char(i) {
            return false;
        }
        i = i + 1;
    }
    proof {
        assert(a@ =~= b@);
    }
    true
}

impl Expr {
    pub fn freevar(&self, x: &str) -> (r: bool)
        ensures
            r == free_in(x@, self@),
        decreases *self,
    {
        match self {
            Expr::App(e1, e2) => e1.freevar(x) || e2.freevar(x),
            Expr::Lam(y, b) => !str_eq(y.as_str(), x) && b.freevar(x),
            Expr::Let(y, a, b) => !str_eq(y.as_str(), x) && (a.freevar(x) || b.freevar(x)),
            Expr::Var(y) => str_eq(y.as_str(), x),
        }
    }
}

fn clone_expr(e: &Expr) -> (r: Expr)
    ensures
        r@ == e@,
    decreases *e,
{
    match e {
        Expr::App(e1, e2) => Expr::App(Box::new(clone_expr(e1)), Box::new(clone_expr(e2))),
        Expr::Lam(x, b) => Expr::Lam(x.clone(), Box::new(clone_expr(b))),
        Expr::Let(x, a, b) => Expr::Let(x.clone(), Box::new(clone_expr(a)), Box::new(clone_expr(b))),
        Expr::Var(x) => Expr::Var(x.clone()),
    }
}

impl Clone for Expr {
    /// The clone of an expression models the same tree.
    fn clone(&self) -> (r: Self)
        ensures
            r@ == self@,
    {
        clone_expr(self)
    }
}

fn eq_expr(a: &Expr, b: &Expr) -> (r: bool)
    ensures
        r == (a@ == b@),
    decreases *a,
{
    match (a, b) {
        (Expr::App(f1, a1), Expr::App(f2, a2)) => eq_expr(f1, f2) && eq_expr(a1, a2),
        (Expr::Lam(x1, b1), Expr::Lam(x2, b2)) => str_eq(x1.as_str(), x2.as_str()) && eq_expr(b1, b2),
        (Expr::Let(x1, a1, b1), Expr::Let(x2, a2, b2)) => str_eq(x1.as_str(), x2.as_str())
            && eq_expr(a1, a2) && eq_expr(b1, b2),
        (Expr::Var(x1), Expr::Var(x2)) => str_eq(x1.as_str(), x2.as_str()),
        _ => false,
    }
}

/// One reduction step of `e` under the environment `m`, or nothing when
/// `e` is in normal form with respect to `m`. In an application the
/// argument is tried first, then the function, then the beta step; an
/// abstraction is a value; a `let` tries its value, then its body, then
/// unfolds; a variable steps to what the environment substitutes for it,
/// unless that is the variable itself.
pub open spec fn reduce_spec(e: ExprV, m: Map<Seq<char>, ExprV>) -> Option<ExprV>
    decreases e,
{
    match e {
        ExprV::App(e1, e2) => {
            let r2 = reduce_spec(*e2, m);
            if r2 is Some {
                Some(ExprV::App(e1, Box::new(r2->0)))
            } else {
                let r1 = reduce_spec(*e1, m);
                if r1 is Some {
                    Some(ExprV::App(Box::new(r1->0), e2))
                } else {
                    match *e1 {
                        ExprV::Lam(x, body) => Some(apply_spec(extend_spec(m, x, *e2), *body)),
                        _ => None,
                    }
                }
            }
        },
        ExprV::Lam(x, b) => None,
        ExprV::Let(x, a, b) => {
            let r1 = reduce_spec(*a, m);
            if r1 is Some {
                Some(ExprV::Let(x, Box::new(r1->0), b))
            } else {
                let r2 = reduce_spec(*b, m);
                if r2 is Some {
                    Some(ExprV::Let(x, a, Box::new(r2->0)))
                } else {
                    Some(apply_spec(extend_spec(m, x, *a), *b))
                }
            }
        },
        ExprV::Var(x) => {
            if m.dom().contains(x) && m[x] != ExprV::Var(x) {
                Some(m[x])
            } else {
                None
            }
        },
    }
}

/// Performs one reduction step of `e` under `s`, per `reduce_spec`.
pub fn reduce(e: Expr, s: &Subst) -> (r: Option<Expr>)
    ensures
        match r {
            Some(e2) => reduce_spec(e@, s@) == Some(e2@),
            None => reduce_spec(e@, s@) is None,
        },
    decreases e@,
{
    match e {
        Expr::App(e1, e2) => {
            if let Some(r2) = reduce((*e2).clone(), s) {
                return Some(Expr::App(e1, Box::new(r2)));
            }
            if let Some(r1) = reduce((*e1).clone(), s) {
                return Some(Expr::App(Box::new(r1), e2));
            }
            if let Expr::Lam(x, body) = *e1 {
                let s2 = s.extend(x, *e2);
                Some(s2.apply(*body))
            } else {
                None
            }
        },
        Expr::Lam(_, _) => None,
        Expr::Let(x, a, b) => {
            if let Some(r1) = reduce((*a).clone(), s) {
                return Some(Expr::Let(x, Box::new(r1), b));
            }
            if let Some(r2) = reduce((*b).clone(), s) {
                return Some(Expr::Let(x, a, Box::new(r2)));
            }
            let s2 = s.extend(x, *a);
            Some(s2.apply(*b))
        },
        Expr::Var(x) => {
            let applied = s.apply(Expr::Var(x.clone()));
            let unchanged = match &applied {
                Expr::Var(y) => str_eq(x.as_str(), y.as_str()),
                _ => false,
            };
            if unchanged {
                None
            } else {
                Some(applied)
            }
        },
    }
}

/// Text of an expression: an application operand is parenthesized unless
/// it is a bare variable, an abstraction prints as `\u{03BB}x.body`, and a
/// binding prints as `let x = value in body`.
pub open spec fn print_spec(e: ExprV) -> Seq<char>
    decreases e, 0int,
{
    match e {
        ExprV::App(e1, e2) => print_operand(*e1) + seq![' '] + print_operand(*e2),
        ExprV::Lam(x, b) => seq!['\u{03bb}'] + x + seq!['.'] + print_spec(*b),
        ExprV::Let(x, a, b) => seq!['l', 'e', 't', ' '] + x + seq![' ', '=', ' '] + print_spec(*a)
            + seq![' ', 'i', 'n', ' '] + print_spec(*b),
        ExprV::Var(x) => x,
    }
}

pub open spec fn print_operand(e: ExprV) -> Seq<char>
    decreases e, 1int,
{
    if e is Var {
        print_spec(e)
    } else {
        seq!['('] + print_spec(e) + seq![')']
    }
}

impl Expr {
    /// Renders the expression so that it parses back to the same tree.
    pub fn render(&self) -> (r: String)
        ensures
            r@ == print_spec(self@),
        decreases *self, 0int,
    {
        match self {
            Expr::App(e1, e2) => {
                let mut r = render_operand(e1);
                r.append(" ");
                r.append(render_operand(e2).as_str());
                proof {
                    reveal_strlit(" ");
                    assert(" "@ =~= seq![' ']);
                }
                r
            },
            Expr::Lam(x, b) => {
                let mut r = String::new();
                r.append("\u{03bb}");
                r.append(x.as_str());
                r.append(".");
                r.append(b.render().as_str());
                proof {
                    reveal_strlit("\u{03bb}");
                    reveal_strlit(".");
                    assert("\u{03bb}"@ =~= seq!['\u{03bb}']);
                    assert("."@ =~= seq!['.']);
                    assert(r@ =~= print_spec(self@));
                }
                r
            },
            Expr::Let(x, a, b) => {
                let mut r = String::new();
                r.append("let ");
                r.append(x.as_str());
                r.append(" = ");
                r.append(a.render().as_str());
                r.append(" in ");
                r.append(b.render().as_str());
                proof {
                    reveal_strlit("let ");
                    reveal_strlit(" = ");
                    reveal_strlit(" in ");
                    assert("let "@ =~= seq!['l', 'e', 't', ' ']);
                    assert(" = "@ =~= seq![' ', '=', ' ']);
                    assert(" in "@ =~= seq![' ', 'i', 'n', ' ']);
                    assert(r@ =~= print_spec(self@));
                }
                r
            },
            Expr::Var(x) => {
                let mut r = String::new();
                r.append(x.as_str());
                r
            },
        }
    }
}

fn render_operand(e: &Expr) -> (r: String)
    ensures
        r@ == print_operand(e@),
    decreases *e, 1int,
{
    if e.is_var() {
        e.render()
    } else {
        let mut r = String::new();
        r.append("(");
        r.append(e.render().as_str());
        r.append(")");
        proof {
            reveal_strlit("(");
            reveal_strlit(")");
            assert("("@ =~= seq!['(']);
            assert(")"@ =~= seq![')']);
            assert(r@ =~= print_operand(e@));
        }
        r
    }
}

impl PartialEq for Expr {
    /// Structural equality: two expressions are equal when they model the
    /// same tree.
    fn eq(&self, other: &Expr) -> (r: bool) {
        eq_expr(self, other)
    }
}

impl vstd::std_specs::cmp::PartialEqSpecImpl for Expr {
    open spec fn obeys_eq_spec() -> bool {
        true
    }

    open spec fn eq_spec(&self, other: &Expr) -> bool {
        self@ == other@
    }
}

} // verus!
