use vstd::prelude::*;

verus! {

use crate::expr::ExprV;
use crate::expr::print_operand;
use crate::expr::print_spec;
use crate::expr::reduce_spec;
use crate::parse::BaseRes;
use crate::parse::LexState;
use crate::parse::PErr;
use crate::parse::Tok;
use crate::parse::classify;
use crate::parse::ident_end;
use crate::parse::is_alpha_char;
use crate::parse::is_ident_char;
use crate::parse::is_space_char;
use crate::parse::lemma_spec_token_bounds;
use crate::parse::prime_end;
use crate::parse::spec_expect;
use crate::parse::spec_parse;
use crate::parse::spec_parse_apps;
use crate::parse::spec_parse_base;
use crate::parse::spec_parse_expr;
use crate::parse::spec_token;
use crate::parse::st_measure;
use crate::parse::st_take;
use crate::subst::apply_spec;
use crate::subst::extend_spec;
use crate::subst::singleton;

/// Reduction is a pure function: equal expressions under equal
/// environments reduce to equal results. The executable `reduce` returns
/// exactly `reduce_spec` of its arguments, so two calls on equal inputs
/// agree.
pub proof fn lemma_reduce_deterministic(
    e1: ExprV,
    m1: Map<Seq<char>, ExprV>,
    e2: ExprV,
    m2: Map<Seq<char>, ExprV>,
)
    requires
        e1 == e2,
        m1 == m2,
    ensures
        reduce_spec(e1, m1) == reduce_spec(e2, m2),
{
}

/// A normal form is stable: when reduction of an expression under an
/// environment returns nothing, reducing the same expression under the
/// same environment returns nothing again.
pub proof fn lemma_fixpoint_stable(e: ExprV, m: Map<Seq<char>, ExprV>)
    ensures
        reduce_spec(e, m) is None ==> reduce_spec(e, m) is None,
{
}

/// Shadowing: extending an environment with a binding for `x` and applying
/// it to an abstraction whose parameter is `x` returns the abstraction
/// unchanged, whatever was bound.
pub proof fn lemma_shadowing(m: Map<Seq<char>, ExprV>, x: Seq<char>, v: ExprV, b: ExprV)
    ensures
        apply_spec(extend_spec(m, x, v), ExprV::Lam(x, Box::new(b))) == ExprV::Lam(x, Box::new(b)),
{
}

/// Looking up a name just bound returns the bound expression as it was
/// given, whether or not the name was bound before.
pub proof fn lemma_extend_lookup(m: Map<Seq<char>, ExprV>, k: Seq<char>, v: ExprV)
    ensures
        apply_spec(extend_spec(m, k, v), ExprV::Var(k)) == v,
{
}

/// Extension keeps every older binding fresh: the new binding is
/// substituted into each right-hand side already stored.
pub proof fn lemma_extend_reapplies(
    m: Map<Seq<char>, ExprV>,
    k: Seq<char>,
    v: ExprV,
    k2: Seq<char>,
)
    requires
        m.dom().contains(k2),
        k2 != k,
    ensures
        extend_spec(m, k, v).dom().contains(k2),
        extend_spec(m, k, v)[k2] == apply_spec(singleton(k, v), m[k2]),
{
}

/// Chained bindings: after `extend(x, v1)` then `extend(x2, v2)`, applying
/// the environment to the variable `x2` returns the stored `v2`; when the
/// single binding of `x` to `v1` substitutes into `v2` without changing
/// it, that lookup equals `v2` with `v1` substituted for `x`. When the
/// substitution does change `v2`, the stored value is `v2` as given, and
/// the lookup does not reflect `v1`.
pub proof fn lemma_extend_chain(
    m: Map<Seq<char>, ExprV>,
    x: Seq<char>,
    v1: ExprV,
    x2: Seq<char>,
    v2: ExprV,
)
    requires
        x2 != x,
        apply_spec(singleton(x, v1), v2) == v2,
    ensures
        apply_spec(extend_spec(extend_spec(m, x, v1), x2, v2), ExprV::Var(x2)) == apply_spec(
            singleton(x, v1),
            v2,
        ),
{
}

/// A name the lexer reads back as one identifier: it starts with a
/// letter, continues with letters and underscores, ends in zero or more
/// primes, and is not a keyword.
pub open spec fn wf_name(n: Seq<char>) -> bool {
    &&& n.len() >= 1
    &&& is_alpha_char(n[0])
    &&& forall|i: int| 0 <= i < n.len() ==> is_ident_char(n[i]) || n[i] == '\''
    &&& forall|i: int, j: int| 0 <= i <= j < n.len() && n[i] == '\'' ==> n[j] == '\''
    &&& n != seq!['l', 'e', 't']
    &&& n != seq!['i', 'n']
}

/// Every name in the expression is one the lexer reads back whole.
pub open spec fn wf_expr(e: ExprV) -> bool
    decreases e,
{
    match e {
        ExprV::App(e1, e2) => wf_expr(*e1) && wf_expr(*e2),
        ExprV::Lam(x, b) => wf_name(x) && wf_expr(*b),
        ExprV::Let(x, a, b) => wf_name(x) && wf_expr(*a) && wf_expr(*b),
        ExprV::Var(x) => wf_name(x),
    }
}

/// The text `t` stands in `s` at `pos`.
pub open spec fn at_text(s: Seq<char>, pos: int, t: Seq<char>) -> bool {
    0 <= pos && pos + t.len() <= s.len() && s.subrange(pos, pos + t.len()) == t
}

/// Position `q` cannot extend an identifier that ends just before it.
pub open spec fn hard_boundary(s: Seq<char>, q: int) -> bool {
    0 <= q <= s.len() && (q == s.len() || (!is_ident_char(s[q]) && s[q] != '\''))
}

/// A token that ends an application chain: the parser pushes it back.
pub open spec fn stops_expr(t: Tok) -> bool {
    t == Tok::ParR || t == Tok::KwIn || t == Tok::Eof
}

pub proof fn lemma_at_text_split(s: Seq<char>, pos: int, a: Seq<char>, b: Seq<char>)
    requires
        at_text(s, pos, a + b),
    ensures
        at_text(s, pos, a),
        at_text(s, pos + a.len(), b),
{
    let ab = a + b;
    assert forall|i: int| 0 <= i < a.len() implies s[pos + i] == a[i] by {
        assert(ab[i] == a[i]);
        assert(s.subrange(pos, pos + ab.len())[i] == s[pos + i]);
    }
    assert(s.subrange(pos, pos + a.len()) =~= a);
    assert forall|i: int| 0 <= i < b.len() implies s[pos + a.len() + i] == b[i] by {
        assert(ab[a.len() + i] == b[i]);
        assert(s.subrange(pos, pos + ab.len())[a.len() + i] == s[pos + a.len() + i]);
    }
    assert(s.subrange(pos + a.len(), pos + a.len() + b.len()) =~= b);
}

/// Leading spaces do not change the next token.
pub proof fn lemma_token_ws(s: Seq<char>, pos: int, pos2: int)
    requires
        0 <= pos <= pos2 <= s.len(),
        forall|i: int| pos <= i < pos2 ==> is_space_char(s[i]),
    ensures
        spec_token(s, pos) == spec_token(s, pos2),
    decreases pos2 - pos,
{
    if pos < pos2 {
        lemma_token_ws(s, pos + 1, pos2);
    }
}

/// A run of identifier characters bounded by a non-identifier character
/// scans to exactly its end.
pub proof fn lemma_ident_end_run(s: Seq<char>, pos: int, end: int)
    requires
        0 <= pos <= end <= s.len(),
        forall|i: int| pos <= i < end ==> is_ident_char(s[i]),
        end == s.len() || !is_ident_char(s[end]),
    ensures
        ident_end(s, pos) == end,
    decreases end - pos,
{
    if pos < end {
        lemma_ident_end_run(s, pos + 1, end);
    }
}

pub proof fn lemma_prime_end_run(s: Seq<char>, pos: int, end: int)
    requires
        0 <= pos <= end <= s.len(),
        forall|i: int| pos <= i < end ==> s[i] == '\'',
        end == s.len() || s[end] != '\'',
    ensures
        prime_end(s, pos) == end,
    decreases end - pos,
{
    if pos < end {
        lemma_prime_end_run(s, pos + 1, end);
    }
}

/// The scan of an identifier covers identifier characters only and stops
/// at the first character that is none.
pub proof fn lemma_ident_end_chars(s: Seq<char>, pos: int)
    requires
        0 <= pos <= s.len(),
    ensures
        pos <= ident_end(s, pos) <= s.len(),
        forall|i: int| pos <= i < ident_end(s, pos) ==> is_ident_char(s[i]),
        ident_end(s, pos) < s.len() ==> !is_ident_char(s[ident_end(s, pos)]),
    decreases s.len() - pos,
{
    if pos < s.len() && is_ident_char(s[pos]) {
        lemma_ident_end_chars(s, pos + 1);
    }
}

/// A well-shaped name placed at `pos` with nothing extending it lexes to
/// one token covering exactly the name.
pub proof fn lemma_token_ident(s: Seq<char>, pos: int, n: Seq<char>)
    requires
        n.len() >= 1,
        is_alpha_char(n[0]),
        forall|i: int| 0 <= i < n.len() ==> is_ident_char(n[i]) || n[i] == '\'',
        forall|i: int, j: int| 0 <= i <= j < n.len() && n[i] == '\'' ==> n[j] == '\'',
        at_text(s, pos, n),
        hard_boundary(s, pos + n.len()),
    ensures
        spec_token(s, pos) == Ok::<(Tok, int), (char, int)>((classify(n), pos + n.len())),
{
    let end = pos + n.len();
    assert forall|i: int| pos <= i < end implies s[i] == n[i - pos] by {
        assert(s.subrange(pos, end)[i - pos] == s[i]);
    }
    let mid = ident_end(n, 0);
    lemma_ident_end_chars(n, 0);
    assert forall|i: int| pos <= i < pos + mid implies is_ident_char(s[i]) by {
        assert(s[i] == n[i - pos]);
    }
    if mid < n.len() {
        assert(n[mid] == '\'');
    }
    lemma_ident_end_run(s, pos, pos + mid);
    assert forall|i: int| pos + mid <= i < end implies s[i] == '\'' by {
        assert(n[mid] == '\'');
        assert(n[i - pos] == '\'');
        assert(s[i] == n[i - pos]);
    }
    lemma_prime_end_run(s, pos + mid, end);
    assert(s[pos] == n[0]);
    assert(s.subrange(pos, end) == n);
}

pub proof fn lemma_at_char(s: Seq<char>, pos: int, c: char)
    requires
        at_text(s, pos, seq![c]),
    ensures
        0 <= pos < s.len() && s[pos] == c,
{
    assert(s.subrange(pos, pos + 1)[0] == s[pos]);
}

/// The single-character tokens, read off directly.
pub proof fn lemma_token_single(s: Seq<char>, pos: int)
    requires
        0 <= pos < s.len(),
    ensures
        s[pos] == '(' ==> spec_token(s, pos) == Ok::<(Tok, int), (char, int)>((Tok::ParL, pos + 1)),
        s[pos] == ')' ==> spec_token(s, pos) == Ok::<(Tok, int), (char, int)>((Tok::ParR, pos + 1)),
        s[pos] == '\u{03bb}' ==> spec_token(s, pos) == Ok::<(Tok, int), (char, int)>(
            (Tok::Lam, pos + 1),
        ),
        s[pos] == '.' ==> spec_token(s, pos) == Ok::<(Tok, int), (char, int)>((Tok::Dot, pos + 1)),
        s[pos] == '=' ==> spec_token(s, pos) == Ok::<(Tok, int), (char, int)>(
            (Tok::Equal, pos + 1),
        ),
{
}

/// Printed text is never empty.
pub proof fn lemma_print_nonempty(e: ExprV)
    requires
        wf_expr(e),
    ensures
        print_spec(e).len() >= 1,
        print_operand(e).len() >= 1,
{
}

/// An atom of printed text parses back as one applied operand: either a
/// bare variable or a parenthesized expression.
pub proof fn lemma_parse_base_operand(e: ExprV, s: Seq<char>, pos: int, pos2: int)
    requires
        wf_expr(e),
        0 <= pos <= pos2,
        forall|i: int| pos <= i < pos2 ==> is_space_char(s[i]),
        at_text(s, pos2, print_operand(e)),
        hard_boundary(s, pos2 + print_operand(e).len()),
    ensures
        spec_parse_base(LexState { s: s, pos: pos, push: None }) == BaseRes::Item(
            e,
            LexState { s: s, pos: pos2 + print_operand(e).len(), push: None },
        ),
    decreases e, 2int,
{
    let st = LexState { s: s, pos: pos, push: None };
    lemma_token_ws(s, pos, pos2);
    match e {
        ExprV::Var(x) => {
            lemma_token_ident(s, pos2, x);
            let st1 = LexState { s: s, pos: pos2 + x.len(), push: None };
            assert(st_take(st) == Ok::<(Tok, LexState), (char, LexState)>((Tok::Var(x), st1)));
        },
        _ => {
            let pe = print_spec(e);
            lemma_at_text_split(s, pos2, seq!['('] + pe, seq![')']);
            lemma_at_text_split(s, pos2, seq!['('], pe);
            lemma_at_char(s, pos2, '(');
            let inner_end = pos2 + 1 + pe.len();
            lemma_at_char(s, inner_end, ')');
            lemma_token_single(s, pos2);
            lemma_token_single(s, inner_end);
            let st1 = LexState { s: s, pos: pos2 + 1, push: None };
            assert(st_take(st) == Ok::<(Tok, LexState), (char, LexState)>((Tok::ParL, st1)));
            lemma_parse_expr_print(e, s, pos2 + 1, pos2 + 1, Tok::ParR, inner_end + 1);
            let st2 = LexState { s: s, pos: inner_end + 1, push: Some(Tok::ParR) };
            assert(spec_parse_expr(st1) == Ok::<(ExprV, LexState), (PErr, LexState)>((e, st2)));
            let st3 = LexState { s: s, pos: inner_end + 1, push: None };
            assert(spec_expect(st2, Tok::ParR) == Ok::<LexState, (PErr, LexState)>(st3));
            assert(inner_end + 1 == pos2 + print_operand(e).len());
        },
    }
}

/// Printed text parses back to the expression it was printed from: the
/// parser consumes exactly the text, reads the stopping token after it,
/// and pushes that token back.
/// Printed text parses back to the expression it was printed from: the
/// parser consumes exactly the text, reads the stopping token after it,
/// and pushes that token back.
pub proof fn lemma_parse_expr_print(e: ExprV, s: Seq<char>, pos: int, pos2: int, ft: Tok, fp: int)
    requires
        wf_expr(e),
        0 <= pos <= pos2,
        forall|i: int| pos <= i < pos2 ==> is_space_char(s[i]),
        at_text(s, pos2, print_spec(e)),
        hard_boundary(s, pos2 + print_spec(e).len()),
        spec_token(s, pos2 + print_spec(e).len()) == Ok::<(Tok, int), (char, int)>((ft, fp)),
        stops_expr(ft),
    ensures
        spec_parse_expr(LexState { s: s, pos: pos, push: None }) == Ok::<
            (ExprV, LexState),
            (PErr, LexState),
        >((e, LexState { s: s, pos: fp, push: Some(ft) })),
    decreases e, 1int,
{
    match e {
        ExprV::Var(x) => lemma_ppe_var(e, s, pos, pos2, ft, fp),
        ExprV::App(b1, b2) => lemma_ppe_app(e, s, pos, pos2, ft, fp),
        ExprV::Lam(x, bb) => lemma_ppe_lam(e, s, pos, pos2, ft, fp),
        ExprV::Let(x, vv, bb) => lemma_ppe_let(e, s, pos, pos2, ft, fp),
    }
}

proof fn lemma_ppe_var(e: ExprV, s: Seq<char>, pos: int, pos2: int, ft: Tok, fp: int)
    requires
        wf_expr(e),
        0 <= pos <= pos2,
        forall|i: int| pos <= i < pos2 ==> is_space_char(s[i]),
        at_text(s, pos2, print_spec(e)),
        hard_boundary(s, pos2 + print_spec(e).len()),
        spec_token(s, pos2 + print_spec(e).len()) == Ok::<(Tok, int), (char, int)>((ft, fp)),
        stops_expr(ft),
        e is Var,
    ensures
        spec_parse_expr(LexState { s: s, pos: pos, push: None }) == Ok::<
            (ExprV, LexState),
            (PErr, LexState),
        >((e, LexState { s: s, pos: fp, push: Some(ft) })),
    decreases e, 0int,
{
    let st = LexState { s: s, pos: pos, push: None };
    let end = pos2 + print_spec(e).len();
    let fin = LexState { s: s, pos: fp, push: Some(ft) };
    let fin0 = LexState { s: s, pos: fp, push: None };
    lemma_token_ws(s, pos, pos2);
    lemma_spec_token_bounds(s, end);
    match e {
        ExprV::Var(x) => {

                lemma_token_ident(s, pos2, x);
                let st1 = LexState { s: s, pos: end, push: None };
                assert(st_take(st) == Ok::<(Tok, LexState), (char, LexState)>((Tok::Var(x), st1)));
                assert(st_take(st1) == Ok::<(Tok, LexState), (char, LexState)>((ft, fin0)));
                assert(spec_parse_base(st1) == BaseRes::Stop(fin));
                assert(spec_parse_apps(st1, e) == Ok::<(ExprV, LexState), (PErr, LexState)>((e, fin)));
            
        },
        _ => {},
    }
}

#[verifier::rlimit(100)]
proof fn lemma_ppe_app(e: ExprV, s: Seq<char>, pos: int, pos2: int, ft: Tok, fp: int)
    requires
        wf_expr(e),
        0 <= pos <= pos2,
        forall|i: int| pos <= i < pos2 ==> is_space_char(s[i]),
        at_text(s, pos2, print_spec(e)),
        hard_boundary(s, pos2 + print_spec(e).len()),
        spec_token(s, pos2 + print_spec(e).len()) == Ok::<(Tok, int), (char, int)>((ft, fp)),
        stops_expr(ft),
        e is App,
    ensures
        spec_parse_expr(LexState { s: s, pos: pos, push: None }) == Ok::<
            (ExprV, LexState),
            (PErr, LexState),
        >((e, LexState { s: s, pos: fp, push: Some(ft) })),
    decreases e, 0int,
{
    let st = LexState { s: s, pos: pos, push: None };
    let end = pos2 + print_spec(e).len();
    let fin = LexState { s: s, pos: fp, push: Some(ft) };
    let fin0 = LexState { s: s, pos: fp, push: None };
    lemma_token_ws(s, pos, pos2);
    lemma_spec_token_bounds(s, end);
    match e {
        ExprV::App(b1, b2) => {

                let e1 = *b1;
                let e2 = *b2;
                assert(wf_expr(e1));
                assert(wf_expr(e2));
                let po1 = print_operand(e1);
                let po2 = print_operand(e2);
                lemma_at_text_split(s, pos2, po1 + seq![' '], po2);
                lemma_at_text_split(s, pos2, po1, seq![' ']);
                let m = pos2 + po1.len();
                lemma_at_char(s, m, ' ');
                let q2 = m + 1;
                lemma_print_nonempty(e1);
                lemma_print_nonempty(e2);
                let st_a = LexState { s: s, pos: m, push: None };
                match e1 {
                    ExprV::Var(y) => {
                        assert(wf_name(y));
                        assert(po1 == y);
                        lemma_token_ident(s, pos2, y);
                        assert(st_take(st) == Ok::<(Tok, LexState), (char, LexState)>(
                            (Tok::Var(y), st_a),
                        ));
                    },
                    _ => {
                        let pe1 = print_spec(e1);
                        lemma_at_text_split(s, pos2, seq!['('] + pe1, seq![')']);
                        lemma_at_text_split(s, pos2, seq!['('], pe1);
                        lemma_at_char(s, pos2, '(');
                        let inner_end = pos2 + 1 + pe1.len();
                        lemma_at_char(s, inner_end, ')');
                        lemma_token_single(s, pos2);
                        lemma_token_single(s, inner_end);
                        let st1 = LexState { s: s, pos: pos2 + 1, push: None };
                        assert(st_take(st) == Ok::<(Tok, LexState), (char, LexState)>(
                            (Tok::ParL, st1),
                        ));
                        lemma_parse_expr_print(e1, s, pos2 + 1, pos2 + 1, Tok::ParR, inner_end + 1);
                        let st2 = LexState { s: s, pos: inner_end + 1, push: Some(Tok::ParR) };
                        assert(spec_parse_expr(st1) == Ok::<(ExprV, LexState), (PErr, LexState)>(
                            (e1, st2),
                        ));
                        assert(spec_expect(st2, Tok::ParR) == Ok::<LexState, (PErr, LexState)>(st_a));
                        assert(st_measure(st_a) <= st_measure(st1));
                    },
                }
                assert(spec_parse_expr(st) == spec_parse_apps(st_a, e1));
                lemma_parse_base_operand(e2, s, m, q2);
                let st_b = LexState { s: s, pos: end, push: None };
                assert(spec_parse_base(st_a) == BaseRes::Item(e2, st_b));
                assert(st_measure(st_b) < st_measure(st_a));
                assert(st_take(st_b) == Ok::<(Tok, LexState), (char, LexState)>((ft, fin0)));
                assert(spec_parse_base(st_b) == BaseRes::Stop(fin));
                assert(spec_parse_apps(st_b, e) == Ok::<(ExprV, LexState), (PErr, LexState)>(
                    (e, fin),
                ));
                assert(spec_parse_apps(st_a, e1) == Ok::<(ExprV, LexState), (PErr, LexState)>(
                    (e, fin),
                ));
            
        },
        _ => {},
    }
}

#[verifier::rlimit(100)]
proof fn lemma_ppe_lam(e: ExprV, s: Seq<char>, pos: int, pos2: int, ft: Tok, fp: int)
    requires
        wf_expr(e),
        0 <= pos <= pos2,
        forall|i: int| pos <= i < pos2 ==> is_space_char(s[i]),
        at_text(s, pos2, print_spec(e)),
        hard_boundary(s, pos2 + print_spec(e).len()),
        spec_token(s, pos2 + print_spec(e).len()) == Ok::<(Tok, int), (char, int)>((ft, fp)),
        stops_expr(ft),
        e is Lam,
    ensures
        spec_parse_expr(LexState { s: s, pos: pos, push: None }) == Ok::<
            (ExprV, LexState),
            (PErr, LexState),
        >((e, LexState { s: s, pos: fp, push: Some(ft) })),
    decreases e, 0int,
{
    let st = LexState { s: s, pos: pos, push: None };
    let end = pos2 + print_spec(e).len();
    let fin = LexState { s: s, pos: fp, push: Some(ft) };
    let fin0 = LexState { s: s, pos: fp, push: None };
    lemma_token_ws(s, pos, pos2);
    lemma_spec_token_bounds(s, end);
    match e {
        ExprV::Lam(x, bb) => {

                let b = *bb;
                let pb = print_spec(b);
                lemma_at_text_split(s, pos2, seq!['\u{03bb}'] + x + seq!['.'], pb);
                lemma_at_text_split(s, pos2, seq!['\u{03bb}'] + x, seq!['.']);
                lemma_at_text_split(s, pos2, seq!['\u{03bb}'], x);
                lemma_at_char(s, pos2, '\u{03bb}');
                let p_x = pos2 + 1;
                let p_dot = p_x + x.len();
                lemma_at_char(s, p_dot, '.');
                let p_b = p_dot + 1;
                lemma_token_single(s, pos2);
                lemma_token_single(s, p_dot);
                let st1 = LexState { s: s, pos: p_x, push: None };
                assert(st_take(st) == Ok::<(Tok, LexState), (char, LexState)>((Tok::Lam, st1)));
                lemma_token_ident(s, p_x, x);
                let st2 = LexState { s: s, pos: p_dot, push: None };
                assert(st_take(st1) == Ok::<(Tok, LexState), (char, LexState)>((Tok::Var(x), st2)));
                let st3 = LexState { s: s, pos: p_b, push: None };
                assert(spec_expect(st2, Tok::Dot) == Ok::<LexState, (PErr, LexState)>(st3));
                lemma_parse_expr_print(b, s, p_b, p_b, ft, fp);
                let st4 = LexState { s: s, pos: fp, push: Some(ft) };
                assert(spec_parse_expr(st3) == Ok::<(ExprV, LexState), (PErr, LexState)>((b, st4)));
                lemma_print_nonempty(b);
                assert(st_measure(st4) <= st_measure(st1));
                assert(st_take(st4) == Ok::<(Tok, LexState), (char, LexState)>((ft, fin0)));
                assert(spec_parse_base(st4) == BaseRes::Stop(fin));
                assert(spec_parse_apps(st4, e) == Ok::<(ExprV, LexState), (PErr, LexState)>(
                    (e, fin),
                ));
            
        },
        _ => {},
    }
}

#[verifier::rlimit(100)]
proof fn lemma_ppe_let(e: ExprV, s: Seq<char>, pos: int, pos2: int, ft: Tok, fp: int)
    requires
        wf_expr(e),
        0 <= pos <= pos2,
        forall|i: int| pos <= i < pos2 ==> is_space_char(s[i]),
        at_text(s, pos2, print_spec(e)),
        hard_boundary(s, pos2 + print_spec(e).len()),
        spec_token(s, pos2 + print_spec(e).len()) == Ok::<(Tok, int), (char, int)>((ft, fp)),
        stops_expr(ft),
        e is Let,
    ensures
        spec_parse_expr(LexState { s: s, pos: pos, push: None }) == Ok::<
            (ExprV, LexState),
            (PErr, LexState),
        >((e, LexState { s: s, pos: fp, push: Some(ft) })),
    decreases e, 0int,
{
    let st = LexState { s: s, pos: pos, push: None };
    let end = pos2 + print_spec(e).len();
    let fin = LexState { s: s, pos: fp, push: Some(ft) };
    let fin0 = LexState { s: s, pos: fp, push: None };
    lemma_token_ws(s, pos, pos2);
    lemma_spec_token_bounds(s, end);
    match e {
        ExprV::Let(x, vv, bb) => {

                let v = *vv;
                let b = *bb;
                let pv = print_spec(v);
                let pb = print_spec(b);
                let a1 = seq!['l', 'e', 't', ' '];
                let a2 = seq![' ', '=', ' '];
                let a3 = seq![' ', 'i', 'n', ' '];
                lemma_at_text_split(s, pos2, a1 + x + a2 + pv + a3, pb);
                lemma_at_text_split(s, pos2, a1 + x + a2 + pv, a3);
                lemma_at_text_split(s, pos2, a1 + x + a2, pv);
                lemma_at_text_split(s, pos2, a1 + x, a2);
                lemma_at_text_split(s, pos2, a1, x);
                let p_x = pos2 + 4;
                let p_a2 = p_x + x.len();
                let p_v = p_a2 + 3;
                let p_a3 = p_v + pv.len();
                let p_b = p_a3 + 4;
                assert(a1 =~= seq!['l', 'e', 't'] + seq![' ']);
                lemma_at_text_split(s, pos2, seq!['l', 'e', 't'], seq![' ']);
                lemma_at_char(s, pos2 + 3, ' ');
                assert(a2 =~= seq![' '] + seq!['='] + seq![' ']);
                lemma_at_text_split(s, p_a2, seq![' '] + seq!['='], seq![' ']);
                lemma_at_text_split(s, p_a2, seq![' '], seq!['=']);
                lemma_at_char(s, p_a2, ' ');
                lemma_at_char(s, p_a2 + 1, '=');
                lemma_at_char(s, p_a2 + 2, ' ');
                assert(a3 =~= seq![' '] + seq!['i', 'n'] + seq![' ']);
                lemma_at_text_split(s, p_a3, seq![' '] + seq!['i', 'n'], seq![' ']);
                lemma_at_text_split(s, p_a3, seq![' '], seq!['i', 'n']);
                lemma_at_char(s, p_a3, ' ');
                lemma_at_char(s, p_a3 + 3, ' ');
                // the head keyword
                assert(seq!['l', 'e', 't'][0] == 'l');
                lemma_token_ident(s, pos2, seq!['l', 'e', 't']);
                let st1 = LexState { s: s, pos: pos2 + 3, push: None };
                assert(st_take(st) == Ok::<(Tok, LexState), (char, LexState)>((Tok::KwLet, st1)));
                // the bound name
                lemma_token_ws(s, pos2 + 3, p_x);
                lemma_token_ident(s, p_x, x);
                let st2 = LexState { s: s, pos: p_a2, push: None };
                assert(st_take(st1) == Ok::<(Tok, LexState), (char, LexState)>((Tok::Var(x), st2)));
                // the equals sign
                lemma_token_ws(s, p_a2, p_a2 + 1);
                lemma_token_single(s, p_a2 + 1);
                let st3 = LexState { s: s, pos: p_a2 + 2, push: None };
                assert(spec_expect(st2, Tok::Equal) == Ok::<LexState, (PErr, LexState)>(st3));
                // the bound value, stopped by `in`
                assert(seq!['i', 'n'][0] == 'i');
                lemma_token_ident(s, p_a3 + 1, seq!['i', 'n']);
                lemma_token_ws(s, p_a3, p_a3 + 1);
                lemma_parse_expr_print(v, s, p_a2 + 2, p_v, Tok::KwIn, p_a3 + 3);
                let st4 = LexState { s: s, pos: p_a3 + 3, push: Some(Tok::KwIn) };
                assert(spec_parse_expr(st3) == Ok::<(ExprV, LexState), (PErr, LexState)>((v, st4)));
                let st5 = LexState { s: s, pos: p_a3 + 3, push: None };
                assert(spec_expect(st4, Tok::KwIn) == Ok::<LexState, (PErr, LexState)>(st5));
                assert(st_measure(st5) < st_measure(st2));
                // the body
                lemma_parse_expr_print(b, s, p_a3 + 3, p_b, ft, fp);
                let st6 = LexState { s: s, pos: fp, push: Some(ft) };
                assert(spec_parse_expr(st5) == Ok::<(ExprV, LexState), (PErr, LexState)>((b, st6)));
                assert(st_measure(st6) <= st_measure(st2));
                assert(st_take(st6) == Ok::<(Tok, LexState), (char, LexState)>((ft, fin0)));
                assert(spec_parse_base(st6) == BaseRes::Stop(fin));
                assert(spec_parse_apps(st6, e) == Ok::<(ExprV, LexState), (PErr, LexState)>(
                    (e, fin),
                ));
            
        },
        _ => {},
    }
}

/// Two lexer states whose next take agrees parse alike: after the first
/// token everything the parser does depends only on what the take
/// returned.
pub proof fn lemma_parse_expr_take_equiv(a: LexState, b: LexState)
    requires
        st_take(a) == st_take(b),
    ensures
        spec_parse_expr(a) == spec_parse_expr(b),
{
}

/// Round trip: printing a well-formed expression and parsing the text
/// back yields exactly that expression.
pub proof fn lemma_parse_print_roundtrip(e: ExprV)
    requires
        wf_expr(e),
    ensures
        spec_parse(print_spec(e)) == Some(Ok::<ExprV, PErr>(e)),
{
    let s = print_spec(e);
    let n = s.len() as int;
    lemma_print_nonempty(e);
    assert(s.subrange(0, n) =~= s);
    assert(spec_token(s, n) == Ok::<(Tok, int), (char, int)>((Tok::Eof, n)));
    lemma_parse_expr_print(e, s, 0, 0, Tok::Eof, n);
    let st0 = LexState { s: s, pos: 0, push: None };
    let fin = LexState { s: s, pos: n, push: Some(Tok::Eof) };
    assert(spec_parse_expr(st0) == Ok::<(ExprV, LexState), (PErr, LexState)>((e, fin)));
    match st_take(st0) {
        Ok((t1, st1)) => {
            assert(t1 != Tok::Eof) by {
                if t1 == Tok::Eof {
                    assert(spec_parse_expr(st0) is Err);
                }
            }
            let stp = LexState { s: st1.s, pos: st1.pos, push: Some(t1) };
            assert(st_take(stp) == st_take(st0));
            lemma_parse_expr_take_equiv(stp, st0);
            assert(spec_parse_expr(stp) == Ok::<(ExprV, LexState), (PErr, LexState)>((e, fin)));
            assert(st_take(fin) == Ok::<(Tok, LexState), (char, LexState)>(
                (Tok::Eof, LexState { s: s, pos: n, push: None }),
            ));
        },
        Err(_) => {
            assert(spec_parse_expr(st0) is Err);
        },
    }
}

} // verus!
