use lambda_eval::Expr;
use lambda_eval::Subst;
use lambda_eval::parse;
use lambda_eval::reduce;

fn parse_ok(s: &str) -> Expr {
    parse::parse(s).expect("an expression").expect("no error")
}

#[test]
fn beta_step_substitutes_the_argument() {
    let e = parse_ok("(\\x.x) y");
    let env = Subst::new();
    let stepped = reduce(e, &env).expect("one step");
    assert_eq!(stepped, Expr::var("y"));
    assert!(reduce(stepped, &env).is_none());
}

#[test]
fn let_unfolds_its_binding() {
    let e = parse_ok("let x = y in x");
    let stepped = reduce(e, &Subst::new()).expect("one step");
    assert_eq!(stepped, Expr::var("y"));
}

#[test]
fn abstraction_is_a_value() {
    let e = parse_ok("\\x.x x");
    assert!(reduce(e, &Subst::new()).is_none());
}

#[test]
fn unbound_variable_is_stuck() {
    assert!(reduce(Expr::var("q"), &Subst::new()).is_none());
}

#[test]
fn bound_variable_steps_to_its_value() {
    let env = Subst::new().extend(String::from("q"), Expr::var("w"));
    let stepped = reduce(Expr::var("q"), &env).expect("one step");
    assert_eq!(stepped, Expr::var("w"));
}

#[test]
fn argument_reduces_before_the_function() {
    // the argument `(\y.y) z` steps first, before the outer beta step
    let e = parse_ok("(\\x.x) ((\\y.y) z)");
    let stepped = reduce(e, &Subst::new()).expect("one step");
    assert_eq!(stepped, parse_ok("(\\x.x) z"));
}

#[test]
fn reduction_is_deterministic() {
    let env = Subst::new().extend(String::from("g"), Expr::var("h"));
    let e = parse_ok("(\\x.x) (g g)");
    let once = reduce(e.clone(), &env).expect("one step");
    let again = reduce(e, &env).expect("one step");
    assert_eq!(once, again);
}

#[test]
fn normal_form_stays_a_normal_form() {
    let env = Subst::new();
    let e = parse_ok("\\x.x");
    assert!(reduce(e.clone(), &env).is_none());
    assert!(reduce(e, &env).is_none());
}

#[test]
fn shadowed_binder_blocks_substitution() {
    let env = Subst::new().extend(String::from("x"), Expr::var("anything"));
    let lam = Expr::lam("x", Expr::var("x"));
    assert_eq!(env.apply(lam.clone()), lam);
}

#[test]
fn lookup_returns_the_stored_value() {
    // the newer binding is stored as given; the older name in it is not
    // substituted at extension time
    let v1 = Expr::var("v");
    let v2 = Expr::app(Expr::var("x"), Expr::var("w"));
    let env = Subst::new()
        .extend(String::from("x"), v1)
        .extend(String::from("x2"), v2.clone());
    assert_eq!(env.apply(Expr::var("x2")), v2);
}

#[test]
fn extension_reapplies_to_older_bindings() {
    // extending with `g = h` rewrites the stored value of `f`
    let env = Subst::new()
        .extend(String::from("f"), parse_ok("\\x.g x"))
        .extend(String::from("g"), Expr::var("h"));
    assert_eq!(env.apply(Expr::var("f")), parse_ok("\\x.h x"));
}

#[test]
fn rebinding_a_name_replaces_its_value() {
    let env = Subst::new()
        .extend(String::from("x"), Expr::var("a"))
        .extend(String::from("x"), Expr::var("b"));
    assert_eq!(env.apply(Expr::var("x")), Expr::var("b"));
}

#[test]
fn contain_sees_only_bound_names() {
    let env = Subst::new().extend(String::from("a"), Expr::var("b"));
    assert!(env.contain("a"));
    assert!(!env.contain("b"));
}

#[test]
fn divergent_term_never_reaches_a_fixpoint() {
    let env = Subst::new();
    let mut e = parse_ok("(\\f.(\\x.f (x x)) (\\x.f (x x))) g");
    for _ in 0..50 {
        let t = reduce(e.clone(), &env).expect("a divergent term always steps");
        assert_ne!(t, e);
        e = t;
    }
}

#[test]
fn freevar_respects_binders() {
    let e = parse_ok("let x = \\x.x in x y");
    assert!(e.freevar("y"));
    assert!(!e.freevar("x"));
    let e2 = parse_ok("\\x.\\y.z");
    assert!(e2.freevar("z"));
    assert!(!e2.freevar("x"));
}

#[test]
fn is_var_tells_leaves_apart() {
    assert!(Expr::var("x").is_var());
    assert!(!Expr::lam("x", Expr::var("x")).is_var());
}
