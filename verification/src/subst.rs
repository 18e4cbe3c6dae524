use vstd::prelude::*;

verus! {

use crate::expr::Expr;
use crate::expr::ExprV;
use immutable_map::TreeMap;

/// What a `TreeMap<String, Expr>` holds, as a mapping from each key's
/// characters to the model of the expression bound to it.
pub uninterp spec fn tree_map_entries(m: TreeMap<String, Expr>) -> Map<
    Seq<char>,
    ExprV,
>;

#[verifier::external_type_specification]
#[verifier::external_body]
#[verifier::reject_recursive_types(K)]
#[verifier::reject_recursive_types(V)]
pub struct ExTreeMap<K, V>(TreeMap<K, V>);

/// The environment with no bindings.
pub open spec fn empty_env() -> Map<Seq<char>, ExprV> {
    Map::empty()
}

/// Relies on immutable_map::TreeMap::new: the fresh map holds no entries.
#[verifier::external_body]
fn tm_new() -> (r: TreeMap<String, Expr>)
    ensures
        tree_map_entries(r) == empty_env(),
{
    TreeMap::new()
}

/// Relies on immutable_map::TreeMap::insert: the returned copy holds the
/// receiver's entries plus the new binding, which replaces any previous
/// binding of the same key. Entries the tree copies on the way down go
/// through `String::clone` and `Expr::clone`, which keep the model.
#[verifier::external_body]
fn tm_insert(
    m: &TreeMap<String, Expr>,
    k: String,
    v: Expr,
) -> (r: TreeMap<String, Expr>)
    ensures
        tree_map_entries(r) == tree_map_entries(*m).insert(k@, v@),
{
    m.insert(k, v)
}

/// Relies on immutable_map::TreeMap::contains_key.
#[verifier::external_body]
fn tm_contains_key(m: &TreeMap<String, Expr>, k: &str) -> (r: bool)
    ensures
        r == tree_map_entries(*m).dom().contains(k@),
{
    m.contains_key(k)
}

/// Relies on immutable_map::TreeMap::get: the returned reference is the
/// value bound to the key, or nothing when the key is absent.
#[verifier::external_body]
fn tm_get<'a>(m: &'a TreeMap<String, Expr>, k: &str) -> (r: Option<&'a Expr>)
    ensures
        match r {
            Some(v) => tree_map_entries(*m).dom().contains(k@) && v@ == tree_map_entries(*m)[k@],
            None => !tree_map_entries(*m).dom().contains(k@),
        },
{
    m.get(k)
}

/// Relies on immutable_map::TreeMap::iter: the iterator yields every entry
/// of the map exactly once, sorted by key, so the collected keys are
/// distinct and cover the map.
#[verifier::external_body]
fn tm_to_vec(m: &TreeMap<String, Expr>) -> (r: Vec<(String, Expr)>)
    ensures
        forall|i: int|
            0 <= i < r@.len() ==> #[trigger] tree_map_entries(*m).contains_pair(
                r@[i].0@,
                r@[i].1@,
            ),
        forall|k: Seq<char>|
            tree_map_entries(*m).dom().contains(k) ==> exists|i: int|
                0 <= i < r@.len() && #[trigger] r@[i].0@ == k,
        forall|i: int, j: int| 0 <= i < j < r@.len() ==> r@[i].0@ != r@[j].0@,
{
    let mut out = Vec::new();
    for (k, v) in m.iter() {
        out.push((k.clone(), v.clone()));
    }
    out
}

/// The mapping that binds `k` to `v` and nothing else.
pub open spec fn singleton(k: Seq<char>, v: ExprV) -> Map<Seq<char>, ExprV> {
    Map::empty().insert(k, v)
}

/// Substitution of every binding of `m` into `e`, skipping any subtree
/// whose binder shadows a bound name. A bound variable is replaced by the
/// stored expression as it stands; nothing is renamed, so capture is
/// possible when a stored expression's free name meets an unrelated
/// binder.
pub open spec fn apply_spec(m: Map<Seq<char>, ExprV>, e: ExprV) -> ExprV
    decreases e,
{
    match e {
        ExprV::App(e1, e2) => ExprV::App(
            Box::new(apply_spec(m, *e1)),
            Box::new(apply_spec(m, *e2)),
        ),
        ExprV::Lam(x, b) => if m.dom().contains(x) {
            e
        } else {
            ExprV::Lam(x, Box::new(apply_spec(m, *b)))
        },
        ExprV::Let(x, a, b) => if m.dom().contains(x) {
            e
        } else {
            ExprV::Let(x, Box::new(apply_spec(m, *a)), Box::new(apply_spec(m, *b)))
        },
        ExprV::Var(x) => if m.dom().contains(x) {
            m[x]
        } else {
            e
        },
    }
}

/// Extension of `m` with `k` bound to `v`: the new binding is applied to
/// the right-hand side of every entry already present, and `k` itself is
/// bound to `v` as given, replacing any previous binding of `k`.
pub open spec fn extend_spec(
    m: Map<Seq<char>, ExprV>,
    k: Seq<char>,
    v: ExprV,
) -> Map<Seq<char>, ExprV> {
    Map::new(
        |k2: Seq<char>| m.dom().contains(k2) || k2 == k,
        |k2: Seq<char>|
            if k2 == k {
                v
            } else {
                apply_spec(singleton(k, v), m[k2])
            },
    )
}

/// A persistent mapping from names to expressions. Every operation leaves
/// the receiver untouched and returns a fresh value.
pub struct Subst {
    map: TreeMap<String, Expr>,
}

impl View for Subst {
    type V = Map<Seq<char>, ExprV>;

    closed spec fn view(&self) -> Map<Seq<char>, ExprV> {
        tree_map_entries(self.map)
    }
}

impl Subst {
    /// The empty environment.
    pub fn new() -> (r: Subst)
        ensures
            r@ == empty_env(),
    {
        Subst { map: tm_new() }
    }

    /// Whether `k` is bound in the environment.
    pub fn contain(&self, k: &str) -> (r: bool)
        ensures
            r == self@.dom().contains(k@),
    {
        tm_contains_key(&self.map, k)
    }

    /// Substitutes every binding into `e`, per `apply_spec`.
    pub fn apply(&self, e: Expr) -> (r: Expr)
        ensures
            r@ == apply_spec(self@, e@),
        decreases e,
    {
        match e {
            Expr::App(e1, e2) => Expr::App(
                Box::new(self.apply(*e1)),
                Box::new(self.apply(*e2)),
            ),
            Expr::Lam(x, b) => {
                if tm_contains_key(&self.map, x.as_str()) {
                    Expr::Lam(x, b)
                } else {
                    Expr::Lam(x, Box::new(self.apply(*b)))
                }
            },
            Expr::Let(x, a, b) => {
                if tm_contains_key(&self.map, x.as_str()) {
                    Expr::Let(x, a, b)
                } else {
                    Expr::Let(x, Box::new(self.apply(*a)), Box::new(self.apply(*b)))
                }
            },
            Expr::Var(x) => {
                match tm_get(&self.map, x.as_str()) {
                    Some(v) => v.clone(),
                    None => Expr::Var(x),
                }
            },
        }
    }

    /// Returns the environment extended with `k` bound to `v`, per
    /// `extend_spec`: the new binding is first substituted into every
    /// stored right-hand side, then inserted.
    pub fn extend(&self, k: String, v: Expr) -> (r: Subst)
        ensures
            r@ == extend_spec(self@, k@, v@),
    {
        let ghost m0 = self@;
        let sing = Subst { map: tm_insert(&tm_new(), k.clone(), v.clone()) };
        proof {
            assert(sing@ =~= singleton(k@, v@));
        }
        let entries = tm_to_vec(&self.map);
        let mut out = tm_new();
        let mut i: usize = 0;
        while i < entries.len()
            invariant
                0 <= i <= entries@.len(),
                sing@ == singleton(k@, v@),
                forall|j: int|
                    0 <= j < entries@.len() ==> #[trigger] m0.contains_pair(
                        entries@[j].0@,
                        entries@[j].1@,
                    ),
                forall|kk: Seq<char>|
                    m0.dom().contains(kk) ==> exists|j: int|
                        0 <= j < entries@.len() && #[trigger] entries@[j].0@ == kk,
                forall|j1: int, j2: int|
                    0 <= j1 < j2 < entries@.len() ==> entries@[j1].0@ != entries@[j2].0@,
                forall|kk: Seq<char>|
                    #[trigger] tree_map_entries(out).dom().contains(kk) <==> exists|j: int|
                        0 <= j < i && #[trigger] entries@[j].0@ == kk,
                forall|j: int|
                    0 <= j < i ==> #[trigger] tree_map_entries(out)[entries@[j].0@] == apply_spec(
                        singleton(k@, v@),
                        entries@[j].1@,
                    ),
            decreases entries@.len() - i,
        {
            let ki = entries[i].0.clone();
            let vi = entries[i].1.clone();
            let applied = sing.apply(vi);
            out = tm_insert(&out, ki, applied);
            i = i + 1;
        }
        let out = tm_insert(&out, k, v);
        proof {
            let mfin = tree_map_entries(out);
            let mexp = extend_spec(m0, k@, v@);
            assert forall|kk: Seq<char>| #[trigger]
                mfin.dom().contains(kk) implies mexp.dom().contains(kk) by {
                if kk != k@ {
                    let j = choose|j: int| 0 <= j < entries@.len() && #[trigger] entries@[j].0@
                        == kk;
                    assert(m0.contains_pair(entries@[j].0@, entries@[j].1@));
                }
            }
            assert forall|kk: Seq<char>| #[trigger]
                mexp.dom().contains(kk) implies mfin.dom().contains(kk) by {
                if kk != k@ {
                    assert(m0.dom().contains(kk));
                }
            }
            assert forall|kk: Seq<char>| #[trigger]
                mfin.dom().contains(kk) implies mfin[kk] == mexp[kk] by {
                if kk != k@ {
                    let j = choose|j: int| 0 <= j < entries@.len() && #[trigger] entries@[j].0@
                        == kk;
                    assert(m0.contains_pair(entries@[j].0@, entries@[j].1@));
                    assert(tree_map_entries(out)[entries@[j].0@] == apply_spec(
                        singleton(k@, v@),
                        entries@[j].1@,
                    ));
                }
            }
            assert(mfin =~= mexp);
        }
        Subst { map: out }
    }
}

} // verus!
