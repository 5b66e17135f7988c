//! Types, and the table of inference variables that unification fills in.
use vstd::prelude::*;

verus! {

/// Whether a reference (or a reference pattern) is shared or mutable.
#[derive(Clone, Copy, Debug, PartialEq, Eq, Structural)]
pub enum Mutability {
    Shared,
    Mut,
}

/// A type as the pattern inferencer sees it. Shapes that the inferencer does not
/// look into are folded into `Scalar` (identified by a number) and `Str`.
#[derive(Debug)]
pub enum Ty {
    /// Not (yet) known.
    Unknown,
    /// An inference variable, an index into the `TypeTable`.
    Var(usize),
    /// A primitive type, identified by number.
    Scalar(u32),
    /// The string slice type.
    Str,
    /// The generic parameter of the given position of the enclosing definition.
    Param(usize),
    Ref(Mutability, Box<Ty>),
    Array(Box<Ty>),
    Slice(Box<Ty>),
    Tuple(Vec<Ty>),
    /// An instance of an algebraic data type: definition id and generic arguments.
    Adt(u32, Vec<Ty>),
}

/// The mathematical value of a type: the same tree, with lists as sequences.
pub enum TyModel {
    Unknown,
    Var(usize),
    Scalar(u32),
    Str,
    Param(usize),
    Ref(Mutability, Box<TyModel>),
    Array(Box<TyModel>),
    Slice(Box<TyModel>),
    Tuple(Seq<TyModel>),
    Adt(u32, Seq<TyModel>),
}

impl Ty {
    /// The value this type denotes; two types with the same model are the same type.
    pub open spec fn model(self) -> TyModel
        decreases self, 0nat,
    {
        match self {
            Ty::Unknown => TyModel::Unknown,
            Ty::Var(v) => TyModel::Var(v),
            Ty::Scalar(k) => TyModel::Scalar(k),
            Ty::Str => TyModel::Str,
            Ty::Param(i) => TyModel::Param(i),
            Ty::Ref(m, b) => TyModel::Ref(m, Box::new((*b).model())),
            Ty::Array(b) => TyModel::Array(Box::new((*b).model())),
            Ty::Slice(b) => TyModel::Slice(Box::new((*b).model())),
            Ty::Tuple(ts) => TyModel::Tuple(models(ts@, ts@.len())),
            Ty::Adt(id, ts) => TyModel::Adt(id, models(ts@, ts@.len())),
        }
    }
}

/// The models of the first `n` types of `ts`.
pub open spec fn models(ts: Seq<Ty>, n: nat) -> Seq<TyModel>
    decreases ts, n,
{
    if n == 0 || n > ts.len() {
        Seq::empty()
    } else {
        models(ts, (n - 1) as nat).push(ts[n - 1].model())
    }
}

/// `models` is the pointwise model of the list.
pub proof fn lemma_models(ts: Seq<Ty>, n: nat)
    requires
        n <= ts.len(),
    ensures
        models(ts, n).len() == n,
        forall|i: int| 0 <= i < n ==> #[trigger] models(ts, n)[i] == ts[i].model(),
    decreases n,
{
    if n > 0 {
        lemma_models(ts, (n - 1) as nat);
    }
}

/// Lists whose elements have pairwise equal models have equal models.
pub proof fn lemma_models_eq(rs: Seq<Ty>, ts: Seq<Ty>)
    requires
        rs.len() == ts.len(),
        forall|i: int| 0 <= i < ts.len() ==> #[trigger] rs[i].model() == ts[i].model(),
    ensures
        models(rs, rs.len()) == models(ts, ts.len()),
{
    lemma_models(rs, rs.len());
    lemma_models(ts, ts.len());
    assert(models(rs, rs.len()) =~= models(ts, ts.len()));
}

/// `r` has the same outermost constructor as `t` (and, for tuples and data types,
/// the same number of components).
pub open spec fn same_head(r: Ty, t: Ty) -> bool {
    match t {
        Ty::Unknown => r is Unknown,
        Ty::Var(v) => r == Ty::Var(v),
        Ty::Scalar(k) => r == Ty::Scalar(k),
        Ty::Str => r is Str,
        Ty::Param(i) => r == Ty::Param(i),
        Ty::Ref(m, _) => r matches Ty::Ref(m2, _) && m2 == m,
        Ty::Array(_) => r is Array,
        Ty::Slice(_) => r is Slice,
        Ty::Tuple(ts) => r matches Ty::Tuple(rs) && rs@.len() == ts@.len(),
        Ty::Adt(id, ts) => r matches Ty::Adt(id2, rs) && id2 == id && rs@.len() == ts@.len(),
    }
}

/// A structurally identical copy of `t`: the same type.
pub fn copy_ty(t: &Ty) -> (r: Ty)
    ensures
        same_head(r, *t),
        r.model() == t.model(),
        forall|v: usize| #[trigger] has_var(r, v) == has_var(*t, v),
        forall|v: usize| #[trigger] has_param(r, v) == has_param(*t, v),
    decreases *t,
{
    proof {
        lemma_has_var_unfold_all(*t);
        lemma_has_param_unfold_all(*t);
    }
    let r = match t {
        Ty::Unknown => Ty::Unknown,
        Ty::Var(v) => Ty::Var(*v),
        Ty::Scalar(k) => Ty::Scalar(*k),
        Ty::Str => Ty::Str,
        Ty::Param(i) => Ty::Param(*i),
        Ty::Ref(m, b) => Ty::Ref(*m, Box::new(copy_ty(b))),
        Ty::Array(b) => Ty::Array(Box::new(copy_ty(b))),
        Ty::Slice(b) => Ty::Slice(Box::new(copy_ty(b))),
        Ty::Tuple(ts) => {
            let rs = copy_list(ts);
            proof {
                lemma_list_same_vars(rs@, ts@);
                lemma_list_same_params(rs@, ts@);
                lemma_models_eq(rs@, ts@);
            }
            Ty::Tuple(rs)
        },
        Ty::Adt(id, ts) => {
            let rs = copy_list(ts);
            proof {
                lemma_list_same_vars(rs@, ts@);
                lemma_list_same_params(rs@, ts@);
                lemma_models_eq(rs@, ts@);
            }
            Ty::Adt(*id, rs)
        },
    };
    proof {
        lemma_has_var_unfold_all(r);
        lemma_has_param_unfold_all(r);
    }
    r
}

/// Copies each type of the list.
pub fn copy_list(ts: &Vec<Ty>) -> (r: Vec<Ty>)
    ensures
        r@.len() == ts@.len(),
        forall|i: int| 0 <= i < ts@.len() ==> same_head(#[trigger] r@[i], ts@[i]),
        forall|i: int| 0 <= i < ts@.len() ==> #[trigger] r@[i].model() == ts@[i].model(),
        forall|i: int, v: usize|
            0 <= i < ts@.len() ==> #[trigger] has_var(r@[i], v) == has_var(ts@[i], v),
        forall|i: int, v: usize|
            0 <= i < ts@.len() ==> #[trigger] has_param(r@[i], v) == has_param(ts@[i], v),
    decreases ts,
{
    let mut r: Vec<Ty> = Vec::new();
    let mut i: usize = 0;
    while i < ts.len()
        invariant
            i <= ts@.len(),
            r@.len() == i,
            forall|j: int| 0 <= j < i ==> same_head(#[trigger] r@[j], ts@[j]),
            forall|j: int| 0 <= j < i ==> #[trigger] r@[j].model() == ts@[j].model(),
            forall|j: int, v: usize| 0 <= j < i ==> #[trigger] has_var(r@[j], v) == has_var(ts@[j], v),
            forall|j: int, v: usize| 0 <= j < i ==> #[trigger] has_param(r@[j], v) == has_param(ts@[j], v),
        decreases ts@.len() - i,
    {
        proof {
            assert(decreases_to!(ts => ts@[i as int]));
        }
        let c = copy_ty(&ts[i]);
        r.push(c);
        i = i + 1;
    }
    r
}

/// Lists whose elements pairwise hold the same variables hold the same variables.
proof fn lemma_list_same_vars(rs: Seq<Ty>, ts: Seq<Ty>)
    requires
        rs.len() == ts.len(),
        forall|i: int, v: usize| 0 <= i < ts.len() ==> #[trigger] has_var(rs[i], v) == has_var(ts[i], v),
    ensures
        forall|v: usize| #[trigger] list_has_var(rs, v) == list_has_var(ts, v),
{
    assert forall|v: usize| #[trigger] list_has_var(rs, v) == list_has_var(ts, v) by {
        if list_has_var(rs, v) {
            let i = choose|i: int| 0 <= i < rs.len() && #[trigger] has_var(rs[i], v);
            assert(has_var(ts[i], v));
        }
        if list_has_var(ts, v) {
            let i = choose|i: int| 0 <= i < ts.len() && #[trigger] has_var(ts[i], v);
            assert(has_var(rs[i], v));
        }
    }
}

/// Lists whose elements pairwise hold the same generic parameters hold the same generic parameters.
proof fn lemma_list_same_params(rs: Seq<Ty>, ts: Seq<Ty>)
    requires
        rs.len() == ts.len(),
        forall|i: int, v: usize| 0 <= i < ts.len() ==> #[trigger] has_param(rs[i], v) == has_param(ts[i], v),
    ensures
        forall|v: usize| #[trigger] list_has_param(rs, v) == list_has_param(ts, v),
{
    assert forall|v: usize| #[trigger] list_has_param(rs, v) == list_has_param(ts, v) by {
        if list_has_param(rs, v) {
            let i = choose|i: int| 0 <= i < rs.len() && #[trigger] has_param(rs[i], v);
            assert(has_param(ts[i], v));
        }
        if list_has_param(ts, v) {
            let i = choose|i: int| 0 <= i < ts.len() && #[trigger] has_param(ts[i], v);
            assert(has_param(rs[i], v));
        }
    }
}

/// The immediate component `i` of `t`: the argument `i` of a tuple or data type,
/// or (for `i == 0`) the referent of a reference or the element of an array or slice.
pub open spec fn component(t: Ty, i: int) -> Option<Ty> {
    match t {
        Ty::Ref(_, b) => if i == 0 {
            Some(*b)
        } else {
            None
        },
        Ty::Array(b) => if i == 0 {
            Some(*b)
        } else {
            None
        },
        Ty::Slice(b) => if i == 0 {
            Some(*b)
        } else {
            None
        },
        Ty::Tuple(ts) => if 0 <= i < ts@.len() {
            Some(ts@[i])
        } else {
            None
        },
        Ty::Adt(_, ts) => if 0 <= i < ts@.len() {
            Some(ts@[i])
        } else {
            None
        },
        _ => None,
    }
}

/// The part of `t` reached by taking the components that `path` names, in turn.
pub open spec fn sub_at(t: Ty, path: Seq<int>) -> Option<Ty>
    decreases path.len(),
{
    if path.len() == 0 {
        Some(t)
    } else {
        match component(t, path[0]) {
            Some(c) => sub_at(c, path.drop_first()),
            None => None,
        }
    }
}

/// The variable `v` occurs somewhere in `t`.
pub open spec fn has_var(t: Ty, v: usize) -> bool {
    exists|p: Seq<int>| #[trigger] sub_at(t, p) == Some(Ty::Var(v))
}

/// Some element of `ts` mentions `v`.
pub open spec fn list_has_var(ts: Seq<Ty>, v: usize) -> bool {
    exists|i: int| 0 <= i < ts.len() && #[trigger] has_var(ts[i], v)
}

/// The variables of `t` are those of its immediate components.
pub proof fn lemma_has_var_unfold(t: Ty, v: usize)
    ensures
        has_var(t, v) == match t {
            Ty::Var(w) => w == v,
            Ty::Ref(_, b) => has_var(*b, v),
            Ty::Array(b) => has_var(*b, v),
            Ty::Slice(b) => has_var(*b, v),
            Ty::Tuple(ts) => list_has_var(ts@, v),
            Ty::Adt(_, ts) => list_has_var(ts@, v),
            _ => false,
        },
{
    if has_var(t, v) {
        let p = choose|p: Seq<int>| #[trigger] sub_at(t, p) == Some(Ty::Var(v));
        if p.len() > 0 {
            let rest = p.drop_first();
            let c = component(t, p[0])->0;
            assert(sub_at(c, rest) == Some(Ty::Var(v)));
            assert(has_var(c, v));
        }
    }
    match t {
        Ty::Var(w) => {
            if w == v {
                assert(sub_at(t, Seq::empty()) == Some(Ty::Var(v)));
            }
        },
        Ty::Ref(_, b) => lemma_has_var_step(t, *b, 0, v),
        Ty::Array(b) => lemma_has_var_step(t, *b, 0, v),
        Ty::Slice(b) => lemma_has_var_step(t, *b, 0, v),
        Ty::Tuple(ts) => {
            if list_has_var(ts@, v) {
                let i = choose|i: int| 0 <= i < ts@.len() && #[trigger] has_var(ts@[i], v);
                lemma_has_var_step(t, ts@[i], i, v);
            }
        },
        Ty::Adt(_, ts) => {
            if list_has_var(ts@, v) {
                let i = choose|i: int| 0 <= i < ts@.len() && #[trigger] has_var(ts@[i], v);
                lemma_has_var_step(t, ts@[i], i, v);
            }
        },
        _ => {},
    }
}

/// `lemma_has_var_unfold` for every variable.
pub proof fn lemma_has_var_unfold_all(t: Ty)
    ensures
        forall|v: usize|
            #[trigger] has_var(t, v) == match t {
                Ty::Var(w) => w == v,
                Ty::Ref(_, b) => has_var(*b, v),
                Ty::Array(b) => has_var(*b, v),
                Ty::Slice(b) => has_var(*b, v),
                Ty::Tuple(ts) => list_has_var(ts@, v),
                Ty::Adt(_, ts) => list_has_var(ts@, v),
                _ => false,
            },
{
    assert forall|v: usize|
        #[trigger] has_var(t, v) == match t {
            Ty::Var(w) => w == v,
            Ty::Ref(_, b) => has_var(*b, v),
            Ty::Array(b) => has_var(*b, v),
            Ty::Slice(b) => has_var(*b, v),
            Ty::Tuple(ts) => list_has_var(ts@, v),
            Ty::Adt(_, ts) => list_has_var(ts@, v),
            _ => false,
        } by {
        lemma_has_var_unfold(t, v);
    }
}

/// A variable of the component `c` at step `i` of `t` is a variable of `t`.
proof fn lemma_has_var_step(t: Ty, c: Ty, i: int, v: usize)
    requires
        component(t, i) == Some(c),
    ensures
        has_var(c, v) ==> has_var(t, v),
{
    if has_var(c, v) {
        let q = choose|q: Seq<int>| #[trigger] sub_at(c, q) == Some(Ty::Var(v));
        let p = seq![i] + q;
        assert(p.drop_first() =~= q);
        assert(sub_at(t, p) == Some(Ty::Var(v)));
    }
}

/// The generic parameter `v` occurs somewhere in `t`.
pub open spec fn has_param(t: Ty, v: usize) -> bool {
    exists|p: Seq<int>| #[trigger] sub_at(t, p) == Some(Ty::Param(v))
}

/// Some element of `ts` mentions the generic parameter `v`.
pub open spec fn list_has_param(ts: Seq<Ty>, v: usize) -> bool {
    exists|i: int| 0 <= i < ts.len() && #[trigger] has_param(ts[i], v)
}

/// The generic parameters of `t` are those of its immediate components.
pub proof fn lemma_has_param_unfold(t: Ty, v: usize)
    ensures
        has_param(t, v) == match t {
            Ty::Param(w) => w == v,
            Ty::Ref(_, b) => has_param(*b, v),
            Ty::Array(b) => has_param(*b, v),
            Ty::Slice(b) => has_param(*b, v),
            Ty::Tuple(ts) => list_has_param(ts@, v),
            Ty::Adt(_, ts) => list_has_param(ts@, v),
            _ => false,
        },
{
    if has_param(t, v) {
        let p = choose|p: Seq<int>| #[trigger] sub_at(t, p) == Some(Ty::Param(v));
        if p.len() > 0 {
            let rest = p.drop_first();
            let c = component(t, p[0])->0;
            assert(sub_at(c, rest) == Some(Ty::Param(v)));
            assert(has_param(c, v));
        }
    }
    match t {
        Ty::Param(w) => {
            if w == v {
                assert(sub_at(t, Seq::empty()) == Some(Ty::Param(v)));
            }
        },
        Ty::Ref(_, b) => lemma_has_param_step(t, *b, 0, v),
        Ty::Array(b) => lemma_has_param_step(t, *b, 0, v),
        Ty::Slice(b) => lemma_has_param_step(t, *b, 0, v),
        Ty::Tuple(ts) => {
            if list_has_param(ts@, v) {
                let i = choose|i: int| 0 <= i < ts@.len() && #[trigger] has_param(ts@[i], v);
                lemma_has_param_step(t, ts@[i], i, v);
            }
        },
        Ty::Adt(_, ts) => {
            if list_has_param(ts@, v) {
                let i = choose|i: int| 0 <= i < ts@.len() && #[trigger] has_param(ts@[i], v);
                lemma_has_param_step(t, ts@[i], i, v);
            }
        },
        _ => {},
    }
}

/// `lemma_has_param_unfold` for every variable.
pub proof fn lemma_has_param_unfold_all(t: Ty)
    ensures
        forall|v: usize|
            #[trigger] has_param(t, v) == match t {
                Ty::Param(w) => w == v,
                Ty::Ref(_, b) => has_param(*b, v),
                Ty::Array(b) => has_param(*b, v),
                Ty::Slice(b) => has_param(*b, v),
                Ty::Tuple(ts) => list_has_param(ts@, v),
                Ty::Adt(_, ts) => list_has_param(ts@, v),
                _ => false,
            },
{
    assert forall|v: usize|
        #[trigger] has_param(t, v) == match t {
            Ty::Param(w) => w == v,
            Ty::Ref(_, b) => has_param(*b, v),
            Ty::Array(b) => has_param(*b, v),
            Ty::Slice(b) => has_param(*b, v),
            Ty::Tuple(ts) => list_has_param(ts@, v),
            Ty::Adt(_, ts) => list_has_param(ts@, v),
            _ => false,
        } by {
        lemma_has_param_unfold(t, v);
    }
}

/// A generic parameter of the component `c` at step `i` of `t` is a variable of `t`.
proof fn lemma_has_param_step(t: Ty, c: Ty, i: int, v: usize)
    requires
        component(t, i) == Some(c),
    ensures
        has_param(c, v) ==> has_param(t, v),
{
    if has_param(c, v) {
        let q = choose|q: Seq<int>| #[trigger] sub_at(c, q) == Some(Ty::Param(v));
        let p = seq![i] + q;
        assert(p.drop_first() =~= q);
        assert(sub_at(t, p) == Some(Ty::Param(v)));
    }
}

/// A component of a type without generic parameters has none either.
proof fn lemma_no_param_child(t: Ty, c: Ty, i: int)
    requires
        component(t, i) == Some(c),
        forall|j: usize| !#[trigger] has_param(t, j),
    ensures
        forall|j: usize| !#[trigger] has_param(c, j),
{
    assert forall|j: usize| !#[trigger] has_param(c, j) by {
        lemma_has_param_step(t, c, i, j);
    }
}

/// `t` with each generic parameter `Param(i)` replaced by `substs[i]` (by
/// `Unknown` where `substs` has no such position). Without substitutions `t` is
/// handed back untouched.
pub fn subst(t: Ty, substs: &Vec<Ty>) -> (r: Ty)
    ensures
        !(t is Param) ==> same_head(r, t),
        substs@.len() == 0 ==> r == t,
        substs@.len() > 0 ==> forall|j: usize|
            #[trigger] has_param(r, j) ==> exists|i: int|
                0 <= i < substs@.len() && #[trigger] has_param(substs@[i], j),
        forall|w: usize|
            #[trigger] has_var(r, w) ==> has_var(t, w) || exists|i: int|
                0 <= i < substs@.len() && #[trigger] has_var(substs@[i], w),
        (t matches Ty::Param(i) && i < substs@.len()) ==> same_head(r, substs@[t->Param_0 as int]),
        (forall|j: usize| !#[trigger] has_param(t, j)) ==> r.model() == t.model(),
        (forall|j: usize| !#[trigger] has_param(t, j)) ==> forall|w: usize| #[trigger] has_var(r, w) ==> has_var(t, w),
{
    if substs.len() == 0 {
        t
    } else {
        subst_rec(t, substs)
    }
}

fn subst_rec(t: Ty, substs: &Vec<Ty>) -> (r: Ty)
    ensures
        !(t is Param) ==> same_head(r, t),
        forall|j: usize|
            #[trigger] has_param(r, j) ==> exists|i: int|
                0 <= i < substs@.len() && #[trigger] has_param(substs@[i], j),
        forall|w: usize|
            #[trigger] has_var(r, w) ==> has_var(t, w) || exists|i: int|
                0 <= i < substs@.len() && #[trigger] has_var(substs@[i], w),
        (t matches Ty::Param(i) && i < substs@.len()) ==> same_head(r, substs@[t->Param_0 as int]),
        (forall|j: usize| !#[trigger] has_param(t, j)) ==> r.model() == t.model(),
        (forall|j: usize| !#[trigger] has_param(t, j)) ==> forall|w: usize| #[trigger] has_var(r, w) ==> has_var(t, w),
    decreases t,
{
    let ghost t0 = t;
    proof {
        lemma_has_var_unfold_all(t0);
        lemma_has_param_unfold_all(t0);
    }
    let r = match t {
        Ty::Param(i) => {
            proof {
                assert(has_param(t0, i));
            }
            if i < substs.len() {
                copy_ty(&substs[i])
            } else {
                Ty::Unknown
            }
        },
        Ty::Ref(m, b) => Ty::Ref(m, Box::new(subst_rec(*b, substs))),
        Ty::Array(b) => Ty::Array(Box::new(subst_rec(*b, substs))),
        Ty::Slice(b) => Ty::Slice(Box::new(subst_rec(*b, substs))),
        Ty::Tuple(ts) => {
            let rs = subst_list(ts, substs);
            proof {
                if forall|j: usize| !#[trigger] has_param(t0, j) {
                    assert forall|i: int| 0 <= i < ts@.len() implies #[trigger] rs@[i].model() == ts@[i].model() by {
                        assert forall|j: usize| !#[trigger] has_param(ts@[i], j) by {
                            if has_param(ts@[i], j) {
                                assert(list_has_param(ts@, j));
                                assert(has_param(t0, j));
                            }
                        }
                    }
                    lemma_models_eq(rs@, ts@);
                }
            }
            Ty::Tuple(rs)
        },
        Ty::Adt(id, ts) => {
            let rs = subst_list(ts, substs);
            proof {
                if forall|j: usize| !#[trigger] has_param(t0, j) {
                    assert forall|i: int| 0 <= i < ts@.len() implies #[trigger] rs@[i].model() == ts@[i].model() by {
                        assert forall|j: usize| !#[trigger] has_param(ts@[i], j) by {
                            if has_param(ts@[i], j) {
                                assert(list_has_param(ts@, j));
                                assert(has_param(t0, j));
                            }
                        }
                    }
                    lemma_models_eq(rs@, ts@);
                }
            }
            Ty::Adt(id, rs)
        },
        _ => t,
    };
    proof {
        lemma_has_var_unfold_all(r);
        lemma_has_param_unfold_all(r);
        assert forall|j: usize| #[trigger] has_param(r, j) implies exists|i: int|
            0 <= i < substs@.len() && #[trigger] has_param(substs@[i], j) by {
            match (r, t0) {
                (Ty::Tuple(rs), Ty::Tuple(_)) => {
                    let k = choose|k: int| 0 <= k < rs@.len() && #[trigger] has_param(rs@[k], j);
                },
                (Ty::Adt(_, rs), Ty::Adt(_, _)) => {
                    let k = choose|k: int| 0 <= k < rs@.len() && #[trigger] has_param(rs@[k], j);
                },
                _ => {},
            }
        }
        if forall|j: usize| !#[trigger] has_param(t0, j) {
            match t0 {
                Ty::Ref(_, tb) => lemma_no_param_child(t0, *tb, 0),
                Ty::Array(tb) => lemma_no_param_child(t0, *tb, 0),
                Ty::Slice(tb) => lemma_no_param_child(t0, *tb, 0),
                _ => {},
            }
            assert forall|w: usize| #[trigger] has_var(r, w) implies has_var(t0, w) by {
                match (r, t0) {
                    (Ty::Tuple(rs), Ty::Tuple(ts)) => {
                        let k = choose|k: int| 0 <= k < rs@.len() && #[trigger] has_var(rs@[k], w);
                        lemma_no_param_child(t0, ts@[k], k);
                        assert(list_has_var(ts@, w));
                    },
                    (Ty::Adt(_, rs), Ty::Adt(_, ts)) => {
                        let k = choose|k: int| 0 <= k < rs@.len() && #[trigger] has_var(rs@[k], w);
                        lemma_no_param_child(t0, ts@[k], k);
                        assert(list_has_var(ts@, w));
                    },
                    _ => {},
                }
            }
        }
        assert forall|w: usize| #[trigger] has_var(r, w) implies has_var(t0, w) || exists|i: int|
            0 <= i < substs@.len() && #[trigger] has_var(substs@[i], w) by {
            match (r, t0) {
                (Ty::Tuple(rs), Ty::Tuple(ts)) => {
                    let k = choose|k: int| 0 <= k < rs@.len() && #[trigger] has_var(rs@[k], w);
                    if has_var(ts@[k], w) {
                        assert(list_has_var(ts@, w));
                    }
                },
                (Ty::Adt(_, rs), Ty::Adt(_, ts)) => {
                    let k = choose|k: int| 0 <= k < rs@.len() && #[trigger] has_var(rs@[k], w);
                    if has_var(ts@[k], w) {
                        assert(list_has_var(ts@, w));
                    }
                },
                _ => {},
            }
        }
    }
    r
}

fn subst_list(ts: Vec<Ty>, substs: &Vec<Ty>) -> (r: Vec<Ty>)
    ensures
        r@.len() == ts@.len(),
        forall|k: int, j: usize|
            0 <= k < r@.len() && #[trigger] has_param(r@[k], j) ==> exists|i: int|
                0 <= i < substs@.len() && #[trigger] has_param(substs@[i], j),
        forall|k: int, w: usize|
            0 <= k < r@.len() && #[trigger] has_var(r@[k], w) ==> has_var(ts@[k], w) || exists|i: int|
                0 <= i < substs@.len() && #[trigger] has_var(substs@[i], w),
        forall|k: int|
            0 <= k < r@.len() && (forall|j: usize| !#[trigger] has_param(ts@[k], j)) ==> #[trigger] r@[k].model()
                == ts@[k].model(),
        forall|k: int, w: usize|
            0 <= k < r@.len() && (forall|j: usize| !#[trigger] has_param(ts@[k], j)) && #[trigger] has_var(r@[k], w)
                ==> has_var(ts@[k], w),
    decreases ts,
{
    let mut r: Vec<Ty> = Vec::new();
    let mut rest = ts;
    let ghost orig = rest@;
    while rest.len() > 0
        invariant
            orig == ts@,
            r@.len() + rest@.len() == orig.len(),
            rest@ == orig.subrange(r@.len() as int, orig.len() as int),
            forall|k: int, j: usize|
                0 <= k < r@.len() && #[trigger] has_param(r@[k], j) ==> exists|i: int|
                    0 <= i < substs@.len() && #[trigger] has_param(substs@[i], j),
            forall|k: int, w: usize|
                0 <= k < r@.len() && #[trigger] has_var(r@[k], w) ==> has_var(orig[k], w) || exists|i: int|
                    0 <= i < substs@.len() && #[trigger] has_var(substs@[i], w),
            forall|k: int|
                0 <= k < r@.len() && (forall|j: usize| !#[trigger] has_param(orig[k], j)) ==> #[trigger] r@[k].model()
                    == orig[k].model(),
            forall|k: int, w: usize|
                0 <= k < r@.len() && (forall|j: usize| !#[trigger] has_param(orig[k], j)) && #[trigger] has_var(
                    r@[k],
                    w,
                ) ==> has_var(orig[k], w),
        decreases rest@.len(),
    {
        let ghost k = r@.len() as int;
        let c = rest.remove(0);
        proof {
            assert(c == orig[k]);
            assert(decreases_to!(ts => ts@));
            assert(decreases_to!(ts@ => ts@[k]));
        }
        r.push(subst_rec(c, substs));
    }
    r
}

/// Whether `v` occurs in `t` (checked before a variable is bound, so that no
/// binding refers to itself).
pub fn occurs(t: &Ty, v: usize) -> (r: bool)
    ensures
        r == has_var(*t, v),
    decreases *t,
{
    proof {
        lemma_has_var_unfold(*t, v);
    }
    match t {
        Ty::Var(w) => *w == v,
        Ty::Ref(_, b) => occurs(b, v),
        Ty::Array(b) => occurs(b, v),
        Ty::Slice(b) => occurs(b, v),
        Ty::Tuple(ts) => occurs_in_list(ts, v),
        Ty::Adt(_, ts) => occurs_in_list(ts, v),
        _ => false,
    }
}

fn occurs_in_list(ts: &Vec<Ty>, v: usize) -> (r: bool)
    ensures
        r == list_has_var(ts@, v),
    decreases ts,
{
    let mut i: usize = 0;
    while i < ts.len()
        invariant
            i <= ts@.len(),
            forall|j: int| 0 <= j < i ==> !#[trigger] has_var(ts@[j], v),
        decreases ts@.len() - i,
    {
        proof {
            assert(decreases_to!(ts => ts@[i as int]));
        }
        if occurs(&ts[i], v) {
            return true;
        }
        i = i + 1;
    }
    false
}

/// `x` with the variable `v` replaced by `t`.
fn subst_var(x: &Ty, v: usize, t: &Ty) -> (r: Ty)
    ensures
        forall|w: usize| #[trigger] has_var(r, w) ==> (has_var(*x, w) && w != v) || has_var(*t, w),
        !(*x is Unknown) && !(*t is Unknown) ==> !(r is Unknown),
    decreases *x,
{
    proof {
        lemma_has_var_unfold_all(*x);
    }
    let r = match x {
        Ty::Var(w) => {
            if *w == v {
                return copy_ty(t);
            } else {
                Ty::Var(*w)
            }
        },
        Ty::Ref(m, b) => Ty::Ref(*m, Box::new(subst_var(b, v, t))),
        Ty::Array(b) => Ty::Array(Box::new(subst_var(b, v, t))),
        Ty::Slice(b) => Ty::Slice(Box::new(subst_var(b, v, t))),
        Ty::Tuple(ts) => Ty::Tuple(subst_var_list(ts, v, t)),
        Ty::Adt(id, ts) => Ty::Adt(*id, subst_var_list(ts, v, t)),
        _ => copy_ty(x),
    };
    proof {
        lemma_has_var_unfold_all(r);
        assert forall|w: usize| #[trigger] has_var(r, w) implies (has_var(*x, w) && w != v) || has_var(
            *t,
            w,
        ) by {
            match (r, *x) {
                (Ty::Tuple(rs), Ty::Tuple(xs)) => {
                    let i = choose|i: int| 0 <= i < rs@.len() && #[trigger] has_var(rs@[i], w);
                    assert(has_var(xs@[i], w) && w != v || has_var(*t, w));
                },
                (Ty::Adt(_, rs), Ty::Adt(_, xs)) => {
                    let i = choose|i: int| 0 <= i < rs@.len() && #[trigger] has_var(rs@[i], w);
                    assert(has_var(xs@[i], w) && w != v || has_var(*t, w));
                },
                _ => {},
            }
        }
    }
    r
}

fn subst_var_list(xs: &Vec<Ty>, v: usize, t: &Ty) -> (r: Vec<Ty>)
    ensures
        r@.len() == xs@.len(),
        forall|i: int, w: usize|
            0 <= i < xs@.len() && #[trigger] has_var(r@[i], w) ==> (has_var(xs@[i], w) && w != v)
                || has_var(*t, w),
    decreases xs,
{
    let mut r: Vec<Ty> = Vec::new();
    let mut i: usize = 0;
    while i < xs.len()
        invariant
            i <= xs@.len(),
            r@.len() == i,
            forall|j: int, w: usize|
                0 <= j < i && #[trigger] has_var(r@[j], w) ==> (has_var(xs@[j], w) && w != v)
                    || has_var(*t, w),
        decreases xs@.len() - i,
    {
        proof {
            assert(decreases_to!(xs => xs@[i as int]));
        }
        let c = subst_var(&xs[i], v, t);
        r.push(c);
        i = i + 1;
    }
    r
}

/// The inference variables of one inference session: `bindings@[v]` is the type
/// that variable `v` has been unified with, if any.
pub struct TypeTable {
    pub bindings: Vec<Option<Ty>>,
}

impl TypeTable {
    /// The number of variables allocated so far.
    pub open spec fn num_vars(&self) -> nat {
        self.bindings@.len()
    }

    /// Variable `v` stands for a known type.
    pub open spec fn is_bound(&self, v: usize) -> bool {
        v < self.bindings@.len() && self.bindings@[v as int] is Some
    }

    /// No variable of `t` stands for a known type: `t` is resolved as far as
    /// this table knows.
    pub open spec fn no_bound_vars(&self, t: Ty) -> bool {
        forall|w: usize| #[trigger] has_var(t, w) ==> !self.is_bound(w)
    }

    /// Every known type is itself resolved (bindings never chain) and known.
    pub open spec fn wf(&self) -> bool {
        &&& forall|j: int|
            0 <= j < self.bindings@.len() && #[trigger] self.bindings@[j] is Some ==> self.no_bound_vars(
                self.bindings@[j]->0,
            )
        &&& forall|j: int|
            0 <= j < self.bindings@.len() && #[trigger] self.bindings@[j] is Some ==> !(
            self.bindings@[j]->0 is Unknown)
    }

    pub fn new() -> (r: TypeTable)
        ensures
            r.bindings@.len() == 0,
            r.wf(),
    {
        TypeTable { bindings: Vec::new() }
    }

    /// Allocates a fresh, unbound variable.
    pub fn new_var(&mut self) -> (r: usize)
        requires
            old(self).num_vars() < usize::MAX,
            old(self).wf(),
        ensures
            r == old(self).num_vars(),
            final(self).bindings@ == old(self).bindings@.push(None),
            final(self).wf(),
    {
        let r = self.bindings.len();
        self.bindings.push(None);
        proof {
            assert forall|w: usize| #[trigger] self.is_bound(w) == old(self).is_bound(w) by {
                if w < old(self).bindings@.len() {
                    assert(self.bindings@[w as int] == old(self).bindings@[w as int]);
                }
            }
            assert forall|j: int|
                0 <= j < self.bindings@.len() && #[trigger] self.bindings@[j] is Some implies self.no_bound_vars(
                self.bindings@[j]->0,
            ) by {
                assert(self.bindings@[j] == old(self).bindings@[j]);
            }
        }
        r
    }

    /// Replaces an outermost `Unknown` by a fresh variable; any other type is
    /// returned as it is (nested unknowns are left alone). A table that cannot
    /// grow any more hands `Unknown` back.
    pub fn insert_type_vars_shallow(&mut self, t: Ty) -> (r: Ty)
        requires
            old(self).wf(),
        ensures
            final(self).wf(),
            t is Unknown && old(self).num_vars() < usize::MAX ==> r == Ty::Var(
                old(self).num_vars() as usize,
            ) && final(self).bindings@ == old(self).bindings@.push(None),
            !(t is Unknown && old(self).num_vars() < usize::MAX) ==> r == t && final(self).bindings@
                == old(self).bindings@,
    {
        match t {
            Ty::Unknown => {
                if self.bindings.len() < usize::MAX {
                    Ty::Var(self.new_var())
                } else {
                    t
                }
            },
            _ => t,
        }
    }

    /// Whether some variable of `t` stands for a known type.
    pub fn has_bound_var(&self, t: &Ty) -> (r: bool)
        ensures
            r == !self.no_bound_vars(*t),
        decreases *t,
    {
        proof {
            lemma_has_var_unfold_all(*t);
        }
        match t {
            Ty::Var(v) => {
                let r = *v < self.bindings.len() && self.bindings[*v].is_some();
                proof {
                    if r {
                        assert(has_var(*t, *v));
                    }
                }
                r
            },
            Ty::Ref(_, b) => {
                let r = self.has_bound_var(b);
                proof {
                    self.lemma_same_vars(*t, **b);
                }
                r
            },
            Ty::Array(b) => {
                let r = self.has_bound_var(b);
                proof {
                    self.lemma_same_vars(*t, **b);
                }
                r
            },
            Ty::Slice(b) => {
                let r = self.has_bound_var(b);
                proof {
                    self.lemma_same_vars(*t, **b);
                }
                r
            },
            Ty::Tuple(ts) => {
                let r = self.list_has_bound_var(ts);
                proof {
                    self.lemma_list_vars(*t, ts@);
                }
                r
            },
            Ty::Adt(_, ts) => {
                let r = self.list_has_bound_var(ts);
                proof {
                    self.lemma_list_vars(*t, ts@);
                }
                r
            },
            _ => false,
        }
    }

    fn list_has_bound_var(&self, ts: &Vec<Ty>) -> (r: bool)
        ensures
            r == !(forall|i: int| 0 <= i < ts@.len() ==> self.no_bound_vars(#[trigger] ts@[i])),
        decreases ts,
    {
        let mut i: usize = 0;
        while i < ts.len()
            invariant
                i <= ts@.len(),
                forall|j: int| 0 <= j < i ==> self.no_bound_vars(#[trigger] ts@[j]),
            decreases ts@.len() - i,
        {
            proof {
                assert(decreases_to!(ts => ts@[i as int]));
            }
            if self.has_bound_var(&ts[i]) {
                return true;
            }
            i = i + 1;
        }
        false
    }

    /// Types with the same variables are resolved alike.
    proof fn lemma_same_vars(&self, t: Ty, c: Ty)
        requires
            forall|v: usize| has_var(t, v) == has_var(c, v),
        ensures
            self.no_bound_vars(t) == self.no_bound_vars(c),
    {
        if !self.no_bound_vars(t) {
            let w = choose|w: usize| #[trigger] has_var(t, w) && self.is_bound(w);
            assert(has_var(c, w));
        }
        if !self.no_bound_vars(c) {
            let w = choose|w: usize| #[trigger] has_var(c, w) && self.is_bound(w);
            assert(has_var(t, w));
        }
    }

    /// A type whose variables are those of the list `ts` is resolved exactly when
    /// every element is.
    proof fn lemma_list_vars(&self, t: Ty, ts: Seq<Ty>)
        requires
            forall|v: usize| has_var(t, v) == list_has_var(ts, v),
        ensures
            self.no_bound_vars(t) == (forall|i: int| 0 <= i < ts.len() ==> self.no_bound_vars(#[trigger] ts[i])),
    {
        if !self.no_bound_vars(t) {
            let w = choose|w: usize| #[trigger] has_var(t, w) && self.is_bound(w);
            assert(list_has_var(ts, w));
            let i = choose|i: int| 0 <= i < ts.len() && #[trigger] has_var(ts[i], w);
            assert(!self.no_bound_vars(ts[i]));
        }
        if !(forall|i: int| 0 <= i < ts.len() ==> self.no_bound_vars(#[trigger] ts[i])) {
            let i = choose|i: int| 0 <= i < ts.len() && !self.no_bound_vars(#[trigger] ts[i]);
            let w = choose|w: usize| #[trigger] has_var(ts[i], w) && self.is_bound(w);
            assert(list_has_var(ts, w));
            assert(has_var(t, w));
        }
    }

    /// Substitutes what is known of each variable in `t`. The result mentions no
    /// variable of known type, and a type that mentions none is handed back
    /// untouched; so resolving a resolved type changes nothing. A type that is not
    /// a variable keeps its outermost shape.
    pub fn resolve_ty_as_possible(&self, t: Ty) -> (r: Ty)
        requires
            self.wf(),
        ensures
            self.no_bound_vars(r),
            self.no_bound_vars(t) ==> r == t,
            !(t is Var) ==> same_head(r, t),
            (t is Ref && !(*t->Ref_1 is Var)) ==> same_head(*r->Ref_1, *t->Ref_1),
            t is Tuple ==> forall|i: int|
                0 <= i < t->Tuple_0@.len() && self.no_bound_vars(#[trigger] t->Tuple_0@[i]) ==> r->Tuple_0@[i]
                    == t->Tuple_0@[i],
            (t is Var && self.is_bound(t->Var_0)) ==> r.model() == self.bindings@[t->Var_0 as int]->0.model(),
            !(t is Unknown) ==> !(r is Unknown),
        decreases t,
    {
        if !self.has_bound_var(&t) {
            proof {
                lemma_has_var_unfold_all(t);
                if t is Var {
                    assert(has_var(t, t->Var_0));
                }
            }
            return t;
        }
        let ghost t0 = t;
        proof {
            lemma_has_var_unfold_all(t0);
        }
        let r = match t {
            Ty::Var(v) => {
                proof {
                    let w = choose|w: usize| #[trigger] has_var(t0, w) && self.is_bound(w);
                    assert(w == v);
                }
                match &self.bindings[v] {
                    Some(b) => {
                        let c = copy_ty(b);
                        proof {
                            self.lemma_same_vars(c, *b);
                        }
                        c
                    },
                    None => Ty::Var(v),
                }
            },
            Ty::Ref(m, b) => {
                let rb = self.resolve_ty_as_possible(*b);
                let r = Ty::Ref(m, Box::new(rb));
                proof {
                    lemma_has_var_unfold_all(r);
                    self.lemma_same_vars(r, rb);
                }
                r
            },
            Ty::Array(b) => {
                let rb = self.resolve_ty_as_possible(*b);
                let r = Ty::Array(Box::new(rb));
                proof {
                    lemma_has_var_unfold_all(r);
                    self.lemma_same_vars(r, rb);
                }
                r
            },
            Ty::Slice(b) => {
                let rb = self.resolve_ty_as_possible(*b);
                let r = Ty::Slice(Box::new(rb));
                proof {
                    lemma_has_var_unfold_all(r);
                    self.lemma_same_vars(r, rb);
                }
                r
            },
            Ty::Tuple(ts) => {
                let rs = self.resolve_list(ts);
                let r = Ty::Tuple(rs);
                proof {
                    lemma_has_var_unfold_all(r);
                    self.lemma_list_vars(r, rs@);
                }
                r
            },
            Ty::Adt(id, ts) => {
                let rs = self.resolve_list(ts);
                let r = Ty::Adt(id, rs);
                proof {
                    lemma_has_var_unfold_all(r);
                    self.lemma_list_vars(r, rs@);
                }
                r
            },
            _ => t,
        };
        r
    }

    fn resolve_list(&self, ts: Vec<Ty>) -> (r: Vec<Ty>)
        requires
            self.wf(),
        ensures
            r@.len() == ts@.len(),
            forall|i: int| 0 <= i < r@.len() ==> self.no_bound_vars(#[trigger] r@[i]),
            forall|i: int| 0 <= i < r@.len() && self.no_bound_vars(ts@[i]) ==> #[trigger] r@[i] == ts@[i],
        decreases ts,
    {
        let mut r: Vec<Ty> = Vec::new();
        let mut rest = ts;
        let ghost orig = rest@;
        while rest.len() > 0
            invariant
                self.wf(),
                orig == ts@,
                r@.len() + rest@.len() == orig.len(),
                rest@ == orig.subrange(r@.len() as int, orig.len() as int),
                forall|i: int| 0 <= i < r@.len() ==> self.no_bound_vars(#[trigger] r@[i]),
                forall|i: int| 0 <= i < r@.len() && self.no_bound_vars(orig[i]) ==> #[trigger] r@[i] == orig[i],
            decreases rest@.len(),
        {
            let ghost k = r@.len() as int;
            let c = rest.remove(0);
            proof {
                assert(c == orig[k]);
                assert(decreases_to!(ts => ts@));
                assert(decreases_to!(ts@ => ts@[k]));
            }
            let rc = self.resolve_ty_as_possible(c);
            r.push(rc);
        }
        r
    }

    /// A bound on the depth to which unification descends.
    fn fuel(&self) -> (r: usize)
        ensures
            r > 0,
    {
        if self.bindings.len() < usize::MAX {
            self.bindings.len() + 1
        } else {
            self.bindings.len()
        }
    }

    /// Tries to make `a` and `b` equal by binding variables; returns whether it
    /// succeeded. `Unknown` unifies with anything and binds nothing. Adds no variable.
    pub fn unify(&mut self, a: &Ty, b: &Ty) -> (ok: bool)
        requires
            old(self).wf(),
        ensures
            final(self).wf(),
            final(self).num_vars() == old(self).num_vars(),
            forall|w: usize| #[trigger] old(self).is_bound(w) ==> final(self).is_bound(w),
            (*a is Unknown || *b is Unknown) ==> ok && final(self).bindings@ == old(self).bindings@,
            (*a is Scalar && *b is Scalar) ==> ok == (*a == *b),
            ({
                let v = (*a)->Var_0;
                *a is Var && v < old(self).num_vars() && !old(self).is_bound(v) && !has_var(*b, v)
                    && old(self).no_bound_vars(*b) && !(*b is Unknown)
            }) ==> ok && final(self).is_bound((*a)->Var_0) && same_head(
                final(self).bindings@[(*a)->Var_0 as int]->0,
                *b,
            ) && forall|w: usize|
                #[trigger] has_var(final(self).bindings@[(*a)->Var_0 as int]->0, w) == has_var(*b, w),
    {
        let fuel = self.fuel();
        self.unify_fuel(a, b, fuel)
    }

    fn unify_fuel(&mut self, a: &Ty, b: &Ty, fuel: usize) -> (ok: bool)
        requires
            old(self).wf(),
        ensures
            final(self).wf(),
            final(self).num_vars() == old(self).num_vars(),
            forall|w: usize| #[trigger] old(self).is_bound(w) ==> final(self).is_bound(w),
            fuel > 0 && (*a is Unknown || *b is Unknown) ==> ok && final(self).bindings@ == old(
                self,
            ).bindings@,
            fuel > 0 && (*a is Scalar && *b is Scalar) ==> ok == (*a == *b),
            fuel > 0 && ({
                let v = (*a)->Var_0;
                *a is Var && v < old(self).num_vars() && !old(self).is_bound(v) && !has_var(*b, v)
                    && old(self).no_bound_vars(*b) && !(*b is Unknown)
            }) ==> ok && final(self).is_bound((*a)->Var_0) && same_head(
                final(self).bindings@[(*a)->Var_0 as int]->0,
                *b,
            ) && forall|w: usize|
                #[trigger] has_var(final(self).bindings@[(*a)->Var_0 as int]->0, w) == has_var(*b, w),
        decreases fuel, 0nat,
    {
        if fuel == 0 {
            return false;
        }
        proof {
            lemma_has_var_unfold_all(*a);
            lemma_has_var_unfold_all(*b);
        }
        let a = self.resolve_ty_as_possible(copy_ty(a));
        let b = self.resolve_ty_as_possible(copy_ty(b));
        match (&a, &b) {
            (Ty::Unknown, _) => true,
            (_, Ty::Unknown) => true,
            (Ty::Var(x), Ty::Var(y)) if *x == *y => true,
            (Ty::Var(x), _) => self.bind(*x, b),
            (_, Ty::Var(y)) => self.bind(*y, a),
            (Ty::Scalar(k1), Ty::Scalar(k2)) => *k1 == *k2,
            (Ty::Str, Ty::Str) => true,
            (Ty::Param(i), Ty::Param(j)) => *i == *j,
            (Ty::Ref(m1, x), Ty::Ref(m2, y)) => *m1 == *m2 && self.unify_fuel(x, y, fuel - 1),
            (Ty::Array(x), Ty::Array(y)) => self.unify_fuel(x, y, fuel - 1),
            (Ty::Slice(x), Ty::Slice(y)) => self.unify_fuel(x, y, fuel - 1),
            (Ty::Tuple(xs), Ty::Tuple(ys)) => self.unify_lists(xs, ys, fuel - 1),
            (Ty::Adt(i, xs), Ty::Adt(j, ys)) => *i == *j && self.unify_lists(xs, ys, fuel - 1),
            _ => false,
        }
    }

    fn unify_lists(&mut self, xs: &Vec<Ty>, ys: &Vec<Ty>, fuel: usize) -> (ok: bool)
        requires
            old(self).wf(),
        ensures
            final(self).wf(),
            final(self).num_vars() == old(self).num_vars(),
            forall|w: usize| #[trigger] old(self).is_bound(w) ==> final(self).is_bound(w),
        decreases fuel, 1nat,
    {
        if xs.len() != ys.len() {
            return false;
        }
        let mut ok = true;
        let mut i: usize = 0;
        while i < xs.len()
            invariant
                i <= xs@.len(),
                xs@.len() == ys@.len(),
                self.wf(),
                self.num_vars() == old(self).num_vars(),
                forall|w: usize| #[trigger] old(self).is_bound(w) ==> self.is_bound(w),
            decreases xs@.len() - i,
        {
            if !self.unify_fuel(&xs[i], &ys[i], fuel) {
                ok = false;
            }
            i = i + 1;
        }
        ok
    }

    /// Binds the unbound variable `v` to the resolved type `t`, unless `t` mentions
    /// `v`; every known type that mentions `v` gets `t` in its place.
    fn bind(&mut self, v: usize, t: Ty) -> (ok: bool)
        requires
            old(self).wf(),
            old(self).no_bound_vars(t),
            !(t is Unknown),
        ensures
            final(self).wf(),
            final(self).num_vars() == old(self).num_vars(),
            forall|w: usize| #[trigger] old(self).is_bound(w) ==> final(self).is_bound(w),
            v < old(self).num_vars() && !old(self).is_bound(v) && !has_var(t, v) ==> ok
                && final(self).bindings@[v as int] == Some(t),
    {
        if v >= self.bindings.len() || self.bindings[v].is_some() || occurs(&t, v) {
            return false;
        }
        let n = self.bindings.len();
        let mut nb: Vec<Option<Ty>> = Vec::new();
        let mut j: usize = 0;
        while j < n
            invariant
                n == self.bindings@.len(),
                j <= n,
                nb@.len() == j,
                forall|k: int| 0 <= k < j ==> (#[trigger] nb@[k] is Some) == (self.bindings@[k] is Some),
                forall|k: int| 0 <= k < j && #[trigger] nb@[k] is Some ==> !(nb@[k]->0 is Unknown),
                forall|k: int| 0 <= k < n && #[trigger] self.bindings@[k] is Some ==> !(self.bindings@[k]->0 is Unknown),
                !(t is Unknown),
                forall|k: int, w: usize|
                    0 <= k < j && nb@[k] is Some && #[trigger] has_var(nb@[k]->0, w) ==> (has_var(
                        self.bindings@[k]->0,
                        w,
                    ) && w != v) || has_var(t, w),
            decreases n - j,
        {
            let e = match &self.bindings[j] {
                Some(x) => Some(subst_var(x, v, &t)),
                None => None,
            };
            nb.push(e);
            j = j + 1;
        }
        let ghost before = *self;
        nb.set(v, Some(t));
        self.bindings = nb;
        proof {
            assert forall|w: usize| #[trigger] self.is_bound(w) implies before.is_bound(w) || w == v by {
            }
            assert forall|w: usize| #[trigger] before.is_bound(w) implies self.is_bound(w) by {
            }
            assert forall|k: int|
                0 <= k < self.bindings@.len() && #[trigger] self.bindings@[k] is Some implies self.no_bound_vars(
                self.bindings@[k]->0,
            ) by {
                if k != v as int {
                    assert forall|w: usize| #[trigger] has_var(self.bindings@[k]->0, w) implies !self.is_bound(w) by {
                        if has_var(t, w) {
                            assert(!before.is_bound(w));
                        } else {
                            assert(before.bindings@[k] is Some);
                            assert(before.no_bound_vars(before.bindings@[k]->0));
                            assert(!before.is_bound(w));
                        }
                    }
                } else {
                    assert forall|w: usize| #[trigger] has_var(self.bindings@[k]->0, w) implies !self.is_bound(w) by {
                        assert(!before.is_bound(w));
                    }
                }
            }
        }
        true
    }
}

} // verus!
