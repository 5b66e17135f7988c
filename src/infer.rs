//! Type inference for patterns.
use vstd::prelude::*;

use crate::db::{is_first_named, Db, FieldId};
use crate::pat::{
    annotation_mode, ellipsis_ok, lemma_record_children, pat_children, record_args, pat_exprs, peeled_mode, BindingAnnotation, BindingMode, Body,
    Expr, Literal, Name, Pat, PatId, RecordFieldPat, ExprId,
};
use crate::ty::{copy_list, copy_ty, has_param, has_var, lemma_has_var_unfold_all, same_head, subst, Mutability, Ty, TyModel, TypeTable};

verus! {

/// The scalar type of boolean literals.
pub const SCALAR_BOOL: u32 = 0;

/// The scalar type of character literals.
pub const SCALAR_CHAR: u32 = 1;

/// The scalar type of integer literals.
pub const SCALAR_INT: u32 = 2;

/// The expected type with every outer reference peeled off, and the default
/// binding mode after each peeled layer.
pub open spec fn strip_refs(t: Ty, bm: BindingMode) -> (Ty, BindingMode)
    decreases t,
{
    match t {
        Ty::Ref(m, inner) => strip_refs(*inner, peeled_mode(bm, m)),
        _ => (t, bm),
    }
}

/// The expected type and default binding mode under which pattern `pat` is typed:
/// a non-reference pattern sees through references, an explicit reference pattern
/// starts again by value, any other pattern takes both as they come.
pub open spec fn pattern_context(body: Body, pat: int, expected: Ty, bm: BindingMode) -> (
    Ty,
    BindingMode,
) {
    if body.non_ref_pat(pat) {
        strip_refs(expected, bm)
    } else if body.pats@[pat] is Ref {
        (expected, BindingMode::Move)
    } else {
        (expected, bm)
    }
}

/// The binding mode of a binding pattern with annotation `a` under default mode `bm`.
pub open spec fn effective_mode(a: BindingAnnotation, bm: BindingMode) -> BindingMode {
    if a == BindingAnnotation::Unannotated {
        bm
    } else {
        annotation_mode(a)
    }
}

/// The number of components of a tuple type (none for any other type).
pub open spec fn tuple_len(t: Ty) -> nat {
    match t {
        Ty::Tuple(es) => es@.len(),
        _ => 0,
    }
}

/// The number of components of the type of a tuple pattern with `n_args`
/// sub-patterns matched against a tuple of `n_exps` components: expected
/// components that no sub-pattern covers are kept.
pub open spec fn tuple_arity(n_args: nat, n_exps: nat) -> nat {
    if n_exps > n_args {
        n_exps
    } else {
        n_args
    }
}

/// The field position that sub-pattern `k` of a tuple-struct pattern addresses,
/// with the rest marker at `rest`: those after the marker are aligned with the
/// last fields of the variant. A negative position addresses no field.
pub open spec fn tuple_struct_field_index(k: int, rest: int, n_args: int, n_fields: int) -> int {
    if k < rest {
        k
    } else {
        n_fields - (n_args - rest) + (k - rest)
    }
}

/// Peeling a reference changes the default binding mode as follows, whatever the
/// reference's mutability `m`: by value becomes a borrow of mutability `m`; a
/// shared borrow stays shared; a mutable borrow takes mutability `m`.
pub proof fn lemma_peel_table(m: Mutability)
    ensures
        peeled_mode(BindingMode::Move, m) == BindingMode::Ref(m),
        peeled_mode(BindingMode::Ref(Mutability::Shared), m) == BindingMode::Ref(Mutability::Shared),
        peeled_mode(BindingMode::Ref(Mutability::Mut), m) == BindingMode::Ref(m),
{
}

/// Once the default binding mode is a shared borrow, no number of peeled
/// references of any mutability makes it anything else.
pub proof fn lemma_shared_mode_sticks(t: Ty)
    ensures
        strip_refs(t, BindingMode::Ref(Mutability::Shared)).1 == BindingMode::Ref(Mutability::Shared),
    decreases t,
{
    if let Ty::Ref(m, inner) = t {
        lemma_shared_mode_sticks(*inner);
    }
}

/// An explicit reference pattern is typed by value beneath it, whatever the
/// enclosing default binding mode, and sees the expected type unpeeled.
pub proof fn lemma_ref_pattern_resets_mode(body: Body, pat: int, expected: Ty, bm: BindingMode)
    requires
        0 <= pat < body.pats@.len(),
        body.pats@[pat] is Ref,
    ensures
        pattern_context(body, pat, expected, bm) == (expected, BindingMode::Move),
{
}

/// A tuple pattern matched against a tuple with at least as many components as
/// it has sub-patterns has exactly as many components as the expected tuple.
pub proof fn lemma_tuple_arity_kept(n_args: nat, n_exps: nat)
    requires
        n_args <= n_exps,
    ensures
        tuple_arity(n_args, n_exps) == n_exps,
{
}

/// Sub-patterns after the rest marker of a tuple-struct pattern address the
/// trailing fields of the variant: the `j`-th from the end of the pattern
/// addresses the `j`-th field from the end, however many fields the marker elides.
pub proof fn lemma_rest_aligns_to_last_fields(k: int, rest: int, n_args: int, n_fields: int)
    requires
        0 <= rest <= k < n_args,
        n_args <= n_fields,
    ensures
        tuple_struct_field_index(k, rest, n_args, n_fields) == n_fields - (n_args - k),
        k == n_args - 1 ==> tuple_struct_field_index(k, rest, n_args, n_fields) == n_fields - 1,
        0 <= tuple_struct_field_index(k, rest, n_args, n_fields) < n_fields,
{
}

/// Strips references off `expected`, updating the default binding mode for each.
pub fn strip_references<'a>(expected: &'a Ty, bm: BindingMode) -> (r: (&'a Ty, BindingMode))
    ensures
        (*r.0, r.1) == strip_refs(*expected, bm),
        !(*r.0 is Ref),
    decreases expected,
{
    match expected {
        Ty::Ref(m, inner) => strip_references(inner, bm.peel(*m)),
        _ => (expected, bm),
    }
}

/// The expected type and default binding mode under which `pat` is typed.
pub fn default_binding<'a>(body: &Body, pat: PatId, expected: &'a Ty, bm: BindingMode) -> (r: (
    &'a Ty,
    BindingMode,
))
    requires
        body.wf(),
        pat < body.pats@.len(),
    ensures
        (*r.0, r.1) == pattern_context(*body, pat as int, *expected, bm),
{
    if body.is_non_ref_pat(pat) {
        strip_references(expected, bm)
    } else if let Pat::Ref { .. } = &body.pats[pat] {
        (expected, BindingMode::Move)
    } else {
        (expected, bm)
    }
}

/// The field position addressed by sub-pattern `k` of `n_args` of a tuple-struct
/// pattern with the rest marker at `rest`, on a variant of `n_fields` fields;
/// `None` where that position is negative.
pub fn field_index(k: usize, rest: usize, n_args: usize, n_fields: usize) -> (r: Option<usize>)
    requires
        k < n_args,
        rest <= n_args,
    ensures
        tuple_struct_field_index(k as int, rest as int, n_args as int, n_fields as int) >= 0 ==> r
            == Some(tuple_struct_field_index(k as int, rest as int, n_args as int, n_fields as int) as usize),
        tuple_struct_field_index(k as int, rest as int, n_args as int, n_fields as int) < 0 ==> r is None,
{
    if k < rest {
        Some(k)
    } else if n_args <= n_fields {
        Some(n_fields - n_args + k)
    } else if k >= n_args - n_fields {
        Some(k - (n_args - n_fields))
    } else {
        None
    }
}

/// The type of a literal.
pub fn literal_ty(lit: Literal) -> (r: Ty)
    ensures
        r == literal_type(lit),
        lit == Literal::String ==> r == Ty::Ref(Mutability::Shared, Box::new(Ty::Str)),
        lit == Literal::Bool ==> r == Ty::Scalar(SCALAR_BOOL),
        lit == Literal::Char ==> r == Ty::Scalar(SCALAR_CHAR),
        lit == Literal::Int ==> r == Ty::Scalar(SCALAR_INT),
{
    match lit {
        Literal::String => Ty::Ref(Mutability::Shared, Box::new(Ty::Str)),
        Literal::Bool => Ty::Scalar(SCALAR_BOOL),
        Literal::Char => Ty::Scalar(SCALAR_CHAR),
        Literal::Int => Ty::Scalar(SCALAR_INT),
    }
}

/// The field that a record field called `name` resolves to, in a record
/// pattern whose path is `path`: the first field of that name of the variant the
/// path names, if the path names a variant and the variant has such a field.
pub open spec fn field_resolution(db: Db, path: Option<usize>, name: Name) -> Option<FieldId> {
    if db.resolves(path) && db.paths@[path->0 as int].variant is Some {
        let v = db.paths@[path->0 as int].variant->0;
        if v < db.variants@.len() && exists|i: int| is_first_named(db.variants@[v as int].fields@, name, i) {
            Some(
                FieldId {
                    parent: v,
                    local_id: (choose|i: int| is_first_named(db.variants@[v as int].fields@, name, i)) as usize,
                },
            )
        } else {
            None
        }
    } else {
        None
    }
}

/// The field resolution owed to entry `k` of record pattern `p`.
pub open spec fn record_field_resolution(body: Body, db: Db, p: int, k: int) -> Option<FieldId> {
    match body.pats@[p] {
        Pat::Record { path, args, .. } => field_resolution(db, path, args@[k].name),
        _ => None,
    }
}

/// Each field entry of record pattern `pat` has exactly the field resolution it is
/// owed: the resolved field where the variant has a field of that name, none
/// otherwise. (Trivially true of other patterns.)
pub open spec fn fields_resolved(body: Body, ctx: InferenceContext, pat: int) -> bool {
    forall|k: int|
        0 <= k < record_args(body.pats@[pat]).len() ==> ctx.result.record_pat_field_resolutions@[
            #[trigger] record_args(body.pats@[pat])[k].pat as int] == record_field_resolution(
            body,
            ctx.db,
            pat,
            k,
        )
}

/// What inference writes down: a type per pattern, the variant each tuple-struct
/// and record pattern resolved to, and the field each record field's
/// sub-pattern resolved to; all indexed by pattern id.
pub struct InferenceResult {
    pub type_of_pat: Vec<Option<Ty>>,
    pub variant_resolutions: Vec<Option<usize>>,
    pub record_pat_field_resolutions: Vec<Option<FieldId>>,
}

/// One inference session over one body.
pub struct InferenceContext {
    pub db: Db,
    pub table: TypeTable,
    pub result: InferenceResult,
}

impl InferenceContext {
    /// The tables fit `body`, and `body` and the database are well formed.
    pub open spec fn wf(&self, body: &Body) -> bool {
        &&& body.wf()
        &&& self.db.wf()
        &&& self.table.wf()
        &&& self.result.type_of_pat@.len() == body.pats@.len()
        &&& self.result.variant_resolutions@.len() == body.pats@.len()
        &&& self.result.record_pat_field_resolutions@.len() == body.pats@.len()
        &&& self.fields_consistent(body)
        &&& self.refs_recorded(body)
    }

    /// Every reference pattern that has a recorded type has a reference type of
    /// its own mutability, whatever the expected type was.
    pub open spec fn refs_recorded(&self, body: &Body) -> bool {
        forall|q: int|
            0 <= q < body.pats@.len() && #[trigger] body.pats@[q] is Ref && self.result.type_of_pat@[q] is Some
                ==> (self.result.type_of_pat@[q]->0 matches Ty::Ref(m, _) && m == body.pats@[q]->Ref_mutability)
    }

    /// Every field resolution written down is the one owed to its record field.
    pub open spec fn fields_consistent(&self, body: &Body) -> bool {
        forall|p: int, k: int|
            0 <= p < body.pats@.len() && 0 <= k < record_args(body.pats@[p]).len() ==> {
                let e = self.result.record_pat_field_resolutions@[#[trigger] record_args(body.pats@[p])[k].pat as int];
                e is None || e == record_field_resolution(*body, self.db, p, k)
            }
    }

    /// A field resolution, once written, stays.
    pub open spec fn keeps_fields(&self, later: &Self) -> bool {
        forall|q: int|
            0 <= q < self.result.record_pat_field_resolutions@.len() && (
            #[trigger] self.result.record_pat_field_resolutions@[q]) is Some
                ==> later.result.record_pat_field_resolutions@[q] == self.result.record_pat_field_resolutions@[q]
    }

    /// Pattern `q` has a recorded type.
    pub open spec fn recorded(&self, q: int) -> bool {
        0 <= q < self.result.type_of_pat@.len() && self.result.type_of_pat@[q] is Some
    }

    /// Every pattern of the tree rooted at `q` has a recorded type.
    pub open spec fn covers(&self, body: Body, q: int) -> bool {
        forall|r: int| #[trigger] body.reaches(q, r) ==> self.recorded(r)
    }

    /// Every type recorded in `self` is still recorded in `later`.
    pub open spec fn keeps_records(&self, later: &Self) -> bool {
        forall|q: int| #[trigger] self.recorded(q) ==> later.recorded(q)
    }

    /// `later` is a state this one can step to: still fitting `body`, the same
    /// database, and no record lost.
    pub open spec fn steps_to(&self, later: &Self, body: &Body) -> bool {
        &&& later.wf(body)
        &&& later.db == self.db
        &&& self.keeps_records(later)
        &&& self.keeps_fields(later)
    }

    /// Going from `self` to `later` changed recorded types, variants and field
    /// resolutions only for patterns of the tree rooted at `root`.
    pub open spec fn types_framed(&self, later: &Self, body: &Body, root: int) -> bool {
        &&& forall|q: int|
            0 <= q < self.result.type_of_pat@.len() && !body.reaches(root, q)
                ==> #[trigger] later.result.type_of_pat@[q] == self.result.type_of_pat@[q]
        &&& forall|q: int|
            0 <= q < self.result.variant_resolutions@.len() && !body.reaches(root, q)
                ==> #[trigger] later.result.variant_resolutions@[q] == self.result.variant_resolutions@[q]
        &&& forall|q: int|
            0 <= q < self.result.record_pat_field_resolutions@.len() && !body.reaches(root, q)
                ==> #[trigger] later.result.record_pat_field_resolutions@[q]
                == self.result.record_pat_field_resolutions@[q]
    }

    /// Every sub-pattern of `pat` has its whole tree recorded.
    pub open spec fn children_covered(&self, body: &Body, pat: int) -> bool {
        forall|k: int|
            0 <= k < pat_children(body.pats@[pat]).len() ==> self.covers(
                *body,
                #[trigger] pat_children(body.pats@[pat])[k] as int,
            )
    }

    /// A session for `body` with no variable and nothing recorded yet.
    pub fn new(body: &Body, db: Db) -> (r: InferenceContext)
        requires
            body.wf(),
            db.wf(),
        ensures
            r.wf(body),
            r.db == db,
            r.table.num_vars() == 0,
            forall|q: int| !#[trigger] r.recorded(q),
    {
        let n = body.pats.len();
        let mut type_of_pat: Vec<Option<Ty>> = Vec::new();
        let mut variant_resolutions: Vec<Option<usize>> = Vec::new();
        let mut record_pat_field_resolutions: Vec<Option<FieldId>> = Vec::new();
        let mut i: usize = 0;
        while i < n
            invariant
                n == body.pats@.len(),
                i <= n,
                type_of_pat@.len() == i,
                variant_resolutions@.len() == i,
                record_pat_field_resolutions@.len() == i,
                forall|j: int| 0 <= j < i ==> #[trigger] type_of_pat@[j] is None,
                forall|j: int| 0 <= j < i ==> #[trigger] record_pat_field_resolutions@[j] is None,
            decreases n - i,
        {
            type_of_pat.push(None);
            variant_resolutions.push(None);
            record_pat_field_resolutions.push(None);
            i = i + 1;
        }
        let r = InferenceContext {
            db,
            table: TypeTable::new(),
            result: InferenceResult { type_of_pat, variant_resolutions, record_pat_field_resolutions },
        };
        proof {
            assert forall|p: int, k: int|
                0 <= p < body.pats@.len() && 0 <= k < record_args(body.pats@[p]).len() implies r.result.record_pat_field_resolutions@[#[trigger] record_args(
                body.pats@[p],
            )[k].pat as int] is None by {
                lemma_record_children(body.pats@[p]);
                assert(pat_children(body.pats@[p])[k] < p);
            }
        }
        r
    }
}

/// The recorded type of a binding pattern is a reference of the binding's
/// mutability where the binding borrows.
pub open spec fn bind_mode_ok(body: Body, pat: int, bm: BindingMode, t: Option<Ty>) -> bool {
    match body.pats@[pat] {
        Pat::Bind { mode, .. } => match effective_mode(mode, bm) {
            BindingMode::Ref(m) => match t {
                Some(Ty::Ref(m2, _)) => m2 == m,
                _ => false,
            },
            BindingMode::Move => t is Some,
        },
        _ => true,
    }
}

/// A tuple-struct or record pattern whose path resolves to a type of known shape
/// has a type of that shape; to a ground type, exactly that type.
pub open spec fn adt_head(db: Db, path: Option<usize>, r: Ty) -> bool {
    &&& db.resolves(path) && !(db.paths@[path->0 as int].ty is Unknown) && !(
    db.paths@[path->0 as int].ty is Var) ==> same_head(r, db.paths@[path->0 as int].ty)
    &&& db.resolves(path) && ground(db.paths@[path->0 as int].ty) && !(db.paths@[path->0 as int].ty is Unknown)
        ==> r.model() == db.paths@[path->0 as int].ty.model()
}

/// The outermost shape of the type inferred for pattern `pat` under the expected
/// type `expected` (after default binding adjustment): a reference pattern gives a
/// reference of its own mutability; a slice pattern an array against an array and
/// a slice otherwise; a box pattern an instance of the box type, where there is
/// one; a wildcard the shape of the expected type; a tuple-struct or record
/// pattern the shape of the type its path resolves to.
pub open spec fn result_head(body: Body, db: Db, pat: int, expected: Ty, r: Ty) -> bool {
    match body.pats@[pat] {
        Pat::Ref { mutability, .. } => r matches Ty::Ref(m, _) && m == mutability,
        Pat::Slice { .. } => (if expected is Array {
            r is Array
        } else {
            r is Slice
        }) && (ground(element_of(expected)) ==> r.model() == container_of(expected).model()),
        Pat::Box { .. } => match db.box_adt {
            Some(b) => r matches Ty::Adt(id, args) && id == b && args@.len() == 1,
            None => true,
        },
        Pat::Wild => (!(expected is Unknown) && !(expected is Var) ==> same_head(r, expected)) && (ground(
            expected,
        ) && !(expected is Unknown) ==> r.model() == expected.model()),
        Pat::TupleStruct { path, .. } => adt_head(db, path, r),
        Pat::Record { path, .. } => adt_head(db, path, r),
        _ => true,
    }
}

/// `t` mentions no inference variable.
pub open spec fn ground(t: Ty) -> bool {
    forall|w: usize| !#[trigger] has_var(t, w)
}

/// `t` is recorded for a pattern whose inferred type is `r`: the same type
/// resolved as far as the table knows.
pub open spec fn records_result(table: TypeTable, t: Option<Ty>, r: Ty) -> bool {
    &&& t is Some
    &&& t->0.model() == r.model()
    &&& same_head(t->0, r)
    &&& forall|w: usize| #[trigger] has_var(t->0, w) == has_var(r, w)
    &&& table.no_bound_vars(r)
    &&& table.no_bound_vars(t->0)
}

/// `t` is recorded and is the type `r`.
pub open spec fn same_type(t: Option<Ty>, r: Ty) -> bool {
    &&& t is Some
    &&& t->0.model() == r.model()
    &&& same_head(t->0, r)
    &&& forall|w: usize| #[trigger] has_var(t->0, w) == has_var(r, w)
}

/// The type a reference pattern's sub-pattern is matched against.
pub open spec fn referent(t: Ty) -> Ty {
    match t {
        Ty::Ref(_, b) => *b,
        _ => Ty::Unknown,
    }
}

/// What sub-pattern `c`, matched against `expected` under default binding mode
/// `bm`, records: a binding that borrows records a reference of the borrow's
/// mutability; a wildcard, or a binding by value without sub-pattern, records a
/// type of the shape of `expected`.
pub open spec fn child_recorded(body: Body, c: int, bm: BindingMode, expected: Ty, t: Option<Ty>) -> bool {
    bind_mode_ok(body, c, bm, t) && shape_recorded(body, c, bm, expected, t)
}

/// Component `pos` of a tuple type; `Unknown` for a missing component or a
/// type that is not a tuple.
pub open spec fn tuple_component(t: Ty, pos: int) -> Ty {
    match t {
        Ty::Tuple(es) => if 0 <= pos < es@.len() {
            es@[pos]
        } else {
            Ty::Unknown
        },
        _ => Ty::Unknown,
    }
}

/// The component of the expected tuple that sub-pattern `k` of `n_args` is
/// matched against, with the rest marker at `rest`: those after the marker are
/// aligned with the end of an expected tuple of `n_exps` components.
pub open spec fn tuple_pos(k: int, rest: int, n_args: int, n_exps: int) -> int {
    if k < rest {
        k
    } else if n_exps > n_args {
        k + (n_exps - n_args)
    } else {
        k
    }
}

/// The rest position of a tuple pattern with `n` sub-patterns.
pub open spec fn rest_at(ellipsis: Option<usize>, n: int) -> int {
    match ellipsis {
        Some(i) => i as int,
        None => n,
    }
}

/// Sub-pattern `j` of a tuple pattern has recorded what matching it against its
/// component of `expected` under mode `bm` records.
pub open spec fn tuple_child_ok(
    body: Body,
    args: Seq<PatId>,
    rest: int,
    bm: BindingMode,
    expected: Ty,
    types: Seq<Option<Ty>>,
    j: int,
) -> bool {
    child_recorded(
        body,
        args[j] as int,
        bm,
        tuple_component(expected, tuple_pos(j, rest, args.len() as int, tuple_len(expected) as int)),
        types[args[j] as int],
    )
}

/// The variant that a tuple-struct or record pattern with path `path` resolves to.
pub open spec fn path_variant(db: Db, path: Option<usize>) -> Option<usize> {
    if db.resolves(path) {
        db.paths@[path->0 as int].variant
    } else {
        None
    }
}

/// The number of fields of the variant `path` resolves to (none if it resolves
/// to no variant).
pub open spec fn variant_field_count(db: Db, path: Option<usize>) -> int {
    match path_variant(db, path) {
        Some(v) => if v < db.variants@.len() {
            db.variants@[v as int].fields@.len() as int
        } else {
            0
        },
        None => 0,
    }
}

/// The field name that sub-pattern `k` of a tuple-struct pattern addresses.
pub open spec fn tuple_struct_child_name(db: Db, path: Option<usize>, k: int, rest: int, n_args: int) -> Option<Name> {
    let i = tuple_struct_field_index(k, rest, n_args, variant_field_count(db, path));
    if i >= 0 {
        Some(Name::TupleField(i as usize))
    } else {
        None
    }
}

/// The type a field sub-pattern is matched against, as far as its shape is
/// fixed: the declared type of the field it names, where that field exists and
/// its type mentions no generic parameter (which the substitution replaces);
/// `Unknown` otherwise.
pub open spec fn field_expect(db: Db, path: Option<usize>, name: Option<Name>) -> Ty {
    match name {
        Some(nm) => match field_resolution(db, path, nm) {
            Some(f) => if exists|j: usize| #[trigger] has_param(db.variants@[f.parent as int].fields@[f.local_id as int].ty, j) {
                Ty::Unknown
            } else {
                db.variants@[f.parent as int].fields@[f.local_id as int].ty
            },
            None => Ty::Unknown,
        },
        None => Ty::Unknown,
    }
}

/// Field sub-pattern `c`, addressing the field called `name`, has recorded what
/// matching it against that field's type under mode `bm` records.
pub open spec fn adt_child_ok(
    body: Body,
    db: Db,
    path: Option<usize>,
    c: int,
    name: Option<Name>,
    bm: BindingMode,
    types: Seq<Option<Ty>>,
) -> bool {
    child_recorded(body, c, bm, field_expect(db, path, name), types[c])
}

/// The element type of an array or slice type; `Unknown` for any other type.
pub open spec fn element_of(t: Ty) -> Ty {
    match t {
        Ty::Array(b) => *b,
        Ty::Slice(b) => *b,
        _ => Ty::Unknown,
    }
}

/// Every element sub-pattern (before or after the rest) of slice pattern `pat`
/// has recorded what matching it against the element type of `expected` under
/// mode `bm` records.
pub open spec fn slice_elems_ok(body: Body, pat: int, bm: BindingMode, expected: Ty, types: Seq<Option<Ty>>) -> bool {
    match body.pats@[pat] {
        Pat::Slice { prefix, suffix, .. } => (forall|j: int|
            0 <= j < prefix@.len() ==> child_recorded(
                body,
                #[trigger] prefix@[j] as int,
                bm,
                element_of(expected),
                types[prefix@[j] as int],
            )) && (forall|j: int|
            0 <= j < suffix@.len() ==> child_recorded(
                body,
                #[trigger] suffix@[j] as int,
                bm,
                element_of(expected),
                types[suffix@[j] as int],
            )),
        _ => true,
    }
}

/// A binding pattern returns the type of the matched value, not that of the
/// variable: without a sub-pattern, the expected type itself (a fresh variable
/// where that is unknown); with one, what the sub-pattern was typed as.
pub open spec fn bind_result_ok(body: Body, pat: int, expected: Ty, r: Ty, types: Seq<Option<Ty>>) -> bool {
    match body.pats@[pat] {
        Pat::Bind { subpat, .. } => match subpat {
            None => (!(expected is Unknown) ==> same_head(r, expected) && r.model() == expected.model() && forall|w: usize|
                #[trigger] has_var(r, w) == has_var(expected, w)) && (expected is Unknown ==> (r is Var
                || r is Unknown)),
            Some(s) => !(body.pats@[s as int] is Bind) && types[s as int] is Some && !(
            types[s as int]->0 is Unknown) ==> same_type(types[s as int], r),
        },
        _ => true,
    }
}

/// The type recorded for binding pattern `pat` with result `r` under default mode
/// `bm`: resolved, and of the shape of `r` when binding by value, a reference of
/// the binding's mutability to a type of the shape of `r` when borrowing.
pub open spec fn bind_record_ok(body: Body, table: TypeTable, pat: int, bm: BindingMode, r: Ty, t: Option<Ty>) -> bool {
    match body.pats@[pat] {
        Pat::Bind { mode, .. } => t is Some && table.no_bound_vars(t->0) && match effective_mode(mode, bm) {
            BindingMode::Move => !(r is Var) ==> same_head(t->0, r),
            BindingMode::Ref(m) => t->0 matches Ty::Ref(m2, b) && m2 == m && (!(r is Var) ==> same_head(*b, r)),
        },
        _ => true,
    }
}

/// Pattern `q` is a binding without sub-pattern.
pub open spec fn bare_binding(body: Body, q: int) -> bool {
    match body.pats@[q] {
        Pat::Bind { subpat, .. } => subpat is None,
        _ => false,
    }
}

/// Component `tuple_pos(j)` of a tuple pattern's type, where sub-pattern `j` is a
/// binding without sub-pattern, is exactly the expected component it matched.
pub open spec fn tuple_elem_ok(body: Body, args: Seq<PatId>, rest: int, expected: Ty, inner: Seq<Ty>, j: int) -> bool {
    let pos = tuple_pos(j, rest, args.len() as int, tuple_len(expected) as int);
    let comp = tuple_component(expected, pos);
    bare_binding(body, args[j] as int) && !(comp is Unknown) ==> inner[pos].model() == comp.model() && forall|w: usize|
        #[trigger] has_var(inner[pos], w) == has_var(comp, w)
}

/// The type of a literal.
pub open spec fn literal_type(lit: Literal) -> Ty {
    match lit {
        Literal::String => Ty::Ref(Mutability::Shared, Box::new(Ty::Str)),
        Literal::Bool => Ty::Scalar(SCALAR_BOOL),
        Literal::Char => Ty::Scalar(SCALAR_CHAR),
        Literal::Int => Ty::Scalar(SCALAR_INT),
    }
}

/// The type inferred for expression `e` has the shape of its literal's type.
pub open spec fn expr_result(body: Body, e: int, r: Ty) -> bool {
    match body.exprs@[e] {
        Expr::Literal(l) => same_head(r, literal_type(l)),
        Expr::Missing => true,
    }
}

/// Pattern `s` is a wildcard, or a binding without sub-pattern that binds by value
/// under default binding mode `bm`: its recorded type is the matched type.
pub open spec fn plain_binding(body: Body, s: int, bm: BindingMode) -> bool {
    match body.pats@[s] {
        Pat::Wild => true,
        Pat::Bind { mode, subpat, .. } => subpat is None && effective_mode(mode, bm) == BindingMode::Move,
        _ => false,
    }
}

/// The type recorded for a plain binding `s` has the shape of the (known) type it
/// was matched against; against a ground type, a wildcard or a binding without
/// sub-pattern records exactly that type, or a reference to it when the binding
/// borrows.
pub open spec fn shape_recorded(body: Body, s: int, bm: BindingMode, expected: Ty, t: Option<Ty>) -> bool {
    &&& plain_binding(body, s, bm) && !(expected is Unknown) && !(expected is Var) ==> (t is Some
        && same_head(t->0, expected))
    &&& ground(expected) && !(expected is Unknown) ==> match body.pats@[s] {
        Pat::Wild => t is Some && t->0.model() == expected.model(),
        Pat::Bind { mode, subpat, .. } => subpat is None ==> t is Some && match effective_mode(mode, bm) {
            BindingMode::Move => t->0.model() == expected.model(),
            BindingMode::Ref(m) => t->0.model() == TyModel::Ref(m, Box::new(expected.model())),
        },
        _ => true,
    }
}

/// The container a slice pattern is typed as: an array of the expected element
/// type against an array, a slice of it otherwise.
pub open spec fn container_of(t: Ty) -> Ty {
    if t is Array {
        Ty::Array(Box::new(element_of(t)))
    } else {
        Ty::Slice(Box::new(element_of(t)))
    }
}

/// The rest pattern of slice pattern `pat`, where it is a plain binding, is
/// recorded with the container type (an array against an array, a slice
/// otherwise), not with the element type; against a ground element type, exactly
/// that container (or a reference to it, for a borrowing binding).
pub open spec fn slice_rest_recorded(body: Body, pat: int, bm: BindingMode, expected: Ty, types: Seq<Option<Ty>>) -> bool {
    &&& match body.pats@[pat] {
        Pat::Slice { slice, .. } => slice is Some && plain_binding(body, slice->0 as int, bm) ==> (
        types[slice->0 as int] is Some && if expected is Array {
            types[slice->0 as int]->0 is Array
        } else {
            types[slice->0 as int]->0 is Slice
        }),
        _ => true,
    }
    &&& match body.pats@[pat] {
        Pat::Slice { slice, .. } => slice is Some ==> shape_recorded(
            body,
            slice->0 as int,
            bm,
            container_of(expected),
            types[slice->0 as int],
        ),
        _ => true,
    }
}

/// A change confined to the tree of sub-pattern `k` of `pat` is confined to the
/// tree of `pat`.
proof fn lemma_frame_step(
    a: &InferenceContext,
    b: &InferenceContext,
    c: &InferenceContext,
    body: &Body,
    pat: int,
    k: int,
)
    requires
        body.wf(),
        0 <= pat < body.pats@.len(),
        0 <= k < pat_children(body.pats@[pat]).len(),
        a.result.type_of_pat@.len() == b.result.type_of_pat@.len(),
        a.result.variant_resolutions@.len() == b.result.variant_resolutions@.len(),
        a.result.record_pat_field_resolutions@.len() == b.result.record_pat_field_resolutions@.len(),
        a.types_framed(b, body, pat),
        b.types_framed(c, body, pat_children(body.pats@[pat])[k] as int),
    ensures
        a.types_framed(c, body, pat),
{
    let child = pat_children(body.pats@[pat])[k] as int;
    assert(child < pat);
    assert forall|q: int|
        0 <= q < a.result.type_of_pat@.len() && !body.reaches(pat, q) implies #[trigger] c.result.type_of_pat@[q]
        == a.result.type_of_pat@[q] by {
        if body.reaches(child, q) {
            assert(body.reaches(pat, q));
        }
        assert(b.result.type_of_pat@[q] == a.result.type_of_pat@[q]);
    }
    assert forall|q: int|
        0 <= q < a.result.variant_resolutions@.len() && !body.reaches(pat, q) implies #[trigger] c.result.variant_resolutions@[q]
        == a.result.variant_resolutions@[q] by {
        if body.reaches(child, q) {
            assert(body.reaches(pat, q));
        }
        assert(b.result.variant_resolutions@[q] == a.result.variant_resolutions@[q]);
    }    assert forall|q: int|
        0 <= q < a.result.record_pat_field_resolutions@.len() && !body.reaches(pat, q) implies #[trigger] c.result.record_pat_field_resolutions@[q]
        == a.result.record_pat_field_resolutions@[q] by {
        if body.reaches(child, q) {
            assert(body.reaches(pat, q));
        }
        assert(b.result.record_pat_field_resolutions@[q] == a.result.record_pat_field_resolutions@[q]);
    }
}

/// No sibling of sub-pattern `k` of `pat`, nor anything below a sibling, reaches it.
proof fn lemma_sibling_unreachable(body: &Body, pat: int, k: int, x: int)
    requires
        body.wf(),
        0 <= pat < body.pats@.len(),
        0 <= k < pat_children(body.pats@[pat]).len(),
        0 <= x < pat,
        x != pat_children(body.pats@[pat])[k],
    ensures
        !body.reaches(x, pat_children(body.pats@[pat])[k] as int),
    decreases x,
{
    let q = pat_children(body.pats@[pat])[k] as int;
    if body.reaches(x, q) {
        let j = choose|j: int|
            0 <= j < pat_children(body.pats@[x]).len() && #[trigger] pat_children(body.pats@[x])[j] < x
                && body.reaches(pat_children(body.pats@[x])[j] as int, q);
        let y = pat_children(body.pats@[x])[j] as int;
        if y == q {
            assert(pat_children(body.pats@[x])[j] == pat_children(body.pats@[pat])[k]);
        } else {
            lemma_sibling_unreachable(body, pat, k, y);
        }
    }
}

/// A call confined to the tree of sub-pattern `k` of `pat` leaves the record of
/// every other sub-pattern `j` of `pat` alone.
proof fn lemma_sibling_kept(prev: &InferenceContext, cur: &InferenceContext, body: &Body, pat: int, k: int, j: int)
    requires
        body.wf(),
        0 <= pat < body.pats@.len(),
        0 <= k < pat_children(body.pats@[pat]).len(),
        0 <= j < pat_children(body.pats@[pat]).len(),
        j != k,
        prev.result.type_of_pat@.len() == body.pats@.len(),
        prev.types_framed(cur, body, pat_children(body.pats@[pat])[k] as int),
    ensures
        cur.result.type_of_pat@[pat_children(body.pats@[pat])[j] as int]
            == prev.result.type_of_pat@[pat_children(body.pats@[pat])[j] as int],
{
    assert(pat_children(body.pats@[pat])[k] != pat_children(body.pats@[pat])[j]);
    lemma_sibling_unreachable(body, pat, j, pat_children(body.pats@[pat])[k] as int);
}

/// Everything a pattern reaches was allocated no later than it.
proof fn lemma_reach_le(body: &Body, x: int, q: int)
    requires
        body.reaches(x, q),
    ensures
        q <= x,
    decreases x,
{
    if x != q {
        let j = choose|j: int|
            0 <= j < pat_children(body.pats@[x]).len() && #[trigger] pat_children(body.pats@[x])[j] < x
                && body.reaches(pat_children(body.pats@[x])[j] as int, q);
        lemma_reach_le(body, pat_children(body.pats@[x])[j] as int, q);
    }
}

proof fn lemma_steps_trans(a: &InferenceContext, b: &InferenceContext, c: &InferenceContext, body: &Body)
    requires
        a.wf(body),
        a.steps_to(b, body),
        b.steps_to(c, body),
    ensures
        a.steps_to(c, body),
{
    assert forall|q: int|
        0 <= q < a.result.record_pat_field_resolutions@.len() && (
        #[trigger] a.result.record_pat_field_resolutions@[q]) is Some implies c.result.record_pat_field_resolutions@[q]
        == a.result.record_pat_field_resolutions@[q] by {
        assert(b.result.record_pat_field_resolutions@[q] == a.result.record_pat_field_resolutions@[q]);
    }
}

proof fn lemma_keeps_covers(a: &InferenceContext, b: &InferenceContext, body: &Body, q: int)
    requires
        a.keeps_records(b),
        a.covers(*body, q),
    ensures
        b.covers(*body, q),
{
}

proof fn lemma_covers(ctx: &InferenceContext, body: &Body, p: int)
    requires
        0 <= p < body.pats@.len(),
        ctx.recorded(p),
        forall|k: int|
            0 <= k < pat_children(body.pats@[p]).len() ==> ctx.covers(
                *body,
                #[trigger] pat_children(body.pats@[p])[k] as int,
            ),
    ensures
        ctx.covers(*body, p),
{
    assert forall|r: int| #[trigger] body.reaches(p, r) implies ctx.recorded(r) by {
        if r != p {
            let k = choose|k: int|
                0 <= k < pat_children(body.pats@[p]).len() && #[trigger] pat_children(body.pats@[p])[k]
                    < p && body.reaches(pat_children(body.pats@[p])[k] as int, r);
            assert(ctx.covers(*body, pat_children(body.pats@[p])[k] as int));
        }
    }
}


impl InferenceContext {
    /// Infers the type of pattern `pat` matched against a value of type `expected`,
    /// with `default_bm` the binding mode of the enclosing pattern. Records a type
    /// for every pattern of the tree, the variant of every tuple-struct and record
    /// pattern whose path resolves, and the field of every record field that
    /// exists; never fails. A binding pattern returns the type of the matched
    /// value, not that of the variable. Each sub-pattern is recorded against the
    /// type it was matched with: the aligned tuple component, the field's declared
    /// type, the element or container type, the referent; under the binding mode
    /// that peeling references gave, or by value beneath an explicit `&`.
    pub fn infer_pat(&mut self, body: &Body, pat: PatId, expected: &Ty, default_bm: BindingMode) -> (r:
        Ty)
        requires
            old(self).wf(body),
            pat < body.pats@.len(),
        ensures
            old(self).steps_to(final(self), body),
            final(self).covers(*body, pat as int),
            old(self).types_framed(final(self), body, pat as int),
            (body.pats@[pat as int] is Tuple) ==> (r matches Ty::Tuple(rs) && rs@.len() == tuple_arity(
                pat_children(body.pats@[pat as int]).len(),
                tuple_len(strip_refs(*expected, default_bm).0),
            )),
            bind_mode_ok(
                *body,
                pat as int,
                pattern_context(*body, pat as int, *expected, default_bm).1,
                final(self).result.type_of_pat@[pat as int],
            ),
            result_head(
                *body,
                old(self).db,
                pat as int,
                pattern_context(*body, pat as int, *expected, default_bm).0,
                r,
            ),
            fields_resolved(*body, *final(self), pat as int),
            bind_record_ok(
                *body,
                final(self).table,
                pat as int,
                pattern_context(*body, pat as int, *expected, default_bm).1,
                r,
                final(self).result.type_of_pat@[pat as int],
            ),
            bind_result_ok(
                *body,
                pat as int,
                pattern_context(*body, pat as int, *expected, default_bm).0,
                r,
                final(self).result.type_of_pat@,
            ),
            final(self).table.num_vars() < usize::MAX ==> !(r is Unknown),
            !(body.pats@[pat as int] is Bind) ==> records_result(
                final(self).table,
                final(self).result.type_of_pat@[pat as int],
                r,
            ),
            match body.pats@[pat as int] {
                Pat::Tuple { args, ellipsis } => (forall|j: int|
                    rest_at(ellipsis, args@.len() as int) <= j < rest_at(ellipsis, args@.len() as int) + (
                    tuple_len(strip_refs(*expected, default_bm).0) - args@.len()) && ground(
                        tuple_component(strip_refs(*expected, default_bm).0, j),
                    ) ==> #[trigger] r->Tuple_0@[j].model() == tuple_component(
                        strip_refs(*expected, default_bm).0,
                        j,
                    ).model()) && (forall|j: int|
                    0 <= j < args@.len() && bare_binding(*body, args@[j] as int) && ground(
                        tuple_component(
                            strip_refs(*expected, default_bm).0,
                            tuple_pos(
                                j,
                                rest_at(ellipsis, args@.len() as int),
                                args@.len() as int,
                                tuple_len(strip_refs(*expected, default_bm).0) as int,
                            ),
                        ),
                    ) && !(tuple_component(
                        strip_refs(*expected, default_bm).0,
                        tuple_pos(
                            j,
                            rest_at(ellipsis, args@.len() as int),
                            args@.len() as int,
                            tuple_len(strip_refs(*expected, default_bm).0) as int,
                        ),
                    ) is Unknown) ==> #[trigger] r->Tuple_0@[tuple_pos(
                        j,
                        rest_at(ellipsis, args@.len() as int),
                        args@.len() as int,
                        tuple_len(strip_refs(*expected, default_bm).0) as int,
                    )].model() == tuple_component(
                        strip_refs(*expected, default_bm).0,
                        tuple_pos(
                            j,
                            rest_at(ellipsis, args@.len() as int),
                            args@.len() as int,
                            tuple_len(strip_refs(*expected, default_bm).0) as int,
                        ),
                    ).model()) && forall|j: int|
                    0 <= j < args@.len() ==> #[trigger] tuple_child_ok(
                        *body,
                        args@,
                        rest_at(ellipsis, args@.len() as int),
                        strip_refs(*expected, default_bm).1,
                        strip_refs(*expected, default_bm).0,
                        final(self).result.type_of_pat@,
                        j,
                    ),
                Pat::TupleStruct { path, args, ellipsis } => (path_variant(final(self).db, path) is Some
                    ==> final(self).result.variant_resolutions@[pat as int] == path_variant(final(self).db, path))
                    && (path_variant(final(self).db, path) is None ==> final(self).result.variant_resolutions@[pat as int]
                    == old(self).result.variant_resolutions@[pat as int])
                    && forall|j: int|
                    0 <= j < args@.len() ==> #[trigger] adt_child_ok(
                        *body,
                        final(self).db,
                        path,
                        args@[j] as int,
                        tuple_struct_child_name(
                            final(self).db,
                            path,
                            j,
                            rest_at(ellipsis, args@.len() as int),
                            args@.len() as int,
                        ),
                        strip_refs(*expected, default_bm).1,
                        final(self).result.type_of_pat@,
                    ),
                Pat::Record { path, args, .. } => (path_variant(final(self).db, path) is Some
                    ==> final(self).result.variant_resolutions@[pat as int] == path_variant(final(self).db, path))
                    && (path_variant(final(self).db, path) is None ==> final(self).result.variant_resolutions@[pat as int]
                    == old(self).result.variant_resolutions@[pat as int])
                    && forall|j: int|
                    0 <= j < args@.len() ==> #[trigger] adt_child_ok(
                        *body,
                        final(self).db,
                        path,
                        args@[j].pat as int,
                        Some(args@[j].name),
                        strip_refs(*expected, default_bm).1,
                        final(self).result.type_of_pat@,
                    ),
                Pat::Ref { pat: inner, mutability } => child_recorded(
                    *body,
                    inner as int,
                    BindingMode::Move,
                    referent(*expected),
                    final(self).result.type_of_pat@[inner as int],
                ) && (bare_binding(*body, inner as int) && ground(referent(*expected)) && !(
                referent(*expected) is Unknown) ==> r.model() == TyModel::Ref(
                    mutability,
                    Box::new(referent(*expected).model()),
                )),
                Pat::Or(pats) => pats@.len() > 0 && !(body.pats@[pats@[0] as int] is Bind) && !(
                final(self).result.type_of_pat@[pats@[0] as int]->0 is Unknown) && final(self).table.no_bound_vars(
                    final(self).result.type_of_pat@[pats@[0] as int]->0,
                ) ==> r.model() == final(self).result.type_of_pat@[pats@[0] as int]->0.model(),
                Pat::Lit(e) => expr_result(*body, e as int, r),
                Pat::ConstBlock(e) => expr_result(*body, e as int, r),
                Pat::Range { end, .. } => expr_result(*body, end as int, r),
                _ => true,
            },
            shape_recorded(
                *body,
                pat as int,
                pattern_context(*body, pat as int, *expected, default_bm).1,
                pattern_context(*body, pat as int, *expected, default_bm).0,
                final(self).result.type_of_pat@[pat as int],
            ),
            slice_rest_recorded(
                *body,
                pat as int,
                pattern_context(*body, pat as int, *expected, default_bm).1,
                pattern_context(*body, pat as int, *expected, default_bm).0,
                final(self).result.type_of_pat@,
            ),
            slice_elems_ok(
                *body,
                pat as int,
                pattern_context(*body, pat as int, *expected, default_bm).1,
                pattern_context(*body, pat as int, *expected, default_bm).0,
                final(self).result.type_of_pat@,
            ),
        decreases pat, 1nat,
    {
        let ghost exp0 = *expected;
        let ghost bm0 = default_bm;
        let (expected, default_bm) = default_binding(body, pat, expected, default_bm);
        let ty = match &body.pats[pat] {
            Pat::Tuple { args, ellipsis } => self.infer_tuple_pat(
                body,
                pat,
                args,
                *ellipsis,
                expected,
                default_bm,
            ),
            Pat::Or(pats) => self.infer_or_pat(body, pat, pats, expected, default_bm),
            Pat::Ref { pat: inner, mutability } => self.infer_ref_pat(
                body,
                pat,
                *inner,
                *mutability,
                expected,
                default_bm,
            ),
            Pat::TupleStruct { path, args, ellipsis } => self.infer_tuple_struct_pat(
                body,
                pat,
                *path,
                args,
                *ellipsis,
                expected,
                default_bm,
            ),
            Pat::Record { path, args, ellipsis } => self.infer_record_pat(
                body,
                pat,
                *path,
                args,
                *ellipsis,
                expected,
                default_bm,
            ),
            Pat::Path(path) => {
                if *path < self.db.paths.len() {
                    copy_ty(&self.db.paths[*path].ty)
                } else {
                    Ty::Unknown
                }
            },
            Pat::Bind { mode, name, subpat } => {
                let r = self.infer_bind_pat(body, pat, *mode, *name, *subpat, expected, default_bm);
                proof {
                    lemma_covers(self, body, pat as int);
                }
                return r;
            },
            Pat::Slice { prefix, slice, suffix } => self.infer_slice_pat(
                body,
                pat,
                prefix,
                *slice,
                suffix,
                expected,
                default_bm,
            ),
            Pat::Wild => copy_ty(expected),
            Pat::Range { start, end } => {
                assert(pat_exprs(body.pats@[pat as int])[0] == *start);
                assert(pat_exprs(body.pats@[pat as int])[1] == *end);
                let start_ty = self.infer_expr(body, *start, expected);
                self.infer_expr(body, *end, &start_ty)
            },
            Pat::Lit(e) => {
                assert(pat_exprs(body.pats@[pat as int])[0] == *e);
                self.infer_expr(body, *e, expected)
            },
            Pat::Box { inner } => self.infer_box_pat(body, pat, *inner, expected, default_bm),
            Pat::ConstBlock(e) => {
                assert(pat_exprs(body.pats@[pat as int])[0] == *e);
                self.infer_expr(body, *e, expected)
            },
            Pat::Missing => Ty::Unknown,
        };
        let ghost before = *self;
        let ghost ty0 = ty;
        let r = self.finalize(body, pat, ty, expected);
        proof {
            assert forall|k: int|
                0 <= k < pat_children(body.pats@[pat as int]).len() implies self.covers(
                *body,
                #[trigger] pat_children(body.pats@[pat as int])[k] as int,
            ) by {
                lemma_keeps_covers(&before, self, body, pat_children(body.pats@[pat as int])[k] as int);
            }
            lemma_covers(self, body, pat as int);
            match body.pats@[pat as int] {
                Pat::Tuple { args, ellipsis } => {
                    assert(body.non_ref_pat(pat as int));
                    assert(ellipsis_ok(body.pats@[pat as int]));
                    let e0 = strip_refs(exp0, bm0).0;
                    assert forall|j: int|
                        rest_at(ellipsis, args@.len() as int) <= j < rest_at(ellipsis, args@.len() as int) + (
                        tuple_len(e0) - args@.len()) && ground(tuple_component(e0, j)) implies #[trigger] r->Tuple_0@[j].model()
                        == tuple_component(e0, j).model() by {
                        assert forall|w: usize| !#[trigger] has_var(ty0->Tuple_0@[j], w) by {
                            assert(has_var(ty0->Tuple_0@[j], w) == has_var(tuple_component(e0, j), w));
                        }
                        assert(self.table.no_bound_vars(ty0->Tuple_0@[j]));
                        assert(r->Tuple_0@[j] == ty0->Tuple_0@[j]);
                    }
                    let ra = rest_at(ellipsis, args@.len() as int);
                    assert forall|j: int|
                        0 <= j < args@.len() && bare_binding(*body, args@[j] as int) && ground(
                            tuple_component(e0, tuple_pos(j, ra, args@.len() as int, tuple_len(e0) as int)),
                        ) && !(tuple_component(e0, tuple_pos(j, ra, args@.len() as int, tuple_len(e0) as int))
                            is Unknown) implies #[trigger] r->Tuple_0@[tuple_pos(
                        j,
                        ra,
                        args@.len() as int,
                        tuple_len(e0) as int,
                    )].model() == tuple_component(e0, tuple_pos(j, ra, args@.len() as int, tuple_len(e0) as int)).model() by {
                        let pos = tuple_pos(j, ra, args@.len() as int, tuple_len(e0) as int);
                        assert(tuple_elem_ok(*body, args@, ra, e0, ty0->Tuple_0@, j));
                        assert forall|w: usize| !#[trigger] has_var(ty0->Tuple_0@[pos], w) by {
                            assert(has_var(ty0->Tuple_0@[pos], w) == has_var(tuple_component(e0, pos), w));
                        }
                        assert(self.table.no_bound_vars(ty0->Tuple_0@[pos]));
                        assert(r->Tuple_0@[pos] == ty0->Tuple_0@[pos]);
                    }
                    assert forall|j: int| 0 <= j < args@.len() implies #[trigger] tuple_child_ok(
                        *body,
                        args@,
                        rest_at(ellipsis, args@.len() as int),
                        strip_refs(exp0, bm0).1,
                        strip_refs(exp0, bm0).0,
                        self.result.type_of_pat@,
                        j,
                    ) by {
                        assert(pat_children(body.pats@[pat as int])[j] == args@[j]);
                        assert(self.result.type_of_pat@[args@[j] as int]
                            == before.result.type_of_pat@[args@[j] as int]);
                        assert(tuple_child_ok(
                            *body,
                            args@,
                            rest_at(ellipsis, args@.len() as int),
                            strip_refs(exp0, bm0).1,
                            strip_refs(exp0, bm0).0,
                            before.result.type_of_pat@,
                            j,
                        ));
                    }
                },
                Pat::TupleStruct { path, args, ellipsis } => {
                    assert(body.non_ref_pat(pat as int));
                    assert forall|j: int| 0 <= j < args@.len() implies #[trigger] adt_child_ok(
                        *body,
                        self.db,
                        path,
                        args@[j] as int,
                        tuple_struct_child_name(self.db, path, j, rest_at(ellipsis, args@.len() as int), args@.len() as int),
                        strip_refs(exp0, bm0).1,
                        self.result.type_of_pat@,
                    ) by {
                        assert(pat_children(body.pats@[pat as int])[j] == args@[j]);
                        assert(self.result.type_of_pat@[args@[j] as int]
                            == before.result.type_of_pat@[args@[j] as int]);
                        assert(adt_child_ok(
                            *body,
                            self.db,
                            path,
                            args@[j] as int,
                            tuple_struct_child_name(self.db, path, j, rest_at(ellipsis, args@.len() as int), args@.len() as int),
                            strip_refs(exp0, bm0).1,
                            before.result.type_of_pat@,
                        ));
                    }
                },
                Pat::Record { path, args, .. } => {
                    assert(body.non_ref_pat(pat as int));
                    lemma_record_children(body.pats@[pat as int]);
                    assert forall|j: int| 0 <= j < args@.len() implies #[trigger] adt_child_ok(
                        *body,
                        self.db,
                        path,
                        args@[j].pat as int,
                        Some(args@[j].name),
                        strip_refs(exp0, bm0).1,
                        self.result.type_of_pat@,
                    ) by {
                        assert(record_args(body.pats@[pat as int])[j] == args@[j]);
                        assert(pat_children(body.pats@[pat as int])[j] == args@[j].pat);
                        assert(self.result.type_of_pat@[args@[j].pat as int]
                            == before.result.type_of_pat@[args@[j].pat as int]);
                        assert(adt_child_ok(
                            *body,
                            self.db,
                            path,
                            args@[j].pat as int,
                            Some(args@[j].name),
                            strip_refs(exp0, bm0).1,
                            before.result.type_of_pat@,
                        ));
                    }
                },
                Pat::Ref { pat: inner, .. } => {
                    assert(pat_children(body.pats@[pat as int])[0] == inner);
                    if bare_binding(*body, inner as int) && ground(referent(exp0)) && !(referent(exp0) is Unknown) {
                        assert forall|w: usize| #[trigger] has_var(ty0, w) implies !self.table.is_bound(w) by {
                            assert(has_var(ty0, w) == has_var(referent(exp0), w));
                        }
                        assert(r == ty0);
                    }
                    assert(self.result.type_of_pat@[inner as int] == before.result.type_of_pat@[inner as int]);
                },
                Pat::Or(pats) => {
                    if pats@.len() > 0 {
                        assert(pat_children(body.pats@[pat as int])[0] == pats@[0]);
                        assert(self.result.type_of_pat@[pats@[0] as int]
                            == before.result.type_of_pat@[pats@[0] as int]);
                        let rec0 = self.result.type_of_pat@[pats@[0] as int]->0;
                        if !(body.pats@[pats@[0] as int] is Bind) && !(rec0 is Unknown)
                            && self.table.no_bound_vars(rec0) {
                            assert forall|w: usize| #[trigger] has_var(ty0, w) implies !self.table.is_bound(w) by {
                                assert(has_var(rec0, w));
                            }
                            assert(r == ty0);
                        }
                    }
                },
                _ => {},
            }
            if body.pats@[pat as int] is Slice && ground(element_of(strip_refs(exp0, bm0).0)) {
                assert(body.non_ref_pat(pat as int));
                assert forall|w: usize| #[trigger] has_var(ty0, w) implies !self.table.is_bound(w) by {
                    assert(has_var(ty0, w) == has_var(element_of(strip_refs(exp0, bm0).0), w));
                }
                assert(r == ty0);
            }
            if (body.pats@[pat as int] is TupleStruct || body.pats@[pat as int] is Record) {
                let path = if let Pat::TupleStruct { path, .. } = body.pats@[pat as int] {
                    path
                } else {
                    body.pats@[pat as int]->Record_path
                };
                if self.db.resolves(path) && ground(self.db.paths@[path->0 as int].ty) && !(
                self.db.paths@[path->0 as int].ty is Unknown) {
                    assert forall|w: usize| #[trigger] has_var(ty0, w) implies !self.table.is_bound(w) by {
                        assert(has_var(ty0, w) == has_var(self.db.paths@[path->0 as int].ty, w));
                    }
                    assert(r == ty0);
                }
            }
            if body.pats@[pat as int] is Wild && ground(exp0) && !(exp0 is Unknown) {
                assert(ground(ty0));
                assert(r == ty0);
            }
            if let Pat::Slice { prefix, slice, suffix } = body.pats@[pat as int] {
                let ch = pat_children(body.pats@[pat as int]);
                assert(ch == prefix@ + crate::pat::opt_seq(slice) + suffix@);
                let nm = crate::pat::opt_seq(slice).len();
                assert forall|j: int| 0 <= j < prefix@.len() implies #[trigger] self.result.type_of_pat@[prefix@[j] as int]
                    == before.result.type_of_pat@[prefix@[j] as int] by {
                    assert(ch[j] == prefix@[j]);
                }
                assert forall|j: int| 0 <= j < suffix@.len() implies #[trigger] self.result.type_of_pat@[suffix@[j] as int]
                    == before.result.type_of_pat@[suffix@[j] as int] by {
                    assert(ch[prefix@.len() + nm + j] == suffix@[j]);
                }
                if let Some(sl) = slice {
                    assert(pat_children(body.pats@[pat as int])[prefix@.len() as int] == sl);
                    assert(self.result.type_of_pat@[sl as int] == before.result.type_of_pat@[sl as int]);
                }
            }
        }
        r
    }

    /// Gives an unknown result a fresh variable, unifies it with `expected`, and
    /// records it, resolved as far as known, as the type of `pat`.
    fn finalize(&mut self, body: &Body, pat: PatId, ty: Ty, expected: &Ty) -> (r: Ty)
        requires
            old(self).wf(body),
            pat < body.pats@.len(),
            body.pats@[pat as int] is Ref ==> (ty matches Ty::Ref(m, _) && m == body.pats@[pat as int]->Ref_mutability),
        ensures
            old(self).steps_to(final(self), body),
            final(self).recorded(pat as int),
            !(ty is Unknown) && !(ty is Var) ==> same_head(r, ty),
            final(self).result.record_pat_field_resolutions == old(self).result.record_pat_field_resolutions,
            final(self).result.variant_resolutions == old(self).result.variant_resolutions,
            final(self).result.type_of_pat@ == old(self).result.type_of_pat@.update(
                pat as int,
                Some(final(self).result.type_of_pat@[pat as int]->0),
            ),
            final(self).result.type_of_pat@[pat as int] matches Some(x) && same_head(x, r),
            records_result(final(self).table, final(self).result.type_of_pat@[pat as int], r),
            ground(ty) && !(ty is Unknown) ==> r == ty,
            !(ty is Unknown) && final(self).table.no_bound_vars(ty) ==> r == ty,
            ty is Tuple ==> r is Tuple && forall|i: int|
                0 <= i < ty->Tuple_0@.len() && final(self).table.no_bound_vars(#[trigger] ty->Tuple_0@[i])
                    ==> r->Tuple_0@[i] == ty->Tuple_0@[i],
            final(self).table.num_vars() < usize::MAX ==> !(r is Unknown),
    {
        let ty = self.table.insert_type_vars_shallow(ty);
        let _ = self.table.unify(&ty, expected);
        let ty = self.table.resolve_ty_as_possible(ty);
        self.result.type_of_pat.set(pat, Some(copy_ty(&ty)));
        ty
    }

    /// Infers a literal, range bound or const-block expression against `expected`.
    fn infer_expr(&mut self, body: &Body, expr: ExprId, expected: &Ty) -> (r: Ty)
        requires
            old(self).wf(body),
            expr < body.exprs@.len(),
        ensures
            old(self).steps_to(final(self), body),
            old(self).result.type_of_pat == final(self).result.type_of_pat,
            old(self).result.record_pat_field_resolutions == final(self).result.record_pat_field_resolutions,
            old(self).result.variant_resolutions == final(self).result.variant_resolutions,
            expr_result(*body, expr as int, r),
            final(self).table.no_bound_vars(r),
    {
        let ty = match body.exprs[expr] {
            Expr::Literal(lit) => literal_ty(lit),
            Expr::Missing => Ty::Unknown,
        };
        let ty = self.table.insert_type_vars_shallow(ty);
        let _ = self.table.unify(&ty, expected);
        self.table.resolve_ty_as_possible(ty)
    }
}


impl InferenceContext {
    /// A tuple pattern: sub-patterns before the rest marker take the expected
    /// components from the front, those after it from the back; expected
    /// components that no sub-pattern covers are carried into the result.
    fn infer_tuple_pat(
        &mut self,
        body: &Body,
        pat: PatId,
        args: &Vec<PatId>,
        ellipsis: Option<usize>,
        expected: &Ty,
        bm: BindingMode,
    ) -> (r: Ty)
        requires
            old(self).wf(body),
            pat < body.pats@.len(),
            body.pats@[pat as int] == (Pat::Tuple { args: *args, ellipsis }),
        ensures
            old(self).steps_to(final(self), body),
            final(self).children_covered(body, pat as int),
            old(self).types_framed(final(self), body, pat as int),
            r matches Ty::Tuple(rs) && rs@.len() == tuple_arity(args@.len(), tuple_len(*expected)),
            forall|j: int|
                rest_at(ellipsis, args@.len() as int) <= j < rest_at(ellipsis, args@.len() as int) + (
                tuple_len(*expected) - args@.len()) ==> same_head(
                    #[trigger] r->Tuple_0@[j],
                    tuple_component(*expected, j),
                ) && r->Tuple_0@[j].model() == tuple_component(*expected, j).model() && forall|w: usize|
                    #[trigger] has_var(r->Tuple_0@[j], w) == has_var(tuple_component(*expected, j), w),
            forall|j: int|
                0 <= j < args@.len() ==> #[trigger] tuple_elem_ok(
                    *body,
                    args@,
                    rest_at(ellipsis, args@.len() as int),
                    *expected,
                    r->Tuple_0@,
                    j,
                ),
            forall|j: int|
                0 <= j < args@.len() ==> #[trigger] tuple_child_ok(
                    *body,
                    args@,
                    rest_at(ellipsis, args@.len() as int),
                    bm,
                    *expected,
                    final(self).result.type_of_pat@,
                    j,
                ),
        decreases pat, 0nat,
    {
        proof {
            assert(ellipsis_ok(body.pats@[pat as int]));
        }
        let exps: Vec<Ty> = match expected {
            Ty::Tuple(es) => copy_list(es),
            _ => Vec::new(),
        };
        let n = args.len();
        let rest = match ellipsis {
            Some(i) => i,
            None => n,
        };
        let n_unc = if exps.len() > n {
            exps.len() - n
        } else {
            0
        };
        let unknown = Ty::Unknown;
        let mut inner: Vec<Ty> = Vec::new();
        let mut k: usize = 0;
        while k < rest
            invariant
                old(self).wf(body),
                old(self).steps_to(self, body),
                old(self).types_framed(self, body, pat as int),
                pat < body.pats@.len(),
                body.pats@[pat as int] == (Pat::Tuple { args: *args, ellipsis }),
                n == args@.len(),
                rest <= n,
                k <= rest,
                inner@.len() == k,
                forall|j: int|
                    0 <= j < k ==> #[trigger] tuple_elem_ok(*body, args@, rest as int, *expected, inner@, j),
                forall|j: int| 0 <= j < k ==> self.covers(*body, #[trigger] args@[j] as int),
                forall|j: int|
                    0 <= j < k ==> #[trigger] tuple_child_ok(
                        *body,
                        args@,
                        rest as int,
                        bm,
                        *expected,
                        self.result.type_of_pat@,
                        j,
                    ),
                rest == rest_at(ellipsis, n as int),
                forall|i: int| 0 <= i < exps@.len() ==> same_head(#[trigger] exps@[i], expected->Tuple_0@[i]),
                forall|i: int| 0 <= i < exps@.len() ==> #[trigger] exps@[i].model() == expected->Tuple_0@[i].model(),
                forall|i: int, w: usize|
                    0 <= i < exps@.len() ==> #[trigger] has_var(exps@[i], w) == has_var(expected->Tuple_0@[i], w),
                *expected is Tuple ==> exps@.len() == tuple_len(*expected),
                !(*expected is Tuple) ==> exps@.len() == 0,
                n_unc == (if exps@.len() > n { exps@.len() - n } else { 0 }),
            decreases rest - k,
        {
            let e: &Ty = if k < exps.len() {
                &exps[k]
            } else {
                &unknown
            };
            assert(pat_children(body.pats@[pat as int])[k as int] == args@[k as int]);
            let ghost prev = *self;
            let t = self.infer_pat(body, args[k], e, bm);
            proof {
                lemma_steps_trans(old(self), &prev, self, body);
                lemma_frame_step(old(self), &prev, self, body, pat as int, k as int);
            }
            proof {
                assert forall|j: int| 0 <= j < k implies self.covers(*body, #[trigger] args@[j] as int) by {
                    lemma_keeps_covers(&prev, self, body, args@[j] as int);
                }
                assert forall|j: int| 0 <= j < k + 1 implies #[trigger] tuple_child_ok(
                    *body,
                    args@,
                    rest as int,
                    bm,
                    *expected,
                    self.result.type_of_pat@,
                    j,
                ) by {
                    if j < k {
                        assert(pat_children(body.pats@[pat as int])[j] == args@[j]);
                        lemma_sibling_unreachable(body, pat as int, j, args@[k as int] as int);
                        assert(self.result.type_of_pat@[args@[j] as int] == prev.result.type_of_pat@[args@[j] as int]);
                        assert(tuple_child_ok(*body, args@, rest as int, bm, *expected, prev.result.type_of_pat@, j));
                    }
                }
            }
            let ghost ib = inner@;
            inner.push(t);
            proof {
                assert forall|j: int| 0 <= j < k + 1 implies #[trigger] tuple_elem_ok(
                    *body,
                    args@,
                    rest as int,
                    *expected,
                    inner@,
                    j,
                ) by {
                    let pos = tuple_pos(j, rest as int, n as int, tuple_len(*expected) as int);
                    if j < k {
                        assert(tuple_elem_ok(*body, args@, rest as int, *expected, ib, j));
                        assert(inner@[pos] == ib[pos]);
                    } else {
                        assert(inner@[pos] == t);
                    }
                }
            }
            k = k + 1;
        }
        let mut m: usize = 0;
        while m < n_unc
            invariant
                rest <= n,
                n == args@.len(),
                n_unc > 0 ==> n + n_unc == exps@.len(),
                exps@.len() <= usize::MAX,
                m <= n_unc,
                forall|i: int| 0 <= i < exps@.len() ==> same_head(#[trigger] exps@[i], expected->Tuple_0@[i]),
                forall|i: int| 0 <= i < exps@.len() ==> #[trigger] exps@[i].model() == expected->Tuple_0@[i].model(),
                forall|i: int, w: usize|
                    0 <= i < exps@.len() ==> #[trigger] has_var(exps@[i], w) == has_var(expected->Tuple_0@[i], w),
                *expected is Tuple ==> exps@.len() == tuple_len(*expected),
                !(*expected is Tuple) ==> exps@.len() == 0,
                n_unc == (if exps@.len() > n { exps@.len() - n } else { 0 }),
                forall|j: int| rest <= j < rest + m ==> same_head(#[trigger] inner@[j], tuple_component(*expected, j)),
                forall|j: int| rest <= j < rest + m ==> #[trigger] inner@[j].model() == tuple_component(*expected, j).model(),
                forall|j: int, w: usize|
                    rest <= j < rest + m ==> #[trigger] has_var(inner@[j], w) == has_var(tuple_component(*expected, j), w),
                inner@.len() == rest + m,
                forall|j: int|
                    0 <= j < rest ==> #[trigger] tuple_elem_ok(*body, args@, rest as int, *expected, inner@, j),
                forall|j: int| 0 <= j < rest ==> #[trigger] args@[j] == args@[j],
            decreases n_unc - m,
        {
            let ghost ib = inner@;
            inner.push(copy_ty(&exps[rest + m]));
            proof {
                assert forall|j: int| 0 <= j < rest implies #[trigger] tuple_elem_ok(
                    *body,
                    args@,
                    rest as int,
                    *expected,
                    inner@,
                    j,
                ) by {
                    assert(tuple_elem_ok(*body, args@, rest as int, *expected, ib, j));
                    assert(inner@[j] == ib[j]);
                }
            }
            m = m + 1;
        }
        while k < n
            invariant
                old(self).wf(body),
                old(self).steps_to(self, body),
                old(self).types_framed(self, body, pat as int),
                pat < body.pats@.len(),
                body.pats@[pat as int] == (Pat::Tuple { args: *args, ellipsis }),
                n == args@.len(),
                rest <= k <= n,
                n_unc > 0 ==> n + n_unc == exps@.len(),
                exps@.len() <= usize::MAX,
                inner@.len() == k + n_unc,
                forall|j: int|
                    0 <= j < k ==> #[trigger] tuple_elem_ok(*body, args@, rest as int, *expected, inner@, j),
                forall|j: int| rest <= j < rest + n_unc ==> same_head(#[trigger] inner@[j], tuple_component(*expected, j)),
                forall|j: int| rest <= j < rest + n_unc ==> #[trigger] inner@[j].model() == tuple_component(*expected, j).model(),
                forall|j: int, w: usize|
                    rest <= j < rest + n_unc ==> #[trigger] has_var(inner@[j], w) == has_var(tuple_component(*expected, j), w),
                forall|j: int| 0 <= j < k ==> self.covers(*body, #[trigger] args@[j] as int),
                forall|j: int|
                    0 <= j < k ==> #[trigger] tuple_child_ok(
                        *body,
                        args@,
                        rest as int,
                        bm,
                        *expected,
                        self.result.type_of_pat@,
                        j,
                    ),
                rest == rest_at(ellipsis, n as int),
                forall|i: int| 0 <= i < exps@.len() ==> same_head(#[trigger] exps@[i], expected->Tuple_0@[i]),
                forall|i: int| 0 <= i < exps@.len() ==> #[trigger] exps@[i].model() == expected->Tuple_0@[i].model(),
                forall|i: int, w: usize|
                    0 <= i < exps@.len() ==> #[trigger] has_var(exps@[i], w) == has_var(expected->Tuple_0@[i], w),
                *expected is Tuple ==> exps@.len() == tuple_len(*expected),
                !(*expected is Tuple) ==> exps@.len() == 0,
                n_unc == (if exps@.len() > n { exps@.len() - n } else { 0 }),
            decreases n - k,
        {
            let pos = k + n_unc;
            let e: &Ty = if pos < exps.len() {
                &exps[pos]
            } else {
                &unknown
            };
            assert(pat_children(body.pats@[pat as int])[k as int] == args@[k as int]);
            let ghost prev = *self;
            let t = self.infer_pat(body, args[k], e, bm);
            proof {
                lemma_steps_trans(old(self), &prev, self, body);
                lemma_frame_step(old(self), &prev, self, body, pat as int, k as int);
            }
            proof {
                assert forall|j: int| 0 <= j < k implies self.covers(*body, #[trigger] args@[j] as int) by {
                    lemma_keeps_covers(&prev, self, body, args@[j] as int);
                }
                assert forall|j: int| 0 <= j < k + 1 implies #[trigger] tuple_child_ok(
                    *body,
                    args@,
                    rest as int,
                    bm,
                    *expected,
                    self.result.type_of_pat@,
                    j,
                ) by {
                    if j < k {
                        assert(pat_children(body.pats@[pat as int])[j] == args@[j]);
                        lemma_sibling_unreachable(body, pat as int, j, args@[k as int] as int);
                        assert(self.result.type_of_pat@[args@[j] as int] == prev.result.type_of_pat@[args@[j] as int]);
                        assert(tuple_child_ok(*body, args@, rest as int, bm, *expected, prev.result.type_of_pat@, j));
                    }
                }
            }
            let ghost ib = inner@;
            inner.push(t);
            proof {
                assert forall|j: int| 0 <= j < k + 1 implies #[trigger] tuple_elem_ok(
                    *body,
                    args@,
                    rest as int,
                    *expected,
                    inner@,
                    j,
                ) by {
                    let pos = tuple_pos(j, rest as int, n as int, tuple_len(*expected) as int);
                    if j < k {
                        assert(tuple_elem_ok(*body, args@, rest as int, *expected, ib, j));
                        assert(inner@[pos] == ib[pos]);
                    } else {
                        assert(inner@[pos] == t);
                    }
                }
            }
            k = k + 1;
        }
        assert(pat_children(body.pats@[pat as int]) == args@);
        Ty::Tuple(inner)
    }

    /// An alternation: the first alternative gives the type; the others are
    /// inferred against the same expected type for their bindings.
    fn infer_or_pat(&mut self, body: &Body, pat: PatId, pats: &Vec<PatId>, expected: &Ty, bm: BindingMode) -> (r: Ty)
        requires
            old(self).wf(body),
            pat < body.pats@.len(),
            body.pats@[pat as int] == Pat::Or(*pats),
        ensures
            old(self).steps_to(final(self), body),
            final(self).children_covered(body, pat as int),
            old(self).types_framed(final(self), body, pat as int),
            pats@.len() == 0 ==> r is Unknown,
            pats@.len() > 0 && !(body.pats@[pats@[0] as int] is Bind) ==> same_type(
                final(self).result.type_of_pat@[pats@[0] as int],
                r,
            ),
        decreases pat, 0nat,
    {
        if pats.len() == 0 {
            return Ty::Unknown;
        }
        assert(pat_children(body.pats@[pat as int])[0] == pats@[0]);
        let ty = self.infer_pat(body, pats[0], expected, bm);
        let ghost rec0 = self.result.type_of_pat@[pats@[0] as int];
        let mut k: usize = 1;
        while k < pats.len()
            invariant
                old(self).wf(body),
                old(self).steps_to(self, body),
                old(self).types_framed(self, body, pat as int),
                pat < body.pats@.len(),
                body.pats@[pat as int] == Pat::Or(*pats),
                1 <= k <= pats@.len(),
                forall|j: int| 0 <= j < k ==> self.covers(*body, #[trigger] pats@[j] as int),
                self.result.type_of_pat@[pats@[0] as int] == rec0,
            decreases pats@.len() - k,
        {
            assert(pat_children(body.pats@[pat as int])[k as int] == pats@[k as int]);
            let ghost prev = *self;
            self.infer_pat(body, pats[k], expected, bm);
            proof {
                lemma_steps_trans(old(self), &prev, self, body);
                lemma_frame_step(old(self), &prev, self, body, pat as int, k as int);
                assert forall|j: int| 0 <= j < k implies self.covers(*body, #[trigger] pats@[j] as int) by {
                    lemma_keeps_covers(&prev, self, body, pats@[j] as int);
                }
                lemma_sibling_unreachable(body, pat as int, 0, pats@[k as int] as int);
                assert(pats@[0] < body.pats@.len());
            }
            k = k + 1;
        }
        ty
    }

    /// An explicit reference pattern: the sub-pattern is matched against the
    /// referenced type.
    fn infer_ref_pat(
        &mut self,
        body: &Body,
        pat: PatId,
        inner: PatId,
        mutability: Mutability,
        expected: &Ty,
        bm: BindingMode,
    ) -> (r: Ty)
        requires
            old(self).wf(body),
            pat < body.pats@.len(),
            body.pats@[pat as int] == (Pat::Ref { pat: inner, mutability }),
        ensures
            old(self).steps_to(final(self), body),
            final(self).children_covered(body, pat as int),
            old(self).types_framed(final(self), body, pat as int),
            r matches Ty::Ref(m, _) && m == mutability,
            !(body.pats@[inner as int] is Bind) ==> same_type(
                final(self).result.type_of_pat@[inner as int],
                *r->Ref_1,
            ),
            child_recorded(*body, inner as int, bm, referent(*expected), final(self).result.type_of_pat@[inner as int]),
            bare_binding(*body, inner as int) && !(referent(*expected) is Unknown) ==> r.model() == TyModel::Ref(
                mutability,
                Box::new(referent(*expected).model()),
            ) && forall|w: usize| #[trigger] has_var(r, w) == has_var(referent(*expected), w),
        decreases pat, 0nat,
    {
        let unknown = Ty::Unknown;
        let expectation: &Ty = match expected {
            Ty::Ref(_, inner_ty) => inner_ty,
            _ => &unknown,
        };
        assert(pat_children(body.pats@[pat as int])[0] == inner);
        let subty = self.infer_pat(body, inner, expectation, bm);
        let r = Ty::Ref(mutability, Box::new(subty));
        proof {
            lemma_has_var_unfold_all(r);
        }
        r
    }

    /// A binding pattern: records the type of the variable (a reference to the
    /// matched type when the binding borrows) and returns the matched type.
    fn infer_bind_pat(
        &mut self,
        body: &Body,
        pat: PatId,
        mode: BindingAnnotation,
        name: Name,
        subpat: Option<PatId>,
        expected: &Ty,
        bm: BindingMode,
    ) -> (r: Ty)
        requires
            old(self).wf(body),
            pat < body.pats@.len(),
            body.pats@[pat as int] == (Pat::Bind { mode, name, subpat }),
        ensures
            old(self).steps_to(final(self), body),
            final(self).children_covered(body, pat as int),
            old(self).types_framed(final(self), body, pat as int),
            final(self).recorded(pat as int),
            bind_mode_ok(*body, pat as int, bm, final(self).result.type_of_pat@[pat as int]),
            shape_recorded(*body, pat as int, bm, *expected, final(self).result.type_of_pat@[pat as int]),
            bind_result_ok(*body, pat as int, *expected, r, final(self).result.type_of_pat@),
            final(self).table.num_vars() < usize::MAX ==> !(r is Unknown),
            bind_record_ok(*body, final(self).table, pat as int, bm, r, final(self).result.type_of_pat@[pat as int]),
        decreases pat, 0nat,
    {
        let mode = if mode == BindingAnnotation::Unannotated {
            bm
        } else {
            BindingMode::convert(mode)
        };
        let inner_ty = match subpat {
            Some(s) => {
                assert(pat_children(body.pats@[pat as int])[0] == s);
                self.infer_pat(body, s, expected, bm)
            },
            None => copy_ty(expected),
        };
        let inner_ty = self.table.insert_type_vars_shallow(inner_ty);
        let bound_ty = match mode {
            BindingMode::Ref(m) => Ty::Ref(m, Box::new(copy_ty(&inner_ty))),
            BindingMode::Move => copy_ty(&inner_ty),
        };
        proof {
            lemma_has_var_unfold_all(bound_ty);
        }
        let bound_ty = self.table.resolve_ty_as_possible(bound_ty);
        let ghost prev = *self;
        self.result.type_of_pat.set(pat, Some(bound_ty));
        proof {
            if let Some(s) = subpat {
                lemma_keeps_covers(&prev, self, body, s as int);
            }
        }
        inner_ty
    }

    /// A slice pattern: elements are matched against the element type; the rest
    /// pattern against the container type itself.
    fn infer_slice_pat(
        &mut self,
        body: &Body,
        pat: PatId,
        prefix: &Vec<PatId>,
        slice: Option<PatId>,
        suffix: &Vec<PatId>,
        expected: &Ty,
        bm: BindingMode,
    ) -> (r: Ty)
        requires
            old(self).wf(body),
            pat < body.pats@.len(),
            body.pats@[pat as int] == (Pat::Slice { prefix: *prefix, slice, suffix: *suffix }),
        ensures
            old(self).steps_to(final(self), body),
            final(self).children_covered(body, pat as int),
            old(self).types_framed(final(self), body, pat as int),
            (*expected is Array) ==> r is Array,
            !(*expected is Array) ==> r is Slice,
            r.model() == container_of(*expected).model(),
            forall|w: usize| #[trigger] has_var(r, w) == has_var(element_of(*expected), w),
            slice_rest_recorded(*body, pat as int, bm, *expected, final(self).result.type_of_pat@),
            slice_elems_ok(*body, pat as int, bm, *expected, final(self).result.type_of_pat@),
        decreases pat, 0nat,
    {
        let is_array = match expected {
            Ty::Array(_) => true,
            _ => false,
        };
        let elem_ty = match expected {
            Ty::Array(st) => copy_ty(st),
            Ty::Slice(st) => copy_ty(st),
            _ => Ty::Unknown,
        };
        let ghost children = pat_children(body.pats@[pat as int]);
        assert(children == prefix@ + crate::pat::opt_seq(slice) + suffix@);
        let mut k: usize = 0;
        while k < prefix.len()
            invariant
                old(self).wf(body),
                old(self).steps_to(self, body),
                old(self).types_framed(self, body, pat as int),
                pat < body.pats@.len(),
                children == pat_children(body.pats@[pat as int]),
                children == prefix@ + crate::pat::opt_seq(slice) + suffix@,
                k <= prefix@.len(),
                forall|j: int| 0 <= j < k ==> self.covers(*body, #[trigger] prefix@[j] as int),
                forall|j: int|
                    0 <= j < k ==> child_recorded(
                        *body,
                        #[trigger] prefix@[j] as int,
                        bm,
                        element_of(*expected),
                        self.result.type_of_pat@[prefix@[j] as int],
                    ),
                same_head(elem_ty, element_of(*expected)),
                elem_ty.model() == element_of(*expected).model(),
                forall|w: usize| #[trigger] has_var(elem_ty, w) == has_var(element_of(*expected), w),
            decreases prefix@.len() - k,
        {
            assert(children[k as int] == prefix@[k as int]);
            let ghost prev = *self;
            self.infer_pat(body, prefix[k], &elem_ty, bm);
            proof {
                lemma_steps_trans(old(self), &prev, self, body);
                lemma_frame_step(old(self), &prev, self, body, pat as int, k as int);
            }
            proof {
                assert forall|j: int| 0 <= j < k implies self.covers(*body, #[trigger] prefix@[j] as int) by {
                    lemma_keeps_covers(&prev, self, body, prefix@[j] as int);
                }
                assert forall|j: int| 0 <= j < k implies child_recorded(
                    *body,
                    #[trigger] prefix@[j] as int,
                    bm,
                    element_of(*expected),
                    self.result.type_of_pat@[prefix@[j] as int],
                ) by {
                    assert(children[j] == prefix@[j]);
                    lemma_sibling_kept(&prev, self, body, pat as int, k as int, j);
                }
            }
            k = k + 1;
        }
        let ghost n_mid = crate::pat::opt_seq(slice).len();
        let mut k: usize = 0;
        while k < suffix.len()
            invariant
                old(self).wf(body),
                old(self).steps_to(self, body),
                old(self).types_framed(self, body, pat as int),
                pat < body.pats@.len(),
                children == pat_children(body.pats@[pat as int]),
                children == prefix@ + crate::pat::opt_seq(slice) + suffix@,
                n_mid == crate::pat::opt_seq(slice).len(),
                k <= suffix@.len(),
                forall|j: int| 0 <= j < prefix@.len() ==> self.covers(*body, #[trigger] prefix@[j] as int),
                forall|j: int| 0 <= j < k ==> self.covers(*body, #[trigger] suffix@[j] as int),
                forall|j: int|
                    0 <= j < prefix@.len() ==> child_recorded(
                        *body,
                        #[trigger] prefix@[j] as int,
                        bm,
                        element_of(*expected),
                        self.result.type_of_pat@[prefix@[j] as int],
                    ),
                forall|j: int|
                    0 <= j < k ==> child_recorded(
                        *body,
                        #[trigger] suffix@[j] as int,
                        bm,
                        element_of(*expected),
                        self.result.type_of_pat@[suffix@[j] as int],
                    ),
                same_head(elem_ty, element_of(*expected)),
                elem_ty.model() == element_of(*expected).model(),
                forall|w: usize| #[trigger] has_var(elem_ty, w) == has_var(element_of(*expected), w),
            decreases suffix@.len() - k,
        {
            assert(children[prefix@.len() + n_mid + k] == suffix@[k as int]);
            let ghost prev = *self;
            self.infer_pat(body, suffix[k], &elem_ty, bm);
            proof {
                lemma_steps_trans(old(self), &prev, self, body);
                lemma_frame_step(old(self), &prev, self, body, pat as int, prefix@.len() + n_mid + k);
            }
            proof {
                assert forall|j: int| 0 <= j < prefix@.len() implies self.covers(*body, #[trigger] prefix@[j] as int) by {
                    lemma_keeps_covers(&prev, self, body, prefix@[j] as int);
                }
                assert forall|j: int| 0 <= j < k implies self.covers(*body, #[trigger] suffix@[j] as int) by {
                    lemma_keeps_covers(&prev, self, body, suffix@[j] as int);
                }
                assert forall|j: int| 0 <= j < prefix@.len() implies child_recorded(
                    *body,
                    #[trigger] prefix@[j] as int,
                    bm,
                    element_of(*expected),
                    self.result.type_of_pat@[prefix@[j] as int],
                ) by {
                    assert(children[j] == prefix@[j]);
                    lemma_sibling_kept(&prev, self, body, pat as int, prefix@.len() + n_mid + k, j);
                }
                assert forall|j: int| 0 <= j < k implies child_recorded(
                    *body,
                    #[trigger] suffix@[j] as int,
                    bm,
                    element_of(*expected),
                    self.result.type_of_pat@[suffix@[j] as int],
                ) by {
                    assert(children[prefix@.len() + n_mid + j] == suffix@[j]);
                    lemma_sibling_kept(&prev, self, body, pat as int, prefix@.len() + n_mid + k, prefix@.len() + n_mid + j);
                }
            }
            k = k + 1;
        }
        let pat_ty = if is_array {
            Ty::Array(Box::new(elem_ty))
        } else {
            Ty::Slice(Box::new(elem_ty))
        };
        proof {
            lemma_has_var_unfold_all(pat_ty);
        }
        if let Some(s) = slice {
            assert(children[prefix@.len() as int] == s);
            let ghost prev = *self;
            self.infer_pat(body, s, &pat_ty, bm);
            proof {
                lemma_has_var_unfold_all(pat_ty);
                lemma_has_var_unfold_all(container_of(*expected));
                assert(pat_ty.model() == container_of(*expected).model());
                assert forall|w: usize| #[trigger] has_var(pat_ty, w) == has_var(container_of(*expected), w) by {
                    assert(has_var(elem_ty, w) == has_var(element_of(*expected), w));
                }
                assert(ground(container_of(*expected)) ==> ground(pat_ty));
                assert(shape_recorded(*body, s as int, bm, container_of(*expected), self.result.type_of_pat@[s as int]));
                lemma_steps_trans(old(self), &prev, self, body);
                lemma_frame_step(old(self), &prev, self, body, pat as int, prefix@.len() as int);
            }
            proof {
                assert forall|j: int| 0 <= j < prefix@.len() implies self.covers(*body, #[trigger] prefix@[j] as int) by {
                    lemma_keeps_covers(&prev, self, body, prefix@[j] as int);
                }
                assert forall|j: int| 0 <= j < suffix@.len() implies self.covers(*body, #[trigger] suffix@[j] as int) by {
                    lemma_keeps_covers(&prev, self, body, suffix@[j] as int);
                }
                assert forall|j: int| 0 <= j < prefix@.len() implies child_recorded(
                    *body,
                    #[trigger] prefix@[j] as int,
                    bm,
                    element_of(*expected),
                    self.result.type_of_pat@[prefix@[j] as int],
                ) by {
                    assert(children[j] == prefix@[j]);
                    lemma_sibling_kept(&prev, self, body, pat as int, prefix@.len() as int, j);
                }
                assert forall|j: int| 0 <= j < suffix@.len() implies child_recorded(
                    *body,
                    #[trigger] suffix@[j] as int,
                    bm,
                    element_of(*expected),
                    self.result.type_of_pat@[suffix@[j] as int],
                ) by {
                    assert(children[prefix@.len() + n_mid + j] == suffix@[j]);
                    lemma_sibling_kept(&prev, self, body, pat as int, prefix@.len() as int, prefix@.len() + n_mid + j);
                }
            }
        }
        proof {
            assert forall|k: int| 0 <= k < children.len() implies self.covers(*body, #[trigger] children[k] as int) by {
                if k < prefix@.len() {
                    assert(children[k] == prefix@[k]);
                } else if k < prefix@.len() + n_mid {
                    assert(children[k] == slice->0);
                } else {
                    assert(children[k] == suffix@[k - prefix@.len() - n_mid]);
                }
            }
        }
        pat_ty
    }

    /// A box pattern: the sub-pattern is matched against the boxed type.
    fn infer_box_pat(&mut self, body: &Body, pat: PatId, inner: PatId, expected: &Ty, bm: BindingMode) -> (r: Ty)
        requires
            old(self).wf(body),
            pat < body.pats@.len(),
            body.pats@[pat as int] == (Pat::Box { inner }),
        ensures
            old(self).steps_to(final(self), body),
            final(self).children_covered(body, pat as int),
            old(self).types_framed(final(self), body, pat as int),
            old(self).db.box_adt is None ==> r is Unknown,
            old(self).db.box_adt matches Some(b) ==> r matches Ty::Adt(id, args) && id == b && args@.len() == 1,
        decreases pat, 0nat,
    {
        let unknown = Ty::Unknown;
        assert(pat_children(body.pats@[pat as int])[0] == inner);
        match self.db.box_adt {
            Some(b) => {
                let inner_expected: &Ty = match expected {
                    Ty::Adt(id, substs) => {
                        if *id == b && substs.len() == 1 {
                            &substs[0]
                        } else {
                            &unknown
                        }
                    },
                    _ => &unknown,
                };
                let inner_ty = self.infer_pat(body, inner, inner_expected, bm);
                Ty::Adt(b, vec![inner_ty])
            },
            None => {
                self.infer_pat(body, inner, &unknown, bm);
                Ty::Unknown
            },
        }
    }
}


impl InferenceContext {
    /// The expected type of the field called `name` of `variant`, with `substs`
    /// put in for the generic parameters, and that field's id; `Unknown` and no
    /// field where the variant or the field is not there.
    fn field_expectation(
        &self,
        path: Option<usize>,
        variant: Option<usize>,
        name: Option<Name>,
        substs: &Vec<Ty>,
    ) -> (r: (Ty, Option<usize>))
        requires
            self.db.wf(),
            variant == path_variant(self.db, path),
        ensures
            r.1 is None ==> r.0 is Unknown,
            r.1 is None ==> name is None || field_resolution(self.db, path, name->0) is None,
            r.1 matches Some(f) ==> name is Some && variant is Some && field_resolution(self.db, path, name->0)
                == Some(FieldId { parent: variant->0, local_id: f }),
            !(field_expect(self.db, path, name) is Unknown) ==> same_head(r.0, field_expect(self.db, path, name)),
            !(field_expect(self.db, path, name) is Unknown) ==> r.0.model() == field_expect(self.db, path, name).model(),
            !(field_expect(self.db, path, name) is Unknown) ==> forall|w: usize|
                #[trigger] has_var(r.0, w) ==> has_var(field_expect(self.db, path, name), w),
    {
        proof {
            if self.db.resolves(path) {
                assert(self.db.paths@[path->0 as int].variant matches Some(v) ==> v < self.db.variants@.len());
            }
        }
        match (variant, name) {
            (Some(v), Some(nm)) => match self.db.field(v, nm) {
                Some(f) => {
                    let t = subst(copy_ty(&self.db.variants[v].fields[f].ty), substs);
                    proof {
                        let fields = self.db.variants@[v as int].fields@;
                        let c = choose|i: int| crate::db::is_first_named(fields, nm, i);
                        assert(c == f as int) by {
                            if c < f as int {
                                assert(fields[c].name != nm);
                            } else if c > f as int {
                                assert(fields[f as int].name != nm);
                            }
                        }
                    }
                    (t, Some(f))
                },
                None => (Ty::Unknown, None),
            },
            _ => (Ty::Unknown, None),
        }
    }

    /// Resolves the path of a tuple-struct or record pattern, records the
    /// variant, and unifies the resolved type with `expected`. Returns the type,
    /// the variant, and the type's generic arguments.
    fn resolve_adt_pat(&mut self, body: &Body, pat: PatId, path: Option<usize>, expected: &Ty) -> (r: (
        Ty,
        Option<usize>,
        Vec<Ty>,
    ))
        requires
            old(self).wf(body),
            pat < body.pats@.len(),
        ensures
            old(self).steps_to(final(self), body),
            old(self).result.type_of_pat == final(self).result.type_of_pat,
            r.1 is Some ==> r.1->0 < final(self).db.variants@.len(),
            old(self).db.resolves(path) ==> same_head(r.0, old(self).db.paths@[path->0 as int].ty) && r.1
                == old(self).db.paths@[path->0 as int].variant,
            !old(self).db.resolves(path) ==> r.0 is Unknown && r.1 is None,
            old(self).db.resolves(path) ==> forall|w: usize|
                #[trigger] has_var(r.0, w) == has_var(old(self).db.paths@[path->0 as int].ty, w),
            old(self).db.resolves(path) ==> r.0.model() == old(self).db.paths@[path->0 as int].ty.model(),
            r.1 is Some ==> final(self).result.variant_resolutions@[pat as int] == r.1,
            r.1 is None ==> final(self).result.variant_resolutions == old(self).result.variant_resolutions,
            old(self).types_framed(final(self), body, pat as int),
    {
        let (ty, def) = self.db.resolve_variant(path);
        proof {
            if self.db.resolves(path) {
                assert(self.db.paths@[path->0 as int].variant matches Some(v) ==> v < self.db.variants@.len());
            }
        }
        if let Some(v) = def {
            self.result.variant_resolutions.set(pat, Some(v));
        }
        let _ = self.table.unify(&ty, expected);
        let substs = match &ty {
            Ty::Adt(_, s) => copy_list(s),
            _ => Vec::new(),
        };
        (ty, def, substs)
    }

    /// A tuple-struct pattern: sub-patterns before the rest marker address the
    /// first fields, those after it the last fields of the variant.
    fn infer_tuple_struct_pat(
        &mut self,
        body: &Body,
        pat: PatId,
        path: Option<usize>,
        args: &Vec<PatId>,
        ellipsis: Option<usize>,
        expected: &Ty,
        bm: BindingMode,
    ) -> (r: Ty)
        requires
            old(self).wf(body),
            pat < body.pats@.len(),
            body.pats@[pat as int] == (Pat::TupleStruct { path, args: *args, ellipsis }),
        ensures
            old(self).steps_to(final(self), body),
            final(self).children_covered(body, pat as int),
            old(self).types_framed(final(self), body, pat as int),
            old(self).db.resolves(path) ==> same_head(r, old(self).db.paths@[path->0 as int].ty),
            !old(self).db.resolves(path) ==> r is Unknown,
            old(self).db.resolves(path) ==> forall|w: usize|
                #[trigger] has_var(r, w) == has_var(old(self).db.paths@[path->0 as int].ty, w),
            old(self).db.resolves(path) ==> r.model() == old(self).db.paths@[path->0 as int].ty.model(),
            path_variant(final(self).db, path) is Some ==> final(self).result.variant_resolutions@[pat as int]
                == path_variant(final(self).db, path),
            path_variant(final(self).db, path) is None ==> final(self).result.variant_resolutions@[pat as int]
                == old(self).result.variant_resolutions@[pat as int],
            forall|j: int|
                0 <= j < args@.len() ==> #[trigger] adt_child_ok(
                    *body,
                    final(self).db,
                    path,
                    args@[j] as int,
                    tuple_struct_child_name(final(self).db, path, j, rest_at(ellipsis, args@.len() as int), args@.len() as int),
                    bm,
                    final(self).result.type_of_pat@,
                ),
        decreases pat, 0nat,
    {
        proof {
            assert(ellipsis_ok(body.pats@[pat as int]));
        }
        let (ty, def, substs) = self.resolve_adt_pat(body, pat, path, expected);
        let n_fields: usize = match def {
            Some(v) => self.db.variants[v].fields.len(),
            None => 0,
        };
        let n = args.len();
        let rest = match ellipsis {
            Some(i) => i,
            None => n,
        };
        let mut k: usize = 0;
        while k < n
            invariant
                old(self).wf(body),
                old(self).steps_to(self, body),
                old(self).types_framed(self, body, pat as int),
                pat < body.pats@.len(),
                body.pats@[pat as int] == (Pat::TupleStruct { path, args: *args, ellipsis }),
                def is Some ==> def->0 < self.db.variants@.len(),
                def == path_variant(self.db, path),
                def is Some ==> self.result.variant_resolutions@[pat as int] == def,
                def is None ==> self.result.variant_resolutions@[pat as int] == old(self).result.variant_resolutions@[pat as int],
                rest == rest_at(ellipsis, n as int),
                n_fields == variant_field_count(self.db, path),
                forall|j: int|
                    0 <= j < k ==> #[trigger] adt_child_ok(
                        *body,
                        self.db,
                        path,
                        args@[j] as int,
                        tuple_struct_child_name(self.db, path, j, rest as int, n as int),
                        bm,
                        self.result.type_of_pat@,
                    ),
                n == args@.len(),
                rest <= n,
                k <= n,
                forall|j: int| 0 <= j < k ==> self.covers(*body, #[trigger] args@[j] as int),
            decreases n - k,
        {
            let name = match field_index(k, rest, n, n_fields) {
                Some(i) => Some(Name::TupleField(i)),
                None => None,
            };
            let (expected_ty, _) = self.field_expectation(path, def, name, &substs);
            assert(pat_children(body.pats@[pat as int])[k as int] == args@[k as int]);
            let ghost prev = *self;
            self.infer_pat(body, args[k], &expected_ty, bm);
            proof {
                lemma_steps_trans(old(self), &prev, self, body);
                lemma_frame_step(old(self), &prev, self, body, pat as int, k as int);
                {
                    assert(pat_children(body.pats@[pat as int])[k as int] < pat);
                    if body.reaches(pat_children(body.pats@[pat as int])[k as int] as int, pat as int) {
                        lemma_reach_le(body, pat_children(body.pats@[pat as int])[k as int] as int, pat as int);
                    }
                }
            }
            proof {
                assert forall|j: int| 0 <= j < k implies self.covers(*body, #[trigger] args@[j] as int) by {
                    lemma_keeps_covers(&prev, self, body, args@[j] as int);
                }
                assert forall|j: int| 0 <= j < k + 1 implies #[trigger] adt_child_ok(
                    *body,
                    self.db,
                    path,
                    args@[j] as int,
                    tuple_struct_child_name(self.db, path, j, rest as int, n as int),
                    bm,
                    self.result.type_of_pat@,
                ) by {
                    if j < k {
                        assert(pat_children(body.pats@[pat as int])[j] == args@[j]);
                        lemma_sibling_unreachable(body, pat as int, j, args@[k as int] as int);
                        assert(self.result.type_of_pat@[args@[j] as int] == prev.result.type_of_pat@[args@[j] as int]);
                        assert(adt_child_ok(
                            *body,
                            self.db,
                            path,
                            args@[j] as int,
                            tuple_struct_child_name(self.db, path, j, rest as int, n as int),
                            bm,
                            prev.result.type_of_pat@,
                        ));
                    }
                }
            }
            k = k + 1;
        }
        assert(pat_children(body.pats@[pat as int]) == args@);
        ty
    }

    /// A record pattern: each field's sub-pattern is matched against the declared
    /// type of the field of that name, and the field is recorded for it; a name
    /// the variant lacks gives `Unknown` and no record.
    fn infer_record_pat(
        &mut self,
        body: &Body,
        pat: PatId,
        path: Option<usize>,
        args: &Vec<RecordFieldPat>,
        ellipsis: bool,
        expected: &Ty,
        bm: BindingMode,
    ) -> (r: Ty)
        requires
            old(self).wf(body),
            pat < body.pats@.len(),
            body.pats@[pat as int] == (Pat::Record { path, args: *args, ellipsis }),
        ensures
            old(self).steps_to(final(self), body),
            final(self).children_covered(body, pat as int),
            old(self).types_framed(final(self), body, pat as int),
            old(self).db.resolves(path) ==> same_head(r, old(self).db.paths@[path->0 as int].ty),
            !old(self).db.resolves(path) ==> r is Unknown,
            old(self).db.resolves(path) ==> forall|w: usize|
                #[trigger] has_var(r, w) == has_var(old(self).db.paths@[path->0 as int].ty, w),
            old(self).db.resolves(path) ==> r.model() == old(self).db.paths@[path->0 as int].ty.model(),
            path_variant(final(self).db, path) is Some ==> final(self).result.variant_resolutions@[pat as int]
                == path_variant(final(self).db, path),
            path_variant(final(self).db, path) is None ==> final(self).result.variant_resolutions@[pat as int]
                == old(self).result.variant_resolutions@[pat as int],
            fields_resolved(*body, *final(self), pat as int),
            forall|j: int|
                0 <= j < args@.len() ==> #[trigger] adt_child_ok(
                    *body,
                    final(self).db,
                    path,
                    args@[j].pat as int,
                    Some(args@[j].name),
                    bm,
                    final(self).result.type_of_pat@,
                ),
        decreases pat, 0nat,
    {
        let (ty, def, substs) = self.resolve_adt_pat(body, pat, path, expected);
        let ghost children = pat_children(body.pats@[pat as int]);
        assert(children == args@.map_values(|f: RecordFieldPat| f.pat));
        let mut k: usize = 0;
        while k < args.len()
            invariant
                old(self).wf(body),
                old(self).steps_to(self, body),
                old(self).types_framed(self, body, pat as int),
                pat < body.pats@.len(),
                children == pat_children(body.pats@[pat as int]),
                children == args@.map_values(|f: RecordFieldPat| f.pat),
                body.pats@[pat as int] == (Pat::Record { path, args: *args, ellipsis }),
                def is Some ==> def->0 < self.db.variants@.len(),
                def == path_variant(self.db, path),
                def is Some ==> self.result.variant_resolutions@[pat as int] == def,
                def is None ==> self.result.variant_resolutions@[pat as int] == old(self).result.variant_resolutions@[pat as int],
                forall|j: int|
                    0 <= j < k ==> #[trigger] adt_child_ok(
                        *body,
                        self.db,
                        path,
                        args@[j].pat as int,
                        Some(args@[j].name),
                        bm,
                        self.result.type_of_pat@,
                    ),
                def is Some ==> self.db.resolves(path) && self.db.paths@[path->0 as int].variant == def,
                def is None ==> !(self.db.resolves(path) && self.db.paths@[path->0 as int].variant is Some),
                forall|j: int|
                    0 <= j < k ==> self.result.record_pat_field_resolutions@[#[trigger] record_args(
                        body.pats@[pat as int],
                    )[j].pat as int] == record_field_resolution(*body, self.db, pat as int, j),
                k <= args@.len(),
                forall|j: int| 0 <= j < k ==> self.covers(*body, #[trigger] args@[j].pat as int),
            decreases args@.len() - k,
        {
            let subpat = args[k];
            let ghost at_head = *self;
            assert(children[k as int] == subpat.pat);
            assert(pat_children(body.pats@[pat as int])[k as int] == subpat.pat);
            let (expected_ty, field) = self.field_expectation(path, def, Some(subpat.name), &substs);
            if let Some(f) = field {
                let v = def.unwrap();
                let ghost before = *self;
                self.result.record_pat_field_resolutions.set(
                    subpat.pat,
                    Some(FieldId { parent: v, local_id: f }),
                );
                proof {
                    assert(record_field_resolution(*body, self.db, pat as int, k as int) == Some(
                        FieldId { parent: v, local_id: f },
                    ));
                    lemma_record_children(body.pats@[pat as int]);
                    assert forall|pb: int, k2: int|
                        0 <= pb < body.pats@.len() && 0 <= k2 < record_args(body.pats@[pb]).len() implies {
                        let e = self.result.record_pat_field_resolutions@[#[trigger] record_args(
                            body.pats@[pb],
                        )[k2].pat as int];
                        e is None || e == record_field_resolution(*body, self.db, pb, k2)
                    } by {
                        lemma_record_children(body.pats@[pb]);
                        if record_args(body.pats@[pb])[k2].pat == subpat.pat {
                            assert(pat_children(body.pats@[pb])[k2] == pat_children(
                                body.pats@[pat as int],
                            )[k as int]);
                        }
                    }
                    assert(before.keeps_fields(self));
                    assert(pat_children(body.pats@[pat as int])[k as int] < pat);
                    assert(body.reaches(subpat.pat as int, subpat.pat as int));
                    assert(body.reaches(pat as int, subpat.pat as int));
                    assert(before.types_framed(self, body, pat as int));
                    lemma_steps_trans(old(self), &before, self, body);
                }
            }
            let ghost prev = *self;
            assert(old(self).steps_to(self, body));
            self.infer_pat(body, subpat.pat, &expected_ty, bm);
            proof {
                lemma_steps_trans(old(self), &prev, self, body);
                lemma_frame_step(old(self), &prev, self, body, pat as int, k as int);
                {
                    assert(pat_children(body.pats@[pat as int])[k as int] < pat);
                    if body.reaches(pat_children(body.pats@[pat as int])[k as int] as int, pat as int) {
                        lemma_reach_le(body, pat_children(body.pats@[pat as int])[k as int] as int, pat as int);
                    }
                }
            }
            proof {
                assert forall|j: int| 0 <= j < k implies self.covers(*body, #[trigger] args@[j].pat as int) by {
                    lemma_keeps_covers(&prev, self, body, args@[j].pat as int);
                }
                assert forall|j: int| 0 <= j < k + 1 implies #[trigger] adt_child_ok(
                    *body,
                    self.db,
                    path,
                    args@[j].pat as int,
                    Some(args@[j].name),
                    bm,
                    self.result.type_of_pat@,
                ) by {
                    if j < k {
                        assert(pat_children(body.pats@[pat as int])[j] == args@[j].pat);
                        assert(pat_children(body.pats@[pat as int])[k as int] == args@[k as int].pat);
                        lemma_sibling_unreachable(body, pat as int, j, args@[k as int].pat as int);
                        assert(self.result.type_of_pat@[args@[j].pat as int]
                            == prev.result.type_of_pat@[args@[j].pat as int]);
                        assert(adt_child_ok(
                            *body,
                            self.db,
                            path,
                            args@[j].pat as int,
                            Some(args@[j].name),
                            bm,
                            prev.result.type_of_pat@,
                        ));
                    }
                }
                lemma_record_children(body.pats@[pat as int]);
                if field is None {
                    assert(record_field_resolution(*body, self.db, pat as int, k as int) is None);
                }
                assert forall|j: int| 0 <= j <= k implies self.result.record_pat_field_resolutions@[
                    #[trigger] record_args(body.pats@[pat as int])[j].pat as int] == record_field_resolution(
                    *body,
                    self.db,
                    pat as int,
                    j,
                ) by {
                    let q = record_args(body.pats@[pat as int])[j].pat as int;
                    assert(pat_children(body.pats@[pat as int])[j] < pat);
                    if record_field_resolution(*body, self.db, pat as int, j) is Some {
                        if j < k {
                            assert(at_head.result.record_pat_field_resolutions@[q] is Some);
                        }
                        assert(prev.result.record_pat_field_resolutions@[q] is Some);
                        assert(self.result.record_pat_field_resolutions@[q]
                            == prev.result.record_pat_field_resolutions@[q]);
                    }
                }
            }
            k = k + 1;
        }
        proof {
            assert forall|k: int| 0 <= k < children.len() implies self.covers(*body, #[trigger] children[k] as int) by {
                assert(children[k] == args@[k].pat);
            }
        }
        ty
    }
}

} // verus!
