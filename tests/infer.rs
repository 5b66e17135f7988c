use pat_infer::db::{Db, FieldData, FieldId, PathResolution, VariantData};
use pat_infer::infer::{field_index, strip_references, InferenceContext, SCALAR_BOOL, SCALAR_CHAR, SCALAR_INT};
use pat_infer::pat::{BindingAnnotation, BindingMode, Body, Expr, Literal, Name, Pat, RecordFieldPat};
use pat_infer::ty::{subst, Mutability, Ty, TypeTable};

fn show(t: &Ty) -> String {
    format!("{:?}", t)
}

fn recorded(ctx: &InferenceContext, p: usize) -> String {
    match &ctx.result.type_of_pat[p] {
        Some(t) => show(t),
        None => String::from("none"),
    }
}

fn shared(t: Ty) -> Ty {
    Ty::Ref(Mutability::Shared, Box::new(t))
}

fn int_ty() -> Ty {
    Ty::Scalar(SCALAR_INT)
}

fn bind(subpat: Option<usize>) -> Pat {
    Pat::Bind { mode: BindingAnnotation::Unannotated, name: Name::Ident(1), subpat }
}

fn empty_db() -> Db {
    Db { paths: Vec::new(), variants: Vec::new(), box_adt: None }
}

fn tuple_field(i: usize, ty: Ty) -> FieldData {
    FieldData { name: Name::TupleField(i), ty }
}

#[test]
fn binding_mode_table() {
    for m in [Mutability::Shared, Mutability::Mut] {
        assert_eq!(BindingMode::Move.peel(m), BindingMode::Ref(m));
        assert_eq!(BindingMode::Ref(Mutability::Shared).peel(m), BindingMode::Ref(Mutability::Shared));
        assert_eq!(BindingMode::Ref(Mutability::Mut).peel(m), BindingMode::Ref(m));
    }
    assert_eq!(BindingMode::Move.peel(Mutability::Mut), BindingMode::Ref(Mutability::Mut));
    assert_eq!(
        BindingMode::Ref(Mutability::Shared).peel(Mutability::Mut),
        BindingMode::Ref(Mutability::Shared)
    );
}

#[test]
fn strip_references_peels_every_layer() {
    let t = shared(Ty::Ref(Mutability::Mut, Box::new(int_ty())));
    let (inner, bm) = strip_references(&t, BindingMode::Move);
    assert_eq!(show(inner), show(&int_ty()));
    assert_eq!(bm, BindingMode::Ref(Mutability::Shared));
    let t = Ty::Ref(Mutability::Mut, Box::new(Ty::Ref(Mutability::Mut, Box::new(int_ty()))));
    let (_, bm) = strip_references(&t, BindingMode::Move);
    assert_eq!(bm, BindingMode::Ref(Mutability::Mut));
}

#[test]
fn default_binding_mode_borrows_through_reference() {
    // `(x,)` against `&(i32,)`: `x` binds by shared reference.
    let body = Body { pats: vec![bind(None), Pat::Tuple { args: vec![0], ellipsis: None }], exprs: vec![] };
    let mut ctx = InferenceContext::new(&body, empty_db());
    let expected = shared(Ty::Tuple(vec![int_ty()]));
    ctx.infer_pat(&body, 1, &expected, BindingMode::Move);
    assert_eq!(recorded(&ctx, 0), show(&shared(int_ty())));
    assert_eq!(recorded(&ctx, 1), show(&Ty::Tuple(vec![int_ty()])));
}

#[test]
fn ref_pattern_resets_binding_mode() {
    // `(&x,)` against `&(&i32,)`: beneath `&` the binding is by value again.
    let body = Body {
        pats: vec![
            bind(None),
            Pat::Ref { pat: 0, mutability: Mutability::Shared },
            Pat::Tuple { args: vec![1], ellipsis: None },
        ],
        exprs: vec![],
    };
    let mut ctx = InferenceContext::new(&body, empty_db());
    let expected = shared(Ty::Tuple(vec![shared(int_ty())]));
    ctx.infer_pat(&body, 2, &expected, BindingMode::Move);
    assert_eq!(recorded(&ctx, 0), show(&int_ty()));
    assert_eq!(recorded(&ctx, 1), show(&shared(int_ty())));
}

#[test]
fn explicit_ref_binding_records_reference() {
    let body = Body {
        pats: vec![Pat::Bind { mode: BindingAnnotation::RefMut, name: Name::Ident(2), subpat: None }],
        exprs: vec![],
    };
    let mut ctx = InferenceContext::new(&body, empty_db());
    let r = ctx.infer_pat(&body, 0, &int_ty(), BindingMode::Move);
    assert_eq!(show(&r), show(&int_ty()));
    assert_eq!(recorded(&ctx, 0), show(&Ty::Ref(Mutability::Mut, Box::new(int_ty()))));
}

#[test]
fn tuple_rest_keeps_arity() {
    // `(a, .., b)` against `(i32, bool, char, str)`.
    let body = Body {
        pats: vec![bind(None), bind(None), Pat::Tuple { args: vec![0, 1], ellipsis: Some(1) }],
        exprs: vec![],
    };
    let mut ctx = InferenceContext::new(&body, empty_db());
    let expected = Ty::Tuple(vec![int_ty(), Ty::Scalar(SCALAR_BOOL), Ty::Scalar(SCALAR_CHAR), Ty::Str]);
    let r = ctx.infer_pat(&body, 2, &expected, BindingMode::Move);
    assert_eq!(show(&r), show(&expected));
    assert_eq!(recorded(&ctx, 0), show(&int_ty()));
    assert_eq!(recorded(&ctx, 1), show(&Ty::Str));
}

#[test]
fn tuple_without_rest_against_longer_tuple() {
    let body = Body { pats: vec![bind(None), Pat::Tuple { args: vec![0], ellipsis: None }], exprs: vec![] };
    let mut ctx = InferenceContext::new(&body, empty_db());
    let expected = Ty::Tuple(vec![int_ty(), Ty::Str]);
    let r = ctx.infer_pat(&body, 1, &expected, BindingMode::Move);
    assert_eq!(show(&r), show(&expected));
}

#[test]
fn tuple_against_non_tuple_gets_fresh_variables() {
    let body = Body {
        pats: vec![Pat::Wild, Pat::Wild, Pat::Tuple { args: vec![0, 1], ellipsis: None }],
        exprs: vec![],
    };
    let mut ctx = InferenceContext::new(&body, empty_db());
    let r = ctx.infer_pat(&body, 2, &Ty::Unknown, BindingMode::Move);
    assert_eq!(show(&r), show(&Ty::Tuple(vec![Ty::Var(0), Ty::Var(1)])));
}

fn four_field_db() -> Db {
    Db {
        paths: vec![PathResolution { ty: Ty::Adt(9, vec![]), variant: Some(0) }],
        variants: vec![VariantData {
            fields: vec![
                tuple_field(0, Ty::Scalar(10)),
                tuple_field(1, Ty::Scalar(11)),
                tuple_field(2, Ty::Scalar(12)),
                tuple_field(3, Ty::Scalar(13)),
            ],
        }],
        box_adt: None,
    }
}

#[test]
fn tuple_struct_rest_aligns_last_field() {
    // `S(a, .., b)` on a four-field variant: `b` is the last field.
    let body = Body {
        pats: vec![
            bind(None),
            bind(None),
            Pat::TupleStruct { path: Some(0), args: vec![0, 1], ellipsis: Some(1) },
        ],
        exprs: vec![],
    };
    let mut ctx = InferenceContext::new(&body, four_field_db());
    let r = ctx.infer_pat(&body, 2, &Ty::Adt(9, vec![]), BindingMode::Move);
    assert_eq!(show(&r), show(&Ty::Adt(9, vec![])));
    assert_eq!(recorded(&ctx, 0), show(&Ty::Scalar(10)));
    assert_eq!(recorded(&ctx, 1), show(&Ty::Scalar(13)));
    assert_eq!(ctx.result.variant_resolutions[2], Some(0));
}

#[test]
fn field_index_values() {
    assert_eq!(field_index(0, 1, 2, 4), Some(0));
    assert_eq!(field_index(1, 1, 2, 4), Some(3));
    assert_eq!(field_index(1, 1, 3, 1), None);
    assert_eq!(field_index(2, 1, 3, 1), Some(0));
    assert_eq!(field_index(1, 2, 2, 0), Some(1));
}

#[test]
fn generic_fields_take_substitution() {
    let db = Db {
        paths: vec![PathResolution { ty: Ty::Adt(4, vec![Ty::Str]), variant: Some(0) }],
        variants: vec![VariantData { fields: vec![tuple_field(0, shared(Ty::Param(0)))] }],
        box_adt: None,
    };
    let body = Body {
        pats: vec![bind(None), Pat::TupleStruct { path: Some(0), args: vec![0], ellipsis: None }],
        exprs: vec![],
    };
    let mut ctx = InferenceContext::new(&body, db);
    ctx.infer_pat(&body, 1, &Ty::Unknown, BindingMode::Move);
    assert_eq!(recorded(&ctx, 0), show(&shared(Ty::Str)));
}

#[test]
fn record_field_round_trip() {
    let db = Db {
        paths: vec![PathResolution { ty: Ty::Adt(3, vec![]), variant: Some(0) }],
        variants: vec![VariantData {
            fields: vec![
                FieldData { name: Name::Ident(7), ty: Ty::Scalar(5) },
                FieldData { name: Name::Ident(8), ty: Ty::Str },
            ],
        }],
        box_adt: None,
    };
    let body = Body {
        pats: vec![
            bind(None),
            bind(None),
            Pat::Record {
                path: Some(0),
                args: vec![
                    RecordFieldPat { name: Name::Ident(8), pat: 0 },
                    RecordFieldPat { name: Name::Ident(99), pat: 1 },
                ],
                ellipsis: true,
            },
        ],
        exprs: vec![],
    };
    let mut ctx = InferenceContext::new(&body, db);
    ctx.infer_pat(&body, 2, &Ty::Adt(3, vec![]), BindingMode::Move);
    assert_eq!(recorded(&ctx, 0), show(&Ty::Str));
    assert_eq!(ctx.result.record_pat_field_resolutions[0], Some(FieldId { parent: 0, local_id: 1 }));
    assert_eq!(ctx.result.record_pat_field_resolutions[1], None);
    assert_eq!(recorded(&ctx, 1), show(&Ty::Var(0)));
    assert_eq!(ctx.result.variant_resolutions[2], Some(0));
}

#[test]
fn or_pattern_first_alternative_wins() {
    let body = Body {
        pats: vec![Pat::Wild, Pat::Lit(0), Pat::Or(vec![0, 1])],
        exprs: vec![Expr::Literal(Literal::Int)],
    };
    let mut ctx = InferenceContext::new(&body, empty_db());
    let r = ctx.infer_pat(&body, 2, &Ty::Unknown, BindingMode::Move);
    assert_eq!(show(&r), recorded(&ctx, 0));
    assert_eq!(show(&r), show(&Ty::Var(0)));
    assert_eq!(recorded(&ctx, 1), show(&int_ty()));
}

#[test]
fn slice_rest_binds_container() {
    let body = Body {
        pats: vec![bind(None), bind(None), Pat::Slice { prefix: vec![0], slice: Some(1), suffix: vec![] }],
        exprs: vec![],
    };
    let mut ctx = InferenceContext::new(&body, empty_db());
    let e = Ty::Scalar(3);
    let r = ctx.infer_pat(&body, 2, &Ty::Slice(Box::new(Ty::Scalar(3))), BindingMode::Move);
    assert_eq!(recorded(&ctx, 0), show(&e));
    assert_eq!(recorded(&ctx, 1), show(&Ty::Slice(Box::new(Ty::Scalar(3)))));
    assert_eq!(show(&r), show(&Ty::Slice(Box::new(Ty::Scalar(3)))));
}

#[test]
fn array_slice_pattern_keeps_array() {
    let body = Body {
        pats: vec![bind(None), Pat::Slice { prefix: vec![], slice: None, suffix: vec![0] }],
        exprs: vec![],
    };
    let mut ctx = InferenceContext::new(&body, empty_db());
    let r = ctx.infer_pat(&body, 1, &Ty::Array(Box::new(Ty::Str)), BindingMode::Move);
    assert_eq!(show(&r), show(&Ty::Array(Box::new(Ty::Str))));
    assert_eq!(recorded(&ctx, 0), show(&Ty::Str));
}

fn nested_body() -> Body {
    Body {
        pats: vec![
            bind(None),
            Pat::Wild,
            Pat::Tuple { args: vec![0, 1], ellipsis: None },
            Pat::Lit(0),
            Pat::Or(vec![2, 3]),
        ],
        exprs: vec![Expr::Literal(Literal::Int)],
    }
}

#[test]
fn inference_is_deterministic() {
    let body = nested_body();
    let expected = shared(Ty::Tuple(vec![int_ty(), Ty::Str]));
    let mut a = InferenceContext::new(&body, empty_db());
    let mut b = InferenceContext::new(&body, empty_db());
    let ra = a.infer_pat(&body, 4, &expected, BindingMode::Move);
    let rb = b.infer_pat(&body, 4, &expected, BindingMode::Move);
    assert_eq!(show(&ra), show(&rb));
    for p in 0..body.pats.len() {
        assert_eq!(recorded(&a, p), recorded(&b, p));
    }
    assert_eq!(format!("{:?}", a.table.bindings), format!("{:?}", b.table.bindings));
}

#[test]
fn resolving_twice_changes_nothing() {
    let mut table = TypeTable::new();
    let v = table.new_var();
    let w = table.new_var();
    assert!(table.unify(&Ty::Var(v), &Ty::Tuple(vec![Ty::Var(w), int_ty()])));
    assert!(table.unify(&Ty::Var(w), &Ty::Str));
    let once = table.resolve_ty_as_possible(Ty::Var(v));
    assert_eq!(show(&once), show(&Ty::Tuple(vec![Ty::Str, int_ty()])));
    let twice = table.resolve_ty_as_possible(Ty::Tuple(vec![Ty::Str, int_ty()]));
    assert_eq!(show(&once), show(&twice));
}

#[test]
fn unify_rejects_mismatch_and_cycles() {
    let mut table = TypeTable::new();
    let v = table.new_var();
    assert!(!table.unify(&int_ty(), &Ty::Str));
    assert!(!table.unify(&Ty::Var(v), &shared(Ty::Var(v))));
    assert!(table.unify(&Ty::Unknown, &Ty::Str));
    assert!(table.unify(&shared(Ty::Var(v)), &shared(int_ty())));
    assert_eq!(show(&table.resolve_ty_as_possible(Ty::Var(v))), show(&int_ty()));
    assert!(!table.unify(&Ty::Ref(Mutability::Mut, Box::new(int_ty())), &shared(int_ty())));
}

#[test]
fn insert_type_vars_is_shallow() {
    let mut table = TypeTable::new();
    let t = table.insert_type_vars_shallow(Ty::Unknown);
    assert_eq!(show(&t), show(&Ty::Var(0)));
    let t = table.insert_type_vars_shallow(shared(Ty::Unknown));
    assert_eq!(show(&t), show(&shared(Ty::Unknown)));
    assert_eq!(table.bindings.len(), 1);
}

#[test]
fn subst_replaces_params() {
    let t = subst(Ty::Tuple(vec![Ty::Param(1), Ty::Param(0), Ty::Param(5)]), &vec![int_ty(), Ty::Str]);
    assert_eq!(show(&t), show(&Ty::Tuple(vec![Ty::Str, int_ty(), Ty::Unknown])));
    let t = subst(Ty::Param(0), &vec![]);
    assert_eq!(show(&t), show(&Ty::Param(0)));
}

#[test]
fn unresolvable_paths_never_abort() {
    let body = Body {
        pats: vec![
            bind(None),
            Pat::Wild,
            Pat::TupleStruct { path: None, args: vec![0, 1], ellipsis: Some(2) },
            bind(None),
            Pat::Record { path: Some(42), args: vec![RecordFieldPat { name: Name::Ident(1), pat: 3 }], ellipsis: false },
            Pat::Path(17),
            Pat::Missing,
            Pat::Ref { pat: 6, mutability: Mutability::Mut },
            Pat::Tuple { args: vec![2, 4, 5, 7], ellipsis: None },
        ],
        exprs: vec![],
    };
    let mut ctx = InferenceContext::new(&body, empty_db());
    let expected = Ty::Tuple(vec![int_ty(), int_ty(), int_ty(), shared(int_ty())]);
    let r = ctx.infer_pat(&body, 8, &expected, BindingMode::Move);
    assert!(matches!(r, Ty::Tuple(ref v) if v.len() == 4));
    for p in 0..body.pats.len() {
        assert!(ctx.result.type_of_pat[p].is_some());
    }
    assert_eq!(ctx.result.record_pat_field_resolutions[3], None);
    assert_eq!(ctx.result.variant_resolutions[2], None);
}

#[test]
fn string_literal_is_not_a_non_ref_pattern() {
    let body = Body {
        pats: vec![
            Pat::Lit(0),
            Pat::Lit(1),
            Pat::Or(vec![1]),
            Pat::Lit(0),
            Pat::Lit(1),
            Pat::Or(vec![3, 4]),
            Pat::Wild,
        ],
        exprs: vec![Expr::Literal(Literal::String), Expr::Literal(Literal::Int)],
    };
    assert!(!body.is_non_ref_pat(0));
    assert!(body.is_non_ref_pat(1));
    assert!(body.is_non_ref_pat(2));
    assert!(!body.is_non_ref_pat(5));
    assert!(!body.is_non_ref_pat(6));
}

#[test]
fn string_literal_matches_reference_unpeeled() {
    let body = Body { pats: vec![Pat::Lit(0)], exprs: vec![Expr::Literal(Literal::String)] };
    let mut ctx = InferenceContext::new(&body, empty_db());
    let r = ctx.infer_pat(&body, 0, &shared(Ty::Str), BindingMode::Move);
    assert_eq!(show(&r), show(&shared(Ty::Str)));
}

#[test]
fn range_pattern_chains_bounds() {
    let body = Body {
        pats: vec![Pat::Range { start: 0, end: 1 }],
        exprs: vec![Expr::Literal(Literal::Char), Expr::Literal(Literal::Char)],
    };
    let mut ctx = InferenceContext::new(&body, empty_db());
    let r = ctx.infer_pat(&body, 0, &shared(Ty::Scalar(SCALAR_CHAR)), BindingMode::Move);
    assert_eq!(show(&r), show(&Ty::Scalar(SCALAR_CHAR)));
}

#[test]
fn box_pattern_with_and_without_box() {
    let body = Body { pats: vec![bind(None), Pat::Box { inner: 0 }], exprs: vec![] };
    let db = Db { paths: vec![], variants: vec![], box_adt: Some(77) };
    let mut ctx = InferenceContext::new(&body, db);
    let r = ctx.infer_pat(&body, 1, &Ty::Adt(77, vec![Ty::Str]), BindingMode::Move);
    assert_eq!(show(&r), show(&Ty::Adt(77, vec![Ty::Str])));
    assert_eq!(recorded(&ctx, 0), show(&Ty::Str));

    let mut ctx = InferenceContext::new(&body, empty_db());
    let r = ctx.infer_pat(&body, 1, &Ty::Adt(77, vec![Ty::Str]), BindingMode::Move);
    assert_eq!(show(&r), show(&Ty::Adt(77, vec![Ty::Str])));
    assert_eq!(recorded(&ctx, 0), show(&Ty::Var(0)));
}

#[test]
fn missing_pattern_gets_fresh_variable() {
    let body = Body { pats: vec![Pat::Missing], exprs: vec![] };
    let mut ctx = InferenceContext::new(&body, empty_db());
    let r = ctx.infer_pat(&body, 0, &Ty::Unknown, BindingMode::Move);
    assert_eq!(show(&r), show(&Ty::Var(0)));
    assert_eq!(recorded(&ctx, 0), show(&Ty::Var(0)));
}

#[test]
fn by_value_peeling_mutable_reference_borrows_mutably() {
    let body = Body { pats: vec![bind(None), Pat::Tuple { args: vec![0], ellipsis: None }], exprs: vec![] };
    let mut ctx = InferenceContext::new(&body, empty_db());
    let expected = Ty::Ref(Mutability::Mut, Box::new(Ty::Tuple(vec![int_ty()])));
    let r = ctx.infer_pat(&body, 1, &expected, BindingMode::Move);
    assert_eq!(recorded(&ctx, 0), show(&Ty::Ref(Mutability::Mut, Box::new(int_ty()))));
    assert_eq!(show(&r), show(&Ty::Tuple(vec![int_ty()])));
    assert_eq!(recorded(&ctx, 1), show(&Ty::Tuple(vec![int_ty()])));
}

#[test]
fn shared_mode_stays_shared_through_mutable_reference() {
    let body = Body { pats: vec![bind(None), Pat::Tuple { args: vec![0], ellipsis: None }], exprs: vec![] };
    let mut ctx = InferenceContext::new(&body, empty_db());
    let expected = Ty::Ref(Mutability::Mut, Box::new(Ty::Tuple(vec![int_ty()])));
    let r = ctx.infer_pat(&body, 1, &expected, BindingMode::Ref(Mutability::Shared));
    assert_eq!(recorded(&ctx, 0), show(&shared(int_ty())));
    assert_eq!(show(&r), show(&Ty::Tuple(vec![int_ty()])));
}

#[test]
fn ref_pattern_binds_by_value_under_any_mode() {
    for bm in [BindingMode::Move, BindingMode::Ref(Mutability::Shared), BindingMode::Ref(Mutability::Mut)] {
        let body = Body {
            pats: vec![bind(None), Pat::Ref { pat: 0, mutability: Mutability::Shared }],
            exprs: vec![],
        };
        let mut ctx = InferenceContext::new(&body, empty_db());
        let r = ctx.infer_pat(&body, 1, &shared(Ty::Str), bm);
        assert_eq!(recorded(&ctx, 0), show(&Ty::Str));
        assert_eq!(show(&r), show(&shared(Ty::Str)));
    }
}

#[test]
fn unify_binds_unbound_variable() {
    let mut table = TypeTable::new();
    let v = table.new_var();
    assert!(table.unify(&Ty::Var(v), &int_ty()));
    assert_eq!(format!("{:?}", table.bindings[v]), format!("{:?}", Some(int_ty())));
}
