//! Pattern trees, held in an arena and addressed by index, and default binding modes.
use vstd::prelude::*;

use crate::ty::Mutability;

verus! {

/// Index of a pattern in `Body::pats`.
pub type PatId = usize;

/// Index of an expression in `Body::exprs`.
pub type ExprId = usize;

/// A field name: a positional name (`0`, `1`, ...) or an interned identifier.
#[derive(Clone, Copy, Debug, PartialEq, Eq, Structural)]
pub enum Name {
    TupleField(usize),
    Ident(u64),
}

/// How a binding pattern was annotated in the source.
#[derive(Clone, Copy, Debug, PartialEq, Eq, Structural)]
pub enum BindingAnnotation {
    /// No annotation: the default binding mode decides.
    Unannotated,
    /// `mut x`: by value.
    Mutable,
    /// `ref x`.
    Ref,
    /// `ref mut x`.
    RefMut,
}

/// How a binding holds the matched value: moved (or copied) in, or borrowed.
#[derive(Clone, Copy, Debug, PartialEq, Eq, Structural)]
pub enum BindingMode {
    Move,
    Ref(Mutability),
}

/// The mode an explicit annotation asks for.
pub open spec fn annotation_mode(a: BindingAnnotation) -> BindingMode {
    match a {
        BindingAnnotation::Ref => BindingMode::Ref(Mutability::Shared),
        BindingAnnotation::RefMut => BindingMode::Ref(Mutability::Mut),
        _ => BindingMode::Move,
    }
}

/// The default binding mode after one layer of reference with mutability `m`
/// has been peeled off the expected type.
pub open spec fn peeled_mode(current: BindingMode, m: Mutability) -> BindingMode {
    match current {
        BindingMode::Move => BindingMode::Ref(m),
        BindingMode::Ref(Mutability::Shared) => BindingMode::Ref(Mutability::Shared),
        BindingMode::Ref(Mutability::Mut) => BindingMode::Ref(m),
    }
}

impl BindingMode {
    /// The mode of an explicitly annotated binding.
    pub fn convert(annotation: BindingAnnotation) -> (r: BindingMode)
        ensures
            r == annotation_mode(annotation),
    {
        match annotation {
            BindingAnnotation::Ref => BindingMode::Ref(Mutability::Shared),
            BindingAnnotation::RefMut => BindingMode::Ref(Mutability::Mut),
            _ => BindingMode::Move,
        }
    }

    /// The default binding mode after peeling a reference of mutability `m`:
    /// a by-value context becomes a borrow of that mutability, a shared borrow
    /// stays shared, a mutable borrow takes the peeled mutability.
    pub fn peel(self, m: Mutability) -> (r: BindingMode)
        ensures
            r == peeled_mode(self, m),
    {
        match self {
            BindingMode::Move => BindingMode::Ref(m),
            BindingMode::Ref(Mutability::Shared) => BindingMode::Ref(Mutability::Shared),
            BindingMode::Ref(Mutability::Mut) => BindingMode::Ref(m),
        }
    }
}

#[derive(Clone, Copy, Debug, PartialEq, Eq, Structural)]
pub enum Literal {
    String,
    Bool,
    Char,
    Int,
}

/// The expressions that patterns embed (literals, range bounds, const blocks).
#[derive(Clone, Copy, Debug, PartialEq, Eq, Structural)]
pub enum Expr {
    Literal(Literal),
    /// An expression whose type the pattern inferencer does not compute.
    Missing,
}

/// One `name: pattern` entry of a record pattern.
#[derive(Clone, Copy, Debug, PartialEq, Eq, Structural)]
pub struct RecordFieldPat {
    pub name: Name,
    pub pat: PatId,
}

/// A pattern node. Sub-patterns are ids of other nodes of the same body; a path
/// is an index into the resolution table of the `Db`.
#[derive(Debug)]
pub enum Pat {
    Missing,
    Wild,
    Tuple { args: Vec<PatId>, ellipsis: Option<usize> },
    Or(Vec<PatId>),
    Record { path: Option<usize>, args: Vec<RecordFieldPat>, ellipsis: bool },
    Range { start: ExprId, end: ExprId },
    Slice { prefix: Vec<PatId>, slice: Option<PatId>, suffix: Vec<PatId> },
    Path(usize),
    Lit(ExprId),
    Bind { mode: BindingAnnotation, name: Name, subpat: Option<PatId> },
    TupleStruct { path: Option<usize>, args: Vec<PatId>, ellipsis: Option<usize> },
    Ref { pat: PatId, mutability: Mutability },
    Box { inner: PatId },
    ConstBlock(ExprId),
}

pub open spec fn opt_seq(o: Option<PatId>) -> Seq<PatId> {
    match o {
        Some(p) => seq![p],
        None => Seq::empty(),
    }
}

/// The direct sub-patterns of a node.
pub open spec fn pat_children(p: Pat) -> Seq<PatId> {
    match p {
        Pat::Tuple { args, .. } => args@,
        Pat::Or(pats) => pats@,
        Pat::Record { args, .. } => args@.map_values(|f: RecordFieldPat| f.pat),
        Pat::Slice { prefix, slice, suffix } => prefix@ + opt_seq(slice) + suffix@,
        Pat::Bind { subpat, .. } => opt_seq(subpat),
        Pat::TupleStruct { args, .. } => args@,
        Pat::Ref { pat, .. } => seq![pat],
        Pat::Box { inner } => seq![inner],
        _ => Seq::empty(),
    }
}

/// The field entries of a record pattern.
pub open spec fn record_args(p: Pat) -> Seq<RecordFieldPat> {
    match p {
        Pat::Record { args, .. } => args@,
        _ => Seq::empty(),
    }
}

/// The sub-patterns of a record pattern are those of its field entries.
pub proof fn lemma_record_children(p: Pat)
    ensures
        pat_children(p).len() == record_args(p).len() || !(p is Record),
        forall|k: int|
            0 <= k < record_args(p).len() ==> #[trigger] record_args(p)[k].pat == pat_children(p)[k],
{
}

/// The expressions a node embeds.
pub open spec fn pat_exprs(p: Pat) -> Seq<ExprId> {
    match p {
        Pat::Range { start, end } => seq![start, end],
        Pat::Lit(e) => seq![e],
        Pat::ConstBlock(e) => seq![e],
        _ => Seq::empty(),
    }
}

/// The rest marker of a tuple or tuple-struct pattern lies within its sub-patterns.
pub open spec fn ellipsis_ok(p: Pat) -> bool {
    match p {
        Pat::Tuple { args, ellipsis } => ellipsis matches Some(i) ==> i <= args@.len(),
        Pat::TupleStruct { args, ellipsis, .. } => ellipsis matches Some(i) ==> i <= args@.len(),
        _ => true,
    }
}

/// The patterns and expressions of one body (a function, a `let`, a match).
pub struct Body {
    pub pats: Vec<Pat>,
    pub exprs: Vec<Expr>,
}

impl Body {
    /// Every sub-pattern was allocated before its parent (so the tree is finite),
    /// every embedded expression exists, every rest marker is in range, and no
    /// pattern is the sub-pattern of two patterns, or twice of one.
    pub open spec fn wf(&self) -> bool {
        &&& forall|p: int, k: int|
            0 <= p < self.pats@.len() && 0 <= k < pat_children(self.pats@[p]).len() ==> #[trigger] pat_children(
                self.pats@[p],
            )[k] < p
        &&& forall|p: int, k: int|
            0 <= p < self.pats@.len() && 0 <= k < pat_exprs(self.pats@[p]).len() ==> #[trigger] pat_exprs(
                self.pats@[p],
            )[k] < self.exprs@.len()
        &&& forall|p: int| 0 <= p < self.pats@.len() ==> ellipsis_ok(#[trigger] self.pats@[p])
        &&& forall|pa: int, k1: int, pb: int, k2: int|
            0 <= pa < self.pats@.len() && 0 <= pb < self.pats@.len() && 0 <= k1 < pat_children(
                self.pats@[pa],
            ).len() && 0 <= k2 < pat_children(self.pats@[pb]).len() && #[trigger] pat_children(
                self.pats@[pa],
            )[k1] == #[trigger] pat_children(self.pats@[pb])[k2] ==> pa == pb && k1 == k2
    }

    /// `q` lies in the pattern tree rooted at `root`.
    pub open spec fn reaches(&self, root: int, q: int) -> bool
        decreases root,
    {
        root == q || (0 <= root < self.pats@.len() && exists|k: int|
            0 <= k < pat_children(self.pats@[root]).len() && #[trigger] pat_children(self.pats@[root])[k]
                < root && self.reaches(pat_children(self.pats@[root])[k] as int, q))
    }

    /// A pattern that sees through references by itself: tuple, tuple-struct,
    /// record, range, slice, path, const block, a literal other than a string
    /// literal, or an alternation of such patterns only.
    pub open spec fn non_ref_pat(&self, p: int) -> bool
        decreases p,
    {
        if 0 <= p < self.pats@.len() {
            match self.pats@[p] {
                Pat::Tuple { .. } | Pat::TupleStruct { .. } | Pat::Record { .. } | Pat::Range { .. }
                | Pat::Slice { .. } | Pat::Path(..) | Pat::ConstBlock(..) => true,
                Pat::Or(pats) => forall|k: int|
                    0 <= k < pats@.len() ==> #[trigger] pats@[k] < p && self.non_ref_pat(pats@[k] as int),
                Pat::Lit(e) => !(0 <= e < self.exprs@.len() && self.exprs@[e as int] == Expr::Literal(
                    Literal::String,
                )),
                _ => false,
            }
        } else {
            false
        }
    }

    /// Whether pattern `pat` is a non-reference pattern (see `non_ref_pat`).
    pub fn is_non_ref_pat(&self, pat: PatId) -> (r: bool)
        requires
            self.wf(),
            pat < self.pats@.len(),
        ensures
            r == self.non_ref_pat(pat as int),
        decreases pat,
    {
        match &self.pats[pat] {
            Pat::Tuple { .. } | Pat::TupleStruct { .. } | Pat::Record { .. } | Pat::Range { .. }
            | Pat::Slice { .. } => true,
            Pat::Or(pats) => {
                let mut i: usize = 0;
                while i < pats.len()
                    invariant
                        self.wf(),
                        pat < self.pats@.len(),
                        self.pats@[pat as int] == Pat::Or(*pats),
                        i <= pats@.len(),
                        forall|k: int|
                            0 <= k < i ==> #[trigger] pats@[k] < pat && self.non_ref_pat(pats@[k] as int),
                    decreases pats@.len() - i,
                {
                    assert(pat_children(self.pats@[pat as int])[i as int] == pats@[i as int]);
                    if !self.is_non_ref_pat(pats[i]) {
                        return false;
                    }
                    i = i + 1;
                }
                true
            },
            Pat::Path(..) => true,
            Pat::ConstBlock(..) => true,
            Pat::Lit(e) => {
                assert(pat_exprs(self.pats@[pat as int])[0] == *e);
                match self.exprs[*e] {
                    Expr::Literal(Literal::String) => false,
                    _ => true,
                }
            },
            _ => false,
        }
    }
}

} // verus!
