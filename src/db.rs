//! What the inferencer asks of the surrounding program: how paths resolve, the
//! fields of each variant, and which definition is the box type.
use vstd::prelude::*;

use crate::pat::Name;
use crate::ty::{copy_ty, has_var, same_head, Ty};

verus! {

/// A field of a variant, with its declared type (which may mention the generic
/// parameters of the definition as `Ty::Param`).
#[derive(Debug)]
pub struct FieldData {
    pub name: Name,
    pub ty: Ty,
}

/// One struct shape or enum case.
#[derive(Debug)]
pub struct VariantData {
    pub fields: Vec<FieldData>,
}

/// What a path in a pattern stands for: the instantiated type, and the variant
/// (an index into `Db::variants`) where the path names one.
#[derive(Debug)]
pub struct PathResolution {
    pub ty: Ty,
    pub variant: Option<usize>,
}

/// A field of a given variant.
#[derive(Clone, Copy, Debug, PartialEq, Eq, Structural)]
pub struct FieldId {
    pub parent: usize,
    pub local_id: usize,
}

/// The symbol information that pattern inference reads.
#[derive(Debug)]
pub struct Db {
    pub paths: Vec<PathResolution>,
    pub variants: Vec<VariantData>,
    /// The definition id of the built-in box type, if the program has one.
    pub box_adt: Option<u32>,
}

/// `i` is the first field of `fields` called `name`.
pub open spec fn is_first_named(fields: Seq<FieldData>, name: Name, i: int) -> bool {
    &&& 0 <= i < fields.len()
    &&& fields[i].name == name
    &&& forall|j: int| 0 <= j < i ==> #[trigger] fields[j].name != name
}

impl Db {
    /// Every path names an existing variant, if it names one.
    pub open spec fn wf(&self) -> bool {
        forall|p: int|
            0 <= p < self.paths@.len() ==> (#[trigger] self.paths@[p].variant matches Some(v) ==> v
                < self.variants@.len())
    }

    /// The path is present and known.
    pub open spec fn resolves(&self, path: Option<usize>) -> bool {
        path is Some && path->0 < self.paths@.len()
    }

    /// The type and variant a pattern's path resolves to; `Unknown` and no variant
    /// for a missing or unknown path.
    pub fn resolve_variant(&self, path: Option<usize>) -> (r: (Ty, Option<usize>))
        ensures
            self.resolves(path) ==> same_head(r.0, self.paths@[path->0 as int].ty) && r.1
                == self.paths@[path->0 as int].variant,
            self.resolves(path) ==> r.0.model() == self.paths@[path->0 as int].ty.model(),
            self.resolves(path) ==> forall|w: usize|
                #[trigger] has_var(r.0, w) == has_var(self.paths@[path->0 as int].ty, w),
            !self.resolves(path) ==> r.0 is Unknown && r.1 is None,
    {
        match path {
            Some(p) => {
                if p < self.paths.len() {
                    (copy_ty(&self.paths[p].ty), self.paths[p].variant)
                } else {
                    (Ty::Unknown, None)
                }
            },
            None => (Ty::Unknown, None),
        }
    }

    /// The field of `variant` called `name`: the first one, where names repeat.
    pub fn field(&self, variant: usize, name: Name) -> (r: Option<usize>)
        requires
            variant < self.variants@.len(),
        ensures
            r matches Some(i) ==> is_first_named(self.variants@[variant as int].fields@, name, i as int),
            r is None ==> forall|j: int|
                0 <= j < self.variants@[variant as int].fields@.len()
                    ==> #[trigger] self.variants@[variant as int].fields@[j].name != name,
    {
        let fields = &self.variants[variant].fields;
        let mut i: usize = 0;
        while i < fields.len()
            invariant
                variant < self.variants@.len(),
                fields@ == self.variants@[variant as int].fields@,
                i <= fields@.len(),
                forall|j: int| 0 <= j < i ==> #[trigger] fields@[j].name != name,
            decreases fields@.len() - i,
        {
            if fields[i].name == name {
                return Some(i);
            }
            i = i + 1;
        }
        None
    }
}

} // verus!
