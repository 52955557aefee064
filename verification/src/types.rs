//! The algebraic content model: what a type variable can describe.
//!
//! Names (field names, tag names, type constructor symbols) are interned
//! elsewhere in a compiler front end; the unifier only ever compares them for
//! equality, so they are carried here as plain integers.

use vstd::prelude::*;

use crate::collections::{FieldMap, TagMap, VarSet};

verus! {

/// A type variable: an opaque handle into the store, namely the index of its
/// slot. Two variables describe the same type exactly when they share a
/// union-find root.
pub type Variable = usize;

/// An interned lowercase identifier (a field name or a type-variable name).
pub type Lowercase = u64;

/// An interned tag name.
pub type TagName = u64;

/// An interned symbol naming a type constructor or an alias.
pub type Symbol = u64;

/// The distinguished `Apply` head whose two arguments are
/// `[uniqueness, inner]`; the tag-union logic peels it off to reach the
/// inner payload.
pub const ATTR_ATTR: Symbol = 0;

/// The sentinel visitation tag: merged descriptors are reset to it.
pub const MARK_NONE: u32 = 0;

/// How a record field may be used: `Demanded` never unifies with `Optional`,
/// `Demanded` absorbs `Required`, and `Required` absorbs `Optional`.
#[derive(Clone, Copy, Debug, PartialEq, Eq, Structural)]
pub enum RecordField {
    Required(Variable),
    Demanded(Variable),
    Optional(Variable),
}

impl RecordField {
    /// The variable carried by the field, whatever its kind.
    pub open spec fn variable(self) -> Variable {
        match self {
            RecordField::Required(v) => v,
            RecordField::Demanded(v) => v,
            RecordField::Optional(v) => v,
        }
    }

    /// Strips the field kind, keeping the variable.
    pub fn into_inner(&self) -> (v: Variable)
        ensures
            v == self.variable(),
    {
        match self {
            RecordField::Required(v) => *v,
            RecordField::Demanded(v) => *v,
            RecordField::Optional(v) => *v,
        }
    }
}

/// A uniqueness boolean: either `Shared`, which absorbs, or a container
/// attribute variable together with the set of member attribute variables.
#[derive(Debug, PartialEq, Eq)]
pub enum Bool {
    Shared,
    Container(Variable, VarSet),
}

/// A concrete type constructor application.
#[derive(Debug, PartialEq, Eq)]
pub enum FlatType {
    EmptyRecord,
    Record(FieldMap, Variable),
    EmptyTagUnion,
    TagUnion(TagMap, Variable),
    RecursiveTagUnion(Variable, TagMap, Variable),
    Func(Vec<Variable>, Variable, Variable),
    Apply(Symbol, Vec<Variable>),
    Boolean(Bool),
}

/// What one equivalence class of variables describes.
#[derive(Debug, PartialEq, Eq)]
pub enum Content {
    /// An unsolved variable, possibly carrying a user-visible name hint.
    FlexVar(Option<Lowercase>),
    /// A user-introduced skolem; unifies only with flex variables.
    RigidVar(Lowercase),
    /// A concrete type.
    Structure(FlatType),
    /// A named alias over argument bindings whose expansion is the last
    /// variable; the expansion is authoritative for compatibility.
    Alias(Symbol, Vec<(Lowercase, Variable)>, Variable),
    /// Poisoned: unifies with anything and propagates.
    Error,
}

/// The record attached to each union-find root.
#[derive(Debug, PartialEq, Eq)]
pub struct Descriptor {
    pub content: Content,
    pub rank: u32,
    pub mark: u32,
    pub copy: Option<Variable>,
}

/// A single structural incompatibility; a non-empty list of these means that
/// unification has failed.
#[derive(Clone, Copy, Debug, PartialEq, Eq, Structural)]
pub enum Mismatch {
    TypeMismatch,
}

/// A defect found while projecting a variable to an error type.
#[derive(Clone, Copy, Debug, PartialEq, Eq, Structural)]
pub enum Problem {
    CyclicType,
}

/// How an error-type row ends: closed, or open in a flex or rigid variable.
#[derive(Debug, PartialEq, Eq)]
pub enum TypeExt {
    Closed,
    FlexOpen(Option<Lowercase>),
    RigidOpen(Lowercase),
}

/// A record field of a projected error type.
#[derive(Debug, PartialEq, Eq)]
pub enum ErrorField {
    Required(ErrorType),
    Demanded(ErrorType),
    Optional(ErrorType),
}

/// A closed tree describing a variable for diagnostics, produced on failure.
#[derive(Debug, PartialEq, Eq)]
pub enum ErrorType {
    Infinite,
    Error,
    FlexVar(Option<Lowercase>),
    RigidVar(Lowercase),
    Record(Vec<(Lowercase, ErrorField)>, TypeExt),
    TagUnion(Vec<(TagName, Vec<ErrorType>)>, TypeExt),
    RecursiveTagUnion(Box<ErrorType>, Vec<(TagName, Vec<ErrorType>)>, TypeExt),
    Function(Vec<ErrorType>, Box<ErrorType>, Box<ErrorType>),
    Apply(Symbol, Vec<ErrorType>),
    Alias(Symbol, Vec<(Lowercase, ErrorType)>, Box<ErrorType>),
    Boolean(Bool),
}

// ---------------------------------------------------------------------------
// Mathematical views of the model.
// ---------------------------------------------------------------------------

/// View of a uniqueness boolean: the member list becomes a set.
#[verifier::ext_equal]
pub enum BoolV {
    Shared,
    Container(Variable, Set<Variable>),
}

/// View of a flat type: keyed collections become maps, vectors sequences.
#[verifier::ext_equal]
pub enum FlatTypeV {
    EmptyRecord,
    Record(Map<Lowercase, RecordField>, Variable),
    EmptyTagUnion,
    TagUnion(Map<TagName, Seq<Variable>>, Variable),
    RecursiveTagUnion(Variable, Map<TagName, Seq<Variable>>, Variable),
    Func(Seq<Variable>, Variable, Variable),
    Apply(Symbol, Seq<Variable>),
    Boolean(BoolV),
}

/// View of a content.
#[verifier::ext_equal]
pub enum ContentV {
    FlexVar(Option<Lowercase>),
    RigidVar(Lowercase),
    Structure(FlatTypeV),
    Alias(Symbol, Seq<(Lowercase, Variable)>, Variable),
    Error,
}

/// View of a descriptor.
#[verifier::ext_equal]
pub struct DescriptorV {
    pub content: ContentV,
    pub rank: u32,
    pub mark: u32,
    pub copy: Option<Variable>,
}

impl View for Bool {
    type V = BoolV;

    open spec fn view(&self) -> BoolV {
        match self {
            Bool::Shared => BoolV::Shared,
            Bool::Container(c, ms) => BoolV::Container(*c, ms@),
        }
    }
}

impl View for FlatType {
    type V = FlatTypeV;

    open spec fn view(&self) -> FlatTypeV {
        match self {
            FlatType::EmptyRecord => FlatTypeV::EmptyRecord,
            FlatType::Record(fields, ext) => FlatTypeV::Record(fields@, *ext),
            FlatType::EmptyTagUnion => FlatTypeV::EmptyTagUnion,
            FlatType::TagUnion(tags, ext) => FlatTypeV::TagUnion(tags@, *ext),
            FlatType::RecursiveTagUnion(rec, tags, ext) => FlatTypeV::RecursiveTagUnion(
                *rec,
                tags@,
                *ext,
            ),
            FlatType::Func(args, closure, ret) => FlatTypeV::Func(args@, *closure, *ret),
            FlatType::Apply(symbol, args) => FlatTypeV::Apply(*symbol, args@),
            FlatType::Boolean(b) => FlatTypeV::Boolean(b@),
        }
    }
}

impl View for Content {
    type V = ContentV;

    open spec fn view(&self) -> ContentV {
        match self {
            Content::FlexVar(name) => ContentV::FlexVar(*name),
            Content::RigidVar(name) => ContentV::RigidVar(*name),
            Content::Structure(flat_type) => ContentV::Structure(flat_type@),
            Content::Alias(symbol, args, real_var) => ContentV::Alias(*symbol, args@, *real_var),
            Content::Error => ContentV::Error,
        }
    }
}

impl View for Descriptor {
    type V = DescriptorV;

    open spec fn view(&self) -> DescriptorV {
        DescriptorV {
            content: self.content@,
            rank: self.rank,
            mark: self.mark,
            copy: self.copy,
        }
    }
}

// ---------------------------------------------------------------------------
// Bounds: every variable mentioned by a content must be a slot of the store.
// ---------------------------------------------------------------------------

/// All variables in the sequence lie below `n`.
pub open spec fn vars_ok(vs: Seq<Variable>, n: int) -> bool {
    forall|i: int| 0 <= i < vs.len() ==> #[trigger] vs[i] < n
}

/// All field variables of the map lie below `n`.
pub open spec fn fields_ok(m: Map<Lowercase, RecordField>, n: int) -> bool {
    forall|k: Lowercase| #[trigger] m.dom().contains(k) ==> m[k].variable() < n
}

/// All payload variables of the tag map lie below `n`.
pub open spec fn tags_ok(m: Map<TagName, Seq<Variable>>, n: int) -> bool {
    forall|k: TagName| #[trigger] m.dom().contains(k) ==> vars_ok(m[k], n)
}

/// All members of the set lie below `n`.
pub open spec fn members_ok(ms: Set<Variable>, n: int) -> bool {
    forall|v: Variable| #[trigger] ms.contains(v) ==> v < n
}

/// All variables of the uniqueness boolean lie below `n`.
pub open spec fn bool_ok(b: BoolV, n: int) -> bool {
    match b {
        BoolV::Shared => true,
        BoolV::Container(c, ms) => c < n && members_ok(ms, n),
    }
}

/// All alias argument variables lie below `n`.
pub open spec fn alias_args_ok(args: Seq<(Lowercase, Variable)>, n: int) -> bool {
    forall|i: int| 0 <= i < args.len() ==> (#[trigger] args[i]).1 < n
}

/// All variables of the flat type lie below `n`.
pub open spec fn flat_ok(ft: FlatTypeV, n: int) -> bool {
    match ft {
        FlatTypeV::EmptyRecord => true,
        FlatTypeV::Record(fields, ext) => fields_ok(fields, n) && ext < n,
        FlatTypeV::EmptyTagUnion => true,
        FlatTypeV::TagUnion(tags, ext) => tags_ok(tags, n) && ext < n,
        FlatTypeV::RecursiveTagUnion(rec, tags, ext) => rec < n && tags_ok(tags, n) && ext < n,
        FlatTypeV::Func(args, closure, ret) => vars_ok(args, n) && closure < n && ret < n,
        FlatTypeV::Apply(_, args) => vars_ok(args, n),
        FlatTypeV::Boolean(b) => bool_ok(b, n),
    }
}

/// All variables of the content lie below `n`.
pub open spec fn content_ok(c: ContentV, n: int) -> bool {
    match c {
        ContentV::FlexVar(_) => true,
        ContentV::RigidVar(_) => true,
        ContentV::Structure(ft) => flat_ok(ft, n),
        ContentV::Alias(_, args, real_var) => real_var < n && alias_args_ok(args, n),
        ContentV::Error => true,
    }
}

/// Bound checks are monotone in the store size.
pub proof fn lemma_content_ok_mono(c: ContentV, n: int, m: int)
    requires
        content_ok(c, n),
        n <= m,
    ensures
        content_ok(c, m),
{
    match c {
        ContentV::Structure(ft) => {
            match ft {
                FlatTypeV::Record(fields, _) => {
                    assert(fields_ok(fields, m));
                },
                FlatTypeV::TagUnion(tags, _) => {
                    assert forall|k: TagName| #[trigger] tags.dom().contains(k) implies vars_ok(
                        tags[k],
                        m,
                    ) by {
                        assert(vars_ok(tags[k], n));
                    }
                },
                FlatTypeV::RecursiveTagUnion(_, tags, _) => {
                    assert forall|k: TagName| #[trigger] tags.dom().contains(k) implies vars_ok(
                        tags[k],
                        m,
                    ) by {
                        assert(vars_ok(tags[k], n));
                    }
                },
                FlatTypeV::Func(args, _, _) => {
                    assert(vars_ok(args, m));
                },
                FlatTypeV::Apply(_, args) => {
                    assert(vars_ok(args, m));
                },
                _ => {},
            }
        },
        _ => {},
    }
}

// ---------------------------------------------------------------------------
// Structural well-formedness: keyed collections inside a content have
// distinct keys (duplicates are absorbed by extension chasing).
// ---------------------------------------------------------------------------

/// The keyed collections of the flat type are well formed.
pub open spec fn flat_wf(ft: &FlatType) -> bool {
    match ft {
        FlatType::Record(fields, _) => fields.wf(),
        FlatType::TagUnion(tags, _) => tags.wf(),
        FlatType::RecursiveTagUnion(_, tags, _) => tags.wf(),
        FlatType::Boolean(Bool::Container(_, ms)) => ms.wf(),
        _ => true,
    }
}

/// The keyed collections of the content are well formed.
pub open spec fn content_wf(c: &Content) -> bool {
    match c {
        Content::Structure(ft) => flat_wf(ft),
        _ => true,
    }
}

// ---------------------------------------------------------------------------
// Cloning, with the view preserved.
// ---------------------------------------------------------------------------

/// Copies a vector of variables.
pub fn clone_vars(vs: &Vec<Variable>) -> (r: Vec<Variable>)
    ensures
        r@ == vs@,
{
    let mut out: Vec<Variable> = Vec::new();
    let mut i: usize = 0;
    while i < vs.len()
        invariant
            i <= vs@.len(),
            out@ == vs@.take(i as int),
        decreases vs@.len() - i,
    {
        out.push(vs[i]);
        i = i + 1;
        proof {
            assert(out@ =~= vs@.take(i as int));
        }
    }
    proof {
        assert(vs@.take(vs@.len() as int) =~= vs@);
    }
    out
}

/// Copies a vector of alias argument bindings.
pub fn clone_alias_args(args: &Vec<(Lowercase, Variable)>) -> (r: Vec<(Lowercase, Variable)>)
    ensures
        r@ == args@,
{
    let mut out: Vec<(Lowercase, Variable)> = Vec::new();
    let mut i: usize = 0;
    while i < args.len()
        invariant
            i <= args@.len(),
            out@ == args@.take(i as int),
        decreases args@.len() - i,
    {
        out.push(args[i]);
        i = i + 1;
        proof {
            assert(out@ =~= args@.take(i as int));
        }
    }
    proof {
        assert(args@.take(args@.len() as int) =~= args@);
    }
    out
}

impl Clone for Bool {
    /// The copy has the same view and the same well-formed collections.
    fn clone(&self) -> (r: Self)
        ensures
            r@ == self@,
            (match (self, &r) {
                (Bool::Container(_, ms), Bool::Container(_, rs)) => ms.wf() ==> rs.wf(),
                _ => true,
            }),
    {
        match self {
            Bool::Shared => Bool::Shared,
            Bool::Container(c, ms) => Bool::Container(*c, ms.clone()),
        }
    }
}

impl Clone for FlatType {
    /// The copy has the same view and the same well-formed collections.
    fn clone(&self) -> (r: Self)
        ensures
            r@ == self@,
            flat_wf(self) ==> flat_wf(&r),
    {
        match self {
            FlatType::EmptyRecord => FlatType::EmptyRecord,
            FlatType::Record(fields, ext) => FlatType::Record(fields.clone(), *ext),
            FlatType::EmptyTagUnion => FlatType::EmptyTagUnion,
            FlatType::TagUnion(tags, ext) => FlatType::TagUnion(tags.clone(), *ext),
            FlatType::RecursiveTagUnion(rec, tags, ext) => FlatType::RecursiveTagUnion(
                *rec,
                tags.clone(),
                *ext,
            ),
            FlatType::Func(args, closure, ret) => FlatType::Func(clone_vars(args), *closure, *ret),
            FlatType::Apply(symbol, args) => FlatType::Apply(*symbol, clone_vars(args)),
            FlatType::Boolean(b) => FlatType::Boolean(b.clone()),
        }
    }
}

impl Clone for Content {
    /// The copy has the same view and the same well-formed collections.
    fn clone(&self) -> (r: Self)
        ensures
            r@ == self@,
            content_wf(self) ==> content_wf(&r),
    {
        match self {
            Content::FlexVar(name) => Content::FlexVar(*name),
            Content::RigidVar(name) => Content::RigidVar(*name),
            Content::Structure(flat_type) => Content::Structure(flat_type.clone()),
            Content::Alias(symbol, args, real_var) => Content::Alias(
                *symbol,
                clone_alias_args(args),
                *real_var,
            ),
            Content::Error => Content::Error,
        }
    }
}

impl Clone for Descriptor {
    /// The copy has the same view and the same well-formed collections.
    fn clone(&self) -> (r: Self)
        ensures
            r@ == self@,
            content_wf(&self.content) ==> content_wf(&r.content),
    {
        Descriptor {
            content: self.content.clone(),
            rank: self.rank,
            mark: self.mark,
            copy: self.copy,
        }
    }
}

} // verus!
